//! Dynamic messages.

use vstd::prelude::*;
use crate::descriptor::{DescriptorPoolInner, MessageDescriptor};
use crate::fields::{DynamicMessageFieldSet, ValueOrUnknown};
use crate::sorted::{as_map, lemma_position, sorted_by_number};
use crate::fields::{value_in, FieldDescriptorLike, ValueRef, unknown_fields_of, positions_where, is_set_field, is_set_extension, taken_where};
use crate::descriptor::{ExtensionDescriptor, FieldDescriptor};
use crate::unknown::UnknownField;
use crate::value::has_value;
use crate::value::{
    is_canonical_default, valid_value, valid_element, scalar_matches_kind, Value, enum_default_number, is_default_for_field_parts,
    is_default_for_kind,
};
use crate::descriptor::{find_field_named, without, FieldInfo, KindIndex, RawFieldView};
use vstd::string::StringSliceAdditionalSpecFns;

verus! {

/// A message whose type is known only at run time.
#[derive(Debug, PartialEq)]
pub struct DynamicMessage {
    pub(crate) desc: MessageDescriptor,
    pub(crate) fields: DynamicMessageFieldSet,
}


/// What a slot of message type `m` may hold under number `n`: a value
/// fit for the field or extension of that number, or unknown fields of
/// that number.
pub open(crate) spec fn slot_ok(pool: DescriptorPoolInner, m: int, n: u32, slot: ValueOrUnknown) -> bool
    decreases slot, 2nat,
{
    match slot {
        ValueOrUnknown::Taken => true,
        ValueOrUnknown::Unknown(u) => u.wf_for(n),
        ValueOrUnknown::Value(v) => match pool.field_index(m, n) {
            Some(f) => valid_value(pool, pool.field_info(m, f as int), v),
            None => match pool.extension_of(m, n) {
                Some(e) => valid_value(pool, pool.ext_info(e as int), v),
                None => false,
            },
        },
    }
}

impl DynamicMessage {
    pub open(crate) spec fn spec_pool(self) -> DescriptorPoolInner {
        self.desc.pool.spec_inner()
    }

    /// The fields are sorted by number and each slot holds what the
    /// message type allows there.
    pub open(crate) spec fn fields_valid(self) -> bool
        decreases self, 3nat,
    {
        &&& sorted_by_number(self.fields.fields@)
        &&& forall|i: int|
            0 <= i < self.fields.fields@.len() ==> slot_ok(
                self.spec_pool(),
                self.desc.index as int,
                (#[trigger] self.fields.fields@[i]).0,
                self.fields.fields@[i].1,
            )
    }

    /// The message's descriptor names a message type of a well-formed
    /// pool, and its fields are valid for it.
    pub open(crate) spec fn wf(self) -> bool {
        self.desc.wf() && self.fields_valid()
    }
}


/// The zero value of a kind: the enum's first value and an empty message
/// of the kind's type are handed in.
pub fn value_default_for_kind_index(
    kind: KindIndex,
    enum_default: Option<i32>,
    message: Option<MessageDescriptor>,
) -> (r: Value)
    requires
        kind is Enum ==> enum_default is Some,
        kind.spec_is_message() ==> (message matches Some(d) && d.wf() && d.spec_index() == match kind {
            KindIndex::Message(i) => i,
            KindIndex::Group(i) => i,
            _ => 0,
        }),
    ensures
        match kind {
            KindIndex::Enum(_) => r == Value::EnumNumber(enum_default.unwrap()),
            KindIndex::Message(_) | KindIndex::Group(_) => {
                &&& r is Message
                &&& r->Message_0.spec_desc() == message.unwrap()
                &&& r->Message_0.spec_slots().len() == 0
                &&& r->Message_0.wf()
            },
            _ => is_kind_zero_scalar(kind, r),
        },
        !(kind is Enum) && !kind.spec_is_message() ==> scalar_matches_kind(kind, r) && forall|pool: DescriptorPoolInner|
            #[trigger] is_default_for_kind(pool, kind, r),
{
    let r = match kind {
        KindIndex::Double => Value::F64(0),
        KindIndex::Float => Value::F32(0),
        KindIndex::Int32 | KindIndex::Sint32 | KindIndex::Sfixed32 => Value::I32(0),
        KindIndex::Int64 | KindIndex::Sint64 | KindIndex::Sfixed64 => Value::I64(0),
        KindIndex::Uint32 | KindIndex::Fixed32 => Value::U32(0),
        KindIndex::Uint64 | KindIndex::Fixed64 => Value::U64(0),
        KindIndex::Bool => Value::Bool(false),
        KindIndex::String => Value::String(String::new()),
        KindIndex::Bytes => Value::Bytes(Vec::new()),
        KindIndex::Enum(_) => Value::EnumNumber(enum_default.unwrap()),
        KindIndex::Message(_) | KindIndex::Group(_) => Value::Message(
            DynamicMessage::new(message.unwrap()),
        ),
    };
    proof {
        if !(kind is Enum) && !kind.spec_is_message() {
            assert forall|pool: DescriptorPoolInner| #[trigger] is_default_for_kind(pool, kind, r) by {
                law_kind_zero_scalar_is_default(pool, kind, r);
            }
        }
    }
    r
}

/// The zero of a scalar kind has the kind's representation and is the
/// kind's default: false for bools, zero for numbers, empty for strings
/// and bytes.
pub proof fn law_kind_zero_scalar_is_default(pool: DescriptorPoolInner, kind: KindIndex, v: Value)
    requires
        is_kind_zero_scalar(kind, v),
    ensures
        scalar_matches_kind(kind, v),
        is_default_for_kind(pool, kind, v),
{
}

/// The zero of a scalar kind.
pub open spec fn is_kind_zero_scalar(kind: KindIndex, v: Value) -> bool {
    match kind {
        KindIndex::Double => v == Value::F64(0),
        KindIndex::Float => v == Value::F32(0),
        KindIndex::Int32 | KindIndex::Sint32 | KindIndex::Sfixed32 => v == Value::I32(0),
        KindIndex::Int64 | KindIndex::Sint64 | KindIndex::Sfixed64 => v == Value::I64(0),
        KindIndex::Uint32 | KindIndex::Fixed32 => v == Value::U32(0),
        KindIndex::Uint64 | KindIndex::Fixed64 => v == Value::U64(0),
        KindIndex::Bool => v == Value::Bool(false),
        KindIndex::String => v is String && v->String_0@.len() == 0,
        KindIndex::Bytes => v is Bytes && v->Bytes_0@.len() == 0,
        _ => false,
    }
}

/// The value an absent field is read as, and inserted as before a decode
/// merges into it: an empty container, the declared default, or the
/// kind's zero.
pub(crate) fn rawfield_absent_value(view: &RawFieldView<'_>) -> (r: Value)
    requires
        view.wf(),
    ensures
        is_canonical_default(view.spec_pool(), view.spec_info(), r),
        valid_value(view.spec_pool(), view.spec_info(), r),
{
    if view.is_list {
        let r = Value::List(Vec::new());
        assert(valid_value(view.spec_pool(), view.spec_info(), r));
        r
    } else if view.is_map {
        let r = Value::MapEntries(Vec::new());
        assert(valid_value(view.spec_pool(), view.spec_info(), r));
        r
    } else if let Some(declared) = view.declared_default() {
        let r = declared.copy_scalar();
        assert(scalar_matches_kind(view.kind, *declared));
        assert(scalar_matches_kind(view.kind, r));
        assert(valid_element(view.spec_pool(), view.kind, r));
        r
    } else {
        let r = value_default_for_kind_index(view.kind_index(), view.enum_default(), view.message_descriptor());
        assert(valid_element(view.spec_pool(), view.kind, r));
        r
    }
}

impl DynamicMessage {
    pub open(crate) spec fn spec_desc(&self) -> MessageDescriptor {
        self.desc
    }

    /// The stored slots, in ascending number order.
    pub open(crate) spec fn spec_slots(&self) -> Seq<(u32, ValueOrUnknown)> {
        self.fields.fields@
    }

    /// The slots, by number.
    pub open(crate) spec fn spec_map(&self) -> Map<u32, ValueOrUnknown> {
        as_map(self.spec_slots())
    }

    /// The message type.
    pub fn descriptor(&self) -> (r: MessageDescriptor)
        ensures
            r == self.spec_desc(),
    {
        self.desc.clone()
    }

    /// An empty message of the given type.
    pub fn new(desc: MessageDescriptor) -> (r: Self)
        requires
            desc.wf(),
        ensures
            r.wf(),
            r.spec_desc() == desc,
            r.spec_slots().len() == 0,
    {
        DynamicMessage { desc, fields: DynamicMessageFieldSet::new() }
    }
}


/// A message stays valid through a change of its slots when every slot it
/// then holds is an old slot or one the message type allows.
pub(crate) proof fn lemma_fields_valid_after(before: DynamicMessage, after: DynamicMessage)
    requires
        before.fields_valid(),
        after.desc == before.desc,
        sorted_by_number(after.spec_slots()),
        forall|n: u32| #[trigger]
            after.spec_map().dom().contains(n) ==> (before.spec_map().dom().contains(n)
                && after.spec_map()[n] == before.spec_map()[n]) || slot_ok(
                after.spec_pool(),
                after.desc.index as int,
                n,
                after.spec_map()[n],
            ),
    ensures
        after.fields_valid(),
{
    let s = before.spec_slots();
    let t = after.spec_slots();
    assert forall|i: int| 0 <= i < t.len() implies slot_ok(
        after.spec_pool(),
        after.desc.index as int,
        (#[trigger] t[i]).0,
        t[i].1,
    ) by {
        lemma_position(t, i);
        let n = t[i].0;
        assert(after.spec_map().dom().contains(n));
        if before.spec_map().dom().contains(n) && after.spec_map()[n] == before.spec_map()[n] {
            let j = choose|j: int| 0 <= j < s.len() && s[j].0 == n;
            lemma_position(s, j);
            assert(slot_ok(before.spec_pool(), before.desc.index as int, s[j].0, s[j].1));
        }
    }
}

/// Storing a valid value of field `n` into a message whose other slots are
/// old slots keeps it valid, whatever the value.
proof fn lemma_fields_valid_after_insert(
    before: DynamicMessage,
    n: u32,
    rest: Map<u32, ValueOrUnknown>,
    info: FieldInfo,
)
    requires
        before.fields_valid(),
        forall|k: u32| #[trigger] rest.dom().contains(k) ==> before.spec_map().dom().contains(k)
            && rest[k] == before.spec_map()[k],
        before.spec_pool().field_index(before.desc.index as int, n) matches Some(f)
            && before.spec_pool().field_info(before.desc.index as int, f as int) == info,
    ensures
        forall|after: DynamicMessage|
            #![trigger after.fields_valid()]
            after.desc == before.desc && sorted_by_number(after.spec_slots()) && after.spec_map()
                == rest.insert(n, ValueOrUnknown::Value(after.spec_map()[n]->Value_0))
                && valid_value(before.spec_pool(), info, after.spec_map()[n]->Value_0)
                ==> after.fields_valid(),
{
    assert forall|after: DynamicMessage|
        #![trigger after.fields_valid()]
        after.desc == before.desc && sorted_by_number(after.spec_slots()) && after.spec_map()
            == rest.insert(n, ValueOrUnknown::Value(after.spec_map()[n]->Value_0)) && valid_value(
            before.spec_pool(),
            info,
            after.spec_map()[n]->Value_0,
        ) implies after.fields_valid() by {
        assert forall|k: u32| #[trigger]
            after.spec_map().dom().contains(k) implies (before.spec_map().dom().contains(k)
                && after.spec_map()[k] == before.spec_map()[k]) || slot_ok(
                after.spec_pool(),
                after.desc.index as int,
                k,
                after.spec_map()[k],
            ) by {
            if k != n {
                assert(rest.dom().contains(k));
            }
        }
        lemma_fields_valid_after(before, after);
    }
}

impl DynamicMessage {
    /// Whether the field is set: it holds a value and tracks presence, or
    /// the value is not the default.
    pub fn has_field(&self, field: &FieldDescriptor) -> (r: bool)
        requires
            self.wf(),
            field.wf(),
            field.spec_message() == self.spec_desc(),
        ensures
            r == (value_in(self.spec_map(), field.spec_info().number) matches Some(v) && has_value(
                self.spec_pool(),
                field.spec_info(),
                v,
            )),
    {
        self.fields.has(field)
    }

    /// The field's value, or its default when it holds none.
    pub fn get_field(&self, field: &FieldDescriptor) -> (r: ValueRef<'_>)
        requires
            self.wf(),
            field.wf(),
            field.spec_message() == self.spec_desc(),
        ensures
            match value_in(self.spec_map(), field.spec_info().number) {
                Some(v) => r.spec_value() == v,
                None => is_canonical_default(self.spec_pool(), field.spec_info(), r.spec_value()),
            },
    {
        self.fields.get(field)
    }

    /// Sets the field (the other members of its oneof are cleared).
    pub fn set_field(&mut self, field: &FieldDescriptor, value: Value)
        requires
            old(self).wf(),
            field.wf(),
            field.spec_message() == old(self).spec_desc(),
            valid_value(old(self).spec_pool(), field.spec_info(), value),
        ensures
            final(self).wf(),
            final(self).spec_desc() == old(self).spec_desc(),
            final(self).spec_map() == old(self).spec_map().remove_keys(
                field.spec_oneof_siblings().to_set(),
            ).insert(field.spec_info().number, ValueOrUnknown::Value(value)),
    {
        let ghost before = *self;
        self.fields.set(field, value);
        proof {
            assert(self.spec_pool().message_ok(self.desc.index as int));
            lemma_fields_valid_after(before, *self);
        }
    }

    /// The mutable value of the field, inserting its default when it holds
    /// none (the other members of its oneof are cleared).
    pub fn get_field_mut(&mut self, field: &FieldDescriptor) -> (r: &mut Value)
        requires
            old(self).wf(),
            field.wf(),
            field.spec_message() == old(self).spec_desc(),
        ensures
            final(self).spec_desc() == old(self).spec_desc(),
            final(self).spec_map() == old(self).spec_map().remove_keys(
                field.spec_oneof_siblings().to_set(),
            ).insert(field.spec_info().number, ValueOrUnknown::Value(*final(r))),
            valid_value(old(self).spec_pool(), field.spec_info(), *r),
            valid_value(old(self).spec_pool(), field.spec_info(), *final(r)) ==> final(self).wf(),
    {
        let ghost before = *self;
        proof {
            let n = field.spec_info().number;
            let m = self.spec_map().remove_keys(field.spec_oneof_siblings().to_set());
            if value_in(m, n) is Some {
                let s = self.spec_slots();
                let j = choose|j: int| 0 <= j < s.len() && s[j].0 == n;
                lemma_position(s, j);
                assert(slot_ok(self.spec_pool(), self.desc.index as int, s[j].0, s[j].1));
                assert(self.spec_pool().message_ok(self.desc.index as int));
            }
        }
        proof {
            assert(before.spec_pool().message_ok(before.desc.index as int));
            lemma_fields_valid_after_insert(
                before,
                field.spec_info().number,
                before.spec_map().remove_keys(field.spec_oneof_siblings().to_set()),
                field.spec_info(),
            );
        }
        self.fields.get_mut(field)
    }

    /// Clears the field.
    pub fn clear_field(&mut self, field: &FieldDescriptor)
        requires
            old(self).wf(),
            field.wf(),
            field.spec_message() == old(self).spec_desc(),
        ensures
            final(self).wf(),
            final(self).spec_desc() == old(self).spec_desc(),
            final(self).spec_map() == old(self).spec_map().remove(field.spec_info().number),
    {
        let ghost before = *self;
        self.fields.clear(field);
        proof {
            lemma_fields_valid_after(before, *self);
        }
    }

    /// Clears the field, returning its value if it was set.
    pub fn take_field(&mut self, field: &FieldDescriptor) -> (r: Option<Value>)
        requires
            old(self).wf(),
            field.wf(),
            field.spec_message() == old(self).spec_desc(),
        ensures
            final(self).wf(),
            final(self).spec_desc() == old(self).spec_desc(),
            final(self).spec_map() == old(self).spec_map().remove(field.spec_info().number),
            r == (match value_in(old(self).spec_map(), field.spec_info().number) {
                Some(v) => if has_value(old(self).spec_pool(), field.spec_info(), v) {
                    Some(v)
                } else {
                    None
                },
                None => None,
            }),
    {
        let ghost before = *self;
        let r = self.fields.take(field);
        proof {
            lemma_fields_valid_after(before, *self);
        }
        r
    }

    /// Whether the extension is set.
    pub fn has_extension(&self, extension: &ExtensionDescriptor) -> (r: bool)
        requires
            self.wf(),
            extension.wf(),
        ensures
            r == (value_in(self.spec_map(), extension.spec_info().number) matches Some(v) && has_value(
                extension.spec_pool().spec_inner(),
                extension.spec_info(),
                v,
            )),
    {
        self.fields.has(extension)
    }

    /// The extension's value, or its default when it holds none.
    pub fn get_extension(&self, extension: &ExtensionDescriptor) -> (r: ValueRef<'_>)
        requires
            self.wf(),
            extension.wf(),
        ensures
            match value_in(self.spec_map(), extension.spec_info().number) {
                Some(v) => r.spec_value() == v,
                None => is_canonical_default(extension.spec_pool().spec_inner(), extension.spec_info(), r.spec_value()),
            },
    {
        self.fields.get(extension)
    }

    /// Sets an extension of this message's type.
    pub fn set_extension(&mut self, extension: &ExtensionDescriptor, value: Value)
        requires
            old(self).wf(),
            extension.wf(),
            extension.spec_pool() == old(self).spec_desc().spec_pool(),
            old(self).spec_pool().extension_of(
                old(self).spec_desc().spec_index() as int,
                extension.spec_info().number,
            ) == Some(extension.spec_index()),
            valid_value(old(self).spec_pool(), extension.spec_info(), value),
        ensures
            final(self).wf(),
            final(self).spec_desc() == old(self).spec_desc(),
            final(self).spec_map() == old(self).spec_map().insert(
                extension.spec_info().number,
                ValueOrUnknown::Value(value),
            ),
    {
        let ghost before = *self;
        self.fields.set(extension, value);
        proof {
            let pool = self.spec_pool();
            let m = self.desc.index as int;
            let n = extension.spec_info().number;
            assert(pool.message_ok(m));
            lemma_extension_not_field(pool, m, n);
            assert(self.spec_map() == before.spec_map().remove_keys(Seq::<u32>::empty().to_set()).insert(n, ValueOrUnknown::Value(value)));
            assert(before.spec_map().remove_keys(Seq::<u32>::empty().to_set()) =~= before.spec_map());
            lemma_fields_valid_after(before, *self);
        }
    }

    /// Clears the extension.
    pub fn clear_extension(&mut self, extension: &ExtensionDescriptor)
        requires
            old(self).wf(),
            extension.wf(),
        ensures
            final(self).wf(),
            final(self).spec_desc() == old(self).spec_desc(),
            final(self).spec_map() == old(self).spec_map().remove(extension.spec_info().number),
    {
        let ghost before = *self;
        self.fields.clear(extension);
        proof {
            lemma_fields_valid_after(before, *self);
        }
    }

    /// Clears the extension, returning its value if it was set.
    pub fn take_extension(&mut self, extension: &ExtensionDescriptor) -> (r: Option<Value>)
        requires
            old(self).wf(),
            extension.wf(),
        ensures
            final(self).wf(),
            final(self).spec_desc() == old(self).spec_desc(),
            final(self).spec_map() == old(self).spec_map().remove(extension.spec_info().number),
            r == (match value_in(old(self).spec_map(), extension.spec_info().number) {
                Some(v) => if has_value(extension.spec_pool().spec_inner(), extension.spec_info(), v) {
                    Some(v)
                } else {
                    None
                },
                None => None,
            }),
    {
        let ghost before = *self;
        let r = self.fields.take(extension);
        proof {
            lemma_fields_valid_after(before, *self);
        }
        r
    }

    /// The unknown fields, in ascending number order.
    pub fn unknown_fields(&self) -> (r: Vec<&UnknownField>)
        ensures
            r@.len() == unknown_fields_of(self.spec_slots()).len(),
            forall|i: int| 0 <= i < r@.len() ==> *r@[i] == unknown_fields_of(self.spec_slots())[i],
    {
        self.fields.iter_unknown()
    }

    /// Clears every field.
    pub fn clear(&mut self)
        requires
            old(self).wf(),
        ensures
            final(self).wf(),
            final(self).spec_desc() == old(self).spec_desc(),
            final(self).spec_slots().len() == 0,
    {
        self.fields.clear_all();
    }
}


/// Emptying some slots of a valid message leaves it valid.
proof fn lemma_fields_valid_taken(before: DynamicMessage, after: DynamicMessage, p: spec_fn(int) -> bool)
    requires
        before.fields_valid(),
        after.desc == before.desc,
        sorted_by_number(after.spec_slots()),
        after.spec_slots() == taken_where(before.spec_slots(), p),
    ensures
        after.fields_valid(),
{
    let s = before.spec_slots();
    let t = after.spec_slots();
    assert forall|i: int| 0 <= i < t.len() implies slot_ok(
        after.spec_pool(),
        after.desc.index as int,
        (#[trigger] t[i]).0,
        t[i].1,
    ) by {
        assert(slot_ok(before.spec_pool(), before.desc.index as int, s[i].0, s[i].1));
    }
}

impl DynamicMessage {
    /// The mutable value of the extension, inserting its default when it
    /// holds none.
    pub fn get_extension_mut(&mut self, extension: &ExtensionDescriptor) -> (r: &mut Value)
        requires
            old(self).wf(),
            extension.wf(),
            extension.spec_pool() == old(self).spec_desc().spec_pool(),
            old(self).spec_pool().extension_of(
                old(self).spec_desc().spec_index() as int,
                extension.spec_info().number,
            ) == Some(extension.spec_index()),
        ensures
            final(self).spec_desc() == old(self).spec_desc(),
            final(self).spec_map() == old(self).spec_map().insert(
                extension.spec_info().number,
                ValueOrUnknown::Value(*final(r)),
            ),
            match value_in(old(self).spec_map(), extension.spec_info().number) {
                Some(v) => *r == v,
                None => is_canonical_default(old(self).spec_pool(), extension.spec_info(), *r),
            },
            valid_value(old(self).spec_pool(), extension.spec_info(), *r),
            valid_value(old(self).spec_pool(), extension.spec_info(), *final(r)) ==> final(self).wf(),
    {
        let ghost before = *self;
        let ghost n = extension.spec_info().number;
        proof {
            let pool = self.spec_pool();
            let m = self.desc.index as int;
            assert(pool.message_ok(m));
            lemma_extension_not_field(pool, m, n);
            assert(self.spec_map().remove_keys(Seq::<u32>::empty().to_set()) =~= self.spec_map());
            if value_in(self.spec_map(), n) is Some {
                let s = self.spec_slots();
                let j = choose|j: int| 0 <= j < s.len() && s[j].0 == n;
                lemma_position(s, j);
                assert(slot_ok(pool, m, s[j].0, s[j].1));
            }
        }
        let r = self.fields.get_mut(extension);
        proof {
            assert(before.spec_map().remove_keys(Seq::<u32>::empty().to_set()) =~= before.spec_map());
        }
        proof {
            let pool = before.spec_pool();
            let m = before.desc.index as int;
            assert forall|after: DynamicMessage|
                #![trigger after.fields_valid()]
                after.desc == before.desc && sorted_by_number(after.spec_slots()) && after.spec_map()
                    == before.spec_map().insert(n, ValueOrUnknown::Value(after.spec_map()[n]->Value_0))
                    && valid_value(pool, extension.spec_info(), after.spec_map()[n]->Value_0)
                    implies after.fields_valid() by {
                assert forall|k: u32| #[trigger]
                    after.spec_map().dom().contains(k) implies (before.spec_map().dom().contains(k)
                        && after.spec_map()[k] == before.spec_map()[k]) || slot_ok(
                        after.spec_pool(),
                        after.desc.index as int,
                        k,
                        after.spec_map()[k],
                    ) by {
                    if k == n {
                        lemma_extension_not_field(pool, m, n);
                    }
                }
                lemma_fields_valid_after(before, after);
            }
        }
        r
    }

    /// The fields that are set, with their values, in ascending number
    /// order.
    pub fn fields(&self) -> (r: Vec<(FieldDescriptor, &Value)>)
        requires
            self.wf(),
        ensures
            ({
                let pool = self.spec_pool();
                let mi = self.spec_desc().spec_index() as int;
                let slots = self.spec_slots();
                let ps = positions_where(slots.len(), |i: int| is_set_field(pool, mi, slots[i]));
                &&& r@.len() == ps.len()
                &&& forall|k: int| 0 <= k < r@.len() ==> {
                    &&& (#[trigger] r@[k]).0.spec_message() == self.spec_desc()
                    &&& Some(r@[k].0.spec_index()) == pool.field_index(mi, slots[ps[k]].0)
                    &&& r@[k].0.wf()
                    &&& ValueOrUnknown::Value(*r@[k].1) == slots[ps[k]].1
                }
            }),
            forall|i: int, j: int| 0 <= i < j < r@.len() ==> (#[trigger] r@[i]).0.spec_inner().number
                < (#[trigger] r@[j]).0.spec_inner().number,
    {
        let r = self.fields.iter_fields(&self.desc);
        proof {
            let pool = self.spec_pool();
            let mi = self.spec_desc().spec_index() as int;
            let slots = self.spec_slots();
            let p = |i: int| is_set_field(pool, mi, slots[i]);
            let ps = positions_where(slots.len(), p);
            crate::fields::lemma_positions_bound(slots.len(), p);
            assert(pool.message_ok(mi));
            assert forall|k: int| 0 <= k < r@.len() implies (#[trigger] r@[k]).0.spec_inner().number == slots[ps[k]].0 by {
                let n = slots[ps[k]].0;
                assert(pool.messages@[mi].field_numbers.spec_map().dom().contains(n));
            }
            assert forall|i: int, j: int| 0 <= i < j < r@.len() implies (#[trigger] r@[i]).0.spec_inner().number
                < (#[trigger] r@[j]).0.spec_inner().number by {
                assert(ps[i] < ps[j]);
                assert(r@[i].0.spec_inner().number == slots[ps[i]].0);
                assert(r@[j].0.spec_inner().number == slots[ps[j]].0);
            }
        }
        r
    }

    /// The extensions that are set, with their values, in ascending number
    /// order.
    pub fn extensions(&self) -> (r: Vec<(ExtensionDescriptor, &Value)>)
        requires
            self.wf(),
        ensures
            ({
                let pool = self.spec_pool();
                let mi = self.spec_desc().spec_index() as int;
                let slots = self.spec_slots();
                let ps = positions_where(slots.len(), |i: int| is_set_extension(pool, mi, slots[i]));
                &&& r@.len() == ps.len()
                &&& forall|k: int| 0 <= k < r@.len() ==> {
                    &&& (#[trigger] r@[k]).0.spec_pool() == self.spec_desc().spec_pool()
                    &&& Some(r@[k].0.spec_index()) == pool.extension_of(mi, slots[ps[k]].0)
                    &&& r@[k].0.wf()
                    &&& ValueOrUnknown::Value(*r@[k].1) == slots[ps[k]].1
                }
            }),
    {
        self.fields.iter_extensions(&self.desc)
    }

    /// Takes the set fields out with their values, in ascending number
    /// order; their slots are left empty.
    pub fn take_fields(&mut self) -> (r: Vec<(FieldDescriptor, Value)>)
        requires
            old(self).wf(),
        ensures
            final(self).wf(),
            final(self).spec_desc() == old(self).spec_desc(),
            ({
                let pool = old(self).spec_pool();
                let mi = old(self).spec_desc().spec_index() as int;
                let slots = old(self).spec_slots();
                let p = |i: int| is_set_field(pool, mi, slots[i]);
                let ps = positions_where(slots.len(), p);
                &&& final(self).spec_slots() == taken_where(slots, p)
                &&& r@.len() == ps.len()
                &&& forall|k: int| 0 <= k < r@.len() ==> {
                    &&& (#[trigger] r@[k]).0.spec_message() == old(self).spec_desc()
                    &&& Some(r@[k].0.spec_index()) == pool.field_index(mi, slots[ps[k]].0)
                    &&& r@[k].0.wf()
                    &&& ValueOrUnknown::Value(r@[k].1) == slots[ps[k]].1
                }
            }),
    {
        let ghost before = *self;
        let r = self.fields.take_fields(&self.desc);
        proof {
            let pool = before.spec_pool();
            let mi = before.desc.index as int;
            let slots = before.spec_slots();
            lemma_fields_valid_taken(before, *self, |i: int| is_set_field(pool, mi, slots[i]));
        }
        r
    }

    /// Takes the set extensions out with their values, in ascending number
    /// order; their slots are left empty.
    pub fn take_extensions(&mut self) -> (r: Vec<(ExtensionDescriptor, Value)>)
        requires
            old(self).wf(),
        ensures
            final(self).wf(),
            final(self).spec_desc() == old(self).spec_desc(),
            ({
                let pool = old(self).spec_pool();
                let mi = old(self).spec_desc().spec_index() as int;
                let slots = old(self).spec_slots();
                let p = |i: int| is_set_extension(pool, mi, slots[i]);
                let ps = positions_where(slots.len(), p);
                &&& final(self).spec_slots() == taken_where(slots, p)
                &&& r@.len() == ps.len()
                &&& forall|k: int| 0 <= k < r@.len() ==> {
                    &&& (#[trigger] r@[k]).0.spec_pool() == old(self).spec_desc().spec_pool()
                    &&& Some(r@[k].0.spec_index()) == pool.extension_of(mi, slots[ps[k]].0)
                    &&& r@[k].0.wf()
                    &&& ValueOrUnknown::Value(r@[k].1) == slots[ps[k]].1
                }
            }),
    {
        let ghost before = *self;
        let r = self.fields.take_extensions(&self.desc);
        proof {
            let pool = before.spec_pool();
            let mi = before.desc.index as int;
            let slots = before.spec_slots();
            lemma_fields_valid_taken(before, *self, |i: int| is_set_extension(pool, mi, slots[i]));
        }
        r
    }

    /// Takes the unknown fields out, in ascending number order; their slots
    /// are left empty.
    pub fn take_unknown_fields(&mut self) -> (r: Vec<UnknownField>)
        requires
            old(self).wf(),
        ensures
            final(self).wf(),
            final(self).spec_desc() == old(self).spec_desc(),
            final(self).spec_slots() == taken_where(old(self).spec_slots(), |i: int| old(self).spec_slots()[i].1 is Unknown),
            r@ == unknown_fields_of(old(self).spec_slots()),
    {
        let ghost before = *self;
        let r = self.fields.take_unknown();
        proof {
            let slots = before.spec_slots();
            lemma_fields_valid_taken(before, *self, |i: int| slots[i].1 is Unknown);
        }
        r
    }
}


impl DynamicMessage {
    /// The value of the first field named `name`, or its default when it
    /// holds none; `None` when the message type has no field of that name.
    pub fn get_field_by_name(&self, name: &str) -> (r: Option<ValueRef<'_>>)
        requires
            self.wf(),
        ensures
            match find_field_named(self.spec_desc().spec_inner().fields@, name.spec_bytes()) {
                Some(f) => r matches Some(v) && {
                    let info = self.spec_pool().field_info(self.spec_desc().spec_index() as int, f as int);
                    match value_in(self.spec_map(), info.number) {
                        Some(x) => v.spec_value() == x,
                        None => is_canonical_default(self.spec_pool(), info, v.spec_value()),
                    }
                },
                None => r is None,
            },
    {
        match self.desc.get_field_by_name(name) {
            Some(field) => Some(self.get_field(&field)),
            None => None,
        }
    }
}

/// An extension's number is never a field number of the message type it
/// extends, so its slot is read through the extension.
pub(crate) proof fn lemma_extension_not_field(pool: DescriptorPoolInner, m: int, n: u32)
    requires
        pool.message_ok(m),
        pool.extension_of(m, n) is Some,
    ensures
        pool.field_index(m, n) is None,
{
    let exts = pool.messages@[m].extensions@;
    lemma_find_extension_member(pool, exts, n);
}

pub(crate) proof fn lemma_find_extension_member(pool: DescriptorPoolInner, exts: Seq<u32>, n: u32)
    requires
        pool.find_extension(exts, n) is Some,
    ensures
        exists|k: int| 0 <= k < exts.len() && exts[k] == pool.find_extension(exts, n)->Some_0 && pool.extensions@[exts[k] as int].number == n,
    decreases exts.len(),
{
    if pool.extensions@[exts[0] as int].number == n {
        assert(exts[0] == pool.find_extension(exts, n)->Some_0);
    } else {
        lemma_find_extension_member(pool, exts.drop_first(), n);
        let k = choose|k: int| 0 <= k < exts.drop_first().len() && exts.drop_first()[k] == pool.find_extension(exts.drop_first(), n)->Some_0 && pool.extensions@[exts.drop_first()[k] as int].number == n;
        assert(exts[k + 1] == exts.drop_first()[k]);
    }
}


/// Reading a field back after setting it gives the value set; the field
/// then counts as set exactly when that value does; the other members of
/// its oneof read as unset; every other field reads as before.
pub proof fn law_get_after_set_field(message: DynamicMessage, field: FieldDescriptor, value: Value, other: u32)
    requires
        message.wf(),
        field.wf(),
        field.spec_message() == message.spec_desc(),
    ensures
        ({
            let n = field.spec_info().number;
            let sib = field.spec_oneof_siblings().to_set();
            let after = message.spec_map().remove_keys(sib).insert(n, ValueOrUnknown::Value(value));
            &&& value_in(after, n) == Some(value)
            &&& (value_in(after, n) matches Some(v) && has_value(message.spec_pool(), field.spec_info(), v))
                == has_value(message.spec_pool(), field.spec_info(), value)
            &&& sib.contains(other) ==> value_in(after, other) is None
            &&& !sib.contains(other) && other != n ==> value_in(after, other) == value_in(message.spec_map(), other)
            &&& field.spec_inner().oneof matches Some(o) ==> forall|k: u32|
                #[trigger] message.spec_pool().oneof_numbers(message.spec_desc().spec_index() as int, o as int).contains(k)
                    && k != n ==> value_in(after, k) is None
        }),
{
    let n = field.spec_info().number;
    let sib = field.spec_oneof_siblings().to_set();
    let after = message.spec_map().remove_keys(sib).insert(n, ValueOrUnknown::Value(value));
    if let Some(o) = field.spec_inner().oneof {
        let all = message.spec_pool().oneof_numbers(message.spec_desc().spec_index() as int, o as int);
        assert(n == field.spec_inner().number);
        assert(field.spec_oneof_siblings() == without(all, n));
        assert forall|k: u32| #[trigger] all.contains(k) && k != n implies value_in(after, k) is None by {
            let i = choose|i: int| 0 <= i < all.len() && all[i] == k;
            let pred = |x: u32| x != n;
            all.filter_lemma(pred);
            assert(all.filter(pred).contains(all[i]));
            assert(sib.contains(k));
            assert(!after.dom().contains(k));
        }
    }
    if sib.contains(other) {
        assert(field.spec_oneof_siblings().contains(other));
        if let Some(o) = field.spec_inner().oneof {
            let all = message.spec_pool().oneof_numbers(message.spec_desc().spec_index() as int, o as int);
            assert(n == field.spec_inner().number);
            assert(field.spec_oneof_siblings() == without(all, n));
            let k = choose|k: int| 0 <= k < field.spec_oneof_siblings().len() && field.spec_oneof_siblings()[k] == other;
            broadcast use vstd::seq_lib::group_filter_ensures;
            assert(field.spec_oneof_siblings()[k] != n);
        }
        assert(other != n);
    }
}

/// Of two settings of a field, the last one stands: setting `first` and
/// then `second` leaves the slots as setting `second` alone does.
pub proof fn law_last_set_wins(message: DynamicMessage, field: FieldDescriptor, first: Value, second: Value)
    requires
        message.wf(),
        field.wf(),
        field.spec_message() == message.spec_desc(),
    ensures
        ({
            let n = field.spec_info().number;
            let sib = field.spec_oneof_siblings().to_set();
            let once = message.spec_map().remove_keys(sib).insert(n, ValueOrUnknown::Value(first));
            once.remove_keys(sib).insert(n, ValueOrUnknown::Value(second))
                == message.spec_map().remove_keys(sib).insert(n, ValueOrUnknown::Value(second))
        }),
{
    let n = field.spec_info().number;
    let sib = field.spec_oneof_siblings().to_set();
    let once = message.spec_map().remove_keys(sib).insert(n, ValueOrUnknown::Value(first));
    assert(once.remove_keys(sib).insert(n, ValueOrUnknown::Value(second)) =~= message.spec_map().remove_keys(
        sib,
    ).insert(n, ValueOrUnknown::Value(second)));
}

/// A cleared field reads as unset, and its default; every other field
/// reads as before.
pub proof fn law_get_after_clear_field(message: DynamicMessage, field: FieldDescriptor, other: u32)
    requires
        message.wf(),
        field.wf(),
        field.spec_message() == message.spec_desc(),
    ensures
        ({
            let n = field.spec_info().number;
            let after = message.spec_map().remove(n);
            &&& value_in(after, n) is None
            &&& other != n ==> value_in(after, other) == value_in(message.spec_map(), other)
        }),
{
}

/// Taking a field after setting it gives back the value set when that
/// value counts as set, and leaves the field unset.
pub proof fn law_take_after_set_field(message: DynamicMessage, field: FieldDescriptor, value: Value)
    requires
        message.wf(),
        field.wf(),
        field.spec_message() == message.spec_desc(),
    ensures
        ({
            let n = field.spec_info().number;
            let info = field.spec_info();
            let pool = message.spec_pool();
            let after = message.spec_map().remove_keys(field.spec_oneof_siblings().to_set()).insert(
                n,
                ValueOrUnknown::Value(value),
            );
            &&& (match value_in(after, n) {
                Some(v) => if has_value(pool, info, v) {
                    Some(v)
                } else {
                    None
                },
                None => None,
            }) == (if has_value(pool, info, value) {
                Some(value)
            } else {
                None
            })
            &&& value_in(after.remove(n), n) is None
        }),
{
}

/// Reading an extension back after setting it gives the value set, and
/// every other number reads as before.
pub proof fn law_get_after_set_extension(message: DynamicMessage, extension: ExtensionDescriptor, value: Value, other: u32)
    requires
        message.wf(),
        extension.wf(),
    ensures
        ({
            let n = extension.spec_info().number;
            let after = message.spec_map().insert(n, ValueOrUnknown::Value(value));
            &&& value_in(after, n) == Some(value)
            &&& other != n ==> value_in(after, other) == value_in(message.spec_map(), other)
        }),
{
}

/// The slots emptied of their unknown fields hold no unknown field.
pub proof fn law_no_unknown_after_take(slots: Seq<(u32, ValueOrUnknown)>)
    ensures
        unknown_fields_of(taken_where(slots, |i: int| slots[i].1 is Unknown)).len() == 0,
    decreases slots.len(),
{
    if slots.len() > 0 {
        let init = slots.drop_last();
        law_no_unknown_after_take(init);
        let t = taken_where(slots, |i: int| slots[i].1 is Unknown);
        assert(t.drop_last() =~= taken_where(init, |i: int| init[i].1 is Unknown));
    }
}

/// Once the set fields are taken, none is set; the same for extensions.
pub proof fn law_none_set_after_take(pool: DescriptorPoolInner, mi: int, slots: Seq<(u32, ValueOrUnknown)>)
    ensures
        ({
            let pf = |i: int| is_set_field(pool, mi, slots[i]);
            let t = taken_where(slots, pf);
            positions_where(t.len(), |i: int| is_set_field(pool, mi, t[i])).len() == 0
        }),
        ({
            let pe = |i: int| is_set_extension(pool, mi, slots[i]);
            let t = taken_where(slots, pe);
            positions_where(t.len(), |i: int| is_set_extension(pool, mi, t[i])).len() == 0
        }),
{
    let pf = |i: int| is_set_field(pool, mi, slots[i]);
    let tf = taken_where(slots, pf);
    lemma_positions_none(tf.len(), |i: int| is_set_field(pool, mi, tf[i]));
    let pe = |i: int| is_set_extension(pool, mi, slots[i]);
    let te = taken_where(slots, pe);
    lemma_positions_none(te.len(), |i: int| is_set_extension(pool, mi, te[i]));
}

/// No position qualifies when the predicate holds nowhere below `n`.
proof fn lemma_positions_none(n: nat, p: spec_fn(int) -> bool)
    requires
        forall|i: int| 0 <= i < n ==> !#[trigger] p(i),
    ensures
        positions_where(n, p).len() == 0,
    decreases n,
{
    if n > 0 {
        lemma_positions_none((n - 1) as nat, p);
    }
}

} // verus!
