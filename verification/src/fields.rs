//! The set of fields of a dynamic message.

use vstd::prelude::*;
use crate::value::{has_value, is_canonical_default, is_default_for, valid_value, Value};
use crate::descriptor::{without, DescriptorPoolInner, ExtensionDescriptor, FieldDescriptor, FieldInfo, MessageDescriptor};
use crate::message::rawfield_absent_value;
use crate::unknown::{UnknownField, UnknownFieldSet};
use crate::sorted::{as_map, lemma_absent, lemma_insert, lemma_position, lemma_remove, lemma_update, search_by_number, sorted_by_number};

verus! {

/// What the field set needs of a field or extension descriptor.
pub trait FieldDescriptorLike {
    spec fn spec_pool(&self) -> DescriptorPoolInner;

    spec fn spec_info(&self) -> FieldInfo;

    /// The numbers of the other members of the field's oneof.
    spec fn spec_oneof_siblings(&self) -> Seq<u32>;

    spec fn spec_wf(&self) -> bool;

    fn number(&self) -> (r: u32)
        requires
            self.spec_wf(),
        ensures
            r == self.spec_info().number,
    ;

    fn default_value(&self) -> (r: Value)
        requires
            self.spec_wf(),
        ensures
            is_canonical_default(self.spec_pool(), self.spec_info(), r),
            valid_value(self.spec_pool(), self.spec_info(), r),
    ;

    fn is_default_value(&self, value: &Value) -> (r: bool)
        requires
            self.spec_wf(),
        ensures
            r == is_default_for(self.spec_pool(), self.spec_info(), *value),
    ;

    fn supports_presence(&self) -> (r: bool)
        requires
            self.spec_wf(),
        ensures
            r == self.spec_info().supports_presence,
    ;

    fn oneof_siblings(&self) -> (r: Vec<u32>)
        requires
            self.spec_wf(),
        ensures
            r@ == self.spec_oneof_siblings(),
    ;

    /// Whether the field counts as set with this value.
    fn has(&self, value: &Value) -> (r: bool)
        requires
            self.spec_wf(),
        ensures
            r == has_value(self.spec_pool(), self.spec_info(), *value),
    {
        self.supports_presence() || !self.is_default_value(value)
    }
}

impl FieldDescriptorLike for FieldDescriptor {
    open spec fn spec_pool(&self) -> DescriptorPoolInner {
        self.spec_message().spec_pool().spec_inner()
    }

    open spec fn spec_info(&self) -> FieldInfo {
        FieldDescriptor::spec_info(self)
    }

    open spec fn spec_oneof_siblings(&self) -> Seq<u32> {
        match self.spec_inner().oneof {
            Some(o) => without(
                self.spec_pool().oneof_numbers(self.spec_message().spec_index() as int, o as int),
                self.spec_inner().number,
            ),
            None => Seq::empty(),
        }
    }

    open spec fn spec_wf(&self) -> bool {
        self.wf()
    }

    fn number(&self) -> (r: u32) {
        FieldDescriptor::number(self)
    }

    fn default_value(&self) -> (r: Value) {
        rawfield_absent_value(&self.view())
    }

    fn is_default_value(&self, value: &Value) -> (r: bool) {
        let view = self.view();
        crate::value::is_default_for_field_parts(
            view.pool,
            value,
            view.is_list,
            view.is_map,
            view.kind,
            view.default,
        )
    }

    fn supports_presence(&self) -> (r: bool) {
        self.view().supports_presence
    }

    fn oneof_siblings(&self) -> (r: Vec<u32>) {
        let view = self.view();
        match view.oneof_sibling_numbers(view.number) {
            Some(siblings) => siblings,
            None => Vec::new(),
        }
    }
}

impl FieldDescriptorLike for ExtensionDescriptor {
    open spec fn spec_pool(&self) -> DescriptorPoolInner {
        self.spec_pool().spec_inner()
    }

    open spec fn spec_info(&self) -> FieldInfo {
        ExtensionDescriptor::spec_info(self)
    }

    open spec fn spec_oneof_siblings(&self) -> Seq<u32> {
        Seq::empty()
    }

    open spec fn spec_wf(&self) -> bool {
        self.wf()
    }

    fn number(&self) -> (r: u32) {
        ExtensionDescriptor::number(self)
    }

    fn default_value(&self) -> (r: Value) {
        rawfield_absent_value(&self.view())
    }

    fn is_default_value(&self, value: &Value) -> (r: bool) {
        let view = self.view();
        crate::value::is_default_for_field_parts(
            view.pool,
            value,
            view.is_list,
            view.is_map,
            view.kind,
            view.default,
        )
    }

    fn supports_presence(&self) -> (r: bool) {
        ExtensionDescriptor::supports_presence(self)
    }

    fn oneof_siblings(&self) -> (r: Vec<u32>) {
        Vec::new()
    }
}

/// What a slot of the field set holds.
#[derive(Debug, PartialEq)]
pub enum ValueOrUnknown {
    /// Emptied by a draining iteration.
    Taken,
    /// A value of a known field or extension.
    Value(Value),
    /// One or more unknown fields.
    Unknown(UnknownFieldSet),
}

/// The fields (known, extension and unknown) of a dynamic message, kept
/// sorted by field number.
#[derive(Debug, PartialEq)]
pub struct DynamicMessageFieldSet {
    pub(crate) fields: Vec<(u32, ValueOrUnknown)>,
}


impl ValueOrUnknown {
    pub fn unwrap_value_mut(&mut self) -> (r: &mut Value)
        requires
            *old(self) is Value,
        ensures
            *r == old(self)->Value_0,
            *final(self) == ValueOrUnknown::Value(*final(r)),
    {
        match self {
            ValueOrUnknown::Value(value) => value,
            ValueOrUnknown::Unknown(_) | ValueOrUnknown::Taken => {
                proof {
                    assert(false);
                }
                unreached()
            },
        }
    }

    pub fn unwrap_value(self) -> (r: Value)
        requires
            self is Value,
        ensures
            r == self->Value_0,
    {
        match self {
            ValueOrUnknown::Value(value) => value,
            ValueOrUnknown::Unknown(_) | ValueOrUnknown::Taken => {
                proof {
                    assert(false);
                }
                unreached()
            },
        }
    }

    pub fn unwrap_unknown(self) -> (r: UnknownFieldSet)
        requires
            self is Unknown,
        ensures
            r == self->Unknown_0,
    {
        match self {
            ValueOrUnknown::Unknown(unknowns) => unknowns,
            ValueOrUnknown::Value(_) | ValueOrUnknown::Taken => {
                proof {
                    assert(false);
                }
                unreached()
            },
        }
    }
}

/// The value a slot map holds under `number`, if it holds a value there.
pub open spec fn value_in(map: Map<u32, ValueOrUnknown>, number: u32) -> Option<Value> {
    if map.dom().contains(number) && map[number] is Value {
        Some(map[number]->Value_0)
    } else {
        None
    }
}

impl DynamicMessageFieldSet {
    pub open(crate) spec fn wf(&self) -> bool {
        sorted_by_number(self.fields@)
    }

    /// The slots, by field number.
    pub open(crate) spec fn spec_map(&self) -> Map<u32, ValueOrUnknown> {
        as_map(self.fields@)
    }

    pub(crate) fn new() -> (r: Self)
        ensures
            r.wf(),
            r.fields@ == Seq::<(u32, ValueOrUnknown)>::empty(),
    {
        DynamicMessageFieldSet { fields: Vec::new() }
    }

    fn pos(&self, number: u32) -> (r: Result<usize, usize>)
        requires
            self.wf(),
        ensures
            match r {
                Ok(i) => i < self.fields@.len() && self.fields@[i as int].0 == number,
                Err(i) => {
                    &&& i <= self.fields@.len()
                    &&& forall|j: int| 0 <= j < i ==> self.fields@[j].0 < number
                    &&& forall|j: int| i <= j < self.fields@.len() ==> self.fields@[j].0 > number
                },
            },
    {
        search_by_number(self.fields.as_slice(), number)
    }

    /// The value stored under `number`, if a value is stored there.
    pub(crate) fn get_value(&self, number: u32) -> (r: Option<&Value>)
        requires
            self.wf(),
        ensures
            match r {
                Some(v) => value_in(self.spec_map(), number) == Some(*v),
                None => value_in(self.spec_map(), number) is None,
            },
    {
        match self.pos(number) {
            Ok(index) => {
                proof {
                    lemma_position(self.fields@, index as int);
                }
                match &self.fields[index].1 {
                    ValueOrUnknown::Value(value) => Some(value),
                    ValueOrUnknown::Unknown(_) | ValueOrUnknown::Taken => None,
                }
            },
            Err(index) => {
                proof {
                    lemma_absent(self.fields@, index as int, number);
                }
                None
            },
        }
    }

    /// Decode: the mutable slot for `number`, inserting a default built by
    /// `build_default` when the slot is absent or holds no value.
    pub(crate) fn decode_entry<F: FnOnce() -> Value>(
        &mut self,
        number: u32,
        build_default: F,
    ) -> (r: &mut Value)
        requires
            old(self).wf(),
            build_default.requires(()),
        ensures
            final(self).wf(),
            final(self).spec_map() == old(self).spec_map().insert(number, ValueOrUnknown::Value(*final(r))),
            match value_in(old(self).spec_map(), number) {
                Some(v) => *r == v,
                None => build_default.ensures((), *r),
            },
    {
        self.entry_mut(number, build_default)
    }

    /// The mutable slot for `number`, inserting a default built by
    /// `build_default` when the slot is absent or holds no value.
    fn entry_mut<F: FnOnce() -> Value>(&mut self, number: u32, build_default: F) -> (r: &mut Value)
        requires
            old(self).wf(),
            build_default.requires(()),
        ensures
            final(self).wf(),
            final(self).spec_map() == old(self).spec_map().insert(number, ValueOrUnknown::Value(*final(r))),
            match value_in(old(self).spec_map(), number) {
                Some(v) => *r == v,
                None => build_default.ensures((), *r),
            },
    {
        let ghost old_fields = self.fields@;
        match self.pos(number) {
            Ok(index) => {
                proof {
                    lemma_position(old_fields, index as int);
                }
                if self.fields[index].1.is_value() {
                    let slot = &mut self.fields[index];
                    let r = slot.1.unwrap_value_mut();
                    proof {
                        lemma_update(old_fields, index as int, ValueOrUnknown::Value(*final(r)));
                    }
                    r
                } else {
                    let default = build_default();
                    self.fields.set(index, (number, ValueOrUnknown::Value(default)));
                    let ghost mid = self.fields@;
                    let slot = &mut self.fields[index];
                    let r = slot.1.unwrap_value_mut();
                    proof {
                        lemma_update(old_fields, index as int, ValueOrUnknown::Value(*final(r)));
                        assert(mid.update(index as int, (number, ValueOrUnknown::Value(*final(r))))
                            == old_fields.update(index as int, (number, ValueOrUnknown::Value(*final(r)))));
                    }
                    r
                }
            },
            Err(index) => {
                let default = build_default();
                self.fields.insert(index, (number, ValueOrUnknown::Value(default)));
                let ghost mid = self.fields@;
                let slot = &mut self.fields[index];
                let r = slot.1.unwrap_value_mut();
                proof {
                    lemma_insert(old_fields, index as int, number, ValueOrUnknown::Value(*final(r)));
                    lemma_absent(old_fields, index as int, number);
                    assert(mid.update(index as int, (number, ValueOrUnknown::Value(*final(r))))
                        == old_fields.insert(index as int, (number, ValueOrUnknown::Value(*final(r)))));
                }
                r
            },
        }
    }
}

impl DynamicMessageFieldSet {
    /// Removes whatever is stored under `number`.
    pub(crate) fn clear_by_number(&mut self, number: u32)
        requires
            old(self).wf(),
        ensures
            final(self).wf(),
            final(self).spec_map() == old(self).spec_map().remove(number),
    {
        let ghost old_fields = self.fields@;
        match self.pos(number) {
            Ok(index) => {
                self.fields.remove(index);
                proof {
                    lemma_remove(old_fields, index as int);
                }
            },
            Err(index) => {
                proof {
                    lemma_absent(old_fields, index as int, number);
                    assert(as_map(old_fields).remove(number) =~= as_map(old_fields));
                }
            },
        }
    }

    /// Stores `value` under `number`, replacing what was there.
    pub(crate) fn set_by_number(&mut self, number: u32, value: Value)
        requires
            old(self).wf(),
        ensures
            final(self).wf(),
            final(self).spec_map() == old(self).spec_map().insert(number, ValueOrUnknown::Value(value)),
    {
        let ghost old_fields = self.fields@;
        match self.pos(number) {
            Ok(index) => {
                self.fields.set(index, (number, ValueOrUnknown::Value(value)));
                proof {
                    lemma_update(old_fields, index as int, ValueOrUnknown::Value(value));
                }
            },
            Err(index) => {
                self.fields.insert(index, (number, ValueOrUnknown::Value(value)));
                proof {
                    lemma_insert(old_fields, index as int, number, ValueOrUnknown::Value(value));
                }
            },
        }
    }

    /// Removes and returns the slot stored under `number`.
    pub(crate) fn take_slot(&mut self, number: u32) -> (r: Option<ValueOrUnknown>)
        requires
            old(self).wf(),
        ensures
            final(self).wf(),
            final(self).spec_map() == old(self).spec_map().remove(number),
            r == (if old(self).spec_map().dom().contains(number) {
                Some(old(self).spec_map()[number])
            } else {
                None
            }),
    {
        let ghost old_fields = self.fields@;
        match self.pos(number) {
            Ok(index) => {
                proof {
                    lemma_position(old_fields, index as int);
                    lemma_remove(old_fields, index as int);
                }
                let (_, entry) = self.fields.remove(index);
                Some(entry)
            },
            Err(index) => {
                proof {
                    lemma_absent(old_fields, index as int, number);
                    assert(as_map(old_fields).remove(number) =~= as_map(old_fields));
                }
                None
            },
        }
    }

    /// Records an unknown field under its number (no value may be stored
    /// there).
    pub(crate) fn add_unknown(&mut self, number: u32, unknown: UnknownField)
        requires
            old(self).wf(),
            value_in(old(self).spec_map(), number) is None,
        ensures
            final(self).wf(),
            final(self).spec_map().dom().contains(number),
            final(self).spec_map()[number] is Unknown,
            final(self).spec_map()[number]->Unknown_0.fields@ == (if old(self).spec_map().dom().contains(
                number,
            ) && old(self).spec_map()[number] is Unknown {
                old(self).spec_map()[number]->Unknown_0.fields@
            } else {
                Seq::empty()
            }).push(unknown),
            final(self).spec_map().remove(number) == old(self).spec_map().remove(number),
            unknown_fields_of(final(self).fields@) == unknown_fields_of(
                old(self).fields@.take(slots_up_to(old(self).fields@, number)),
            ).push(unknown) + unknown_fields_of(old(self).fields@.skip(slots_up_to(old(self).fields@, number))),
    {
        let ghost old_fields = self.fields@;
        match self.pos(number) {
            Ok(index) => {
                proof {
                    lemma_position(old_fields, index as int);
                }
                let (_, entry) = self.fields.remove(index);
                let set = match entry {
                    ValueOrUnknown::Unknown(mut unknowns) => {
                        unknowns.insert(unknown);
                        unknowns
                    },
                    _ => UnknownFieldSet::from_one(unknown),
                };
                let ghost new_slot = ValueOrUnknown::Unknown(set);
                self.fields.insert(index, (number, ValueOrUnknown::Unknown(set)));
                proof {
                    assert(self.fields@ == old_fields.update(index as int, (number, new_slot)));
                    lemma_update(old_fields, index as int, new_slot);
                    assert(as_map(old_fields).insert(number, new_slot).remove(number) =~= as_map(
                        old_fields,
                    ).remove(number));
                    let j = index + 1;
                    assert forall|k: int| 0 <= k < j implies (#[trigger] old_fields[k]).0 <= number by {
                        if k < index {
                            assert(old_fields[k].0 < old_fields[index as int].0);
                        }
                    }
                    assert forall|k: int| j <= k < old_fields.len() implies (#[trigger] old_fields[k]).0 > number by {
                        assert(old_fields[index as int].0 < old_fields[k].0);
                    }
                    lemma_slots_up_to(old_fields, number, j);
                    let head = old_fields.take(index as int);
                    let tail = old_fields.skip(j);
                    assert(self.fields@ =~= head + seq![(number, new_slot)] + tail);
                    assert(old_fields.take(j) =~= head + seq![old_fields[index as int]]);
                    lemma_unknown_fields_concat(head + seq![(number, new_slot)], tail);
                    lemma_unknown_fields_concat(head, seq![(number, new_slot)]);
                    lemma_unknown_fields_concat(head, seq![old_fields[index as int]]);
                    lemma_unknown_fields_one((number, new_slot));
                    lemma_unknown_fields_one(old_fields[index as int]);
                    assert(unknown_fields_of(self.fields@) =~= unknown_fields_of(old_fields.take(j)).push(unknown)
                        + unknown_fields_of(tail));
                }
            },
            Err(index) => {
                let set = UnknownFieldSet::from_one(unknown);
                let ghost new_slot = ValueOrUnknown::Unknown(set);
                self.fields.insert(index, (number, ValueOrUnknown::Unknown(set)));
                proof {
                    lemma_insert(old_fields, index as int, number, new_slot);
                    assert(as_map(old_fields).insert(number, new_slot).remove(number) =~= as_map(
                        old_fields,
                    ).remove(number));
                    lemma_slots_up_to(old_fields, number, index as int);
                    let head = old_fields.take(index as int);
                    let tail = old_fields.skip(index as int);
                    assert(self.fields@ =~= head + seq![(number, new_slot)] + tail);
                    lemma_unknown_fields_concat(head + seq![(number, new_slot)], tail);
                    lemma_unknown_fields_concat(head, seq![(number, new_slot)]);
                    lemma_unknown_fields_one((number, new_slot));
                    assert(unknown_fields_of(self.fields@) =~= unknown_fields_of(head).push(unknown)
                        + unknown_fields_of(tail));
                }
            },
        }
    }

    /// The slot at a storage position.
    pub(crate) fn value_at(&self, slot: usize) -> (r: &ValueOrUnknown)
        requires
            slot < self.fields@.len(),
        ensures
            *r == self.fields@[slot as int].1,
    {
        &self.fields[slot].1
    }

    /// Every stored (number, slot) pair, in ascending number order.
    pub(crate) fn slots(&self) -> (r: &[(u32, ValueOrUnknown)])
        ensures
            r@ == self.fields@,
    {
        self.fields.as_slice()
    }

    /// Removes every slot.
    pub(crate) fn clear_all(&mut self)
        ensures
            final(self).wf(),
            final(self).fields@ == Seq::<(u32, ValueOrUnknown)>::empty(),
    {
        self.fields.clear();
    }
}

/// A value read from a message: borrowed from the message, or an owned
/// default for a field that is not set.
pub enum ValueRef<'a> {
    Borrowed(&'a Value),
    Owned(Value),
}

impl<'a> ValueRef<'a> {
    pub open spec fn spec_value(&self) -> Value {
        match self {
            ValueRef::Borrowed(v) => **v,
            ValueRef::Owned(v) => *v,
        }
    }

    /// The value read.
    pub fn as_value(&self) -> (r: &Value)
        ensures
            *r == self.spec_value(),
    {
        match self {
            ValueRef::Borrowed(v) => v,
            ValueRef::Owned(v) => v,
        }
    }
}

impl DynamicMessageFieldSet {
    /// Whether the field is set: a value is stored under its number and
    /// the field counts as set with it.
    pub(crate) fn has<D: FieldDescriptorLike>(&self, desc: &D) -> (r: bool)
        requires
            self.wf(),
            desc.spec_wf(),
        ensures
            r == (value_in(self.spec_map(), desc.spec_info().number) matches Some(v) && has_value(
                desc.spec_pool(),
                desc.spec_info(),
                v,
            )),
    {
        match self.get_value(desc.number()) {
            Some(value) => desc.has(value),
            None => false,
        }
    }

    /// The value of the field: the stored value, else the field's default.
    pub(crate) fn get<D: FieldDescriptorLike>(&self, desc: &D) -> (r: ValueRef<'_>)
        requires
            self.wf(),
            desc.spec_wf(),
        ensures
            match value_in(self.spec_map(), desc.spec_info().number) {
                Some(v) => r.spec_value() == v,
                None => is_canonical_default(desc.spec_pool(), desc.spec_info(), r.spec_value())
                    && valid_value(desc.spec_pool(), desc.spec_info(), r.spec_value()),
            },
    {
        match self.get_value(desc.number()) {
            Some(value) => ValueRef::Borrowed(value),
            None => ValueRef::Owned(desc.default_value()),
        }
    }

    /// Removes whatever is stored under each of the numbers.
    pub(crate) fn clear_numbers(&mut self, numbers: &Vec<u32>)
        requires
            old(self).wf(),
        ensures
            final(self).wf(),
            final(self).spec_map() == old(self).spec_map().remove_keys(numbers@.to_set()),
    {
        let ghost old_map = self.spec_map();
        let mut i: usize = 0;
        proof {
            assert(old_map.remove_keys(numbers@.take(0).to_set()) =~= old_map);
        }
        while i < numbers.len()
            invariant
                self.wf(),
                i <= numbers@.len(),
                self.spec_map() == old_map.remove_keys(numbers@.take(i as int).to_set()),
            decreases numbers@.len() - i,
        {
            self.clear_by_number(numbers[i]);
            proof {
                let t1 = numbers@.take(i + 1);
                let t0 = numbers@.take(i as int);
                assert forall|a: u32| t1.to_set().contains(a) == t0.to_set().insert(numbers@[i as int]).contains(a) by {
                    if t1.contains(a) {
                        let k = choose|k: int| 0 <= k < t1.len() && t1[k] == a;
                        if k < i {
                            assert(t0[k] == a);
                        }
                    }
                    if t0.contains(a) {
                        let k = choose|k: int| 0 <= k < t0.len() && t0[k] == a;
                        assert(t1[k] == a);
                    }
                    if a == numbers@[i as int] {
                        assert(t1[i as int] == a);
                    }
                }
                assert(t1.to_set() =~= t0.to_set().insert(numbers@[i as int]));
                assert(old_map.remove_keys(numbers@.take(i as int).to_set()).remove(numbers@[i as int])
                    =~= old_map.remove_keys(numbers@.take(i + 1).to_set()));
            }
            i = i + 1;
        }
        proof {
            assert(numbers@.take(numbers@.len() as int) == numbers@);
        }
    }

    /// Removes the other members of the field's oneof.
    fn clear_oneof_fields<D: FieldDescriptorLike>(&mut self, desc: &D)
        requires
            old(self).wf(),
            desc.spec_wf(),
        ensures
            final(self).wf(),
            final(self).spec_map() == old(self).spec_map().remove_keys(desc.spec_oneof_siblings().to_set()),
    {
        let siblings = desc.oneof_siblings();
        self.clear_numbers(&siblings);
    }

    /// The mutable value of the field, inserting its default when it is
    /// not set (the other members of its oneof are removed).
    pub(crate) fn get_mut<D: FieldDescriptorLike>(&mut self, desc: &D) -> (r: &mut Value)
        requires
            old(self).wf(),
            desc.spec_wf(),
        ensures
            final(self).wf(),
            final(self).spec_map() == old(self).spec_map().remove_keys(
                desc.spec_oneof_siblings().to_set(),
            ).insert(desc.spec_info().number, ValueOrUnknown::Value(*final(r))),
            match value_in(
                old(self).spec_map().remove_keys(desc.spec_oneof_siblings().to_set()),
                desc.spec_info().number,
            ) {
                Some(v) => *r == v,
                None => is_canonical_default(desc.spec_pool(), desc.spec_info(), *r) && valid_value(
                    desc.spec_pool(),
                    desc.spec_info(),
                    *r,
                ),
            },
    {
        self.clear_oneof_fields(desc);
        let number = desc.number();
        let build_default = (|| -> (v: Value)
            requires
                desc.spec_wf(),
            ensures
                is_canonical_default(desc.spec_pool(), desc.spec_info(), v),
                valid_value(desc.spec_pool(), desc.spec_info(), v),
            { desc.default_value() });
        self.entry_mut(number, build_default)
    }

    /// Stores the field's value (the other members of its oneof are
    /// removed).
    pub(crate) fn set<D: FieldDescriptorLike>(&mut self, desc: &D, value: Value)
        requires
            old(self).wf(),
            desc.spec_wf(),
            valid_value(desc.spec_pool(), desc.spec_info(), value),
        ensures
            final(self).wf(),
            final(self).spec_map() == old(self).spec_map().remove_keys(
                desc.spec_oneof_siblings().to_set(),
            ).insert(desc.spec_info().number, ValueOrUnknown::Value(value)),
    {
        self.clear_oneof_fields(desc);
        let number = desc.number();
        self.set_by_number(number, value);
    }

    /// Removes the field.
    pub(crate) fn clear<D: FieldDescriptorLike>(&mut self, desc: &D)
        requires
            old(self).wf(),
            desc.spec_wf(),
        ensures
            final(self).wf(),
            final(self).spec_map() == old(self).spec_map().remove(desc.spec_info().number),
    {
        self.clear_by_number(desc.number());
    }

    /// Removes the field, returning its value if it was set.
    pub(crate) fn take<D: FieldDescriptorLike>(&mut self, desc: &D) -> (r: Option<Value>)
        requires
            old(self).wf(),
            desc.spec_wf(),
        ensures
            final(self).wf(),
            final(self).spec_map() == old(self).spec_map().remove(desc.spec_info().number),
            r == (match value_in(old(self).spec_map(), desc.spec_info().number) {
                Some(v) => if has_value(desc.spec_pool(), desc.spec_info(), v) {
                    Some(v)
                } else {
                    None
                },
                None => None,
            }),
    {
        let number = desc.number();
        match self.take_slot(number) {
            Some(ValueOrUnknown::Value(value)) => {
                if desc.has(&value) {
                    Some(value)
                } else {
                    None
                }
            },
            _ => None,
        }
    }

    /// The unknown fields, in ascending number order.
    pub(crate) fn iter_unknown(&self) -> (r: Vec<&UnknownField>)
        ensures
            r@.len() == unknown_fields_of(self.fields@).len(),
            forall|i: int| 0 <= i < r@.len() ==> *r@[i] == unknown_fields_of(self.fields@)[i],
    {
        let mut r: Vec<&UnknownField> = Vec::new();
        let mut i: usize = 0;
        while i < self.fields.len()
            invariant
                i <= self.fields@.len(),
                r@.len() == unknown_fields_of(self.fields@.take(i as int)).len(),
                forall|k: int| 0 <= k < r@.len() ==> *r@[k] == unknown_fields_of(self.fields@.take(i as int))[k],
            decreases self.fields@.len() - i,
        {
            proof {
                assert(self.fields@.take(i + 1).drop_last() == self.fields@.take(i as int));
            }
            let ghost before = r@;
            if let ValueOrUnknown::Unknown(unknowns) = &self.fields[i].1 {
                let items = unknowns.iter();
                let mut j: usize = 0;
                while j < items.len()
                    invariant
                        j <= items@.len(),
                        items@ == unknowns.fields@,
                        r@.len() == before.len() + j,
                        forall|k: int| 0 <= k < before.len() ==> r@[k] == before[k],
                        forall|k: int| 0 <= k < j ==> *r@[before.len() + k] == items@[k],
                    decreases items@.len() - j,
                {
                    r.push(&items[j]);
                    j = j + 1;
                }
            }
            proof {
                let prev = unknown_fields_of(self.fields@.take(i as int));
                let next = unknown_fields_of(self.fields@.take(i + 1));
                assert(self.fields@.take(i + 1).last() == self.fields@[i as int]);
                assert(next == prev + match self.fields@[i as int].1 {
                    ValueOrUnknown::Unknown(u) => u.fields@,
                    _ => Seq::empty(),
                });
                assert forall|k: int| 0 <= k < r@.len() implies *r@[k] == next[k] by {
                    if k < prev.len() {
                        assert(r@[k] == before[k]);
                    } else {
                        assert(*r@[before.len() + (k - before.len())] == self.fields@[i as int].1->Unknown_0.fields@[k - before.len()]);
                    }
                }
            }
            i = i + 1;
        }
        proof {
            assert(self.fields@.take(self.fields@.len() as int) == self.fields@);
        }
        r
    }
}

/// The number of slots at the front of `slots` whose numbers are at most
/// `n`: in sorted slots, the position after the last of them.
pub open spec fn slots_up_to(slots: Seq<(u32, ValueOrUnknown)>, n: u32) -> int
    decreases slots.len(),
{
    if slots.len() == 0 || slots[0].0 > n {
        0
    } else {
        1 + slots_up_to(slots.drop_first(), n)
    }
}

/// In sorted slots, the slots at most `n` are those before the first slot
/// above it.
proof fn lemma_slots_up_to(slots: Seq<(u32, ValueOrUnknown)>, n: u32, j: int)
    requires
        0 <= j <= slots.len(),
        forall|k: int| 0 <= k < j ==> (#[trigger] slots[k]).0 <= n,
        forall|k: int| j <= k < slots.len() ==> (#[trigger] slots[k]).0 > n,
    ensures
        slots_up_to(slots, n) == j,
    decreases slots.len(),
{
    if slots.len() > 0 && j > 0 {
        let t = slots.drop_first();
        assert forall|k: int| 0 <= k < j - 1 implies (#[trigger] t[k]).0 <= n by {
            assert(t[k] == slots[k + 1]);
        }
        assert forall|k: int| j - 1 <= k < t.len() implies (#[trigger] t[k]).0 > n by {
            assert(t[k] == slots[k + 1]);
        }
        lemma_slots_up_to(t, n, j - 1);
    }
}

/// The unknown fields of two runs of slots, one after the other, are
/// those of the first run followed by those of the second.
proof fn lemma_unknown_fields_concat(a: Seq<(u32, ValueOrUnknown)>, b: Seq<(u32, ValueOrUnknown)>)
    ensures
        unknown_fields_of(a + b) == unknown_fields_of(a) + unknown_fields_of(b),
    decreases b.len(),
{
    if b.len() == 0 {
        assert(a + b =~= a);
        assert(unknown_fields_of(a) + Seq::<UnknownField>::empty() =~= unknown_fields_of(a));
    } else {
        assert((a + b).drop_last() =~= a + b.drop_last());
        assert((a + b).last() == b.last());
        lemma_unknown_fields_concat(a, b.drop_last());
        assert(unknown_fields_of(a + b) =~= unknown_fields_of(a) + unknown_fields_of(b));
    }
}

/// The unknown fields of one slot.
proof fn lemma_unknown_fields_one(slot: (u32, ValueOrUnknown))
    ensures
        unknown_fields_of(seq![slot]) == match slot.1 {
            ValueOrUnknown::Unknown(u) => u.fields@,
            _ => Seq::empty(),
        },
{
    assert(seq![slot].drop_last() =~= Seq::<(u32, ValueOrUnknown)>::empty());
    assert(seq![slot].last() == slot);
    assert(unknown_fields_of(Seq::<(u32, ValueOrUnknown)>::empty()) == Seq::<UnknownField>::empty());
    assert(Seq::<UnknownField>::empty() + match slot.1 {
        ValueOrUnknown::Unknown(u) => u.fields@,
        _ => Seq::empty(),
    } =~= match slot.1 {
        ValueOrUnknown::Unknown(u) => u.fields@,
        _ => Seq::empty(),
    });
}

/// The unknown fields of the slots, slot by slot in order.
pub open spec fn unknown_fields_of(slots: Seq<(u32, ValueOrUnknown)>) -> Seq<UnknownField>
    decreases slots.len(),
{
    if slots.len() == 0 {
        Seq::empty()
    } else {
        unknown_fields_of(slots.drop_last()) + match slots.last().1 {
            ValueOrUnknown::Unknown(u) => u.fields@,
            _ => Seq::empty(),
        }
    }
}

impl ValueOrUnknown {
    pub fn is_value(&self) -> (r: bool)
        ensures
            r == self is Value,
    {
        match self {
            ValueOrUnknown::Value(_) => true,
            _ => false,
        }
    }
}

/// The positions below `n` where `p` holds, in ascending order.
pub open spec fn positions_where(n: nat, p: spec_fn(int) -> bool) -> Seq<int>
    decreases n,
{
    if n == 0 {
        Seq::empty()
    } else {
        positions_where((n - 1) as nat, p) + if p(n - 1) {
            seq![n - 1]
        } else {
            Seq::empty()
        }
    }
}

pub(crate) proof fn lemma_positions_bound(n: nat, p: spec_fn(int) -> bool)
    ensures
        forall|i: int| 0 <= i < positions_where(n, p).len() ==> 0 <= #[trigger] positions_where(n, p)[i] < n
            && p(positions_where(n, p)[i]),
        positions_where(n, p).len() <= n,
        forall|i: int, j: int|
            0 <= i < j < positions_where(n, p).len() ==> #[trigger] positions_where(n, p)[i] < #[trigger] positions_where(
                n,
                p,
            )[j],
    decreases n,
{
    if n > 0 {
        lemma_positions_bound((n - 1) as nat, p);
    }
}

/// Whether a slot holds a value of a field of message `mi` that counts as
/// set with it.
pub open(crate) spec fn is_set_field(pool: DescriptorPoolInner, mi: int, slot: (u32, ValueOrUnknown)) -> bool {
    &&& slot.1 is Value
    &&& pool.field_index(mi, slot.0) is Some
    &&& has_value(pool, pool.field_info(mi, pool.field_index(mi, slot.0)->Some_0 as int), slot.1->Value_0)
}

/// Whether a slot holds a value of an extension of message `mi` that
/// counts as set with it.
pub open(crate) spec fn is_set_extension(pool: DescriptorPoolInner, mi: int, slot: (u32, ValueOrUnknown)) -> bool {
    &&& slot.1 is Value
    &&& pool.extension_of(mi, slot.0) is Some
    &&& has_value(pool, pool.ext_info(pool.extension_of(mi, slot.0)->Some_0 as int), slot.1->Value_0)
}

/// The slots, with those at the given kind of set entry emptied.
pub open(crate) spec fn taken_where(slots: Seq<(u32, ValueOrUnknown)>, p: spec_fn(int) -> bool) -> Seq<(u32, ValueOrUnknown)> {
    Seq::new(slots.len(), |i: int| if p(i) { (slots[i].0, ValueOrUnknown::Taken) } else { slots[i] })
}

impl DynamicMessageFieldSet {
    /// The fields that are set, with their values, in ascending number
    /// order.
    pub(crate) fn iter_fields<'a>(&'a self, message: &MessageDescriptor) -> (r: Vec<(FieldDescriptor, &'a Value)>)
        requires
            self.wf(),
            message.wf(),
        ensures
            ({
                let pool = message.spec_pool().spec_inner();
                let mi = message.spec_index() as int;
                let ps = positions_where(self.fields@.len(), |i: int| is_set_field(pool, mi, self.fields@[i]));
                &&& r@.len() == ps.len()
                &&& forall|k: int| 0 <= k < r@.len() ==> {
                    &&& (#[trigger] r@[k]).0.spec_message() == *message
                    &&& Some(r@[k].0.spec_index()) == pool.field_index(mi, self.fields@[ps[k]].0)
                    &&& r@[k].0.wf()
                    &&& ValueOrUnknown::Value(*r@[k].1) == self.fields@[ps[k]].1
                }
            }),
    {
        let ghost pool = message.spec_pool().spec_inner();
        let ghost mi = message.spec_index() as int;
        let ghost p = |i: int| is_set_field(pool, mi, self.fields@[i]);
        let mut r: Vec<(FieldDescriptor, &'a Value)> = Vec::new();
        let mut i: usize = 0;
        while i < self.fields.len()
            invariant
                message.wf(),
                pool == message.spec_pool().spec_inner(),
                mi == message.spec_index() as int,
                p == (|i: int| is_set_field(pool, mi, self.fields@[i])),
                i <= self.fields@.len(),
                r@.len() == positions_where(i as nat, p).len(),
                forall|k: int| 0 <= k < r@.len() ==> {
                    &&& (#[trigger] r@[k]).0.spec_message() == *message
                    &&& Some(r@[k].0.spec_index()) == pool.field_index(mi, self.fields@[positions_where(i as nat, p)[k]].0)
                    &&& r@[k].0.wf()
                    &&& ValueOrUnknown::Value(*r@[k].1) == self.fields@[positions_where(i as nat, p)[k]].1
                },
            decreases self.fields@.len() - i,
        {
            let ghost prev = positions_where(i as nat, p);
            proof {
                assert(positions_where((i + 1) as nat, p) == prev + if p(i as int) { seq![i as int] } else { Seq::empty() });
            }
            if let ValueOrUnknown::Value(value) = &self.fields[i].1 {
                match message.get_field(self.fields[i].0) {
                    Some(field) => {
                        if field.has(value) {
                            r.push((field, value));
                        }
                    },
                    None => {},
                }
            }
            i = i + 1;
        }
        r
    }

    /// The extensions that are set, with their values, in ascending number
    /// order.
    pub(crate) fn iter_extensions<'a>(&'a self, message: &MessageDescriptor) -> (r: Vec<(ExtensionDescriptor, &'a Value)>)
        requires
            self.wf(),
            message.wf(),
        ensures
            ({
                let pool = message.spec_pool().spec_inner();
                let mi = message.spec_index() as int;
                let ps = positions_where(self.fields@.len(), |i: int| is_set_extension(pool, mi, self.fields@[i]));
                &&& r@.len() == ps.len()
                &&& forall|k: int| 0 <= k < r@.len() ==> {
                    &&& (#[trigger] r@[k]).0.spec_pool() == message.spec_pool()
                    &&& Some(r@[k].0.spec_index()) == pool.extension_of(mi, self.fields@[ps[k]].0)
                    &&& r@[k].0.wf()
                    &&& ValueOrUnknown::Value(*r@[k].1) == self.fields@[ps[k]].1
                }
            }),
    {
        let ghost pool = message.spec_pool().spec_inner();
        let ghost mi = message.spec_index() as int;
        let ghost p = |i: int| is_set_extension(pool, mi, self.fields@[i]);
        let mut r: Vec<(ExtensionDescriptor, &'a Value)> = Vec::new();
        let mut i: usize = 0;
        while i < self.fields.len()
            invariant
                message.wf(),
                pool == message.spec_pool().spec_inner(),
                mi == message.spec_index() as int,
                p == (|i: int| is_set_extension(pool, mi, self.fields@[i])),
                i <= self.fields@.len(),
                r@.len() == positions_where(i as nat, p).len(),
                forall|k: int| 0 <= k < r@.len() ==> {
                    &&& (#[trigger] r@[k]).0.spec_pool() == message.spec_pool()
                    &&& Some(r@[k].0.spec_index()) == pool.extension_of(mi, self.fields@[positions_where(i as nat, p)[k]].0)
                    &&& r@[k].0.wf()
                    &&& ValueOrUnknown::Value(*r@[k].1) == self.fields@[positions_where(i as nat, p)[k]].1
                },
            decreases self.fields@.len() - i,
        {
            let ghost prev = positions_where(i as nat, p);
            proof {
                assert(positions_where((i + 1) as nat, p) == prev + if p(i as int) { seq![i as int] } else { Seq::empty() });
            }
            if let ValueOrUnknown::Value(value) = &self.fields[i].1 {
                match message.get_extension(self.fields[i].0) {
                    Some(extension) => {
                        if extension.has(value) {
                            r.push((extension, value));
                        }
                    },
                    None => {},
                }
            }
            i = i + 1;
        }
        r
    }

    /// Takes the values of the set fields out, in ascending number order,
    /// leaving their slots empty.
    pub(crate) fn take_fields(&mut self, message: &MessageDescriptor) -> (r: Vec<(FieldDescriptor, Value)>)
        requires
            old(self).wf(),
            message.wf(),
        ensures
            final(self).wf(),
            ({
                let pool = message.spec_pool().spec_inner();
                let mi = message.spec_index() as int;
                let slots = old(self).fields@;
                let p = |i: int| is_set_field(pool, mi, slots[i]);
                let ps = positions_where(slots.len(), p);
                &&& final(self).fields@ == taken_where(slots, p)
                &&& r@.len() == ps.len()
                &&& forall|k: int| 0 <= k < r@.len() ==> {
                    &&& (#[trigger] r@[k]).0.spec_message() == *message
                    &&& Some(r@[k].0.spec_index()) == pool.field_index(mi, slots[ps[k]].0)
                    &&& r@[k].0.wf()
                    &&& ValueOrUnknown::Value(r@[k].1) == slots[ps[k]].1
                }
            }),
    {
        let ghost pool = message.spec_pool().spec_inner();
        let ghost mi = message.spec_index() as int;
        let ghost slots = self.fields@;
        let ghost p = |i: int| is_set_field(pool, mi, slots[i]);
        let mut r: Vec<(FieldDescriptor, Value)> = Vec::new();
        let mut i: usize = 0;
        while i < self.fields.len()
            invariant
                message.wf(),
                pool == message.spec_pool().spec_inner(),
                mi == message.spec_index() as int,
                p == (|i: int| is_set_field(pool, mi, slots[i])),
                self.fields@.len() == slots.len(),
                i <= slots.len(),
                forall|j: int| 0 <= j < i ==> #[trigger] self.fields@[j] == taken_where(slots, p)[j],
                forall|j: int| i <= j < slots.len() ==> #[trigger] self.fields@[j] == slots[j],
                r@.len() == positions_where(i as nat, p).len(),
                forall|k: int| 0 <= k < r@.len() ==> {
                    &&& (#[trigger] r@[k]).0.spec_message() == *message
                    &&& Some(r@[k].0.spec_index()) == pool.field_index(mi, slots[positions_where(i as nat, p)[k]].0)
                    &&& r@[k].0.wf()
                    &&& ValueOrUnknown::Value(r@[k].1) == slots[positions_where(i as nat, p)[k]].1
                },
            decreases slots.len() - i,
        {
            let ghost prev = positions_where(i as nat, p);
            proof {
                assert(positions_where((i + 1) as nat, p) == prev + if p(i as int) { seq![i as int] } else { Seq::empty() });
                assert(self.fields@[i as int] == slots[i as int]);
            }
            let number = self.fields[i].0;
            let take = match &self.fields[i].1 {
                ValueOrUnknown::Value(value) => match message.get_field(number) {
                    Some(field) => field.has(value),
                    None => false,
                },
                _ => false,
            };
            if take {
                let mut entry = (number, ValueOrUnknown::Taken);
                self.fields.set_and_swap(i, &mut entry);
                let field = message.get_field(number).unwrap();
                r.push((field, entry.1.unwrap_value()));
            }
            i = i + 1;
        }
        proof {
            assert(self.fields@ =~= taken_where(slots, p));
            lemma_taken_sorted(slots, p);
        }
        r
    }

    /// Takes the values of the set extensions out, in ascending number
    /// order, leaving their slots empty.
    pub(crate) fn take_extensions(&mut self, message: &MessageDescriptor) -> (r: Vec<(ExtensionDescriptor, Value)>)
        requires
            old(self).wf(),
            message.wf(),
        ensures
            final(self).wf(),
            ({
                let pool = message.spec_pool().spec_inner();
                let mi = message.spec_index() as int;
                let slots = old(self).fields@;
                let p = |i: int| is_set_extension(pool, mi, slots[i]);
                let ps = positions_where(slots.len(), p);
                &&& final(self).fields@ == taken_where(slots, p)
                &&& r@.len() == ps.len()
                &&& forall|k: int| 0 <= k < r@.len() ==> {
                    &&& (#[trigger] r@[k]).0.spec_pool() == message.spec_pool()
                    &&& Some(r@[k].0.spec_index()) == pool.extension_of(mi, slots[ps[k]].0)
                    &&& r@[k].0.wf()
                    &&& ValueOrUnknown::Value(r@[k].1) == slots[ps[k]].1
                }
            }),
    {
        let ghost pool = message.spec_pool().spec_inner();
        let ghost mi = message.spec_index() as int;
        let ghost slots = self.fields@;
        let ghost p = |i: int| is_set_extension(pool, mi, slots[i]);
        let mut r: Vec<(ExtensionDescriptor, Value)> = Vec::new();
        let mut i: usize = 0;
        while i < self.fields.len()
            invariant
                message.wf(),
                pool == message.spec_pool().spec_inner(),
                mi == message.spec_index() as int,
                p == (|i: int| is_set_extension(pool, mi, slots[i])),
                self.fields@.len() == slots.len(),
                i <= slots.len(),
                forall|j: int| 0 <= j < i ==> #[trigger] self.fields@[j] == taken_where(slots, p)[j],
                forall|j: int| i <= j < slots.len() ==> #[trigger] self.fields@[j] == slots[j],
                r@.len() == positions_where(i as nat, p).len(),
                forall|k: int| 0 <= k < r@.len() ==> {
                    &&& (#[trigger] r@[k]).0.spec_pool() == message.spec_pool()
                    &&& Some(r@[k].0.spec_index()) == pool.extension_of(mi, slots[positions_where(i as nat, p)[k]].0)
                    &&& r@[k].0.wf()
                    &&& ValueOrUnknown::Value(r@[k].1) == slots[positions_where(i as nat, p)[k]].1
                },
            decreases slots.len() - i,
        {
            let ghost prev = positions_where(i as nat, p);
            proof {
                assert(positions_where((i + 1) as nat, p) == prev + if p(i as int) { seq![i as int] } else { Seq::empty() });
                assert(self.fields@[i as int] == slots[i as int]);
            }
            let number = self.fields[i].0;
            let take = match &self.fields[i].1 {
                ValueOrUnknown::Value(value) => match message.get_extension(number) {
                    Some(extension) => extension.has(value),
                    None => false,
                },
                _ => false,
            };
            if take {
                let mut entry = (number, ValueOrUnknown::Taken);
                self.fields.set_and_swap(i, &mut entry);
                let extension = message.get_extension(number).unwrap();
                r.push((extension, entry.1.unwrap_value()));
            }
            i = i + 1;
        }
        proof {
            assert(self.fields@ =~= taken_where(slots, p));
            lemma_taken_sorted(slots, p);
        }
        r
    }

    /// Takes the unknown fields out, slot by slot in ascending number
    /// order, leaving their slots empty.
    pub(crate) fn take_unknown(&mut self) -> (r: Vec<UnknownField>)
        requires
            old(self).wf(),
        ensures
            final(self).wf(),
            final(self).fields@ == taken_where(old(self).fields@, |i: int| old(self).fields@[i].1 is Unknown),
            r@ == unknown_fields_of(old(self).fields@),
    {
        let ghost slots = self.fields@;
        let ghost p = |i: int| slots[i].1 is Unknown;
        let mut r: Vec<UnknownField> = Vec::new();
        let mut i: usize = 0;
        while i < self.fields.len()
            invariant
                p == (|i: int| slots[i].1 is Unknown),
                self.fields@.len() == slots.len(),
                i <= slots.len(),
                forall|j: int| 0 <= j < i ==> #[trigger] self.fields@[j] == taken_where(slots, p)[j],
                forall|j: int| i <= j < slots.len() ==> #[trigger] self.fields@[j] == slots[j],
                r@ == unknown_fields_of(slots.take(i as int)),
            decreases slots.len() - i,
        {
            proof {
                assert(self.fields@[i as int] == slots[i as int]);
                assert(slots.take(i + 1).drop_last() == slots.take(i as int));
                assert(slots.take(i + 1).last() == slots[i as int]);
            }
            if self.fields[i].1.is_unknown() {
                let number = self.fields[i].0;
                let mut entry = (number, ValueOrUnknown::Taken);
                self.fields.set_and_swap(i, &mut entry);
                let mut set = entry.1.unwrap_unknown();
                r.append(&mut set.fields);
            }
            i = i + 1;
        }
        proof {
            assert(self.fields@ =~= taken_where(slots, p));
            lemma_taken_sorted(slots, p);
            assert(slots.take(i as int) == slots);
        }
        r
    }
}

/// Emptying slots keeps their numbers, so the order stays sorted.
proof fn lemma_taken_sorted(slots: Seq<(u32, ValueOrUnknown)>, p: spec_fn(int) -> bool)
    requires
        sorted_by_number(slots),
    ensures
        sorted_by_number(taken_where(slots, p)),
{
    let t = taken_where(slots, p);
    assert forall|i: int, j: int| 0 <= i < j < t.len() implies t[i].0 < t[j].0 by {
        assert(t[i].0 == slots[i].0 && t[j].0 == slots[j].0);
    }
}

impl ValueOrUnknown {
    pub fn is_unknown(&self) -> (r: bool)
        ensures
            r == self is Unknown,
    {
        match self {
            ValueOrUnknown::Unknown(_) => true,
            _ => false,
        }
    }
}


/// An entry of a message's contents: a field with its value (a default
/// where it is not set), a set extension, or the unknown fields under one
/// number.
pub enum ValueAndDescriptor<'a> {
    Field(ValueRef<'a>, FieldDescriptor),
    Extension(&'a Value, ExtensionDescriptor),
    Unknown(&'a UnknownFieldSet),
}

/// The field indices of message `mi`, in declaration order or in
/// ascending number order.
pub open spec fn field_order(pool: DescriptorPoolInner, mi: int, index_order: bool) -> Seq<u32> {
    let msg = pool.messages@[mi];
    if index_order {
        Seq::new(msg.fields@.len(), |i: int| i as u32)
    } else {
        msg.field_numbers.spec_entries().map_values(|e: (u32, u32)| e.1)
    }
}

/// Whether field `f` of message `mi` is listed among the contents: when it
/// is set, or, with `include_default`, when it has no presence.
pub open spec fn lists_field(
    pool: DescriptorPoolInner,
    mi: int,
    map: Map<u32, ValueOrUnknown>,
    f: u32,
    include_default: bool,
) -> bool {
    let info = pool.field_info(mi, f as int);
    let set = value_in(map, info.number) matches Some(v) && has_value(pool, info, v);
    if include_default {
        !info.supports_presence || set
    } else {
        set
    }
}

/// Whether a slot is listed after the fields: a set extension, or unknown
/// fields.
pub open spec fn lists_slot(pool: DescriptorPoolInner, mi: int, slot: (u32, ValueOrUnknown)) -> bool {
    is_set_extension(pool, mi, slot) || slot.1 is Unknown
}

impl DynamicMessageFieldSet {
    /// The contents of the message: first its fields, in declaration
    /// order if `index_order` and else in ascending number order, each
    /// with its value, those that are not set left out unless
    /// `include_default` and the field has no presence; then, slot by slot
    /// in ascending number order, the set extensions and the unknown
    /// fields.
    pub(crate) fn iter<'a>(
        &'a self,
        message: &MessageDescriptor,
        include_default: bool,
        index_order: bool,
    ) -> (r: Vec<ValueAndDescriptor<'a>>)
        requires
            self.wf(),
            message.wf(),
        ensures
            ({
                let pool = message.spec_pool().spec_inner();
                let mi = message.spec_index() as int;
                let map = self.spec_map();
                let order = field_order(pool, mi, index_order);
                let fs = positions_where(order.len(), |k: int| lists_field(pool, mi, map, order[k], include_default));
                let xs = positions_where(self.fields@.len(), |i: int| lists_slot(pool, mi, self.fields@[i]));
                &&& r@.len() == fs.len() + xs.len()
                &&& forall|k: int| 0 <= k < fs.len() ==> match #[trigger] r@[k] {
                    ValueAndDescriptor::Field(v, f) => {
                        &&& f.spec_message() == *message
                        &&& f.spec_index() == order[fs[k]]
                        &&& f.wf()
                        &&& match value_in(map, f.spec_info().number) {
                            Some(x) => v.spec_value() == x,
                            None => is_canonical_default(pool, f.spec_info(), v.spec_value()),
                        }
                    },
                    _ => false,
                }
                &&& forall|j: int| fs.len() <= j < r@.len() ==> {
                    let slot = self.fields@[xs[j - fs.len()]];
                    match #[trigger] r@[j] {
                        ValueAndDescriptor::Extension(v, e) => {
                            &&& e.spec_pool() == message.spec_pool()
                            &&& Some(e.spec_index()) == pool.extension_of(mi, slot.0)
                            &&& e.wf()
                            &&& slot.1 == ValueOrUnknown::Value(*v)
                        },
                        ValueAndDescriptor::Unknown(u) => slot.1 == ValueOrUnknown::Unknown(*u),
                        _ => false,
                    }
                }
            }),
    {
        let ghost pool = message.spec_pool().spec_inner();
        let ghost mi = message.spec_index() as int;
        let ghost map = self.spec_map();
        let ghost order = field_order(pool, mi, index_order);
        let ghost p = |k: int| lists_field(pool, mi, map, order[k], include_default);
        let fields = if index_order {
            message.fields_in_index_order()
        } else {
            message.fields()
        };
        proof {
            assert(fields@.len() == order.len());
            assert forall|k: int| 0 <= k < fields@.len() implies #[trigger] fields@[k].spec_index() == order[k] by {}
        }
        let mut r: Vec<ValueAndDescriptor<'a>> = Vec::new();
        let mut k: usize = 0;
        while k < fields.len()
            invariant
                self.wf(),
                message.wf(),
                pool == message.spec_pool().spec_inner(),
                mi == message.spec_index() as int,
                map == self.spec_map(),
                p == (|k: int| lists_field(pool, mi, map, order[k], include_default)),
                fields@.len() == order.len(),
                forall|i: int| 0 <= i < fields@.len() ==> {
                    &&& (#[trigger] fields@[i]).spec_message() == *message
                    &&& fields@[i].spec_index() == order[i]
                    &&& fields@[i].wf()
                },
                k <= fields@.len(),
                r@.len() == positions_where(k as nat, p).len(),
                forall|i: int| 0 <= i < r@.len() ==> match #[trigger] r@[i] {
                    ValueAndDescriptor::Field(v, f) => {
                        &&& f.spec_message() == *message
                        &&& f.spec_index() == order[positions_where(k as nat, p)[i]]
                        &&& f.wf()
                        &&& match value_in(map, f.spec_info().number) {
                            Some(x) => v.spec_value() == x,
                            None => is_canonical_default(pool, f.spec_info(), v.spec_value()),
                        }
                    },
                    _ => false,
                },
            decreases fields@.len() - k,
        {
            let ghost prev = positions_where(k as nat, p);
            proof {
                assert(positions_where((k + 1) as nat, p) == prev + if p(k as int) { seq![k as int] } else { Seq::empty() });
            }
            let f = fields[k].clone();
            let set = self.has(&f);
            let listed = if include_default {
                !FieldDescriptorLike::supports_presence(&f) || set
            } else {
                set
            };
            if listed {
                let v = self.get(&f);
                r.push(ValueAndDescriptor::Field(v, f));
            }
            k = k + 1;
        }
        let ghost fs = positions_where(order.len(), p);
        let ghost q = |i: int| lists_slot(pool, mi, self.fields@[i]);
        let mut i: usize = 0;
        while i < self.fields.len()
            invariant
                self.wf(),
                message.wf(),
                pool == message.spec_pool().spec_inner(),
                mi == message.spec_index() as int,
                map == self.spec_map(),
                q == (|i: int| lists_slot(pool, mi, self.fields@[i])),
                i <= self.fields@.len(),
                r@.len() == fs.len() + positions_where(i as nat, q).len(),
                forall|k: int| 0 <= k < fs.len() ==> match #[trigger] r@[k] {
                    ValueAndDescriptor::Field(v, f) => {
                        &&& f.spec_message() == *message
                        &&& f.spec_index() == order[fs[k]]
                        &&& f.wf()
                        &&& match value_in(map, f.spec_info().number) {
                            Some(x) => v.spec_value() == x,
                            None => is_canonical_default(pool, f.spec_info(), v.spec_value()),
                        }
                    },
                    _ => false,
                },
                forall|j: int| fs.len() <= j < r@.len() ==> {
                    let slot = self.fields@[positions_where(i as nat, q)[j - fs.len()]];
                    match #[trigger] r@[j] {
                        ValueAndDescriptor::Extension(v, e) => {
                            &&& e.spec_pool() == message.spec_pool()
                            &&& Some(e.spec_index()) == pool.extension_of(mi, slot.0)
                            &&& e.wf()
                            &&& slot.1 == ValueOrUnknown::Value(*v)
                        },
                        ValueAndDescriptor::Unknown(u) => slot.1 == ValueOrUnknown::Unknown(*u),
                        _ => false,
                    }
                },
            decreases self.fields@.len() - i,
        {
            let ghost prev = positions_where(i as nat, q);
            proof {
                assert(positions_where((i + 1) as nat, q) == prev + if q(i as int) { seq![i as int] } else { Seq::empty() });
            }
            match &self.fields[i].1 {
                ValueOrUnknown::Value(value) => {
                    match message.get_extension(self.fields[i].0) {
                        Some(extension) => {
                            if extension.has(value) {
                                r.push(ValueAndDescriptor::Extension(value, extension));
                            }
                        },
                        None => {},
                    }
                },
                ValueOrUnknown::Unknown(unknown) => {
                    r.push(ValueAndDescriptor::Unknown(unknown));
                },
                ValueOrUnknown::Taken => {},
            }
            i = i + 1;
        }
        r
    }
}

} // verus!
