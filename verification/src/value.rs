//! Dynamic field values and map keys.

use vstd::prelude::*;
use vstd::string::StrSliceExecFns;
use crate::message::DynamicMessage;
use crate::descriptor::{DescriptorPool, DescriptorPoolInner, FieldInfo, KindIndex, MessageDescriptor};
use crate::wire::WireType;

verus! {

/// A dynamic field value. Floating-point values are held as their
/// IEEE-754 bit patterns.
#[derive(Debug, PartialEq)]
pub enum Value {
    Bool(bool),
    I32(i32),
    I64(i64),
    U32(u32),
    U64(u64),
    F32(u32),
    F64(u64),
    String(String),
    Bytes(Vec<u8>),
    EnumNumber(i32),
    Message(DynamicMessage),
    List(Vec<Value>),
    MapEntries(Vec<(MapKey, Value)>),
}

/// Whether a single (non-container, non-message) value has the
/// representation of a field kind.
pub open spec fn scalar_matches_kind(kind: KindIndex, v: Value) -> bool {
    match v {
        Value::Bool(_) => kind is Bool,
        Value::I32(_) => kind is Int32 || kind is Sint32 || kind is Sfixed32,
        Value::I64(_) => kind is Int64 || kind is Sint64 || kind is Sfixed64,
        Value::U32(_) => kind is Uint32 || kind is Fixed32,
        Value::U64(_) => kind is Uint64 || kind is Fixed64,
        Value::F32(_) => kind is Float,
        Value::F64(_) => kind is Double,
        Value::String(_) => kind is String,
        Value::Bytes(_) => kind is Bytes,
        Value::EnumNumber(_) => kind is Enum,
        _ => false,
    }
}

/// Whether a map key has the representation of a key kind.
pub open spec fn key_matches_kind(kind: KindIndex, k: MapKey) -> bool {
    match k {
        MapKey::Bool(_) => kind is Bool,
        MapKey::I32(_) => kind is Int32 || kind is Sint32 || kind is Sfixed32,
        MapKey::I64(_) => kind is Int64 || kind is Sint64 || kind is Sfixed64,
        MapKey::U32(_) => kind is Uint32 || kind is Fixed32,
        MapKey::U64(_) => kind is Uint64 || kind is Fixed64,
        MapKey::String(_) => kind is String,
    }
}

/// Two map keys are the same key.
pub open spec fn same_key(a: MapKey, b: MapKey) -> bool {
    match (a, b) {
        (MapKey::String(x), MapKey::String(y)) => x@ == y@,
        _ => a == b,
    }
}

/// Two single values are equal (strings and bytes by content, floats by
/// bit pattern).
pub open spec fn same_scalar(a: Value, b: Value) -> bool {
    match (a, b) {
        (Value::String(x), Value::String(y)) => x@ == y@,
        (Value::Bytes(x), Value::Bytes(y)) => x@ == y@,
        (Value::Bool(x), Value::Bool(y)) => x == y,
        (Value::I32(x), Value::I32(y)) => x == y,
        (Value::I64(x), Value::I64(y)) => x == y,
        (Value::U32(x), Value::U32(y)) => x == y,
        (Value::U64(x), Value::U64(y)) => x == y,
        (Value::F32(x), Value::F32(y)) => x == y,
        (Value::F64(x), Value::F64(y)) => x == y,
        (Value::EnumNumber(x), Value::EnumNumber(y)) => x == y,
        _ => false,
    }
}

/// The number of an enum kind's first (default) value.
pub open(crate) spec fn enum_default_number(pool: DescriptorPoolInner, kind: KindIndex) -> i32 {
    pool.enums@[kind->Enum_0 as int].values@[0].number
}

/// Whether a single value equals the zero value of its kind: false,
/// zero (either sign for floats), empty, the first enum value, or a
/// message with no fields set.
pub open(crate) spec fn is_default_for_kind(pool: DescriptorPoolInner, kind: KindIndex, v: Value) -> bool {
    match v {
        Value::Bool(b) => !b,
        Value::I32(x) => x == 0,
        Value::I64(x) => x == 0,
        Value::U32(x) => x == 0,
        Value::U64(x) => x == 0,
        Value::F32(bits) => bits == 0 || bits == 0x8000_0000,
        Value::F64(bits) => bits == 0 || bits == 0x8000_0000_0000_0000,
        Value::String(s) => s@.len() == 0,
        Value::Bytes(b) => b@.len() == 0,
        Value::EnumNumber(x) => kind is Enum && x == enum_default_number(pool, kind),
        Value::Message(m) => m.fields.fields@.len() == 0,
        _ => false,
    }
}

/// Whether a value equals the default of a field with these parts: an
/// empty list or map for containers, else the declared default or the
/// kind's zero.
pub open(crate) spec fn is_default_parts(
    pool: DescriptorPoolInner,
    is_list: bool,
    is_map: bool,
    kind: KindIndex,
    declared: Option<Value>,
    v: Value,
) -> bool {
    if is_list {
        v is List && v->List_0@.len() == 0
    } else if is_map {
        v is MapEntries && v->MapEntries_0@.len() == 0
    } else {
        match declared {
            Some(d) => same_scalar(v, d),
            None => is_default_for_kind(pool, kind, v),
        }
    }
}

/// Whether a value equals the default of a field.
pub open(crate) spec fn is_default_for(pool: DescriptorPoolInner, info: FieldInfo, v: Value) -> bool {
    is_default_parts(pool, info.is_list, info.is_map, info.kind, info.default, v)
}

/// The value a field reads as when it is not set: an empty container,
/// the declared default, or the kind's zero (positive zero for floats, an
/// empty message of the kind's type).
pub open(crate) spec fn is_canonical_default(pool: DescriptorPoolInner, info: FieldInfo, v: Value) -> bool {
    if info.is_list || info.is_map || info.default is Some {
        is_default_for(pool, info, v)
    } else {
        is_kind_zero(pool, info.kind, v)
    }
}

/// The zero value of a kind.
pub open(crate) spec fn is_kind_zero(pool: DescriptorPoolInner, kind: KindIndex, v: Value) -> bool {
    match kind {
        KindIndex::Double => v == Value::F64(0),
        KindIndex::Float => v == Value::F32(0),
        KindIndex::Int32 | KindIndex::Sint32 | KindIndex::Sfixed32 => v == Value::I32(0),
        KindIndex::Int64 | KindIndex::Sint64 | KindIndex::Sfixed64 => v == Value::I64(0),
        KindIndex::Uint32 | KindIndex::Fixed32 => v == Value::U32(0),
        KindIndex::Uint64 | KindIndex::Fixed64 => v == Value::U64(0),
        KindIndex::Bool => v == Value::Bool(false),
        KindIndex::String => v is String && v->String_0@.len() == 0,
        KindIndex::Bytes => v is Bytes && v->Bytes_0@.len() == 0,
        KindIndex::Enum(_) => v == Value::EnumNumber(enum_default_number(pool, kind)),
        KindIndex::Message(i) | KindIndex::Group(i) => {
            &&& v is Message
            &&& v->Message_0.desc.index == i
            &&& v->Message_0.desc.pool.spec_inner() == pool
            &&& v->Message_0.fields.fields@.len() == 0
        },
    }
}

/// The zero of a kind is the kind's default: a value that is the zero of
/// its kind (false, zero, empty, the first enum value, an empty message)
/// is one `is_default_for_kind` accepts.
pub proof fn law_kind_zero_is_default(pool: DescriptorPoolInner, kind: KindIndex, v: Value)
    requires
        is_kind_zero(pool, kind, v),
    ensures
        is_default_for_kind(pool, kind, v),
{
}

/// A field that is not set reads as its default, so unless it tracks
/// presence it does not count as set with the value it reads as.
pub proof fn law_unset_reads_default(pool: DescriptorPoolInner, info: FieldInfo, v: Value)
    requires
        is_canonical_default(pool, info, v),
    ensures
        is_default_for(pool, info, v),
        !info.supports_presence ==> !has_value(pool, info, v),
{
    if !(info.is_list || info.is_map || info.default is Some) {
        law_kind_zero_is_default(pool, info.kind, v);
    }
}

/// Whether the field counts as set with this value: it tracks presence,
/// or the value is not its default.
pub open(crate) spec fn has_value(pool: DescriptorPoolInner, info: FieldInfo, v: Value) -> bool {
    info.supports_presence || !is_default_for(pool, info, v)
}

/// A single value of a kind: a scalar of matching representation, or a
/// well-formed message of the kind's message type in the same pool.
pub open(crate) spec fn valid_element(pool: DescriptorPoolInner, kind: KindIndex, v: Value) -> bool
    decreases v, 0nat,
{
    match v {
        Value::Message(m) => {
            &&& kind.spec_is_message()
            &&& m.desc.index == (match kind {
                KindIndex::Message(i) => i,
                KindIndex::Group(i) => i,
                _ => 0,
            })
            &&& m.desc.pool.spec_inner() == pool
            &&& m.fields_valid()
        },
        _ => scalar_matches_kind(kind, v),
    }
}

/// A value fit for a field: a list of elements for list fields, a map
/// with distinct keys for map fields, else a single element.
pub open(crate) spec fn valid_value(pool: DescriptorPoolInner, info: FieldInfo, v: Value) -> bool
    decreases v, 1nat,
{
    if info.is_list {
        match v {
            Value::List(vs) => forall|i: int|
                0 <= i < vs@.len() ==> valid_element(pool, info.kind, #[trigger] vs@[i]),
            _ => false,
        }
    } else if info.is_map {
        match v {
            Value::MapEntries(es) => {
                let (ki, vi) = pool.map_entry_infos(info.kind);
                &&& forall|i: int|
                    0 <= i < es@.len() ==> key_matches_kind(ki.kind, (#[trigger] es@[i]).0)
                        && valid_value(pool, vi, es@[i].1)
                &&& forall|i: int, j: int|
                    0 <= i < j < es@.len() ==> !same_key(#[trigger] es@[i].0, #[trigger] es@[j].0)
            },
            _ => false,
        }
    } else {
        valid_element(pool, info.kind, v)
    }
}

/// The wire type a single value of a kind is encoded with.
pub open spec fn spec_wire_type(kind: KindIndex) -> WireType {
    match kind {
        KindIndex::Double | KindIndex::Fixed64 | KindIndex::Sfixed64 => WireType::SixtyFourBit,
        KindIndex::Float | KindIndex::Fixed32 | KindIndex::Sfixed32 => WireType::ThirtyTwoBit,
        KindIndex::String | KindIndex::Bytes | KindIndex::Message(_) => WireType::LengthDelimited,
        KindIndex::Group(_) => WireType::StartGroup,
        _ => WireType::Varint,
    }
}

pub fn wire_type_for_kind_index(kind: KindIndex) -> (r: WireType)
    ensures
        r == spec_wire_type(kind),
{
    match kind {
        KindIndex::Double | KindIndex::Fixed64 | KindIndex::Sfixed64 => WireType::SixtyFourBit,
        KindIndex::Float | KindIndex::Fixed32 | KindIndex::Sfixed32 => WireType::ThirtyTwoBit,
        KindIndex::String | KindIndex::Bytes | KindIndex::Message(_) => WireType::LengthDelimited,
        KindIndex::Group(_) => WireType::StartGroup,
        _ => WireType::Varint,
    }
}

/// Whether a value is a single (non-container, non-message) value.
pub open spec fn is_scalar(v: Value) -> bool {
    !(v is Message || v is List || v is MapEntries)
}

impl Value {
    /// A copy of a single value.
    pub fn copy_scalar(&self) -> (r: Value)
        requires
            is_scalar(*self),
        ensures
            same_scalar(r, *self),
            is_scalar(r),
            !(self is String || self is Bytes) ==> r == *self,
            forall|k: KindIndex| scalar_matches_kind(k, *self) ==> scalar_matches_kind(k, r),
    {
        match self {
            Value::Bool(v) => Value::Bool(*v),
            Value::I32(v) => Value::I32(*v),
            Value::I64(v) => Value::I64(*v),
            Value::U32(v) => Value::U32(*v),
            Value::U64(v) => Value::U64(*v),
            Value::F32(v) => Value::F32(*v),
            Value::F64(v) => Value::F64(*v),
            Value::String(v) => Value::String(v.clone()),
            Value::Bytes(v) => Value::Bytes(vstd::slice::slice_to_vec(v.as_slice())),
            Value::EnumNumber(v) => Value::EnumNumber(*v),
            _ => Value::Bool(false),
        }
    }
}

/// Compares two single values by content.
pub fn same_scalar_exec(a: &Value, b: &Value) -> (r: bool)
    ensures
        r == same_scalar(*a, *b),
{
    match (a, b) {
        (Value::String(x), Value::String(y)) => *x == *y,
        (Value::Bytes(x), Value::Bytes(y)) => bytes_equal(x, y),
        (Value::Bool(x), Value::Bool(y)) => *x == *y,
        (Value::I32(x), Value::I32(y)) => *x == *y,
        (Value::I64(x), Value::I64(y)) => *x == *y,
        (Value::U32(x), Value::U32(y)) => *x == *y,
        (Value::U64(x), Value::U64(y)) => *x == *y,
        (Value::F32(x), Value::F32(y)) => *x == *y,
        (Value::F64(x), Value::F64(y)) => *x == *y,
        (Value::EnumNumber(x), Value::EnumNumber(y)) => *x == *y,
        _ => false,
    }
}

fn bytes_equal(x: &Vec<u8>, y: &Vec<u8>) -> (r: bool)
    ensures
        r == (x@ == y@),
{
    if x.len() != y.len() {
        return false;
    }
    let mut i: usize = 0;
    while i < x.len()
        invariant
            x@.len() == y@.len(),
            i <= x@.len(),
            forall|k: int| 0 <= k < i ==> x@[k] == y@[k],
        decreases x@.len() - i,
    {
        if x[i] != y[i] {
            return false;
        }
        i = i + 1;
    }
    assert(x@ =~= y@);
    true
}

/// Whether a value equals the default of a field with these parts.
pub fn is_default_for_field_parts(
    pool: &DescriptorPool,
    value: &Value,
    is_list: bool,
    is_map: bool,
    kind: KindIndex,
    declared_default: Option<&Value>,
) -> (r: bool)
    requires
        pool.wf(),
        pool.spec_inner().kind_ok(kind),
    ensures
        r == is_default_parts(
            pool.spec_inner(),
            is_list,
            is_map,
            kind,
            match declared_default {
                Some(d) => Some(*d),
                None => None,
            },
            *value,
        ),
{
    if is_list {
        match value {
            Value::List(l) => l.len() == 0,
            _ => false,
        }
    } else if is_map {
        match value {
            Value::MapEntries(m) => m.len() == 0,
            _ => false,
        }
    } else {
        match declared_default {
            Some(d) => same_scalar_exec(value, d),
            None => match value {
                Value::Bool(b) => !*b,
                Value::I32(x) => *x == 0,
                Value::I64(x) => *x == 0,
                Value::U32(x) => *x == 0,
                Value::U64(x) => *x == 0,
                Value::F32(bits) => *bits == 0 || *bits == 0x8000_0000,
                Value::F64(bits) => *bits == 0 || *bits == 0x8000_0000_0000_0000,
                Value::String(s) => s.as_str().unicode_len() == 0,
                Value::Bytes(b) => b.len() == 0,
                Value::EnumNumber(x) => match kind {
                    KindIndex::Enum(e) => *x == pool.enum_default_number(e),
                    _ => false,
                },
                Value::Message(m) => m.fields.fields.len() == 0,
                _ => false,
            },
        }
    }
}

/// The zero key of a key kind.
pub open spec fn spec_mapkey_default(kind: KindIndex) -> MapKey {
    match kind {
        KindIndex::Bool => MapKey::Bool(false),
        KindIndex::Int32 | KindIndex::Sint32 | KindIndex::Sfixed32 => MapKey::I32(0),
        KindIndex::Int64 | KindIndex::Sint64 | KindIndex::Sfixed64 => MapKey::I64(0),
        KindIndex::Uint32 | KindIndex::Fixed32 => MapKey::U32(0),
        KindIndex::Uint64 | KindIndex::Fixed64 => MapKey::U64(0),
        _ => MapKey::Bool(false),
    }
}

/// Whether a key is the zero key of its kind.
pub open spec fn is_default_key(k: MapKey, kind: KindIndex) -> bool {
    key_matches_kind(kind, k) && match k {
        MapKey::Bool(b) => !b,
        MapKey::I32(x) => x == 0,
        MapKey::I64(x) => x == 0,
        MapKey::U32(x) => x == 0,
        MapKey::U64(x) => x == 0,
        MapKey::String(s) => s@.len() == 0,
    }
}

/// The zero key of a key kind.
pub fn mapkey_default_for_kind_index(kind: KindIndex) -> (r: MapKey)
    requires
        kind.spec_is_map_key(),
    ensures
        kind is String ==> r is String && r->String_0@.len() == 0,
        !(kind is String) ==> r == spec_mapkey_default(kind),
        key_matches_kind(kind, r),
        is_default_key(r, kind),
{
    match kind {
        KindIndex::Bool => MapKey::Bool(false),
        KindIndex::Int32 | KindIndex::Sint32 | KindIndex::Sfixed32 => MapKey::I32(0),
        KindIndex::Int64 | KindIndex::Sint64 | KindIndex::Sfixed64 => MapKey::I64(0),
        KindIndex::Uint32 | KindIndex::Fixed32 => MapKey::U32(0),
        KindIndex::Uint64 | KindIndex::Fixed64 => MapKey::U64(0),
        _ => MapKey::String(String::new()),
    }
}

/// Whether a key is the zero key of its kind.
pub fn is_default_mapkey(key: &MapKey, kind: KindIndex) -> (r: bool)
    ensures
        r == is_default_key(*key, kind),
{
    match (key, kind) {
        (MapKey::Bool(b), KindIndex::Bool) => !*b,
        (MapKey::I32(x), KindIndex::Int32 | KindIndex::Sint32 | KindIndex::Sfixed32) => *x == 0,
        (MapKey::I64(x), KindIndex::Int64 | KindIndex::Sint64 | KindIndex::Sfixed64) => *x == 0,
        (MapKey::U32(x), KindIndex::Uint32 | KindIndex::Fixed32) => *x == 0,
        (MapKey::U64(x), KindIndex::Uint64 | KindIndex::Fixed64) => *x == 0,
        (MapKey::String(s), KindIndex::String) => s.as_str().unicode_len() == 0,
        _ => false,
    }
}

/// A map key of a dynamic message.
#[derive(Debug, Clone, PartialEq, Eq)]
pub enum MapKey {
    Bool(bool),
    I32(i32),
    I64(i64),
    U32(u32),
    U64(u64),
    String(String),
}

impl MapKey {
    /// The key's value, if it is a `bool` key.
    pub fn as_bool(&self) -> (r: Option<bool>)
        ensures
            r == (match self {
                MapKey::Bool(v) => Some(*v),
                _ => None,
            }),
    {
        match self {
            MapKey::Bool(v) => Some(*v),
            _ => None,
        }
    }

    /// A mutable reference to the key's value, if it is a `bool` key.
    pub fn as_bool_mut(&mut self) -> (r: Option<&mut bool>)
        ensures
            match r {
                Some(v) => *old(self) is Bool && *v == old(self)->Bool_0 && *final(self) == MapKey::Bool(*final(v)),
                None => !(*old(self) is Bool) && *final(self) == *old(self),
            },
    {
        match self {
            MapKey::Bool(v) => Some(v),
            _ => None,
        }
    }

    /// The key's value, if it is a `i32` key.
    pub fn as_i32(&self) -> (r: Option<i32>)
        ensures
            r == (match self {
                MapKey::I32(v) => Some(*v),
                _ => None,
            }),
    {
        match self {
            MapKey::I32(v) => Some(*v),
            _ => None,
        }
    }

    /// A mutable reference to the key's value, if it is a `i32` key.
    pub fn as_i32_mut(&mut self) -> (r: Option<&mut i32>)
        ensures
            match r {
                Some(v) => *old(self) is I32 && *v == old(self)->I32_0 && *final(self) == MapKey::I32(*final(v)),
                None => !(*old(self) is I32) && *final(self) == *old(self),
            },
    {
        match self {
            MapKey::I32(v) => Some(v),
            _ => None,
        }
    }

    /// The key's value, if it is a `i64` key.
    pub fn as_i64(&self) -> (r: Option<i64>)
        ensures
            r == (match self {
                MapKey::I64(v) => Some(*v),
                _ => None,
            }),
    {
        match self {
            MapKey::I64(v) => Some(*v),
            _ => None,
        }
    }

    /// A mutable reference to the key's value, if it is a `i64` key.
    pub fn as_i64_mut(&mut self) -> (r: Option<&mut i64>)
        ensures
            match r {
                Some(v) => *old(self) is I64 && *v == old(self)->I64_0 && *final(self) == MapKey::I64(*final(v)),
                None => !(*old(self) is I64) && *final(self) == *old(self),
            },
    {
        match self {
            MapKey::I64(v) => Some(v),
            _ => None,
        }
    }

    /// The key's value, if it is a `u32` key.
    pub fn as_u32(&self) -> (r: Option<u32>)
        ensures
            r == (match self {
                MapKey::U32(v) => Some(*v),
                _ => None,
            }),
    {
        match self {
            MapKey::U32(v) => Some(*v),
            _ => None,
        }
    }

    /// A mutable reference to the key's value, if it is a `u32` key.
    pub fn as_u32_mut(&mut self) -> (r: Option<&mut u32>)
        ensures
            match r {
                Some(v) => *old(self) is U32 && *v == old(self)->U32_0 && *final(self) == MapKey::U32(*final(v)),
                None => !(*old(self) is U32) && *final(self) == *old(self),
            },
    {
        match self {
            MapKey::U32(v) => Some(v),
            _ => None,
        }
    }

    /// The key's value, if it is a `u64` key.
    pub fn as_u64(&self) -> (r: Option<u64>)
        ensures
            r == (match self {
                MapKey::U64(v) => Some(*v),
                _ => None,
            }),
    {
        match self {
            MapKey::U64(v) => Some(*v),
            _ => None,
        }
    }

    /// A mutable reference to the key's value, if it is a `u64` key.
    pub fn as_u64_mut(&mut self) -> (r: Option<&mut u64>)
        ensures
            match r {
                Some(v) => *old(self) is U64 && *v == old(self)->U64_0 && *final(self) == MapKey::U64(*final(v)),
                None => !(*old(self) is U64) && *final(self) == *old(self),
            },
    {
        match self {
            MapKey::U64(v) => Some(v),
            _ => None,
        }
    }

    /// The key's string, if it is a string key.
    pub fn as_str(&self) -> (r: Option<&str>)
        ensures
            match r {
                Some(v) => self is String && v@ == self->String_0@,
                None => !(self is String),
            },
    {
        match self {
            MapKey::String(v) => Some(v.as_str()),
            _ => None,
        }
    }

    /// A mutable reference to the key's string, if it is a string key.
    pub fn as_string_mut(&mut self) -> (r: Option<&mut String>)
        ensures
            match r {
                Some(v) => *old(self) is String && *v == old(self)->String_0 && *final(self) == MapKey::String(*final(v)),
                None => !(*old(self) is String) && *final(self) == *old(self),
            },
    {
        match self {
            MapKey::String(v) => Some(v),
            _ => None,
        }
    }
}

} // verus!
