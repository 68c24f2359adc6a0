//! The protobuf encoding of dynamic values and messages: what it is
//! (spec), how long it is, and the code that writes it.

use vstd::prelude::*;
use crate::descriptor::{DescriptorPoolInner, FieldInfo, KindIndex, RawFieldView};
use crate::fields::{FieldDescriptorLike, ValueOrUnknown};
use crate::message::{slot_ok, DynamicMessage};
use crate::unknown::spec_encode_unknown_set;
use crate::value::{
    is_default_for, is_default_for_field_parts, is_default_key, is_default_mapkey, key_matches_kind,
    scalar_matches_kind, valid_element, valid_value, MapKey, Value,
};
use crate::sorted::sorted_by_number;
use crate::wire::{
    encode_bool, encode_bytes, encode_fixed32, encode_fixed64, encode_int32, encode_int64,
    encode_key, encode_sfixed32, encode_sfixed64, encode_sint32, encode_sint64, encode_string,
    encode_uint32, encode_uint64, encode_varint, encoded_len_bool, encoded_len_bytes,
    encoded_len_fixed32, encoded_len_fixed64, encoded_len_int32, encoded_len_int64,
    encoded_len_sfixed32, encoded_len_sfixed64, encoded_len_sint32, encoded_len_sint64,
    encoded_len_string, encoded_len_uint32, encoded_len_uint64, encoded_len_varint, from_sint32,
    from_sint64, key_len, lemma_key_len_bound, lemma_varint_len, put_i32_le, put_i64_le,
    put_u32_le, put_u64_le, valid_tag, WireType, lemma_field_lens, spec_fixed32_field, spec_fixed64_field, spec_group_field, spec_i32_bits,
    spec_i64_bits, spec_key_len, spec_le32, spec_le64, spec_len_field, spec_utf8, spec_varint,
    spec_varint_field, spec_varint_len, spec_zigzag,
};

verus! {

/// The record a single (non-message) value writes under field `n` of a
/// kind; a value whose representation does not match the kind writes
/// nothing.
pub open spec fn spec_encode_scalar(n: nat, kind: KindIndex, v: Value) -> Seq<u8> {
    match (v, kind) {
        (Value::Bool(b), KindIndex::Bool) => spec_varint_field(n, if b { 1 } else { 0 }),
        (Value::I32(x), KindIndex::Int32) => spec_varint_field(n, spec_i64_bits(x as int)),
        (Value::I32(x), KindIndex::Sint32) => spec_varint_field(n, spec_zigzag(x as int)),
        (Value::I32(x), KindIndex::Sfixed32) => spec_fixed32_field(n, spec_i32_bits(x as int)),
        (Value::I64(x), KindIndex::Int64) => spec_varint_field(n, spec_i64_bits(x as int)),
        (Value::I64(x), KindIndex::Sint64) => spec_varint_field(n, spec_zigzag(x as int)),
        (Value::I64(x), KindIndex::Sfixed64) => spec_fixed64_field(
            n,
            spec_i64_bits(x as int) as u64,
        ),
        (Value::U32(x), KindIndex::Uint32) => spec_varint_field(n, x as nat),
        (Value::U32(x), KindIndex::Fixed32) => spec_fixed32_field(n, x),
        (Value::U64(x), KindIndex::Uint64) => spec_varint_field(n, x as nat),
        (Value::U64(x), KindIndex::Fixed64) => spec_fixed64_field(n, x),
        (Value::F32(bits), KindIndex::Float) => spec_fixed32_field(n, bits),
        (Value::F64(bits), KindIndex::Double) => spec_fixed64_field(n, bits),
        (Value::String(s), KindIndex::String) => spec_len_field(n, spec_utf8(s@)),
        (Value::Bytes(b), KindIndex::Bytes) => spec_len_field(n, b@),
        (Value::EnumNumber(x), KindIndex::Enum(_)) => spec_varint_field(n, spec_i64_bits(x as int)),
        _ => Seq::empty(),
    }
}

/// The byte length of `spec_encode_scalar`, by part.
pub open spec fn spec_len_scalar(n: nat, kind: KindIndex, v: Value) -> nat {
    match (v, kind) {
        (Value::Bool(b), KindIndex::Bool) => spec_key_len(n) + 1,
        (Value::I32(x), KindIndex::Int32) => spec_key_len(n) + spec_varint_len(spec_i64_bits(x as int)),
        (Value::I32(x), KindIndex::Sint32) => spec_key_len(n) + spec_varint_len(spec_zigzag(x as int)),
        (Value::I32(x), KindIndex::Sfixed32) => spec_key_len(n) + 4,
        (Value::I64(x), KindIndex::Int64) => spec_key_len(n) + spec_varint_len(spec_i64_bits(x as int)),
        (Value::I64(x), KindIndex::Sint64) => spec_key_len(n) + spec_varint_len(spec_zigzag(x as int)),
        (Value::I64(x), KindIndex::Sfixed64) => spec_key_len(n) + 8,
        (Value::U32(x), KindIndex::Uint32) => spec_key_len(n) + spec_varint_len(x as nat),
        (Value::U32(x), KindIndex::Fixed32) => spec_key_len(n) + 4,
        (Value::U64(x), KindIndex::Uint64) => spec_key_len(n) + spec_varint_len(x as nat),
        (Value::U64(x), KindIndex::Fixed64) => spec_key_len(n) + 8,
        (Value::F32(bits), KindIndex::Float) => spec_key_len(n) + 4,
        (Value::F64(bits), KindIndex::Double) => spec_key_len(n) + 8,
        (Value::String(s), KindIndex::String) => spec_key_len(n) + spec_varint_len(
            spec_utf8(s@).len(),
        ) + spec_utf8(s@).len(),
        (Value::Bytes(b), KindIndex::Bytes) => spec_key_len(n) + spec_varint_len(b@.len())
            + b@.len(),
        (Value::EnumNumber(x), KindIndex::Enum(_)) => spec_key_len(n) + spec_varint_len(
            spec_i64_bits(x as int),
        ),
        _ => 0,
    }
}

pub proof fn lemma_len_scalar(n: nat, kind: KindIndex, v: Value)
    ensures
        spec_len_scalar(n, kind, v) == spec_encode_scalar(n, kind, v).len(),
{
    match (v, kind) {
        (Value::Bool(b), KindIndex::Bool) => lemma_field_lens(n, if b { 1 } else { 0 }, seq![], 0, 0),
        (Value::I32(x), KindIndex::Int32) => lemma_field_lens(n, spec_i64_bits(x as int), seq![], 0, 0),
        (Value::I32(x), KindIndex::Sint32) => lemma_field_lens(n, spec_zigzag(x as int), seq![], 0, 0),
        (Value::I64(x), KindIndex::Int64) => lemma_field_lens(n, spec_i64_bits(x as int), seq![], 0, 0),
        (Value::I64(x), KindIndex::Sint64) => lemma_field_lens(n, spec_zigzag(x as int), seq![], 0, 0),
        (Value::U32(x), KindIndex::Uint32) => lemma_field_lens(n, x as nat, seq![], 0, 0),
        (Value::U64(x), KindIndex::Uint64) => lemma_field_lens(n, x as nat, seq![], 0, 0),
        (Value::String(s), KindIndex::String) => lemma_field_lens(n, 0, spec_utf8(s@), 0, 0),
        (Value::Bytes(b), KindIndex::Bytes) => lemma_field_lens(n, 0, b@, 0, 0),
        (Value::EnumNumber(x), KindIndex::Enum(_)) => lemma_field_lens(n, spec_i64_bits(x as int), seq![], 0, 0),
        _ => lemma_field_lens(n, 0, seq![], 0, 0),
    }
}

/// One element of a packed list: its bare varint or fixed-width bytes.
pub open spec fn spec_packed_element(kind: KindIndex, v: Value) -> Seq<u8> {
    match (v, kind) {
        (Value::EnumNumber(x), KindIndex::Enum(_)) => spec_varint(spec_i64_bits(x as int)),
        (Value::F64(bits), KindIndex::Double) => spec_le64(bits),
        (Value::F32(bits), KindIndex::Float) => spec_le32(bits),
        (Value::I32(x), KindIndex::Int32) => spec_varint(spec_i64_bits(x as int)),
        (Value::I64(x), KindIndex::Int64) => spec_varint(spec_i64_bits(x as int)),
        (Value::U32(x), KindIndex::Uint32) => spec_varint(x as nat),
        (Value::U64(x), KindIndex::Uint64) => spec_varint(x as nat),
        (Value::I32(x), KindIndex::Sint32) => spec_varint(spec_zigzag(x as int)),
        (Value::I64(x), KindIndex::Sint64) => spec_varint(spec_zigzag(x as int)),
        (Value::U32(x), KindIndex::Fixed32) => spec_le32(x),
        (Value::U64(x), KindIndex::Fixed64) => spec_le64(x),
        (Value::I32(x), KindIndex::Sfixed32) => spec_le32(spec_i32_bits(x as int)),
        (Value::I64(x), KindIndex::Sfixed64) => spec_le64(spec_i64_bits(x as int) as u64),
        (Value::Bool(b), KindIndex::Bool) => spec_varint(if b { 1 } else { 0 }),
        _ => Seq::empty(),
    }
}

/// The byte length of one packed element, by part.
pub open spec fn spec_packed_element_len(kind: KindIndex, v: Value) -> nat {
    match (v, kind) {
        (Value::EnumNumber(x), KindIndex::Enum(_)) => spec_varint_len(spec_i64_bits(x as int)),
        (Value::F64(bits), KindIndex::Double) => 8,
        (Value::F32(bits), KindIndex::Float) => 4,
        (Value::I32(x), KindIndex::Int32) => spec_varint_len(spec_i64_bits(x as int)),
        (Value::I64(x), KindIndex::Int64) => spec_varint_len(spec_i64_bits(x as int)),
        (Value::U32(x), KindIndex::Uint32) => spec_varint_len(x as nat),
        (Value::U64(x), KindIndex::Uint64) => spec_varint_len(x as nat),
        (Value::I32(x), KindIndex::Sint32) => spec_varint_len(spec_zigzag(x as int)),
        (Value::I64(x), KindIndex::Sint64) => spec_varint_len(spec_zigzag(x as int)),
        (Value::U32(x), KindIndex::Fixed32) => 4,
        (Value::U64(x), KindIndex::Fixed64) => 8,
        (Value::I32(x), KindIndex::Sfixed32) => 4,
        (Value::I64(x), KindIndex::Sfixed64) => 8,
        (Value::Bool(b), KindIndex::Bool) => 1,
        _ => 0,
    }
}

/// The payload of a packed list: its elements, in order.
pub open spec fn spec_packed_payload(kind: KindIndex, vs: Seq<Value>) -> Seq<u8>
    decreases vs.len(),
{
    if vs.len() == 0 {
        Seq::empty()
    } else {
        spec_packed_payload(kind, vs.drop_last()) + spec_packed_element(kind, vs.last())
    }
}

/// The byte length of a packed payload, by element.
pub open spec fn spec_packed_payload_len(kind: KindIndex, vs: Seq<Value>) -> nat
    decreases vs.len(),
{
    if vs.len() == 0 {
        0
    } else {
        spec_packed_payload_len(kind, vs.drop_last()) + spec_packed_element_len(kind, vs.last())
    }
}

pub proof fn lemma_len_packed(kind: KindIndex, vs: Seq<Value>)
    ensures
        spec_packed_payload_len(kind, vs) == spec_packed_payload(kind, vs).len(),
    decreases vs.len(),
{
    if vs.len() > 0 {
        lemma_len_packed(kind, vs.drop_last());
        let v = vs.last();
        match (v, kind) {
            (Value::EnumNumber(x), KindIndex::Enum(_)) => lemma_field_lens(0, spec_i64_bits(x as int), seq![], 0, 0),
            (Value::F64(bits), KindIndex::Double) => lemma_field_lens(0, 0, seq![], 0, bits),
            (Value::F32(bits), KindIndex::Float) => lemma_field_lens(0, 0, seq![], bits, 0),
            (Value::I32(x), KindIndex::Int32) => lemma_field_lens(0, spec_i64_bits(x as int), seq![], 0, 0),
            (Value::I64(x), KindIndex::Int64) => lemma_field_lens(0, spec_i64_bits(x as int), seq![], 0, 0),
            (Value::U32(x), KindIndex::Uint32) => lemma_field_lens(0, x as nat, seq![], 0, 0),
            (Value::U64(x), KindIndex::Uint64) => lemma_field_lens(0, x as nat, seq![], 0, 0),
            (Value::I32(x), KindIndex::Sint32) => lemma_field_lens(0, spec_zigzag(x as int), seq![], 0, 0),
            (Value::I64(x), KindIndex::Sint64) => lemma_field_lens(0, spec_zigzag(x as int), seq![], 0, 0),
            (Value::U32(x), KindIndex::Fixed32) => lemma_field_lens(0, 0, seq![], x, 0),
            (Value::U64(x), KindIndex::Fixed64) => lemma_field_lens(0, 0, seq![], 0, x),
            (Value::I32(x), KindIndex::Sfixed32) => lemma_field_lens(0, 0, seq![], spec_i32_bits(x as int), 0),
            (Value::I64(x), KindIndex::Sfixed64) => lemma_field_lens(0, 0, seq![], 0, spec_i64_bits(x as int) as u64),
            (Value::Bool(b), KindIndex::Bool) => lemma_field_lens(0, if b { 1 } else { 0 }, seq![], 0, 0),
            _ => {},
        }
    }
}

/// The record a map key writes under a map-entry key field (nothing for
/// the zero key of a field without presence).
pub open spec fn spec_encode_key_field(ki: FieldInfo, k: MapKey) -> Seq<u8> {
    if !ki.supports_presence && is_default_key(k, ki.kind) {
        Seq::empty()
    } else {
        spec_encode_scalar(ki.number as nat, ki.kind, key_as_value(k))
    }
}

/// The byte length of a key record, by part.
pub open spec fn spec_len_key_field(ki: FieldInfo, k: MapKey) -> nat {
    if !ki.supports_presence && is_default_key(k, ki.kind) {
        0
    } else {
        spec_len_scalar(ki.number as nat, ki.kind, key_as_value(k))
    }
}

/// A map key as the value of the same representation.
pub open spec fn key_as_value(k: MapKey) -> Value {
    match k {
        MapKey::Bool(b) => Value::Bool(b),
        MapKey::I32(x) => Value::I32(x),
        MapKey::I64(x) => Value::I64(x),
        MapKey::U32(x) => Value::U32(x),
        MapKey::U64(x) => Value::U64(x),
        MapKey::String(s) => Value::String(s),
    }
}

/// The bytes a value writes under a field: nothing for a field without
/// presence at its default, else its record(s).
pub open spec fn spec_encode_value(pool: DescriptorPoolInner, info: FieldInfo, v: Value) -> Seq<u8>
    decreases v, 2nat,
{
    if !info.supports_presence && is_default_for(pool, info, v) {
        Seq::empty()
    } else {
        spec_encode_present(pool, info, v)
    }
}

/// The record(s) of a value that is written: a scalar record, a
/// length-delimited or group record of a message, the elements of a list
/// (one record each, or one packed record), or one record per map entry.
pub open spec fn spec_encode_present(pool: DescriptorPoolInner, info: FieldInfo, v: Value) -> Seq<u8>
    decreases v, 1nat,
{
    let n = info.number as nat;
    match v {
        Value::Message(m) => if info.kind.spec_is_message() {
            if info.is_group {
                spec_group_field(n, spec_encode_message(m))
            } else {
                spec_len_field(n, spec_encode_message(m))
            }
        } else {
            Seq::empty()
        },
        Value::List(vs) => if info.is_list {
            if info.is_packed {
                spec_len_field(n, spec_packed_payload(info.kind, vs@))
            } else {
                spec_encode_list(pool, info, vs@)
            }
        } else {
            Seq::empty()
        },
        Value::MapEntries(es) => if info.is_map {
            spec_encode_map(pool, info, es@)
        } else {
            Seq::empty()
        },
        _ => spec_encode_scalar(n, info.kind, v),
    }
}

/// The records of the elements of an unpacked list, in order.
pub open spec fn spec_encode_list(pool: DescriptorPoolInner, info: FieldInfo, vs: Seq<Value>) -> Seq<u8>
    decreases vs, 0nat,
{
    if vs.len() == 0 {
        Seq::empty()
    } else {
        spec_encode_list(pool, info, vs.drop_last()) + spec_encode_value(pool, info, vs.last())
    }
}

/// The records of two runs of elements of an unpacked list, one after the
/// other, are those of the first run followed by those of the second.
pub(crate) proof fn lemma_encode_list_concat(pool: DescriptorPoolInner, info: FieldInfo, a: Seq<Value>, b: Seq<Value>)
    ensures
        spec_encode_list(pool, info, a + b) == spec_encode_list(pool, info, a) + spec_encode_list(pool, info, b),
    decreases b.len(),
{
    if b.len() == 0 {
        assert(a + b =~= a);
        assert(spec_encode_list(pool, info, a) + Seq::<u8>::empty() =~= spec_encode_list(pool, info, a));
    } else {
        assert((a + b).drop_last() =~= a + b.drop_last());
        assert((a + b).last() == b.last());
        lemma_encode_list_concat(pool, info, a, b.drop_last());
        assert(spec_encode_list(pool, info, a + b) =~= spec_encode_list(pool, info, a) + spec_encode_list(
            pool,
            info,
            b,
        ));
    }
}

/// An unpacked list writes one record per element, in order: a list
/// whose elements are those of `a` followed by those of `b` writes the
/// bytes of `a` followed by those of `b`.
pub proof fn law_unpacked_list_concat(pool: DescriptorPoolInner, info: FieldInfo, a: Value, b: Value, c: Value)
    requires
        info.is_list,
        !info.is_packed,
        a is List,
        b is List,
        c is List,
        c->List_0@ == a->List_0@ + b->List_0@,
    ensures
        spec_encode_value(pool, info, c) == spec_encode_value(pool, info, a) + spec_encode_value(pool, info, b),
{
    lemma_encode_list_concat(pool, info, a->List_0@, b->List_0@);
    assert(spec_encode_list(pool, info, Seq::<Value>::empty()) == Seq::<u8>::empty());
    assert(a->List_0@.len() == 0 ==> a->List_0@ == Seq::<Value>::empty());
    assert(b->List_0@.len() == 0 ==> b->List_0@ == Seq::<Value>::empty());
    assert(c->List_0@.len() == 0 ==> c->List_0@ == Seq::<Value>::empty());
}

/// One length-delimited record per entry, in order: the key record then
/// the value record of the map-entry type.
pub open spec fn spec_encode_map(pool: DescriptorPoolInner, info: FieldInfo, es: Seq<(MapKey, Value)>) -> Seq<
    u8,
>
    decreases es, 0nat,
{
    if es.len() == 0 {
        Seq::empty()
    } else {
        let (ki, vi) = pool.map_entry_infos(info.kind);
        let e = es.last();
        spec_encode_map(pool, info, es.drop_last()) + spec_len_field(
            info.number as nat,
            spec_encode_key_field(ki, e.0) + spec_encode_value(pool, vi, e.1),
        )
    }
}

/// The bytes of a message: each slot's bytes in ascending number order.
pub open(crate) spec fn spec_encode_message(m: DynamicMessage) -> Seq<u8>
    decreases m, 3nat,
{
    spec_encode_slots(m.spec_pool(), m.desc.index as int, m.fields.fields@)
}

/// What one slot writes: a field's or extension's value, or the unknown
/// fields stored there.
pub open spec fn spec_encode_slot(pool: DescriptorPoolInner, mi: int, slot: (u32, ValueOrUnknown)) -> Seq<u8>
    decreases slot, 0nat,
{
    match slot.1 {
        ValueOrUnknown::Taken => Seq::empty(),
        ValueOrUnknown::Unknown(u) => spec_encode_unknown_set(u),
        ValueOrUnknown::Value(v) => match pool.field_index(mi, slot.0) {
            Some(f) => spec_encode_value(pool, pool.field_info(mi, f as int), v),
            None => match pool.extension_of(mi, slot.0) {
                Some(e) => spec_encode_value(pool, pool.ext_info(e as int), v),
                None => Seq::empty(),
            },
        },
    }
}

/// The bytes of a run of slots, in order.
pub open spec fn spec_encode_slots(pool: DescriptorPoolInner, mi: int, s: Seq<(u32, ValueOrUnknown)>) -> Seq<u8>
    decreases s, 0nat,
{
    if s.len() == 0 {
        Seq::empty()
    } else {
        spec_encode_slots(pool, mi, s.drop_last()) + spec_encode_slot(pool, mi, s.last())
    }
}


/// The varint value of a signed 32-bit integer: its sign extension to 64 bits.
fn i32_varint_bits(x: i32) -> (r: u64)
    ensures
        r == spec_i64_bits(x as int),
{
    let r = x as u64;
    assert(x >= 0 ==> r == x) by (bit_vector)
        requires
            r == x as u64,
    ;
    assert(x < 0 ==> r == x + 0x1_0000_0000_0000_0000) by (bit_vector)
        requires
            r == x as u64,
    ;
    r
}

/// The varint value of a signed 64-bit integer: its two's complement bits.
fn i64_varint_bits(x: i64) -> (r: u64)
    ensures
        r == spec_i64_bits(x as int),
{
    let r = x as u64;
    assert(x >= 0 ==> r == x) by (bit_vector)
        requires
            r == x as u64,
    ;
    assert(x < 0 ==> r == x + 0x1_0000_0000_0000_0000) by (bit_vector)
        requires
            r == x as u64,
    ;
    r
}

/// Appends one element of a packed list.
fn encode_packed_element(kind: KindIndex, v: &Value, buf: &mut Vec<u8>)
    requires
        scalar_matches_kind(kind, *v),
        kind.spec_is_packable(),
    ensures
        final(buf)@ == old(buf)@ + spec_packed_element(kind, *v),
{
    match (v, kind) {
        (Value::EnumNumber(x), KindIndex::Enum(_)) => encode_varint(i32_varint_bits(*x), buf),
        (Value::F64(bits), KindIndex::Double) => put_u64_le(buf, *bits),
        (Value::F32(bits), KindIndex::Float) => put_u32_le(buf, *bits),
        (Value::I32(x), KindIndex::Int32) => encode_varint(i32_varint_bits(*x), buf),
        (Value::I64(x), KindIndex::Int64) => encode_varint(i64_varint_bits(*x), buf),
        (Value::U32(x), KindIndex::Uint32) => encode_varint(*x as u64, buf),
        (Value::U64(x), KindIndex::Uint64) => encode_varint(*x, buf),
        (Value::I32(x), KindIndex::Sint32) => encode_varint(from_sint32(*x) as u64, buf),
        (Value::I64(x), KindIndex::Sint64) => encode_varint(from_sint64(*x), buf),
        (Value::U32(x), KindIndex::Fixed32) => put_u32_le(buf, *x),
        (Value::U64(x), KindIndex::Fixed64) => put_u64_le(buf, *x),
        (Value::I32(x), KindIndex::Sfixed32) => put_i32_le(buf, *x),
        (Value::I64(x), KindIndex::Sfixed64) => put_i64_le(buf, *x),
        (Value::Bool(b), KindIndex::Bool) => encode_varint(if *b { 1 } else { 0 }, buf),
        _ => {
            proof {
                assert(false);
            }
        },
    }
}

/// The byte length of one element of a packed list.
fn packed_element_len(kind: KindIndex, v: &Value) -> (r: usize)
    requires
        scalar_matches_kind(kind, *v),
        kind.spec_is_packable(),
    ensures
        r == spec_packed_element_len(kind, *v),
        r <= 10,
{
    match (v, kind) {
        (Value::EnumNumber(x), KindIndex::Enum(_)) => {
            proof { lemma_varint_len(spec_i64_bits(*x as int)); }
            encoded_len_varint(i32_varint_bits(*x))
        },
        (Value::F64(_), KindIndex::Double) => 8,
        (Value::F32(_), KindIndex::Float) => 4,
        (Value::I32(x), KindIndex::Int32) => {
            proof { lemma_varint_len(spec_i64_bits(*x as int)); }
            encoded_len_varint(i32_varint_bits(*x))
        },
        (Value::I64(x), KindIndex::Int64) => {
            proof { lemma_varint_len(spec_i64_bits(*x as int)); }
            encoded_len_varint(i64_varint_bits(*x))
        },
        (Value::U32(x), KindIndex::Uint32) => {
            proof { lemma_varint_len(*x as nat); }
            encoded_len_varint(*x as u64)
        },
        (Value::U64(x), KindIndex::Uint64) => {
            proof { lemma_varint_len(*x as nat); }
            encoded_len_varint(*x)
        },
        (Value::I32(x), KindIndex::Sint32) => {
            let z = from_sint32(*x);
            proof { lemma_varint_len(z as nat); }
            encoded_len_varint(z as u64)
        },
        (Value::I64(x), KindIndex::Sint64) => {
            let z = from_sint64(*x);
            proof { lemma_varint_len(z as nat); }
            encoded_len_varint(z)
        },
        (Value::U32(_), KindIndex::Fixed32) => 4,
        (Value::U64(_), KindIndex::Fixed64) => 8,
        (Value::I32(_), KindIndex::Sfixed32) => 4,
        (Value::I64(_), KindIndex::Sfixed64) => 8,
        (Value::Bool(b), KindIndex::Bool) => {
            proof { lemma_varint_len(if *b { 1 } else { 0 }); }
            encoded_len_varint(if *b { 1 } else { 0 })
        },
        _ => {
            proof {
                assert(false);
            }
            0
        },
    }
}

/// The payload of a prefix of a packed list, and its length, grow one
/// element at a time.
proof fn lemma_packed_step(kind: KindIndex, vs: Seq<Value>, i: int)
    requires
        0 <= i < vs.len(),
    ensures
        spec_packed_payload(kind, vs.take(i + 1)) == spec_packed_payload(kind, vs.take(i))
            + spec_packed_element(kind, vs[i]),
        spec_packed_payload_len(kind, vs.take(i + 1)) == spec_packed_payload_len(kind, vs.take(i))
            + spec_packed_element_len(kind, vs[i]),
{
    assert(vs.take(i + 1).drop_last() == vs.take(i));
    assert(vs.take(i + 1).last() == vs[i]);
}

/// A prefix of a packed list has no longer a payload than the list.
proof fn lemma_packed_prefix(kind: KindIndex, vs: Seq<Value>, i: int)
    requires
        0 <= i <= vs.len(),
    ensures
        spec_packed_payload_len(kind, vs.take(i)) <= spec_packed_payload_len(kind, vs),
    decreases vs.len() - i,
{
    if i < vs.len() {
        lemma_packed_prefix(kind, vs, i + 1);
        lemma_packed_step(kind, vs, i);
    } else {
        assert(vs.take(i) == vs);
    }
}

/// Appends a packed list record: the key, the payload length, and the
/// elements' bare encodings.
fn encode_packed_list(number: u32, kind: KindIndex, values: &Vec<Value>, buf: &mut Vec<u8>)
    requires
        valid_tag(number as nat),
        kind.spec_is_packable(),
        forall|i: int| 0 <= i < values@.len() ==> scalar_matches_kind(kind, #[trigger] values@[i]),
        spec_len_field(number as nat, spec_packed_payload(kind, values@)).len() <= usize::MAX,
    ensures
        final(buf)@ == old(buf)@ + spec_len_field(number as nat, spec_packed_payload(kind, values@)),
{
    let ghost start = buf@;
    proof {
        lemma_len_packed(kind, values@);
        lemma_field_lens(number as nat, 0, spec_packed_payload(kind, values@), 0, 0);
    }
    encode_key(number, WireType::LengthDelimited, buf);
    let mut len: usize = 0;
    let mut i: usize = 0;
    while i < values.len()
        invariant
            i <= values@.len(),
            forall|k: int| 0 <= k < values@.len() ==> scalar_matches_kind(kind, #[trigger] values@[k]),
            kind.spec_is_packable(),
            spec_packed_payload_len(kind, values@) <= usize::MAX,
            len == spec_packed_payload_len(kind, values@.take(i as int)),
        decreases values@.len() - i,
    {
        proof {
            lemma_packed_step(kind, values@, i as int);
            lemma_packed_prefix(kind, values@, i + 1);
        }
        len = len + packed_element_len(kind, &values[i]);
        i = i + 1;
    }
    proof {
        assert(values@.take(i as int) == values@);
    }
    encode_varint(len as u64, buf);
    let ghost header = buf@;
    let mut i: usize = 0;
    while i < values.len()
        invariant
            i <= values@.len(),
            forall|k: int| 0 <= k < values@.len() ==> scalar_matches_kind(kind, #[trigger] values@[k]),
            kind.spec_is_packable(),
            buf@ == header + spec_packed_payload(kind, values@.take(i as int)),
        decreases values@.len() - i,
    {
        proof {
            lemma_packed_step(kind, values@, i as int);
        }
        encode_packed_element(kind, &values[i], buf);
        proof {
            assert(buf@ == header + spec_packed_payload(kind, values@.take(i + 1)));
        }
        i = i + 1;
    }
    proof {
        assert(values@.take(i as int) == values@);
        assert(buf@ == start + spec_len_field(number as nat, spec_packed_payload(kind, values@)));
    }
}

/// The byte length of a packed list record.
fn packed_list_encoded_len(number: u32, kind: KindIndex, values: &Vec<Value>) -> (r: usize)
    requires
        valid_tag(number as nat),
        kind.spec_is_packable(),
        forall|i: int| 0 <= i < values@.len() ==> scalar_matches_kind(kind, #[trigger] values@[i]),
        spec_len_field(number as nat, spec_packed_payload(kind, values@)).len() <= usize::MAX,
    ensures
        r == spec_len_field(number as nat, spec_packed_payload(kind, values@)).len(),
{
    proof {
        lemma_len_packed(kind, values@);
        lemma_field_lens(number as nat, 0, spec_packed_payload(kind, values@), 0, 0);
        lemma_varint_len(spec_packed_payload(kind, values@).len());
    }
    let mut len: usize = 0;
    let mut i: usize = 0;
    while i < values.len()
        invariant
            i <= values@.len(),
            forall|k: int| 0 <= k < values@.len() ==> scalar_matches_kind(kind, #[trigger] values@[k]),
            kind.spec_is_packable(),
            spec_packed_payload_len(kind, values@) <= usize::MAX,
            len == spec_packed_payload_len(kind, values@.take(i as int)),
        decreases values@.len() - i,
    {
        proof {
            lemma_packed_step(kind, values@, i as int);
            lemma_packed_prefix(kind, values@, i + 1);
        }
        len = len + packed_element_len(kind, &values[i]);
        i = i + 1;
    }
    proof {
        assert(values@.take(i as int) == values@);
    }
    key_len(number) + encoded_len_varint(len as u64) + len
}

impl MapKey {
    /// Appends the record of the key under a map-entry key field: nothing
    /// for the zero key of a field without presence.
    pub(crate) fn encode_field(&self, view: &RawFieldView, buf: &mut Vec<u8>)
        requires
            view.wf(),
            key_matches_kind(view.kind, *self),
        ensures
            final(buf)@ == old(buf)@ + spec_encode_key_field(view.spec_info(), *self),
    {
        if !view.supports_presence() && is_default_mapkey(self, view.kind_index()) {
            return;
        }
        let number = view.number();
        match (self, view.kind_index()) {
            (MapKey::Bool(value), KindIndex::Bool) => encode_bool(number, *value, buf),
            (MapKey::I32(value), KindIndex::Int32) => encode_int32(number, *value, buf),
            (MapKey::I32(value), KindIndex::Sint32) => encode_sint32(number, *value, buf),
            (MapKey::I32(value), KindIndex::Sfixed32) => encode_sfixed32(number, *value, buf),
            (MapKey::I64(value), KindIndex::Int64) => encode_int64(number, *value, buf),
            (MapKey::I64(value), KindIndex::Sint64) => encode_sint64(number, *value, buf),
            (MapKey::I64(value), KindIndex::Sfixed64) => encode_sfixed64(number, *value, buf),
            (MapKey::U32(value), KindIndex::Uint32) => encode_uint32(number, *value, buf),
            (MapKey::U32(value), KindIndex::Fixed32) => encode_fixed32(number, *value, buf),
            (MapKey::U64(value), KindIndex::Uint64) => encode_uint64(number, *value, buf),
            (MapKey::U64(value), KindIndex::Fixed64) => encode_fixed64(number, *value, buf),
            (MapKey::String(value), KindIndex::String) => encode_string(number, value, buf),
            _ => {
                proof {
                    assert(false);
                }
            },
        }
    }

    /// The byte length of the key's record under a map-entry key field.
    pub(crate) fn encoded_len(&self, view: &RawFieldView) -> (r: usize)
        requires
            view.wf(),
            key_matches_kind(view.kind, *self),
            spec_encode_key_field(view.spec_info(), *self).len() <= usize::MAX,
        ensures
            r == spec_encode_key_field(view.spec_info(), *self).len(),
    {
        if !view.supports_presence() && is_default_mapkey(self, view.kind_index()) {
            return 0;
        }
        let number = view.number();
        proof {
            lemma_len_scalar(number as nat, view.kind, key_as_value(*self));
        }
        match (self, view.kind_index()) {
            (MapKey::Bool(value), KindIndex::Bool) => encoded_len_bool(number, *value),
            (MapKey::I32(value), KindIndex::Int32) => encoded_len_int32(number, *value),
            (MapKey::I32(value), KindIndex::Sint32) => encoded_len_sint32(number, *value),
            (MapKey::I32(value), KindIndex::Sfixed32) => encoded_len_sfixed32(number, *value),
            (MapKey::I64(value), KindIndex::Int64) => encoded_len_int64(number, *value),
            (MapKey::I64(value), KindIndex::Sint64) => encoded_len_sint64(number, *value),
            (MapKey::I64(value), KindIndex::Sfixed64) => encoded_len_sfixed64(number, *value),
            (MapKey::U32(value), KindIndex::Uint32) => encoded_len_uint32(number, *value),
            (MapKey::U32(value), KindIndex::Fixed32) => encoded_len_fixed32(number, *value),
            (MapKey::U64(value), KindIndex::Uint64) => encoded_len_uint64(number, *value),
            (MapKey::U64(value), KindIndex::Fixed64) => encoded_len_fixed64(number, *value),
            (MapKey::String(value), KindIndex::String) => encoded_len_string(number, value),
            _ => {
                proof {
                    assert(false);
                }
                0
            },
        }
    }
}


/// A value the encoder takes under a field: a value fit for the field, or,
/// for a list field, one element of it.
pub open(crate) spec fn encodable(pool: DescriptorPoolInner, info: FieldInfo, v: Value) -> bool {
    valid_value(pool, info, v) || (info.is_list && valid_element(pool, info.kind, v))
}

proof fn lemma_list_step(pool: DescriptorPoolInner, info: FieldInfo, vs: Seq<Value>, i: int)
    requires
        0 <= i < vs.len(),
    ensures
        spec_encode_list(pool, info, vs.take(i + 1)) == spec_encode_list(pool, info, vs.take(i))
            + spec_encode_value(pool, info, vs[i]),
{
    assert(vs.take(i + 1).drop_last() == vs.take(i));
    assert(vs.take(i + 1).last() == vs[i]);
}

proof fn lemma_list_prefix(pool: DescriptorPoolInner, info: FieldInfo, vs: Seq<Value>, i: int)
    requires
        0 <= i <= vs.len(),
    ensures
        spec_encode_list(pool, info, vs.take(i)).len() <= spec_encode_list(pool, info, vs).len(),
    decreases vs.len() - i,
{
    if i < vs.len() {
        lemma_list_prefix(pool, info, vs, i + 1);
        lemma_list_step(pool, info, vs, i);
    } else {
        assert(vs.take(i) == vs);
    }
}

/// The record of one map entry.
pub open(crate) spec fn spec_encode_entry(pool: DescriptorPoolInner, info: FieldInfo, e: (MapKey, Value)) -> Seq<u8> {
    let (ki, vi) = pool.map_entry_infos(info.kind);
    spec_len_field(info.number as nat, spec_encode_key_field(ki, e.0) + spec_encode_value(pool, vi, e.1))
}

proof fn lemma_map_step(pool: DescriptorPoolInner, info: FieldInfo, es: Seq<(MapKey, Value)>, i: int)
    requires
        0 <= i < es.len(),
    ensures
        spec_encode_map(pool, info, es.take(i + 1)) == spec_encode_map(pool, info, es.take(i))
            + spec_encode_entry(pool, info, es[i]),
{
    assert(es.take(i + 1).drop_last() == es.take(i));
    assert(es.take(i + 1).last() == es[i]);
}

proof fn lemma_map_prefix(pool: DescriptorPoolInner, info: FieldInfo, es: Seq<(MapKey, Value)>, i: int)
    requires
        0 <= i <= es.len(),
    ensures
        spec_encode_map(pool, info, es.take(i)).len() <= spec_encode_map(pool, info, es).len(),
    decreases es.len() - i,
{
    if i < es.len() {
        lemma_map_prefix(pool, info, es, i + 1);
        lemma_map_step(pool, info, es, i);
    } else {
        assert(es.take(i) == es);
    }
}

/// The elements of a list of a packable kind are single values.
proof fn lemma_packable_elements(pool: DescriptorPoolInner, kind: KindIndex, vs: Seq<Value>)
    requires
        kind.spec_is_packable(),
        forall|i: int| 0 <= i < vs.len() ==> valid_element(pool, kind, #[trigger] vs[i]),
    ensures
        forall|i: int| 0 <= i < vs.len() ==> scalar_matches_kind(kind, #[trigger] vs[i]),
{
    assert forall|i: int| 0 <= i < vs.len() implies scalar_matches_kind(kind, #[trigger] vs[i]) by {
        assert(valid_element(pool, kind, vs[i]));
    }
}

/// What an encodable value is, by shape: a list of elements for a list
/// field, a valid map for a map field, else a single element of the kind.
pub(crate) proof fn lemma_encodable_shape(pool: DescriptorPoolInner, info: FieldInfo, v: Value)
    requires
        encodable(pool, info, v),
    ensures
        v is List ==> info.is_list && forall|k: int|
            0 <= k < v->List_0@.len() ==> valid_element(pool, info.kind, #[trigger] v->List_0@[k]),
        v is MapEntries ==> info.is_map && valid_value(pool, info, v),
        !(v is List || v is MapEntries) ==> valid_element(pool, info.kind, v),
        !(v is List || v is MapEntries || v is Message) ==> scalar_matches_kind(info.kind, v),
        v is Message ==> info.kind.spec_is_message(),
{
    reveal_with_fuel(valid_value, 2);
    reveal_with_fuel(valid_element, 2);
}

impl Value {
    /// Appends the record(s) of the value under a field: nothing for a field
    /// without presence at its default; a scalar record; a length-delimited
    /// or group record of a message; the list's elements, one record each
    /// or one packed record; one length-delimited record per map entry.
    pub(crate) fn encode_field(&self, view: &RawFieldView, buf: &mut Vec<u8>)
        requires
            view.wf(),
            encodable(view.spec_pool(), view.spec_info(), *self),
            spec_encode_value(view.spec_pool(), view.spec_info(), *self).len() <= usize::MAX,
        ensures
            final(buf)@ == old(buf)@ + spec_encode_value(view.spec_pool(), view.spec_info(), *self),
        decreases *self, 2nat,
    {
        let ghost pool = view.spec_pool();
        let ghost info = view.spec_info();
        proof {
            lemma_encodable_shape(pool, info, *self);
        }
        if !view.supports_presence() && is_default_for_field_parts(
            view.pool,
            self,
            view.is_list,
            view.is_map,
            view.kind_index(),
            view.declared_default(),
        ) {
            return;
        }
        let number = view.number();
        let ghost start = buf@;
        match (self, view.kind_index()) {
            (Value::Bool(value), KindIndex::Bool) => encode_bool(number, *value, buf),
            (Value::I32(value), KindIndex::Int32) => encode_int32(number, *value, buf),
            (Value::I32(value), KindIndex::Sint32) => encode_sint32(number, *value, buf),
            (Value::I32(value), KindIndex::Sfixed32) => encode_sfixed32(number, *value, buf),
            (Value::I64(value), KindIndex::Int64) => encode_int64(number, *value, buf),
            (Value::I64(value), KindIndex::Sint64) => encode_sint64(number, *value, buf),
            (Value::I64(value), KindIndex::Sfixed64) => encode_sfixed64(number, *value, buf),
            (Value::U32(value), KindIndex::Uint32) => encode_uint32(number, *value, buf),
            (Value::U32(value), KindIndex::Fixed32) => encode_fixed32(number, *value, buf),
            (Value::U64(value), KindIndex::Uint64) => encode_uint64(number, *value, buf),
            (Value::U64(value), KindIndex::Fixed64) => encode_fixed64(number, *value, buf),
            (Value::F32(bits), KindIndex::Float) => encode_fixed32(number, *bits, buf),
            (Value::F64(bits), KindIndex::Double) => encode_fixed64(number, *bits, buf),
            (Value::String(value), KindIndex::String) => encode_string(number, value, buf),
            (Value::Bytes(value), KindIndex::Bytes) => encode_bytes(number, value, buf),
            (Value::EnumNumber(value), KindIndex::Enum(_)) => encode_int32(number, *value, buf),
            (Value::Message(message), KindIndex::Message(_) | KindIndex::Group(_)) => {
                let ghost data = spec_encode_message(*message);
                proof {
                    lemma_field_lens(number as nat, 0, data, 0, 0);
                    assert(valid_element(pool, info.kind, *self));
                    assert(message.desc.pool.spec_inner() == pool);
                    assert(message.wf());
                }
                if view.is_group {
                    encode_key(number, WireType::StartGroup, buf);
                    message.encode_raw(buf);
                    encode_key(number, WireType::EndGroup, buf);
                    proof {
                        assert(buf@ == start + spec_group_field(number as nat, data));
                    }
                } else {
                    let len = message.encoded_len();
                    encode_key(number, WireType::LengthDelimited, buf);
                    encode_varint(len as u64, buf);
                    message.encode_raw(buf);
                    proof {
                        assert(buf@ == start + spec_len_field(number as nat, data));
                    }
                }
            },
            (Value::List(values), _) if view.is_list => {
                if view.is_packed() {
                    proof {
                        lemma_packable_elements(pool, info.kind, values@);
                    }
                    encode_packed_list(number, view.kind_index(), values, buf);
                } else {
                    let mut i: usize = 0;
                    while i < values.len()
                        invariant
                            view.wf(),
                            pool == view.spec_pool(),
                            info == view.spec_info(),
                            info.is_list,
                            *self == Value::List(*values),
                            i <= values@.len(),
                            forall|k: int| 0 <= k < values@.len() ==> valid_element(pool, info.kind, #[trigger] values@[k]),
                            spec_encode_list(pool, info, values@).len() <= usize::MAX,
                            buf@ == start + spec_encode_list(pool, info, values@.take(i as int)),
                        decreases values@.len() - i,
                    {
                        proof {
                            lemma_list_step(pool, info, values@, i as int);
                            lemma_list_prefix(pool, info, values@, i + 1);
                            assert(valid_element(pool, info.kind, values@[i as int]));
                        }
                        assert(decreases_to!(*self => values@[i as int])) by {
                            assert(decreases_to!(*self => (*self)->List_0));
                            assert(decreases_to!((*self)->List_0 => (*self)->List_0@));
                            assert(decreases_to!((*self)->List_0@ => (*self)->List_0@[i as int]));
                        }
                        values[i].encode_field(view, buf);
                        i = i + 1;
                    }
                    proof {
                        assert(values@.take(i as int) == values@);
                    }
                }
            },
            (Value::MapEntries(values), _) if view.is_map => {
                let kv = view.map_entry_fields();
                let (key_view, value_view) = match kv {
                    Some(kv) => kv,
                    None => {
                        proof {
                            assert(false);
                        }
                        return;
                    },
                };
                proof {
                    let (ki, vi) = pool.map_entry_infos(info.kind);
                    assert forall|k: int| 0 <= k < values@.len() implies key_matches_kind(ki.kind, (#[trigger] values@[k]).0)
                        && valid_value(pool, vi, values@[k].1) by {
                        assert(valid_value(pool, info, *self));
                    }
                }
                let mut i: usize = 0;
                while i < values.len()
                    invariant
                        view.wf(),
                        pool == view.spec_pool(),
                        info == view.spec_info(),
                        info.is_map,
                        number == info.number,
                        key_view.wf(),
                        value_view.wf(),
                        key_view.spec_pool() == pool,
                        value_view.spec_pool() == pool,
                        (key_view.spec_info(), value_view.spec_info()) == pool.map_entry_infos(info.kind),
                        i <= values@.len(),
                        forall|k: int| 0 <= k < values@.len() ==> key_matches_kind(key_view.spec_info().kind, (#[trigger] values@[k]).0)
                            && valid_value(pool, value_view.spec_info(), values@[k].1),
                        *self == Value::MapEntries(*values),
                        spec_encode_map(pool, info, values@).len() <= usize::MAX,
                        buf@ == start + spec_encode_map(pool, info, values@.take(i as int)),
                    decreases values@.len() - i,
                {
                    let ghost e = values@[i as int];
                    let ghost ki = key_view.spec_info();
                    let ghost vi = value_view.spec_info();
                    proof {
                        lemma_map_step(pool, info, values@, i as int);
                        lemma_map_prefix(pool, info, values@, i + 1);
                        lemma_field_lens(number as nat, 0, spec_encode_key_field(ki, e.0) + spec_encode_value(pool, vi, e.1), 0, 0);
                        assert(key_matches_kind(ki.kind, e.0) && valid_value(pool, vi, e.1));
                        assert(decreases_to!(*self => values@[i as int].1)) by {
                            assert(decreases_to!(*self => (*self)->MapEntries_0));
                            assert(decreases_to!((*self)->MapEntries_0 => (*self)->MapEntries_0@));
                            assert(decreases_to!((*self)->MapEntries_0@ => (*self)->MapEntries_0@[i as int]));
                            assert(decreases_to!((*self)->MapEntries_0@[i as int] => (*self)->MapEntries_0@[i as int].1));
                        }
                    }
                    let entry = &values[i];
                    let len = entry.0.encoded_len(&key_view) + entry.1.encoded_len(&value_view);
                    encode_key(number, WireType::LengthDelimited, buf);
                    encode_varint(len as u64, buf);
                    entry.0.encode_field(&key_view, buf);
                    entry.1.encode_field(&value_view, buf);
                    proof {
                        assert(buf@ == start + spec_encode_map(pool, info, values@.take(i + 1)));
                    }
                    i = i + 1;
                }
                proof {
                    assert(values@.take(i as int) == values@);
                }
            },
            _ => {
                proof {
                    assert(false);
                }
            },
        }
    }

    /// The byte length of what `encode_field` appends.
    pub(crate) fn encoded_len(&self, view: &RawFieldView) -> (r: usize)
        requires
            view.wf(),
            encodable(view.spec_pool(), view.spec_info(), *self),
            spec_encode_value(view.spec_pool(), view.spec_info(), *self).len() <= usize::MAX,
        ensures
            r == spec_encode_value(view.spec_pool(), view.spec_info(), *self).len(),
        decreases *self, 2nat,
    {
        let ghost pool = view.spec_pool();
        let ghost info = view.spec_info();
        proof {
            lemma_encodable_shape(pool, info, *self);
        }
        if !view.supports_presence() && is_default_for_field_parts(
            view.pool,
            self,
            view.is_list,
            view.is_map,
            view.kind_index(),
            view.declared_default(),
        ) {
            return 0;
        }
        let number = view.number();
        proof {
            lemma_len_scalar(number as nat, info.kind, *self);
            lemma_key_len_bound(number as nat);
        }
        match (self, view.kind_index()) {
            (Value::Bool(value), KindIndex::Bool) => encoded_len_bool(number, *value),
            (Value::I32(value), KindIndex::Int32) => encoded_len_int32(number, *value),
            (Value::I32(value), KindIndex::Sint32) => encoded_len_sint32(number, *value),
            (Value::I32(value), KindIndex::Sfixed32) => encoded_len_sfixed32(number, *value),
            (Value::I64(value), KindIndex::Int64) => encoded_len_int64(number, *value),
            (Value::I64(value), KindIndex::Sint64) => encoded_len_sint64(number, *value),
            (Value::I64(value), KindIndex::Sfixed64) => encoded_len_sfixed64(number, *value),
            (Value::U32(value), KindIndex::Uint32) => encoded_len_uint32(number, *value),
            (Value::U32(value), KindIndex::Fixed32) => encoded_len_fixed32(number, *value),
            (Value::U64(value), KindIndex::Uint64) => encoded_len_uint64(number, *value),
            (Value::U64(value), KindIndex::Fixed64) => encoded_len_fixed64(number, *value),
            (Value::F32(bits), KindIndex::Float) => encoded_len_fixed32(number, *bits),
            (Value::F64(bits), KindIndex::Double) => encoded_len_fixed64(number, *bits),
            (Value::String(value), KindIndex::String) => encoded_len_string(number, value),
            (Value::Bytes(value), KindIndex::Bytes) => encoded_len_bytes(number, value),
            (Value::EnumNumber(value), KindIndex::Enum(_)) => encoded_len_int32(number, *value),
            (Value::Message(message), KindIndex::Message(_) | KindIndex::Group(_)) => {
                let ghost data = spec_encode_message(*message);
                proof {
                    lemma_field_lens(number as nat, 0, data, 0, 0);
                    assert(valid_element(pool, info.kind, *self));
                    assert(message.desc.pool.spec_inner() == pool);
                    assert(message.wf());
                }
                let len = message.encoded_len();
                if view.is_group {
                    2 * key_len(number) + len
                } else {
                    key_len(number) + encoded_len_varint(len as u64) + len
                }
            },
            (Value::List(values), _) if view.is_list => {
                if view.is_packed() {
                    proof {
                        lemma_packable_elements(pool, info.kind, values@);
                    }
                    packed_list_encoded_len(number, view.kind_index(), values)
                } else {
                    let mut len: usize = 0;
                    let mut i: usize = 0;
                    while i < values.len()
                        invariant
                            view.wf(),
                            pool == view.spec_pool(),
                            info == view.spec_info(),
                            info.is_list,
                            *self == Value::List(*values),
                            i <= values@.len(),
                            forall|k: int| 0 <= k < values@.len() ==> valid_element(pool, info.kind, #[trigger] values@[k]),
                            spec_encode_list(pool, info, values@).len() <= usize::MAX,
                            len == spec_encode_list(pool, info, values@.take(i as int)).len(),
                        decreases values@.len() - i,
                    {
                        proof {
                            lemma_list_step(pool, info, values@, i as int);
                            lemma_list_prefix(pool, info, values@, i + 1);
                            assert(valid_element(pool, info.kind, values@[i as int]));
                        }
                        assert(decreases_to!(*self => values@[i as int])) by {
                            assert(decreases_to!(*self => (*self)->List_0));
                            assert(decreases_to!((*self)->List_0 => (*self)->List_0@));
                            assert(decreases_to!((*self)->List_0@ => (*self)->List_0@[i as int]));
                        }
                        len = len + values[i].encoded_len(view);
                        i = i + 1;
                    }
                    proof {
                        assert(values@.take(i as int) == values@);
                    }
                    len
                }
            },
            (Value::MapEntries(values), _) if view.is_map => {
                let kv = view.map_entry_fields();
                let (key_view, value_view) = match kv {
                    Some(kv) => kv,
                    None => {
                        proof {
                            assert(false);
                        }
                        return 0;
                    },
                };
                let key_len = key_len(number);
                let mut len: usize = 0;
                proof {
                    let (ki, vi) = pool.map_entry_infos(info.kind);
                    assert forall|k: int| 0 <= k < values@.len() implies key_matches_kind(ki.kind, (#[trigger] values@[k]).0)
                        && valid_value(pool, vi, values@[k].1) by {
                        assert(valid_value(pool, info, *self));
                    }
                }
                let mut i: usize = 0;
                while i < values.len()
                    invariant
                        view.wf(),
                        pool == view.spec_pool(),
                        info == view.spec_info(),
                        info.is_map,
                        number == info.number,
                        key_len == spec_key_len(number as nat),
                        key_view.wf(),
                        value_view.wf(),
                        key_view.spec_pool() == pool,
                        value_view.spec_pool() == pool,
                        (key_view.spec_info(), value_view.spec_info()) == pool.map_entry_infos(info.kind),
                        i <= values@.len(),
                        forall|k: int| 0 <= k < values@.len() ==> key_matches_kind(key_view.spec_info().kind, (#[trigger] values@[k]).0)
                            && valid_value(pool, value_view.spec_info(), values@[k].1),
                        *self == Value::MapEntries(*values),
                        spec_encode_map(pool, info, values@).len() <= usize::MAX,
                        len == spec_encode_map(pool, info, values@.take(i as int)).len(),
                    decreases values@.len() - i,
                {
                    let ghost e = values@[i as int];
                    let ghost ki = key_view.spec_info();
                    let ghost vi = value_view.spec_info();
                    proof {
                        lemma_map_step(pool, info, values@, i as int);
                        lemma_map_prefix(pool, info, values@, i + 1);
                        lemma_field_lens(number as nat, 0, spec_encode_key_field(ki, e.0) + spec_encode_value(pool, vi, e.1), 0, 0);
                        assert(key_matches_kind(ki.kind, e.0) && valid_value(pool, vi, e.1));
                        assert(decreases_to!(*self => values@[i as int].1)) by {
                            assert(decreases_to!(*self => (*self)->MapEntries_0));
                            assert(decreases_to!((*self)->MapEntries_0 => (*self)->MapEntries_0@));
                            assert(decreases_to!((*self)->MapEntries_0@ => (*self)->MapEntries_0@[i as int]));
                            assert(decreases_to!((*self)->MapEntries_0@[i as int] => (*self)->MapEntries_0@[i as int].1));
                        }
                        lemma_varint_len(
                            (spec_encode_key_field(ki, e.0) + spec_encode_value(pool, vi, e.1)).len(),
                        );
                    }
                    let entry = &values[i];
                    let entry_len = entry.0.encoded_len(&key_view) + entry.1.encoded_len(&value_view);
                    len = len + key_len + encoded_len_varint(entry_len as u64) + entry_len;
                    i = i + 1;
                }
                proof {
                    assert(values@.take(i as int) == values@);
                }
                len
            },
            _ => {
                proof {
                    assert(false);
                }
                0
            },
        }
    }
}

/// One set slot of an encode plan, in slot (ascending number) order:
/// `Field` entries carry the resolved field index (a field without
/// presence at its default is left out of the plan); `Other` entries are
/// extensions and unknown fields.
#[derive(Clone, Copy)]
pub(crate) enum EncodePlanEntry {
    Field { slot: u32, index: u32 },
    Other { slot: u32, number: u32 },
}

impl EncodePlanEntry {
    pub open(crate) spec fn spec_slot(self) -> int {
        match self {
            EncodePlanEntry::Field { slot, .. } => slot as int,
            EncodePlanEntry::Other { slot, .. } => slot as int,
        }
    }
}

/// The plan entry of the slot at position `i`, if it has one: a `Field`
/// entry for a value of a declared field that counts as set (it tracks
/// presence, or the value is not its default), an `Other` entry for
/// unknown fields and for a value of a number that is no declared field
/// (an extension), and none for a taken slot or a field without presence
/// at its default.
pub(crate) open spec fn plan_entry_of(
    pool: DescriptorPoolInner,
    mi: int,
    i: int,
    slot: (u32, ValueOrUnknown),
) -> Option<EncodePlanEntry> {
    match slot.1 {
        ValueOrUnknown::Taken => None,
        ValueOrUnknown::Unknown(_) => Some(EncodePlanEntry::Other { slot: i as u32, number: slot.0 }),
        ValueOrUnknown::Value(v) => match pool.field_index(mi, slot.0) {
            Some(f) => if crate::value::has_value(pool, pool.field_info(mi, f as int), v) {
                Some(EncodePlanEntry::Field { slot: i as u32, index: f })
            } else {
                None
            },
            None => Some(EncodePlanEntry::Other { slot: i as u32, number: slot.0 }),
        },
    }
}

/// The encode plan of a run of slots: the entries of the slots that have
/// one (`plan_entry_of`), in slot order.
pub(crate) open spec fn spec_plan(
    pool: DescriptorPoolInner,
    mi: int,
    slots: Seq<(u32, ValueOrUnknown)>,
) -> Seq<EncodePlanEntry>
    decreases slots.len(),
{
    if slots.len() == 0 {
        Seq::empty()
    } else {
        let before = spec_plan(pool, mi, slots.drop_last());
        match plan_entry_of(pool, mi, slots.len() - 1, slots.last()) {
            Some(e) => before.push(e),
            None => before,
        }
    }
}

/// The plan entry that fills unused inline room.
fn empty_plan_entry() -> (r: EncodePlanEntry)
    ensures
        r == (EncodePlanEntry::Field { slot: 0, index: 0 }),
{
    EncodePlanEntry::Field { slot: 0, index: 0 }
}

/// The set slots of a message to encode: up to sixteen entries inline,
/// the rest on the heap.
pub(crate) struct EncodePlan {
    len: usize,
    inline: [EncodePlanEntry; 16],
    heap: Vec<EncodePlanEntry>,
}

impl EncodePlan {
    pub(crate) closed spec fn wf(&self) -> bool {
        &&& self.len <= 16 ==> self.heap@.len() == 0
        &&& self.len > 16 ==> self.heap@.len() == self.len - 16
    }

    /// The entries, in order.
    pub(crate) closed spec fn view(&self) -> Seq<EncodePlanEntry> {
        if self.len <= 16 {
            self.inline@.take(self.len as int)
        } else {
            self.inline@ + self.heap@
        }
    }

    fn new() -> (r: Self)
        ensures
            r.wf(),
            r@ == Seq::<EncodePlanEntry>::empty(),
    {
        let r = EncodePlan { len: 0, inline: [empty_plan_entry(); 16], heap: Vec::new() };
        assert(r@ =~= Seq::<EncodePlanEntry>::empty());
        r
    }

    fn push(&mut self, entry: EncodePlanEntry)
        requires
            old(self).wf(),
            old(self)@.len() < usize::MAX,
        ensures
            final(self).wf(),
            final(self)@ == old(self)@.push(entry),
    {
        broadcast use vstd::array::group_array_axioms;
        let ghost old_view = self@;
        if self.len < 16 {
            self.inline[self.len] = entry;
        } else {
            self.heap.push(entry);
        }
        self.len = self.len + 1;
        assert(self@ =~= old_view.push(entry));
    }

    fn get(&self, i: usize) -> (r: &EncodePlanEntry)
        requires
            self.wf(),
            i < self@.len(),
        ensures
            *r == self@[i as int],
    {
        broadcast use vstd::array::group_array_axioms;
        if i < 16 {
            &self.inline[i]
        } else {
            &self.heap[i - 16]
        }
    }

    fn len(&self) -> (r: usize)
        requires
            self.wf(),
        ensures
            r == self@.len(),
    {
        broadcast use vstd::array::group_array_axioms;
        self.len
    }
}

/// The bytes a run of plan entries writes: each entry's slot, in order.
pub(crate) open spec fn spec_encode_plan(
    pool: DescriptorPoolInner,
    mi: int,
    slots: Seq<(u32, ValueOrUnknown)>,
    plan: Seq<EncodePlanEntry>,
) -> Seq<u8>
    decreases plan.len(),
{
    if plan.len() == 0 {
        Seq::empty()
    } else {
        spec_encode_plan(pool, mi, slots, plan.drop_last()) + spec_encode_slot(
            pool,
            mi,
            slots[plan.last().spec_slot()],
        )
    }
}

/// An entry names a slot, and a `Field` entry the field of its number.
pub(crate) open spec fn plan_entry_ok(
    pool: DescriptorPoolInner,
    mi: int,
    slots: Seq<(u32, ValueOrUnknown)>,
    e: EncodePlanEntry,
) -> bool {
    match e {
        EncodePlanEntry::Field { slot, index } => {
            &&& slot < slots.len()
            &&& slots[slot as int].1 is Value
            &&& pool.field_index(mi, slots[slot as int].0) == Some(index)
        },
        EncodePlanEntry::Other { slot, number } => {
            &&& slot < slots.len()
            &&& slots[slot as int].0 == number
            &&& slots[slot as int].1 is Value ==> pool.field_index(mi, number) is None
        },
    }
}

proof fn lemma_plan_step(
    pool: DescriptorPoolInner,
    mi: int,
    slots: Seq<(u32, ValueOrUnknown)>,
    plan: Seq<EncodePlanEntry>,
    p: int,
)
    requires
        0 <= p < plan.len(),
    ensures
        spec_encode_plan(pool, mi, slots, plan.take(p + 1)) == spec_encode_plan(pool, mi, slots, plan.take(p))
            + spec_encode_slot(pool, mi, slots[plan[p].spec_slot()]),
{
    assert(plan.take(p + 1).drop_last() == plan.take(p));
    assert(plan.take(p + 1).last() == plan[p]);
}

proof fn lemma_plan_prefix(
    pool: DescriptorPoolInner,
    mi: int,
    slots: Seq<(u32, ValueOrUnknown)>,
    plan: Seq<EncodePlanEntry>,
    p: int,
)
    requires
        0 <= p <= plan.len(),
    ensures
        spec_encode_plan(pool, mi, slots, plan.take(p)).len() <= spec_encode_plan(pool, mi, slots, plan).len(),
    decreases plan.len() - p,
{
    if p < plan.len() {
        lemma_plan_prefix(pool, mi, slots, plan, p + 1);
        lemma_plan_step(pool, mi, slots, plan, p);
    } else {
        assert(plan.take(p) == plan);
    }
}

proof fn lemma_slots_step(pool: DescriptorPoolInner, mi: int, s: Seq<(u32, ValueOrUnknown)>, i: int)
    requires
        0 <= i < s.len(),
    ensures
        spec_encode_slots(pool, mi, s.take(i + 1)) == spec_encode_slots(pool, mi, s.take(i))
            + spec_encode_slot(pool, mi, s[i]),
{
    assert(s.take(i + 1).drop_last() == s.take(i));
    assert(s.take(i + 1).last() == s[i]);
}

/// In a sequence sorted by number, the number at position `i` is at least `i`.
proof fn lemma_sorted_number_bound<T>(s: Seq<(u32, T)>, i: int)
    requires
        sorted_by_number(s),
        0 <= i < s.len(),
    ensures
        s[i].0 >= i,
    decreases i,
{
    if i > 0 {
        lemma_sorted_number_bound(s, i - 1);
    }
}

impl DynamicMessage {
    /// Classifies every slot once: the encode plan lists, in slot order,
    /// the fields that are set (a field without presence at its default
    /// is left out), the extensions and the unknown fields.
    fn build_encode_plan(&self) -> (plan: EncodePlan)
        requires
            self.wf(),
        ensures
            plan.wf(),
            forall|p: int| 0 <= p < plan@.len() ==> plan_entry_ok(
                self.spec_pool(),
                self.desc.index as int,
                self.fields.fields@,
                #[trigger] plan@[p],
            ),
            spec_encode_plan(self.spec_pool(), self.desc.index as int, self.fields.fields@, plan@)
                == spec_encode_message(*self),
            plan@ == spec_plan(self.spec_pool(), self.desc.index as int, self.fields.fields@),
    {
        let ghost pool = self.spec_pool();
        let ghost mi = self.desc.index as int;
        let slots = self.fields.slots();
        let mut plan = EncodePlan::new();
        let mut i: usize = 0;
        while i < slots.len()
            invariant
                self.wf(),
                pool == self.spec_pool(),
                mi == self.desc.index as int,
                slots@ == self.fields.fields@,
                i <= slots@.len(),
                plan.wf(),
                plan@.len() <= i,
                forall|p: int| 0 <= p < plan@.len() ==> plan_entry_ok(pool, mi, slots@, #[trigger] plan@[p]),
                spec_encode_plan(pool, mi, slots@, plan@) == spec_encode_slots(pool, mi, slots@.take(i as int)),
                plan@ == spec_plan(pool, mi, slots@.take(i as int)),
            decreases slots@.len() - i,
        {
            proof {
                lemma_slots_step(pool, mi, slots@, i as int);
                lemma_sorted_number_bound(slots@, i as int);
            }
            let number = slots[i].0;
            let ghost before = plan@;
            match &slots[i].1 {
                ValueOrUnknown::Taken => {},
                ValueOrUnknown::Unknown(_) => {
                    plan.push(EncodePlanEntry::Other { slot: i as u32, number });
                },
                ValueOrUnknown::Value(value) => {
                    match self.desc.field_index_by_number(number) {
                        Some(index) => {
                            let view = self.desc.view_for_index(index);
                            let present = view.supports_presence() || !is_default_for_field_parts(
                                view.pool,
                                value,
                                view.is_list,
                                view.is_map,
                                view.kind_index(),
                                view.declared_default(),
                            );
                            if present {
                                plan.push(EncodePlanEntry::Field { slot: i as u32, index });
                            }
                        },
                        None => {
                            plan.push(EncodePlanEntry::Other { slot: i as u32, number });
                        },
                    }
                },
            }
            proof {
                assert forall|p: int| 0 <= p < plan@.len() implies plan_entry_ok(pool, mi, slots@, #[trigger] plan@[p]) by {
                    if p < before.len() {
                        assert(plan@[p] == before[p]);
                    }
                }
                if plan@.len() > before.len() {
                    assert(plan@.drop_last() == before);
                }
                assert(slots@.take(i + 1).drop_last() == slots@.take(i as int));
                assert(slots@.take(i + 1).last() == slots@[i as int]);
            }
            i = i + 1;
        }
        proof {
            assert(slots@.take(i as int) == slots@);
        }
        plan
    }

    /// Appends the bytes of one plan entry's slot.
    fn encode_plan_entry(&self, entry: EncodePlanEntry, buf: &mut Vec<u8>)
        requires
            self.wf(),
            plan_entry_ok(self.spec_pool(), self.desc.index as int, self.fields.fields@, entry),
            spec_encode_slot(self.spec_pool(), self.desc.index as int, self.fields.fields@[entry.spec_slot()]).len()
                <= usize::MAX,
        ensures
            final(buf)@ == old(buf)@ + spec_encode_slot(
                self.spec_pool(),
                self.desc.index as int,
                self.fields.fields@[entry.spec_slot()],
            ),
        decreases *self, 0nat,
    {
        let ghost pool = self.spec_pool();
        let ghost mi = self.desc.index as int;
        let ghost slot_value = self.fields.fields@[entry.spec_slot()];
        proof {
            assert(slot_ok(pool, mi, slot_value.0, slot_value.1));
            assert(pool.message_ok(mi));
        }
        match entry {
            EncodePlanEntry::Field { slot, index } => {
                let view = self.desc.view_for_index(index);
                match self.fields.value_at(slot as usize) {
                    ValueOrUnknown::Value(value) => value.encode_field(&view, buf),
                    _ => {
                        proof {
                            assert(false);
                        }
                    },
                }
            },
            EncodePlanEntry::Other { slot, number } => {
                match self.fields.value_at(slot as usize) {
                    ValueOrUnknown::Value(value) => match self.desc.get_extension(number) {
                        Some(extension) => {
                            if extension.has(value) {
                                value.encode_field(&extension.view(), buf);
                            }
                        },
                        None => {
                            proof {
                                assert(false);
                            }
                        },
                    },
                    ValueOrUnknown::Unknown(unknowns) => unknowns.encode_raw(buf),
                    ValueOrUnknown::Taken => {},
                }
            },
        }
    }

    /// The byte length of one plan entry's slot.
    fn plan_entry_len(&self, entry: EncodePlanEntry) -> (r: usize)
        requires
            self.wf(),
            plan_entry_ok(self.spec_pool(), self.desc.index as int, self.fields.fields@, entry),
            spec_encode_slot(self.spec_pool(), self.desc.index as int, self.fields.fields@[entry.spec_slot()]).len()
                <= usize::MAX,
        ensures
            r == spec_encode_slot(
                self.spec_pool(),
                self.desc.index as int,
                self.fields.fields@[entry.spec_slot()],
            ).len(),
        decreases *self, 0nat,
    {
        let ghost pool = self.spec_pool();
        let ghost mi = self.desc.index as int;
        let ghost slot_value = self.fields.fields@[entry.spec_slot()];
        proof {
            assert(slot_ok(pool, mi, slot_value.0, slot_value.1));
            assert(pool.message_ok(mi));
        }
        match entry {
            EncodePlanEntry::Field { slot, index } => {
                let view = self.desc.view_for_index(index);
                match self.fields.value_at(slot as usize) {
                    ValueOrUnknown::Value(value) => value.encoded_len(&view),
                    _ => {
                        proof {
                            assert(false);
                        }
                        0
                    },
                }
            },
            EncodePlanEntry::Other { slot, number } => {
                match self.fields.value_at(slot as usize) {
                    ValueOrUnknown::Value(value) => match self.desc.get_extension(number) {
                        Some(extension) => {
                            if extension.has(value) {
                                value.encoded_len(&extension.view())
                            } else {
                                0
                            }
                        },
                        None => {
                            proof {
                                assert(false);
                            }
                            0
                        },
                    },
                    ValueOrUnknown::Unknown(unknowns) => unknowns.encoded_len(),
                    ValueOrUnknown::Taken => 0,
                }
            },
        }
    }

    /// The byte length of the message's encoding.
    pub fn encoded_len(&self) -> (r: usize)
        requires
            self.wf(),
            spec_encode_message(*self).len() <= usize::MAX,
        ensures
            r == spec_encode_message(*self).len(),
        decreases *self, 1nat,
    {
        let ghost pool = self.spec_pool();
        let ghost mi = self.desc.index as int;
        let ghost slots = self.fields.fields@;
        let plan = self.build_encode_plan();
        let mut len: usize = 0;
        let mut p: usize = 0;
        while p < plan.len()
            invariant
                self.wf(),
                pool == self.spec_pool(),
                mi == self.desc.index as int,
                slots == self.fields.fields@,
                plan.wf(),
                p <= plan@.len(),
                forall|q: int| 0 <= q < plan@.len() ==> plan_entry_ok(pool, mi, slots, #[trigger] plan@[q]),
                spec_encode_plan(pool, mi, slots, plan@) == spec_encode_message(*self),
                spec_encode_message(*self).len() <= usize::MAX,
                len == spec_encode_plan(pool, mi, slots, plan@.take(p as int)).len(),
            decreases plan@.len() - p,
        {
            proof {
                lemma_plan_step(pool, mi, slots, plan@, p as int);
                lemma_plan_prefix(pool, mi, slots, plan@, p + 1);
            }
            let entry = *plan.get(p);
            len = len + self.plan_entry_len(entry);
            p = p + 1;
        }
        proof {
            assert(plan@.take(p as int) == plan@);
        }
        len
    }

    /// Appends the message's encoding: each slot's bytes in ascending
    /// number order.
    pub fn encode_raw(&self, buf: &mut Vec<u8>)
        requires
            self.wf(),
            spec_encode_message(*self).len() <= usize::MAX,
        ensures
            final(buf)@ == old(buf)@ + spec_encode_message(*self),
        decreases *self, 1nat,
    {
        let ghost pool = self.spec_pool();
        let ghost mi = self.desc.index as int;
        let ghost slots = self.fields.fields@;
        let ghost start = buf@;
        let plan = self.build_encode_plan();
        let mut p: usize = 0;
        while p < plan.len()
            invariant
                self.wf(),
                pool == self.spec_pool(),
                mi == self.desc.index as int,
                slots == self.fields.fields@,
                plan.wf(),
                p <= plan@.len(),
                forall|q: int| 0 <= q < plan@.len() ==> plan_entry_ok(pool, mi, slots, #[trigger] plan@[q]),
                spec_encode_plan(pool, mi, slots, plan@) == spec_encode_message(*self),
                spec_encode_message(*self).len() <= usize::MAX,
                buf@ == start + spec_encode_plan(pool, mi, slots, plan@.take(p as int)),
            decreases plan@.len() - p,
        {
            proof {
                lemma_plan_step(pool, mi, slots, plan@, p as int);
                lemma_plan_prefix(pool, mi, slots, plan@, p + 1);
            }
            let entry = *plan.get(p);
            self.encode_plan_entry(entry, buf);
            p = p + 1;
        }
        proof {
            assert(plan@.take(p as int) == plan@);
        }
    }

    /// The message's encoding, sized exactly before it is written.
    pub fn encode_to_vec(&self) -> (r: Vec<u8>)
        requires
            self.wf(),
            spec_encode_message(*self).len() <= usize::MAX,
        ensures
            r@ == spec_encode_message(*self),
    {
        let ghost pool = self.spec_pool();
        let ghost mi = self.desc.index as int;
        let ghost slots = self.fields.fields@;
        let plan = self.build_encode_plan();
        let mut len: usize = 0;
        let mut p: usize = 0;
        while p < plan.len()
            invariant
                self.wf(),
                pool == self.spec_pool(),
                mi == self.desc.index as int,
                slots == self.fields.fields@,
                plan.wf(),
                p <= plan@.len(),
                forall|q: int| 0 <= q < plan@.len() ==> plan_entry_ok(pool, mi, slots, #[trigger] plan@[q]),
                spec_encode_plan(pool, mi, slots, plan@) == spec_encode_message(*self),
                spec_encode_message(*self).len() <= usize::MAX,
                len == spec_encode_plan(pool, mi, slots, plan@.take(p as int)).len(),
            decreases plan@.len() - p,
        {
            proof {
                lemma_plan_step(pool, mi, slots, plan@, p as int);
                lemma_plan_prefix(pool, mi, slots, plan@, p + 1);
            }
            let entry = *plan.get(p);
            len = len + self.plan_entry_len(entry);
            p = p + 1;
        }
        let mut buf: Vec<u8> = Vec::with_capacity(len);
        let mut p: usize = 0;
        while p < plan.len()
            invariant
                self.wf(),
                pool == self.spec_pool(),
                mi == self.desc.index as int,
                slots == self.fields.fields@,
                plan.wf(),
                p <= plan@.len(),
                forall|q: int| 0 <= q < plan@.len() ==> plan_entry_ok(pool, mi, slots, #[trigger] plan@[q]),
                spec_encode_plan(pool, mi, slots, plan@) == spec_encode_message(*self),
                spec_encode_message(*self).len() <= usize::MAX,
                buf@ == spec_encode_plan(pool, mi, slots, plan@.take(p as int)),
            decreases plan@.len() - p,
        {
            proof {
                lemma_plan_step(pool, mi, slots, plan@, p as int);
                lemma_plan_prefix(pool, mi, slots, plan@, p + 1);
            }
            let entry = *plan.get(p);
            self.encode_plan_entry(entry, &mut buf);
            p = p + 1;
        }
        proof {
            assert(plan@.take(p as int) == plan@);
        }
        buf
    }
}

} // verus!
