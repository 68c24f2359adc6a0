//! Reading the protobuf wire format: what a record at the start of some
//! bytes holds (spec), the `prost` decoding primitives that read it, and
//! the laws that tie reading to writing.

use vstd::prelude::*;
use prost::bytes::Buf;
use crate::descriptor::{
    str_bytes, without, KindIndex, MessageDescriptor, RawFieldView, MAP_ENTRY_KEY_NUMBER, MAP_ENTRY_VALUE_NUMBER,
};
use crate::encode::encodable;
use crate::fields::{value_in, ValueOrUnknown};
use crate::message::{
    lemma_extension_not_field, lemma_fields_valid_after, rawfield_absent_value, slot_ok,
    value_default_for_kind_index, DynamicMessage,
};
use crate::encode::lemma_encodable_shape;
use crate::sorted::{as_map, lemma_position, sorted_by_number};
use crate::unknown::{
    field_wf, fields_wf, spec_encode_unknown_field, spec_encode_unknown_fields, UnknownField, UnknownFieldSet,
    UnknownFieldValue,
};
use crate::value::{
    wire_type_for_kind_index, is_canonical_default, is_default_key, is_scalar, key_matches_kind, mapkey_default_for_kind_index, same_key, same_scalar, scalar_matches_kind,
    spec_wire_type, valid_element, valid_value, MapKey, Value,
};
use crate::wire::{
    lemma_pow2_adds, lemma_pow2_pos, spec_key, spec_pow2, spec_varint, spec_varint_len, valid_tag,
    WireType, spec_le32, spec_le64, spec_i32_bits, spec_i64_bits, spec_zigzag, spec_utf8, MAX_TAG,
};
use crate::encode::{spec_encode_present, spec_encode_scalar, spec_packed_element, spec_packed_payload};
use vstd::arithmetic::div_mod::lemma_fundamental_div_mod_converse;

verus! {

/// The largest number of nested messages a decode enters, as in `prost`.
pub const RECURSION_LIMIT: u32 = 100;

#[verifier::external_type_specification]
#[verifier::external_body]
pub struct ExDecodeError(prost::DecodeError);

/// Why a decode failed.
#[derive(Debug, PartialEq)]
pub enum WireError {
    /// A `prost` primitive rejected the bytes.
    Wire(prost::DecodeError),
    /// A record's wire type does not fit its field.
    UnexpectedWireType,
    /// A length-delimited record runs past the end of the input.
    BufferUnderflow,
    /// A group ended with another field's end key, or an end key came
    /// without a group.
    UnexpectedEndGroupTag,
    /// Messages or groups nest deeper than the recursion limit.
    RecursionLimitReached,
}

/// LEB128 decoding as `prost` reads it, `k` bytes into a varint: at most
/// ten bytes, the tenth 0 or 1. The value and the number of bytes read.
pub open spec fn spec_varint_from(s: Seq<u8>, k: nat) -> Option<(nat, nat)>
    decreases s.len(),
{
    if s.len() == 0 {
        None
    } else if k >= 9 {
        if s[0] < 2 {
            Some((s[0] as nat, 1))
        } else {
            None
        }
    } else if s[0] < 128 {
        Some((s[0] as nat, 1))
    } else {
        match spec_varint_from(s.drop_first(), k + 1) {
            Some((v, n)) => Some((((s[0] - 128) + 128 * v) as nat, n + 1)),
            None => None,
        }
    }
}

/// The varint at the start of `s`: its value and byte length.
pub open spec fn spec_decode_varint(s: Seq<u8>) -> Option<(nat, nat)> {
    spec_varint_from(s, 0)
}

/// A decoded varint takes between one byte and what is left, and `k` bytes
/// into a varint what remains fits `64 - 7k` bits.
pub proof fn lemma_varint_from_bounds(s: Seq<u8>, k: nat)
    requires
        k <= 9,
        spec_varint_from(s, k) is Some,
    ensures
        1 <= spec_varint_from(s, k)->Some_0.1 <= s.len(),
        spec_varint_from(s, k)->Some_0.0 < spec_pow2((64 - 7 * k) as nat),
    decreases s.len(),
{
    let b = s[0] as nat;
    if k == 9 {
        assert(spec_pow2(1) == 2) by {
            reveal_with_fuel(spec_pow2, 2);
        }
    } else {
        lemma_pow2_adds(7, (64 - 7 * k - 7) as nat);
        assert(spec_pow2(7) == 128) by {
            reveal_with_fuel(spec_pow2, 8);
        }
        lemma_pow2_pos((64 - 7 * k - 7) as nat);
        if b >= 128 {
            lemma_varint_from_bounds(s.drop_first(), k + 1);
            let v = spec_varint_from(s.drop_first(), k + 1)->Some_0.0;
            let p = spec_pow2((64 - 7 * (k + 1)) as nat);
            assert((b - 128) + 128 * v < 128 * p) by (nonlinear_arith)
                requires
                    b < 256,
                    b >= 128,
                    v < p,
            ;
        } else {
            assert(b < 128 * spec_pow2((64 - 7 * k - 7) as nat)) by (nonlinear_arith)
                requires
                    b < 128,
                    spec_pow2((64 - 7 * k - 7) as nat) >= 1,
            ;
        }
    }
}

/// A decoded varint fits 64 bits and takes between one byte and what is
/// left.
pub proof fn lemma_decode_varint_bounds(s: Seq<u8>)
    requires
        spec_decode_varint(s) is Some,
    ensures
        1 <= spec_decode_varint(s)->Some_0.1 <= s.len(),
        spec_decode_varint(s)->Some_0.0 < 0x1_0000_0000_0000_0000,
{
    lemma_varint_from_bounds(s, 0);
    lemma_pow2_64();
}

proof fn lemma_pow2_64()
    ensures
        spec_pow2(64) == 0x1_0000_0000_0000_0000,
{
    assert(spec_pow2(32) == 0x1_0000_0000) by {
        reveal_with_fuel(spec_pow2, 33);
    }
    lemma_pow2_adds(32, 32);
}

/// Reading back a written varint: for every value of 64 bits, the
/// varint's bytes followed by anything decode to the value and its length.
pub proof fn lemma_varint_roundtrip(v: nat, rest: Seq<u8>)
    requires
        v < 0x1_0000_0000_0000_0000,
    ensures
        spec_decode_varint(spec_varint(v) + rest) == Some((v, spec_varint_len(v))),
{
    lemma_pow2_64();
    lemma_varint_from_roundtrip(v, rest, 0);
}

proof fn lemma_varint_from_roundtrip(v: nat, rest: Seq<u8>, k: nat)
    requires
        k <= 9,
        v < spec_pow2((64 - 7 * k) as nat),
    ensures
        spec_varint_from(spec_varint(v) + rest, k) == Some((v, spec_varint_len(v))),
    decreases v,
{
    let s = spec_varint(v) + rest;
    if k == 9 {
        assert(spec_pow2(1) == 2) by {
            reveal_with_fuel(spec_pow2, 2);
        }
        assert(s[0] == v);
    } else if v < 128 {
        assert(s[0] == v);
    } else {
        lemma_pow2_adds(7, (64 - 7 * k - 7) as nat);
        assert(spec_pow2(7) == 128) by {
            reveal_with_fuel(spec_pow2, 8);
        }
        assert(s[0] == v % 128 + 128);
        assert(s.drop_first() == spec_varint(v / 128) + rest);
        assert(v / 128 < spec_pow2((64 - 7 * (k + 1)) as nat)) by (nonlinear_arith)
            requires
                v < 128 * spec_pow2((64 - 7 * k - 7) as nat),
                (64 - 7 * (k + 1)) as nat == (64 - 7 * k - 7) as nat,
        ;
        lemma_varint_from_roundtrip(v / 128, rest, k + 1);
    }
}


/// A record is its key, its payload and what follows.
proof fn lemma_record_split(key: Seq<u8>, payload: Seq<u8>, rest: Seq<u8>)
    ensures
        (key + payload + rest).skip(key.len() as int) == payload + rest,
        (key + payload + rest).skip((key.len() + payload.len()) as int) == rest,
{
    assert((key + payload + rest).skip(key.len() as int) =~= payload + rest);
    assert((key + payload + rest).skip((key.len() + payload.len()) as int) =~= rest);
}

/// Four little-endian bytes read back as the number they were written
/// from.
proof fn lemma_le32_roundtrip(v: u32, rest: Seq<u8>)
    ensures
        spec_le32_value(spec_le32(v) + rest) == v,
        (spec_le32(v) + rest).skip(4) == rest,
{
    let s = spec_le32(v) + rest;
    assert(v % 0x100 + 0x100 * ((v / 0x100) % 0x100) + 0x1_0000 * ((v / 0x1_0000) % 0x100) + 0x100_0000 * ((v
        / 0x100_0000) % 0x100) == v) by (bit_vector);
    assert(s[0] == v % 0x100);
    assert(s[1] == (v / 0x100) % 0x100);
    assert(s[2] == (v / 0x1_0000) % 0x100);
    assert(s[3] == (v / 0x100_0000) % 0x100);
    assert(s.skip(4) =~= rest);
}

/// Eight little-endian bytes read back as the number they were written
/// from.
#[verifier::spinoff_prover]
#[verifier::rlimit(30)]
proof fn lemma_le64_roundtrip(v: u64, rest: Seq<u8>)
    ensures
        spec_le64_value(spec_le64(v) + rest) == v,
        (spec_le64(v) + rest).skip(8) == rest,
{
    let lo = (v % 0x1_0000_0000) as u32;
    let hi = (v / 0x1_0000_0000) as u32;
    let s = spec_le64(v) + rest;
    assert(s == spec_le32(lo) + (spec_le32(hi) + rest));
    lemma_le32_roundtrip(lo, spec_le32(hi) + rest);
    lemma_le32_roundtrip(hi, rest);
    assert(s.skip(4) =~= spec_le32(hi) + rest);
    assert(s.skip(8) =~= rest);
    assert(lo + 0x1_0000_0000 * hi == v) by (bit_vector)
        requires
            lo == (v % 0x1_0000_0000) as u32,
            hi == (v / 0x1_0000_0000) as u32,
    ;
}

/// A 32-bit integer written as its 64-bit (or 32-bit) two's complement
/// pattern reads back as itself.
proof fn lemma_i32_bits_roundtrip(x: i32)
    ensures
        spec_i32_from(spec_i64_bits(x as int)) == x,
        spec_i32_from(spec_i32_bits(x as int) as nat) == x,
{
    if x >= 0 {
        lemma_fundamental_div_mod_converse(x as int, 0x1_0000_0000, 0, x as int);
    } else {
        lemma_fundamental_div_mod_converse(
            x + 0x1_0000_0000_0000_0000,
            0x1_0000_0000,
            0xffff_ffff,
            x + 0x1_0000_0000,
        );
        lemma_fundamental_div_mod_converse(x + 0x1_0000_0000, 0x1_0000_0000, 0, x + 0x1_0000_0000);
    }
}

/// A 64-bit integer written as its two's complement pattern reads back
/// as itself.
proof fn lemma_i64_bits_roundtrip(x: i64)
    ensures
        spec_i64_from(spec_i64_bits(x as int)) == x,
        spec_i64_bits(x as int) < 0x1_0000_0000_0000_0000,
{
    lemma_fundamental_div_mod_converse(
        spec_i64_bits(x as int) as int,
        0x1_0000_0000_0000_0000,
        0,
        spec_i64_bits(x as int) as int,
    );
}

/// ZigZag decoding undoes ZigZag encoding.
pub proof fn lemma_zigzag_roundtrip(x: int)
    ensures
        spec_unzigzag(spec_zigzag(x)) == x,
{
}

/// The record a single value of a kind writes under field `n`, followed by
/// `rest`, reads back as that field number and the kind's wire type, then
/// as the value itself, leaving `rest`.
pub open spec fn scalar_reads_back(n: u32, kind: KindIndex, v: Value, rest: Seq<u8>) -> bool {
    let wt = spec_wire_type(kind);
    let s = spec_encode_scalar(n as nat, kind, v) + rest;
    let k = spec_key(n as nat, wt).len();
    &&& spec_decode_key(s) == Some((n, wt, k))
    &&& match spec_wire_scalar(kind, wt, s.skip(k as int)) {
        Some((raw, len)) => spec_scalar_from_raw(kind, raw) == v && s.skip((k + len) as int) == rest,
        None => false,
    }
}

/// A varint record reads back as the number it was written from.
proof fn lemma_varint_case(n: u32, kind: KindIndex, v: Value, raw: nat, rest: Seq<u8>)
    requires
        1 <= n <= MAX_TAG,
        raw < 0x1_0000_0000_0000_0000,
        spec_wire_type(kind) == WireType::Varint,
        spec_encode_scalar(n as nat, kind, v) == crate::wire::spec_varint_field(n as nat, raw),
        spec_scalar_from_raw(kind, raw) == v,
    ensures
        scalar_reads_back(n, kind, v, rest),
{
    let key = spec_key(n as nat, WireType::Varint);
    let s = key + spec_varint(raw) + rest;
    assert(s == key + (spec_varint(raw) + rest));
    lemma_key_roundtrip(n, WireType::Varint, spec_varint(raw) + rest);
    crate::wire::lemma_varint_len((n * 8 + WireType::Varint.code()) as nat);
    lemma_record_split(key, spec_varint(raw), rest);
    lemma_varint_roundtrip(raw, rest);
    crate::wire::lemma_varint_len(raw);
}

/// A four-byte record reads back as the number it was written from.
proof fn lemma_fixed32_case(n: u32, kind: KindIndex, v: Value, bits: u32, rest: Seq<u8>)
    requires
        1 <= n <= MAX_TAG,
        spec_wire_type(kind) == WireType::ThirtyTwoBit,
        spec_encode_scalar(n as nat, kind, v) == crate::wire::spec_fixed32_field(n as nat, bits),
        spec_scalar_from_raw(kind, bits as nat) == v,
    ensures
        scalar_reads_back(n, kind, v, rest),
{
    let key = spec_key(n as nat, WireType::ThirtyTwoBit);
    let payload = spec_le32(bits);
    assert(key + payload + rest == key + (payload + rest));
    lemma_key_roundtrip(n, WireType::ThirtyTwoBit, payload + rest);
    crate::wire::lemma_varint_len((n * 8 + WireType::ThirtyTwoBit.code()) as nat);
    lemma_record_split(key, payload, rest);
    lemma_le32_roundtrip(bits, rest);
}

/// An eight-byte record reads back as the number it was written from.
proof fn lemma_fixed64_case(n: u32, kind: KindIndex, v: Value, bits: u64, rest: Seq<u8>)
    requires
        1 <= n <= MAX_TAG,
        spec_wire_type(kind) == WireType::SixtyFourBit,
        spec_encode_scalar(n as nat, kind, v) == crate::wire::spec_fixed64_field(n as nat, bits),
        spec_scalar_from_raw(kind, bits as nat) == v,
    ensures
        scalar_reads_back(n, kind, v, rest),
{
    let key = spec_key(n as nat, WireType::SixtyFourBit);
    let payload = spec_le64(bits);
    assert(key + payload + rest == key + (payload + rest));
    lemma_key_roundtrip(n, WireType::SixtyFourBit, payload + rest);
    crate::wire::lemma_varint_len((n * 8 + WireType::SixtyFourBit.code()) as nat);
    lemma_record_split(key, payload, rest);
    lemma_le64_roundtrip(bits, rest);
}

/// Reading back a written scalar: the record a single value of its kind
/// writes under field `n`, whatever bytes follow it, reads back as that
/// field number and the kind's wire type, then as the value itself.
pub proof fn lemma_scalar_roundtrip(n: u32, kind: KindIndex, v: Value, rest: Seq<u8>)
    requires
        1 <= n <= MAX_TAG,
        is_scalar(v),
        scalar_matches_kind(kind, v),
        !(v is String),
        !(v is Bytes),
    ensures
        scalar_reads_back(n, kind, v, rest),
{
    match v {
        Value::Bool(b) => {
            lemma_varint_case(n, kind, v, if b { 1 } else { 0 }, rest);
        },
        Value::I32(x) => {
            lemma_i32_bits_roundtrip(x);
            if kind is Int32 {
                lemma_i64_bits_roundtrip(x as i64);
                lemma_varint_case(n, kind, v, spec_i64_bits(x as int), rest);
            } else if kind is Sint32 {
                lemma_zigzag_roundtrip(x as int);
                lemma_fundamental_div_mod_converse(spec_zigzag(x as int) as int, 0x1_0000_0000, 0, spec_zigzag(x as int) as int);
                lemma_varint_case(n, kind, v, spec_zigzag(x as int), rest);
            } else {
                lemma_fixed32_case(n, kind, v, spec_i32_bits(x as int), rest);
            }
        },
        Value::I64(x) => {
            lemma_i64_bits_roundtrip(x);
            if kind is Int64 {
                lemma_varint_case(n, kind, v, spec_i64_bits(x as int), rest);
            } else if kind is Sint64 {
                lemma_zigzag_roundtrip(x as int);
                lemma_varint_case(n, kind, v, spec_zigzag(x as int), rest);
            } else {
                lemma_fixed64_case(n, kind, v, spec_i64_bits(x as int) as u64, rest);
            }
        },
        Value::U32(x) => {
            lemma_fundamental_div_mod_converse(x as int, 0x1_0000_0000, 0, x as int);
            if kind is Uint32 {
                lemma_varint_case(n, kind, v, x as nat, rest);
            } else {
                lemma_fixed32_case(n, kind, v, x, rest);
            }
        },
        Value::U64(x) => {
            if kind is Uint64 {
                lemma_varint_case(n, kind, v, x as nat, rest);
            } else {
                lemma_fixed64_case(n, kind, v, x, rest);
            }
        },
        Value::F32(bits) => {
            lemma_fixed32_case(n, kind, v, bits, rest);
        },
        Value::F64(bits) => {
            lemma_fixed64_case(n, kind, v, bits, rest);
        },
        Value::EnumNumber(x) => {
            lemma_i32_bits_roundtrip(x);
            lemma_i64_bits_roundtrip(x as i64);
            lemma_varint_case(n, kind, v, spec_i64_bits(x as int), rest);
        },
        _ => {},
    }
}


/// One packed element of a kind, followed by `rest`, reads back as the
/// value it was written from, taking the element's bytes.
pub open spec fn element_reads_back(kind: KindIndex, v: Value, rest: Seq<u8>) -> bool {
    let e = spec_packed_element(kind, v);
    &&& 1 <= e.len()
    &&& spec_wire_scalar(kind, spec_wire_type(kind), e + rest) == Some((spec_raw_of(kind, v), e.len()))
    &&& spec_scalar_from_raw(kind, spec_raw_of(kind, v)) == v
}

/// The raw number a single value of a packable kind is written as.
pub open spec fn spec_raw_of(kind: KindIndex, v: Value) -> nat {
    match (v, kind) {
        (Value::Bool(b), KindIndex::Bool) => if b { 1 } else { 0 },
        (Value::I32(x), KindIndex::Int32) => spec_i64_bits(x as int),
        (Value::I32(x), KindIndex::Sint32) => spec_zigzag(x as int),
        (Value::I32(x), KindIndex::Sfixed32) => spec_i32_bits(x as int) as nat,
        (Value::I64(x), KindIndex::Int64) => spec_i64_bits(x as int),
        (Value::I64(x), KindIndex::Sint64) => spec_zigzag(x as int),
        (Value::I64(x), KindIndex::Sfixed64) => spec_i64_bits(x as int),
        (Value::U32(x), KindIndex::Uint32) => x as nat,
        (Value::U32(x), KindIndex::Fixed32) => x as nat,
        (Value::U64(x), KindIndex::Uint64) => x as nat,
        (Value::U64(x), KindIndex::Fixed64) => x as nat,
        (Value::F32(bits), KindIndex::Float) => bits as nat,
        (Value::F64(bits), KindIndex::Double) => bits as nat,
        (Value::EnumNumber(x), KindIndex::Enum(_)) => spec_i64_bits(x as int),
        _ => 0,
    }
}

proof fn lemma_varint_element(kind: KindIndex, v: Value, rest: Seq<u8>)
    requires
        spec_wire_type(kind) == WireType::Varint,
        spec_packed_element(kind, v) == spec_varint(spec_raw_of(kind, v)),
        spec_raw_of(kind, v) < 0x1_0000_0000_0000_0000,
        spec_scalar_from_raw(kind, spec_raw_of(kind, v)) == v,
    ensures
        element_reads_back(kind, v, rest),
{
    lemma_varint_roundtrip(spec_raw_of(kind, v), rest);
    crate::wire::lemma_varint_len(spec_raw_of(kind, v));
}

proof fn lemma_fixed32_element(kind: KindIndex, v: Value, bits: u32, rest: Seq<u8>)
    requires
        spec_wire_type(kind) == WireType::ThirtyTwoBit,
        spec_packed_element(kind, v) == spec_le32(bits),
        spec_raw_of(kind, v) == bits,
        spec_scalar_from_raw(kind, bits as nat) == v,
    ensures
        element_reads_back(kind, v, rest),
{
    lemma_le32_roundtrip(bits, rest);
}

proof fn lemma_fixed64_element(kind: KindIndex, v: Value, bits: u64, rest: Seq<u8>)
    requires
        spec_wire_type(kind) == WireType::SixtyFourBit,
        spec_packed_element(kind, v) == spec_le64(bits),
        spec_raw_of(kind, v) == bits,
        spec_scalar_from_raw(kind, bits as nat) == v,
    ensures
        element_reads_back(kind, v, rest),
{
    lemma_le64_roundtrip(bits, rest);
}

/// Every single value of a packable kind reads back from its packed
/// element.
proof fn lemma_element_roundtrip(kind: KindIndex, v: Value, rest: Seq<u8>)
    requires
        kind.spec_is_packable(),
        scalar_matches_kind(kind, v),
    ensures
        element_reads_back(kind, v, rest),
{
    match v {
        Value::Bool(b) => {
            lemma_varint_element(kind, v, rest);
        },
        Value::I32(x) => {
            lemma_i32_bits_roundtrip(x);
            if kind is Int32 {
                lemma_i64_bits_roundtrip(x as i64);
                lemma_varint_element(kind, v, rest);
            } else if kind is Sint32 {
                lemma_zigzag_roundtrip(x as int);
                lemma_fundamental_div_mod_converse(spec_zigzag(x as int) as int, 0x1_0000_0000, 0, spec_zigzag(x as int) as int);
                lemma_varint_element(kind, v, rest);
            } else {
                lemma_fixed32_element(kind, v, spec_i32_bits(x as int), rest);
            }
        },
        Value::I64(x) => {
            lemma_i64_bits_roundtrip(x);
            if kind is Int64 {
                lemma_varint_element(kind, v, rest);
            } else if kind is Sint64 {
                lemma_zigzag_roundtrip(x as int);
                lemma_varint_element(kind, v, rest);
            } else {
                lemma_fixed64_element(kind, v, spec_i64_bits(x as int) as u64, rest);
            }
        },
        Value::U32(x) => {
            lemma_fundamental_div_mod_converse(x as int, 0x1_0000_0000, 0, x as int);
            if kind is Uint32 {
                lemma_varint_element(kind, v, rest);
            } else {
                lemma_fixed32_element(kind, v, x, rest);
            }
        },
        Value::U64(x) => {
            if kind is Uint64 {
                lemma_varint_element(kind, v, rest);
            } else {
                lemma_fixed64_element(kind, v, x, rest);
            }
        },
        Value::F32(bits) => {
            lemma_fixed32_element(kind, v, bits, rest);
        },
        Value::F64(bits) => {
            lemma_fixed64_element(kind, v, bits, rest);
        },
        Value::EnumNumber(x) => {
            lemma_i32_bits_roundtrip(x);
            lemma_i64_bits_roundtrip(x as i64);
            lemma_varint_element(kind, v, rest);
        },
        _ => {},
    }
}

/// A packed payload is its first element followed by the payload of the
/// others.
proof fn lemma_packed_front(kind: KindIndex, vs: Seq<Value>)
    requires
        vs.len() > 0,
    ensures
        spec_packed_payload(kind, vs) == spec_packed_element(kind, vs[0]) + spec_packed_payload(kind, vs.drop_first()),
    decreases vs.len(),
{
    if vs.len() == 1 {
        assert(vs.drop_last().len() == 0);
        assert(vs.drop_first().len() == 0);
        assert(spec_packed_payload(kind, vs.drop_last()) =~= Seq::<u8>::empty());
        assert(spec_packed_payload(kind, vs.drop_first()) =~= Seq::<u8>::empty());
        assert(vs.last() == vs[0]);
        assert(spec_packed_payload(kind, vs) =~= spec_packed_element(kind, vs[0]));
    } else {
        let init = vs.drop_last();
        lemma_packed_front(kind, init);
        assert(init.drop_first() =~= vs.drop_first().drop_last());
        assert(vs.drop_first().last() == vs.last());
        assert(spec_packed_payload(kind, vs) =~= spec_packed_element(kind, vs[0]) + spec_packed_payload(
            kind,
            vs.drop_first(),
        ));
    }
}

/// Reading back a packed list: the payload a list of values of a
/// packable kind is packed into reads back as that list.
pub proof fn lemma_packed_roundtrip(kind: KindIndex, vs: Seq<Value>)
    requires
        kind.spec_is_packable(),
        forall|i: int| 0 <= i < vs.len() ==> scalar_matches_kind(kind, #[trigger] vs[i]),
    ensures
        spec_decode_packed(kind, spec_packed_payload(kind, vs)) == Some(vs),
    decreases vs.len(),
{
    if vs.len() > 0 {
        let tail = vs.drop_first();
        lemma_packed_front(kind, vs);
        let e = spec_packed_element(kind, vs[0]);
        let s = spec_packed_payload(kind, vs);
        lemma_element_roundtrip(kind, vs[0], spec_packed_payload(kind, tail));
        assert(s.skip(e.len() as int) =~= spec_packed_payload(kind, tail));
        assert forall|i: int| 0 <= i < tail.len() implies scalar_matches_kind(kind, #[trigger] tail[i]) by {
            assert(tail[i] == vs[i + 1]);
        }
        lemma_packed_roundtrip(kind, tail);
        assert(seq![spec_scalar_from_raw(kind, spec_raw_of(kind, vs[0]))] + tail =~= vs);
    } else {
        assert(spec_packed_payload(kind, vs) =~= Seq::<u8>::empty());
    }
}


/// A length-delimited record reads back as its key and its payload.
pub(crate) proof fn lemma_len_record(n: u32, data: Seq<u8>, rest: Seq<u8>)
    requires
        1 <= n <= MAX_TAG,
        data.len() < 0x1_0000_0000_0000_0000,
    ensures
        ({
            let s = crate::wire::spec_len_field(n as nat, data) + rest;
            let k = spec_key(n as nat, WireType::LengthDelimited).len();
            &&& spec_decode_key(s) == Some((n, WireType::LengthDelimited, k))
            &&& match spec_wire_payload(WireType::LengthDelimited, s.skip(k as int)) {
                Some((payload, len)) => payload == data && s.skip(k as int).skip(len as int) == rest,
                None => false,
            }
        }),
{
    let key = spec_key(n as nat, WireType::LengthDelimited);
    let lenv = spec_varint(data.len());
    let s = crate::wire::spec_len_field(n as nat, data) + rest;
    assert(s =~= key + (lenv + (data + rest)));
    lemma_key_roundtrip(n, WireType::LengthDelimited, lenv + (data + rest));
    crate::wire::lemma_varint_len((n * 8 + WireType::LengthDelimited.code()) as nat);
    crate::wire::lemma_varint_len(data.len());
    assert(s.skip(key.len() as int) =~= lenv + (data + rest));
    lemma_varint_roundtrip(data.len(), data + rest);
    let t = lenv + (data + rest);
    assert(t.subrange(lenv.len() as int, (lenv.len() + data.len()) as int) =~= data);
    assert(t.skip((lenv.len() + data.len()) as int) =~= rest);
}

/// Reading back what a field writes: for a single scalar, string or bytes
/// field, or a packed list, the record its value writes, followed by any
/// bytes, reads back as the field's key; merged into the field's empty
/// slot, it leaves exactly that value, and the bytes that follow.
pub proof fn law_record_roundtrip(
    pool: crate::descriptor::DescriptorPoolInner,
    info: crate::descriptor::FieldInfo,
    v: Value,
    rest: Seq<u8>,
    depth: nat,
)
    requires
        1 <= info.number <= MAX_TAG,
        valid_value(pool, info, v),
        !info.kind.spec_is_message(),
        !info.is_map,
        info.is_list ==> info.is_packed && info.kind.spec_is_packable(),
        spec_encode_present(pool, info, v).len() <= usize::MAX,
    ensures
        ({
            let s = spec_encode_present(pool, info, v) + rest;
            let wt = if info.is_list { WireType::LengthDelimited } else { spec_wire_type(info.kind) };
            let k = spec_key(info.number as nat, wt).len();
            &&& spec_decode_key(s) == Some((info.number, wt, k))
            &&& record_merged(pool, info, wt, s.skip(k as int), rest, None, ValueOrUnknown::Value(v), true, depth)
        }),
{
    broadcast use vstd::utf8::encode_utf8_valid_utf8;
    let n = info.number;
    let s = spec_encode_present(pool, info, v) + rest;
    if info.is_list {
        let vs = v->List_0@;
        let k = spec_key(n as nat, WireType::LengthDelimited).len();
        let payload = spec_packed_payload(info.kind, vs);
        assert(spec_encode_present(pool, info, v) == crate::wire::spec_len_field(n as nat, payload));
        crate::wire::lemma_field_lens(n as nat, 0, payload, 0, 0);
        lemma_len_record(n, payload, rest);
        assert forall|i: int| 0 <= i < vs.len() implies scalar_matches_kind(info.kind, #[trigger] vs[i]) by {
            assert(valid_element(pool, info.kind, vs[i]));
        }
        lemma_packed_roundtrip(info.kind, vs);
        assert(Seq::<Value>::empty() + vs =~= vs);
    } else {
        assert(valid_element(pool, info.kind, v));
        assert(scalar_matches_kind(info.kind, v));
        let wt = spec_wire_type(info.kind);
        let k = spec_key(n as nat, wt).len();
        if v is String || v is Bytes {
            let data = match v {
                Value::String(t) => spec_utf8(t@),
                Value::Bytes(b) => b@,
                _ => Seq::empty(),
            };
            assert(spec_encode_present(pool, info, v) == crate::wire::spec_len_field(n as nat, data));
            crate::wire::lemma_field_lens(n as nat, 0, data, 0, 0);
            lemma_len_record(n, data, rest);
            let (payload, len) = spec_wire_payload(WireType::LengthDelimited, s.skip(k as int))->Some_0;
            assert(s.skip(k as int).skip(len as int) == rest);
        } else {
            assert(spec_encode_present(pool, info, v) == spec_encode_scalar(n as nat, info.kind, v));
            lemma_scalar_roundtrip(n, info.kind, v, rest);
            let (raw, len) = spec_wire_scalar(info.kind, wt, s.skip(k as int))->Some_0;
            lemma_decode_key_bounds(s);
            if wt == WireType::Varint {
                lemma_decode_varint_bounds(s.skip(k as int));
            }
            assert(len <= s.skip(k as int).len());
            assert(s.skip(k as int).skip(len as int) =~= s.skip((k + len) as int));
        }
    }
}

/// Reading back a written string or bytes value: its record reads back
/// as the field number, the length-delimited wire type, and the payload
/// the value was written from.
pub proof fn lemma_payload_roundtrip(n: u32, kind: KindIndex, v: Value, rest: Seq<u8>)
    requires
        1 <= n <= MAX_TAG,
        scalar_matches_kind(kind, v),
        v is String || v is Bytes,
        match v {
            Value::String(t) => spec_utf8(t@).len() <= usize::MAX,
            Value::Bytes(b) => b@.len() <= usize::MAX,
            _ => true,
        },
    ensures
        ({
            let s = spec_encode_scalar(n as nat, kind, v) + rest;
            let k = spec_key(n as nat, WireType::LengthDelimited).len();
            let data = match v {
                Value::String(t) => spec_utf8(t@),
                Value::Bytes(b) => b@,
                _ => Seq::empty(),
            };
            &&& spec_decode_key(s) == Some((n, WireType::LengthDelimited, k))
            &&& match spec_wire_payload(WireType::LengthDelimited, s.skip(k as int)) {
                Some((payload, len)) => payload == data && s.skip((k + len) as int) == rest,
                None => false,
            }
        }),
{
    let data = match v {
        Value::String(t) => spec_utf8(t@),
        Value::Bytes(b) => b@,
        _ => Seq::empty(),
    };
    let key = spec_key(n as nat, WireType::LengthDelimited);
    let lenv = spec_varint(data.len());
    let s = spec_encode_scalar(n as nat, kind, v) + rest;
    assert(s =~= key + (lenv + (data + rest)));
    lemma_key_roundtrip(n, WireType::LengthDelimited, lenv + (data + rest));
    crate::wire::lemma_varint_len((n * 8 + WireType::LengthDelimited.code()) as nat);
    crate::wire::lemma_varint_len(data.len());
    assert(s.skip(key.len() as int) =~= lenv + (data + rest));
    lemma_varint_roundtrip(data.len(), data + rest);
    let t = lenv + (data + rest);
    assert(t.subrange(lenv.len() as int, (lenv.len() + data.len()) as int) =~= data);
    assert(s.skip((key.len() + lenv.len() + data.len()) as int) =~= rest);
}

/// The wire type a key's low three bits name, if any.
pub open spec fn spec_wire_type_of(code: nat) -> Option<WireType> {
    if code == 0 {
        Some(WireType::Varint)
    } else if code == 1 {
        Some(WireType::SixtyFourBit)
    } else if code == 2 {
        Some(WireType::LengthDelimited)
    } else if code == 3 {
        Some(WireType::StartGroup)
    } else if code == 4 {
        Some(WireType::EndGroup)
    } else if code == 5 {
        Some(WireType::ThirtyTwoBit)
    } else {
        None
    }
}

/// The key at the start of `s`: a varint of at most 32 bits whose low
/// three bits name a wire type and whose other bits a field number of at
/// least 1. The field number, the wire type and the key's length.
pub open spec fn spec_decode_key(s: Seq<u8>) -> Option<(u32, WireType, nat)> {
    match spec_decode_varint(s) {
        Some((key, n)) => if key > u32::MAX || key / 8 < 1 {
            None
        } else {
            match spec_wire_type_of(key % 8) {
                Some(wt) => Some(((key / 8) as u32, wt, n)),
                None => None,
            }
        },
        None => None,
    }
}

/// Reading back a written key.
pub proof fn lemma_key_roundtrip(tag: u32, wt: WireType, rest: Seq<u8>)
    requires
        1 <= tag <= 536_870_911,
    ensures
        spec_decode_key(spec_key(tag as nat, wt) + rest) == Some((tag, wt, spec_varint_len((tag * 8 + wt.code()) as nat))),
{
    let key = (tag * 8 + wt.code()) as nat;
    lemma_varint_roundtrip(key, rest);
    assert(key / 8 == tag);
    assert(key % 8 == wt.code());
}

/// The number four little-endian bytes spell.
pub open spec fn spec_le32_value(s: Seq<u8>) -> nat {
    (s[0] + 0x100 * s[1] + 0x1_0000 * s[2] + 0x100_0000 * s[3]) as nat
}

/// The number eight little-endian bytes spell.
pub open spec fn spec_le64_value(s: Seq<u8>) -> nat {
    spec_le32_value(s) + 0x1_0000_0000 * spec_le32_value(s.skip(4))
}

/// The raw number a record of a scalar kind holds at the start of `s`,
/// and the bytes it takes: a varint, or four or eight little-endian bytes.
/// Nothing when the wire type is not the kind's, or the bytes run out.
pub open spec fn spec_wire_scalar(kind: KindIndex, wt: WireType, s: Seq<u8>) -> Option<(nat, nat)> {
    if wt != spec_wire_type(kind) {
        None
    } else {
        match wt {
            WireType::Varint => spec_decode_varint(s),
            WireType::ThirtyTwoBit => if s.len() >= 4 {
                Some((spec_le32_value(s), 4))
            } else {
                None
            },
            WireType::SixtyFourBit => if s.len() >= 8 {
                Some((spec_le64_value(s), 8))
            } else {
                None
            },
            _ => None,
        }
    }
}

/// The low 32 bits of `v` as a two's complement integer.
pub open spec fn spec_i32_from(v: nat) -> i32 {
    let low = v % 0x1_0000_0000;
    if low < 0x8000_0000 {
        low as i32
    } else {
        (low - 0x1_0000_0000) as i32
    }
}

/// The low 64 bits of `v` as a two's complement integer.
pub open spec fn spec_i64_from(v: nat) -> i64 {
    let low = v % 0x1_0000_0000_0000_0000;
    if low < 0x8000_0000_0000_0000 {
        low as i64
    } else {
        (low - 0x1_0000_0000_0000_0000) as i64
    }
}

/// ZigZag decoding: even `u` is `u / 2`, odd `u` is `-(u + 1) / 2`.
pub open spec fn spec_unzigzag(u: nat) -> int {
    if u % 2 == 0 {
        (u / 2) as int
    } else {
        -((u + 1) / 2)
    }
}

/// The value of a scalar kind that a raw number reads as.
pub open spec fn spec_scalar_from_raw(kind: KindIndex, raw: nat) -> Value {
    match kind {
        KindIndex::Bool => Value::Bool(raw != 0),
        KindIndex::Int32 | KindIndex::Sfixed32 => Value::I32(spec_i32_from(raw)),
        KindIndex::Sint32 => Value::I32(spec_unzigzag(raw % 0x1_0000_0000) as i32),
        KindIndex::Int64 | KindIndex::Sfixed64 => Value::I64(spec_i64_from(raw)),
        KindIndex::Sint64 => Value::I64(spec_unzigzag(raw) as i64),
        KindIndex::Uint32 | KindIndex::Fixed32 => Value::U32((raw % 0x1_0000_0000) as u32),
        KindIndex::Uint64 | KindIndex::Fixed64 => Value::U64(raw as u64),
        KindIndex::Float => Value::F32(raw as u32),
        KindIndex::Double => Value::F64(raw as u64),
        KindIndex::Enum(_) => Value::EnumNumber(spec_i32_from(raw)),
        _ => Value::Bool(false),
    }
}

/// The payload of a length-delimited record at the start of `s`, and the
/// bytes the length and payload take.
pub open spec fn spec_wire_payload(wt: WireType, s: Seq<u8>) -> Option<(Seq<u8>, nat)> {
    if wt != WireType::LengthDelimited {
        None
    } else {
        match spec_decode_varint(s) {
            Some((len, n)) => if n + len <= s.len() {
                Some((s.subrange(n as int, (n + len) as int), n + len))
            } else {
                None
            },
            None => None,
        }
    }
}

/// The elements a packed payload of a scalar kind holds, in order.
pub open spec fn spec_decode_packed(kind: KindIndex, s: Seq<u8>) -> Option<Seq<Value>>
    decreases s.len(),
{
    if s.len() == 0 {
        Some(Seq::empty())
    } else {
        match spec_wire_scalar(kind, spec_wire_type(kind), s) {
            Some((raw, n)) => if 1 <= n <= s.len() {
                match spec_decode_packed(kind, s.skip(n as int)) {
                    Some(rest) => Some(seq![spec_scalar_from_raw(kind, raw)] + rest),
                    None => None,
                }
            } else {
                None
            },
            None => None,
        }
    }
}

/// How many bytes `prost` skips for a field of wire type `wt` and number
/// `tag` at the start of `s`, with `depth` more groups it may enter: the
/// varint, four or eight bytes, a length and payload, or a group's fields
/// through its matching end key.
pub open spec fn spec_skip_field(wt: WireType, tag: u32, s: Seq<u8>, depth: nat) -> Option<nat>
    decreases s.len(), 1nat,
{
    if depth == 0 {
        None
    } else {
        match wt {
            WireType::Varint => match spec_decode_varint(s) {
                Some((_, n)) => Some(n),
                None => None,
            },
            WireType::ThirtyTwoBit => if s.len() >= 4 {
                Some(4)
            } else {
                None
            },
            WireType::SixtyFourBit => if s.len() >= 8 {
                Some(8)
            } else {
                None
            },
            WireType::LengthDelimited => match spec_decode_varint(s) {
                Some((len, n)) => if n + len <= s.len() {
                    Some(n + len)
                } else {
                    None
                },
                None => None,
            },
            WireType::StartGroup => spec_skip_group(tag, s, depth),
            WireType::EndGroup => None,
        }
    }
}

/// How many bytes the fields of a group take, through its end key.
pub open spec fn spec_skip_group(tag: u32, s: Seq<u8>, depth: nat) -> Option<nat>
    decreases s.len(), 0nat,
{
    match spec_decode_key(s) {
        Some((t, wt, n)) => if !(1 <= n <= s.len()) {
            None
        } else if wt == WireType::EndGroup {
            if t == tag {
                Some(n)
            } else {
                None
            }
        } else if depth == 0 {
            None
        } else {
            match spec_skip_field(wt, t, s.skip(n as int), (depth - 1) as nat) {
                Some(m) => if n + m <= s.len() {
                    match spec_skip_group(tag, s.skip((n + m) as int), depth) {
                        Some(k) => Some(n + m + k),
                        None => None,
                    }
                } else {
                    None
                },
                None => None,
            }
        },
        None => None,
    }
}



/// The bytes the value of an unknown field of wire type `wt` and number
/// `tag` takes at the start of `s`, read with at most `depth` groups
/// entered: a varint, eight or four bytes, a length and its payload, or a
/// group's fields through its matching end key.
pub open spec fn spec_unknown_len(wt: WireType, tag: u32, s: Seq<u8>, depth: nat) -> Option<nat>
    decreases s.len(), 1nat,
{
    match wt {
        WireType::Varint => match spec_decode_varint(s) {
            Some((_, n)) => Some(n),
            None => None,
        },
        WireType::SixtyFourBit => if s.len() >= 8 {
            Some(8)
        } else {
            None
        },
        WireType::ThirtyTwoBit => if s.len() >= 4 {
            Some(4)
        } else {
            None
        },
        WireType::LengthDelimited => match spec_wire_payload(wt, s) {
            Some((_, n)) => Some(n),
            None => None,
        },
        WireType::StartGroup => if depth == 0 {
            None
        } else {
            spec_unknown_group_len(tag, s, depth)
        },
        WireType::EndGroup => None,
    }
}

/// The bytes the fields of an unknown group numbered `tag` take at the
/// start of `s`, through its end key; the fields are read one group
/// deeper.
pub open spec fn spec_unknown_group_len(tag: u32, s: Seq<u8>, depth: nat) -> Option<nat>
    decreases s.len(), 0nat,
{
    match spec_decode_key(s) {
        Some((t, wt, n)) => if !(1 <= n <= s.len()) {
            None
        } else if wt == WireType::EndGroup {
            if t == tag {
                Some(n)
            } else {
                None
            }
        } else {
            match spec_unknown_len(wt, t, s.skip(n as int), (depth - 1) as nat) {
                Some(m) => if n + m <= s.len() {
                    match spec_unknown_group_len(tag, s.skip((n + m) as int), depth) {
                        Some(k) => Some(n + m + k),
                        None => None,
                    }
                } else {
                    None
                },
                None => None,
            }
        },
        None => None,
    }
}

/// Whether `v` is the value of an unknown field of wire type `wt` and
/// number `tag` read at the start of `s` with at most `depth` groups
/// entered.
pub open spec fn unknown_value_read(v: UnknownFieldValue, wt: WireType, tag: u32, s: Seq<u8>, depth: nat) -> bool
    decreases v, 1nat,
{
    match v {
        UnknownFieldValue::Varint(x) => {
            &&& wt == WireType::Varint
            &&& spec_decode_varint(s) matches Some((y, _))
            &&& x == y
        },
        UnknownFieldValue::SixtyFourBit(x) => wt == WireType::SixtyFourBit && s.len() >= 8 && x
            == spec_le64_value(s),
        UnknownFieldValue::ThirtyTwoBit(x) => wt == WireType::ThirtyTwoBit && s.len() >= 4 && x
            == spec_le32_value(s),
        UnknownFieldValue::LengthDelimited(b) => {
            &&& wt == WireType::LengthDelimited
            &&& spec_wire_payload(wt, s) matches Some((p, _))
            &&& b@ == p
        },
        UnknownFieldValue::Group(set) => {
            &&& wt == WireType::StartGroup
            &&& depth >= 1
            &&& group_prefix_read(set.fields@, tag, s, depth) matches Some(c)
            &&& c <= s.len()
            &&& spec_decode_key(s.skip(c as int)) matches Some((t, et, _))
            &&& et == WireType::EndGroup
            &&& t == tag
        },
    }
}

/// The bytes that the first fields of an unknown group numbered `tag`
/// take at the start of `s`, if they are the fields `fs` in order (each
/// read one group deeper).
pub open spec fn group_prefix_read(fs: Seq<UnknownField>, tag: u32, s: Seq<u8>, depth: nat) -> Option<nat>
    decreases fs, 0nat,
{
    if fs.len() == 0 {
        Some(0)
    } else {
        match spec_decode_key(s) {
            Some((t, wt, n)) => if wt != WireType::EndGroup && t == fs[0].number && 1 <= n <= s.len()
                && unknown_value_read(fs[0].value, wt, t, s.skip(n as int), (depth - 1) as nat) {
                match spec_unknown_len(wt, t, s.skip(n as int), (depth - 1) as nat) {
                    Some(m) => if n + m <= s.len() {
                        match group_prefix_read(fs.drop_first(), tag, s.skip((n + m) as int), depth) {
                            Some(c) => Some(n + m + c),
                            None => None,
                        }
                    } else {
                        None
                    },
                    None => None,
                }
            } else {
                None
            },
            None => None,
        }
    }
}

/// One more field read after the first fields of a group.
proof fn lemma_group_prefix_push(
    fs: Seq<UnknownField>,
    f: UnknownField,
    tag: u32,
    s: Seq<u8>,
    depth: nat,
    p: nat,
    wt: WireType,
    n: nat,
    m: nat,
)
    requires
        group_prefix_read(fs, tag, s, depth) == Some(p),
        p <= s.len(),
        spec_decode_key(s.skip(p as int)) == Some((f.number, wt, n)),
        wt != WireType::EndGroup,
        1 <= n <= s.len() - p,
        unknown_value_read(f.value, wt, f.number, s.skip(p as int).skip(n as int), (depth - 1) as nat),
        spec_unknown_len(wt, f.number, s.skip(p as int).skip(n as int), (depth - 1) as nat) == Some(m),
        p + n + m <= s.len(),
    ensures
        group_prefix_read(fs.push(f), tag, s, depth) == Some(p + n + m),
    decreases fs.len(),
{
    if fs.len() == 0 {
        assert(p == 0);
        assert(s.skip(p as int) =~= s);
        let g = fs.push(f);
        assert(g[0] == f);
        assert(g.drop_first().len() == 0);
        assert(s.skip(p as int).skip(n as int) == s.skip(n as int));
        assert(group_prefix_read(g.drop_first(), tag, s.skip((n + m) as int), depth) == Some(0nat));
    } else {
        let (t0, wt0, n0) = spec_decode_key(s)->Some_0;
        let m0 = spec_unknown_len(wt0, t0, s.skip(n0 as int), (depth - 1) as nat)->Some_0;
        let rest = s.skip((n0 + m0) as int);
        let c = group_prefix_read(fs.drop_first(), tag, rest, depth)->Some_0;
        assert(p == n0 + m0 + c);
        assert(rest.skip(c as int) =~= s.skip(p as int));
        assert(rest.skip(c as int).skip(n as int) =~= s.skip(p as int).skip(n as int));
        lemma_group_prefix_push(fs.drop_first(), f, tag, rest, depth, c, wt, n, m);
        assert(fs.push(f).drop_first() =~= fs.drop_first().push(f));
        assert(fs.push(f)[0] == fs[0]);
    }
}


proof fn lemma_unknown_len_bounds(wt: WireType, tag: u32, s: Seq<u8>, depth: nat)
    requires
        spec_unknown_len(wt, tag, s, depth) is Some,
    ensures
        spec_unknown_len(wt, tag, s, depth)->Some_0 <= s.len(),
    decreases s.len(), 1nat,
{
    if spec_decode_varint(s) is Some {
        lemma_decode_varint_bounds(s);
    }
    if wt == WireType::StartGroup {
        lemma_unknown_group_len_bounds(tag, s, depth);
    }
}

proof fn lemma_unknown_group_len_bounds(tag: u32, s: Seq<u8>, depth: nat)
    requires
        spec_unknown_group_len(tag, s, depth) is Some,
    ensures
        spec_unknown_group_len(tag, s, depth)->Some_0 <= s.len(),
    decreases s.len(), 0nat,
{
    let (t, wt, n) = spec_decode_key(s)->Some_0;
    if wt != WireType::EndGroup {
        let m = spec_unknown_len(wt, t, s.skip(n as int), (depth - 1) as nat)->Some_0;
        lemma_unknown_group_len_bounds(tag, s.skip((n + m) as int), depth);
    }
}

/// A field read inside an unknown group extends what the group's first
/// fields and its length say.
proof fn lemma_group_step(
    fs0: Seq<UnknownField>,
    field: UnknownField,
    number: u32,
    start: Seq<u8>,
    before: Seq<u8>,
    mid: Seq<u8>,
    after: Seq<u8>,
    depth: nat,
    wt: WireType,
)
    requires
        depth >= 1,
        read_prefix(start, before),
        group_prefix_read(fs0, number, start, depth) == Some((start.len() - before.len()) as nat),
        spec_unknown_group_len(number, start, depth) == match spec_unknown_group_len(number, before, depth) {
            Some(k) => Some((start.len() - before.len() + k) as nat),
            None => None,
        },
        spec_decode_key(before) == Some((field.number, wt, (before.len() - mid.len()) as nat)),
        1 <= before.len() - mid.len() <= before.len(),
        mid.len() <= before.len(),
        read_prefix(before, mid),
        wt != WireType::EndGroup,
        match spec_unknown_len(wt, field.number, mid, (depth - 1) as nat) {
            Some(n) => unknown_value_read(field.value, wt, field.number, mid, (depth - 1) as nat) && after == mid.skip(n as int),
            None => false,
        },
    ensures
        read_prefix(start, after),
        group_prefix_read(fs0.push(field), number, start, depth) == Some((start.len() - after.len()) as nat),
        spec_unknown_group_len(number, start, depth) == match spec_unknown_group_len(number, after, depth) {
            Some(k) => Some((start.len() - after.len() + k) as nat),
            None => None,
        },
{
    let p = (start.len() - before.len()) as nat;
    let n = (before.len() - mid.len()) as nat;
    lemma_unknown_len_bounds(wt, field.number, mid, (depth - 1) as nat);
    let m = spec_unknown_len(wt, field.number, mid, (depth - 1) as nat)->Some_0;
    assert(after.len() == mid.len() - m);
    assert(start.skip(p as int) == before);
    assert(before.skip(n as int) == mid);
    assert(before.skip((n + m) as int) =~= after);
    assert(start.skip((start.len() - after.len()) as int) =~= after);
    lemma_group_prefix_push(fs0, field, number, start, depth, p, wt, n, m);
}


/// How many groups deep an unknown field nests.
pub open spec fn unknown_depth(f: UnknownField) -> nat
    decreases f, 1nat,
{
    match f.value {
        UnknownFieldValue::Group(g) => 1 + unknown_fields_depth(g.fields@),
        _ => 0,
    }
}

/// How many groups deep the deepest of a run of unknown fields nests.
pub open spec fn unknown_fields_depth(fs: Seq<UnknownField>) -> nat
    decreases fs, 0nat,
{
    if fs.len() == 0 {
        0
    } else {
        let a = unknown_depth(fs[0]);
        let b = unknown_fields_depth(fs.drop_first());
        if a >= b {
            a
        } else {
            b
        }
    }
}

/// The wire type an unknown field's value is written with.
pub open spec fn unknown_wire_type(v: UnknownFieldValue) -> WireType {
    match v {
        UnknownFieldValue::Varint(_) => WireType::Varint,
        UnknownFieldValue::SixtyFourBit(_) => WireType::SixtyFourBit,
        UnknownFieldValue::LengthDelimited(_) => WireType::LengthDelimited,
        UnknownFieldValue::Group(_) => WireType::StartGroup,
        UnknownFieldValue::ThirtyTwoBit(_) => WireType::ThirtyTwoBit,
    }
}

/// The records of a run of unknown fields are the first field's record
/// followed by the others'.
pub(crate) proof fn lemma_unknown_fields_front(fs: Seq<UnknownField>)
    requires
        fs.len() > 0,
    ensures
        spec_encode_unknown_fields(fs) == spec_encode_unknown_field(fs[0]) + spec_encode_unknown_fields(fs.drop_first()),
        fields_wf(fs) ==> field_wf(fs[0]) && fields_wf(fs.drop_first()),
    decreases fs.len(),
{
    if fs.len() == 1 {
        assert(fs.drop_last().len() == 0);
        assert(fs.drop_first().len() == 0);
        assert(spec_encode_unknown_fields(fs.drop_last()) =~= Seq::<u8>::empty());
        assert(spec_encode_unknown_fields(fs.drop_first()) =~= Seq::<u8>::empty());
        assert(fs.last() == fs[0]);
        assert(spec_encode_unknown_fields(fs) =~= spec_encode_unknown_field(fs[0]));
    } else {
        let init = fs.drop_last();
        lemma_unknown_fields_front(init);
        assert(init.drop_first() =~= fs.drop_first().drop_last());
        assert(fs.drop_first().last() == fs.last());
        assert(init[0] == fs[0]);
        assert(spec_encode_unknown_fields(fs) =~= spec_encode_unknown_field(fs[0]) + spec_encode_unknown_fields(
            fs.drop_first(),
        ));
    }
}

/// The record of an unknown field, followed by `rest`, reads back as the
/// field's number and wire type, then as its very value read with at most
/// `depth` groups entered, taking exactly the record's bytes.
pub open spec fn unknown_reads_back(f: UnknownField, rest: Seq<u8>, depth: nat) -> bool {
    let e = spec_encode_unknown_field(f);
    let s = e + rest;
    let wt = unknown_wire_type(f.value);
    let k = spec_key(f.number as nat, wt).len();
    &&& k <= e.len()
    &&& spec_decode_key(s) == Some((f.number, wt, k))
    &&& spec_unknown_len(wt, f.number, s.skip(k as int), depth) == Some((e.len() - k) as nat)
    &&& unknown_value_read(f.value, wt, f.number, s.skip(k as int), depth)
}

/// Reading back a written unknown field: the record of a well-formed
/// unknown field that nests no more than `depth` groups deep, followed by
/// any bytes, reads back as the field's number and wire type, then as its
/// very value, taking exactly the record's bytes.
pub proof fn law_unknown_roundtrip(f: UnknownField, rest: Seq<u8>, depth: nat)
    requires
        field_wf(f),
        unknown_depth(f) <= depth,
        spec_encode_unknown_field(f).len() <= usize::MAX,
    ensures
        unknown_reads_back(f, rest, depth),
    decreases f, 2nat,
{
    if f.value is Group {
        lemma_unknown_group_case(f, rest, depth);
    } else {
        lemma_unknown_flat_case(f, rest, depth);
    }
}

#[verifier::spinoff_prover]
#[verifier::rlimit(50)]
proof fn lemma_unknown_flat_case(f: UnknownField, rest: Seq<u8>, depth: nat)
    requires
        field_wf(f),
        !(f.value is Group),
        spec_encode_unknown_field(f).len() <= usize::MAX,
    ensures
        unknown_reads_back(f, rest, depth),
{
    let n = f.number;
    let e = spec_encode_unknown_field(f);
    let s = e + rest;
    let wt = unknown_wire_type(f.value);
    let key = spec_key(n as nat, wt);
    crate::wire::lemma_varint_len((n * 8 + wt.code()) as nat);
    match f.value {
        UnknownFieldValue::Varint(v) => {
            assert(s =~= key + (spec_varint(v as nat) + rest));
            lemma_key_roundtrip(n, wt, spec_varint(v as nat) + rest);
            assert(s.skip(key.len() as int) =~= spec_varint(v as nat) + rest);
            lemma_varint_roundtrip(v as nat, rest);
            crate::wire::lemma_varint_len(v as nat);
        },
        UnknownFieldValue::SixtyFourBit(v) => {
            assert(s =~= key + (spec_le64(v) + rest));
            lemma_key_roundtrip(n, wt, spec_le64(v) + rest);
            assert(s.skip(key.len() as int) =~= spec_le64(v) + rest);
            lemma_le64_roundtrip(v, rest);
        },
        UnknownFieldValue::ThirtyTwoBit(v) => {
            assert(s =~= key + (spec_le32(v) + rest));
            lemma_key_roundtrip(n, wt, spec_le32(v) + rest);
            assert(s.skip(key.len() as int) =~= spec_le32(v) + rest);
            lemma_le32_roundtrip(v, rest);
        },
        UnknownFieldValue::LengthDelimited(b) => {
            crate::wire::lemma_field_lens(n as nat, 0, b@, 0, 0);
            lemma_len_record(n, b@, rest);
            crate::wire::lemma_varint_len(b@.len());
        },
        _ => {},
    }
}

proof fn lemma_unknown_group_case(f: UnknownField, rest: Seq<u8>, depth: nat)
    requires
        field_wf(f),
        f.value is Group,
        unknown_depth(f) <= depth,
        spec_encode_unknown_field(f).len() <= usize::MAX,
    ensures
        unknown_reads_back(f, rest, depth),
    decreases f, 1nat,
{
    let n = f.number;
    let e = spec_encode_unknown_field(f);
    let s = e + rest;
    let wt = WireType::StartGroup;
    let key = spec_key(n as nat, wt);
    let g = f.value->Group_0;
    let fs = g.fields@;
    let body = spec_encode_unknown_fields(fs);
    let end = spec_key(n as nat, WireType::EndGroup);
    crate::wire::lemma_varint_len((n * 8 + wt.code()) as nat);
    crate::wire::lemma_key_len(n as nat, WireType::EndGroup);
    assert(s =~= key + (body + (end + rest)));
    lemma_key_roundtrip(n, wt, body + (end + rest));
    assert(s.skip(key.len() as int) =~= body + (end + rest));
    assert((end + rest).skip(end.len() as int) =~= rest);
    lemma_unknown_fields_roundtrip(fs, n, end + rest, (depth - 1) as nat);
    assert(((depth - 1) as nat + 1) as nat == depth);
}

/// Reading back the fields of a written unknown group: the records of a
/// run of well-formed unknown fields that nest no more than `depth`
/// groups deep, followed by the group's end key, read back as those
/// fields, and then the end key.
#[verifier::spinoff_prover]
#[verifier::rlimit(40)]
proof fn lemma_unknown_fields_roundtrip(fs: Seq<UnknownField>, tag: u32, tail: Seq<u8>, depth: nat)
    requires
        fields_wf(fs),
        valid_tag(tag as nat),
        unknown_fields_depth(fs) <= depth,
        spec_encode_unknown_fields(fs).len() <= usize::MAX,
        tail == spec_key(tag as nat, WireType::EndGroup) + tail.skip(spec_key(tag as nat, WireType::EndGroup).len() as int),
    ensures
        ({
            let body = spec_encode_unknown_fields(fs);
            let s = body + tail;
            let end = spec_key(tag as nat, WireType::EndGroup).len();
            &&& group_prefix_read(fs, tag, s, depth + 1) == Some(body.len())
            &&& spec_unknown_group_len(tag, s, depth + 1) == Some(body.len() + end)
            &&& spec_decode_key(s.skip(body.len() as int)) == Some((tag, WireType::EndGroup, end))
        }),
    decreases fs, 0nat,
{
    let body = spec_encode_unknown_fields(fs);
    let s = body + tail;
    let endk = spec_key(tag as nat, WireType::EndGroup);
    crate::wire::lemma_varint_len((tag * 8 + WireType::EndGroup.code()) as nat);
    lemma_key_roundtrip(tag, WireType::EndGroup, tail.skip(endk.len() as int));
    if fs.len() == 0 {
        assert(body =~= Seq::<u8>::empty());
        assert(s =~= tail);
        assert(s.skip(0) =~= tail);
    } else {
        lemma_unknown_fields_front(fs);
        let f0 = fs[0];
        let more = fs.drop_first();
        let e0 = spec_encode_unknown_field(f0);
        let rest0 = spec_encode_unknown_fields(more) + tail;
        assert(s =~= e0 + rest0);
        law_unknown_roundtrip(f0, rest0, depth);
        lemma_unknown_fields_roundtrip(more, tag, tail, depth);
        assert(unknown_depth(f0) <= depth);
        let wt0 = unknown_wire_type(f0.value);
        let k0 = spec_key(f0.number as nat, wt0).len();
        assert(s.skip(k0 as int) =~= (e0 + rest0).skip(k0 as int));
        assert(s.skip(e0.len() as int) =~= rest0);
        assert(s.skip(body.len() as int) =~= rest0.skip(spec_encode_unknown_fields(more).len() as int));
        assert(((depth + 1) - 1) as nat == depth);
        assert(s.skip((k0 + (e0.len() - k0)) as int) =~= rest0);
    }
}

/// `prost::encoding::decode_varint` on a byte slice: reads the varint at
/// the start and advances past it.
#[verifier::external_body]
fn decode_varint(buf: &mut &[u8]) -> (r: Result<u64, prost::DecodeError>)
    ensures
        match spec_decode_varint(old(buf)@) {
            Some((v, n)) => (r matches Ok(x) && x == v) && final(buf)@ == old(buf)@.skip(n as int),
            None => r is Err,
        },
{
    prost::encoding::decode_varint(buf)
}

/// `prost::encoding::decode_key` on a byte slice: reads the key at the
/// start and advances past it.
#[verifier::external_body]
fn decode_key(buf: &mut &[u8]) -> (r: Result<(u32, WireType), prost::DecodeError>)
    ensures
        match spec_decode_key(old(buf)@) {
            Some((tag, wt, n)) => r == Ok::<(u32, WireType), prost::DecodeError>((tag, wt)) && final(buf)@
                == old(buf)@.skip(n as int),
            None => r is Err,
        },
{
    match prost::encoding::decode_key(buf) {
        Ok((tag, prost::encoding::WireType::Varint)) => Ok((tag, WireType::Varint)),
        Ok((tag, prost::encoding::WireType::SixtyFourBit)) => Ok((tag, WireType::SixtyFourBit)),
        Ok((tag, prost::encoding::WireType::LengthDelimited)) => Ok((tag, WireType::LengthDelimited)),
        Ok((tag, prost::encoding::WireType::StartGroup)) => Ok((tag, WireType::StartGroup)),
        Ok((tag, prost::encoding::WireType::EndGroup)) => Ok((tag, WireType::EndGroup)),
        Ok((tag, prost::encoding::WireType::ThirtyTwoBit)) => Ok((tag, WireType::ThirtyTwoBit)),
        Err(e) => Err(e),
    }
}

/// `prost::encoding::bool::merge` on a byte slice: a varint record, true unless zero; on a
/// wrong wire type or too few bytes it fails and leaves the value alone.
#[verifier::external_body]
fn merge_bool(wire_type: WireType, value: &mut bool, buf: &mut &[u8]) -> (r: Result<(), prost::DecodeError>)
    ensures
        match spec_wire_scalar(KindIndex::Bool, wire_type, old(buf)@) {
            Some((raw, n)) => r is Ok && Value::Bool(*final(value)) == spec_scalar_from_raw(KindIndex::Bool, raw) && final(buf)@ == old(buf)@.skip(n as int),
            None => r is Err && *final(value) == *old(value),
        },
{
    let wt = match wire_type {
        WireType::Varint => prost::encoding::WireType::Varint,
        WireType::SixtyFourBit => prost::encoding::WireType::SixtyFourBit,
        WireType::LengthDelimited => prost::encoding::WireType::LengthDelimited,
        WireType::StartGroup => prost::encoding::WireType::StartGroup,
        WireType::EndGroup => prost::encoding::WireType::EndGroup,
        WireType::ThirtyTwoBit => prost::encoding::WireType::ThirtyTwoBit,
    };
    prost::encoding::bool::merge(wt, value, buf, prost::encoding::DecodeContext::default())
}

/// `prost::encoding::int32::merge` on a byte slice: a varint record, its low 32 bits as a signed integer; on a
/// wrong wire type or too few bytes it fails and leaves the value alone.
#[verifier::external_body]
fn merge_int32(wire_type: WireType, value: &mut i32, buf: &mut &[u8]) -> (r: Result<(), prost::DecodeError>)
    ensures
        match spec_wire_scalar(KindIndex::Int32, wire_type, old(buf)@) {
            Some((raw, n)) => r is Ok && Value::I32(*final(value)) == spec_scalar_from_raw(KindIndex::Int32, raw) && final(buf)@ == old(buf)@.skip(n as int),
            None => r is Err && *final(value) == *old(value),
        },
{
    let wt = match wire_type {
        WireType::Varint => prost::encoding::WireType::Varint,
        WireType::SixtyFourBit => prost::encoding::WireType::SixtyFourBit,
        WireType::LengthDelimited => prost::encoding::WireType::LengthDelimited,
        WireType::StartGroup => prost::encoding::WireType::StartGroup,
        WireType::EndGroup => prost::encoding::WireType::EndGroup,
        WireType::ThirtyTwoBit => prost::encoding::WireType::ThirtyTwoBit,
    };
    prost::encoding::int32::merge(wt, value, buf, prost::encoding::DecodeContext::default())
}

/// `prost::encoding::int64::merge` on a byte slice: a varint record, as a signed integer; on a
/// wrong wire type or too few bytes it fails and leaves the value alone.
#[verifier::external_body]
fn merge_int64(wire_type: WireType, value: &mut i64, buf: &mut &[u8]) -> (r: Result<(), prost::DecodeError>)
    ensures
        match spec_wire_scalar(KindIndex::Int64, wire_type, old(buf)@) {
            Some((raw, n)) => r is Ok && Value::I64(*final(value)) == spec_scalar_from_raw(KindIndex::Int64, raw) && final(buf)@ == old(buf)@.skip(n as int),
            None => r is Err && *final(value) == *old(value),
        },
{
    let wt = match wire_type {
        WireType::Varint => prost::encoding::WireType::Varint,
        WireType::SixtyFourBit => prost::encoding::WireType::SixtyFourBit,
        WireType::LengthDelimited => prost::encoding::WireType::LengthDelimited,
        WireType::StartGroup => prost::encoding::WireType::StartGroup,
        WireType::EndGroup => prost::encoding::WireType::EndGroup,
        WireType::ThirtyTwoBit => prost::encoding::WireType::ThirtyTwoBit,
    };
    prost::encoding::int64::merge(wt, value, buf, prost::encoding::DecodeContext::default())
}

/// `prost::encoding::uint32::merge` on a byte slice: a varint record, its low 32 bits; on a
/// wrong wire type or too few bytes it fails and leaves the value alone.
#[verifier::external_body]
fn merge_uint32(wire_type: WireType, value: &mut u32, buf: &mut &[u8]) -> (r: Result<(), prost::DecodeError>)
    ensures
        match spec_wire_scalar(KindIndex::Uint32, wire_type, old(buf)@) {
            Some((raw, n)) => r is Ok && Value::U32(*final(value)) == spec_scalar_from_raw(KindIndex::Uint32, raw) && final(buf)@ == old(buf)@.skip(n as int),
            None => r is Err && *final(value) == *old(value),
        },
{
    let wt = match wire_type {
        WireType::Varint => prost::encoding::WireType::Varint,
        WireType::SixtyFourBit => prost::encoding::WireType::SixtyFourBit,
        WireType::LengthDelimited => prost::encoding::WireType::LengthDelimited,
        WireType::StartGroup => prost::encoding::WireType::StartGroup,
        WireType::EndGroup => prost::encoding::WireType::EndGroup,
        WireType::ThirtyTwoBit => prost::encoding::WireType::ThirtyTwoBit,
    };
    prost::encoding::uint32::merge(wt, value, buf, prost::encoding::DecodeContext::default())
}

/// `prost::encoding::uint64::merge` on a byte slice: a varint record; on a
/// wrong wire type or too few bytes it fails and leaves the value alone.
#[verifier::external_body]
fn merge_uint64(wire_type: WireType, value: &mut u64, buf: &mut &[u8]) -> (r: Result<(), prost::DecodeError>)
    ensures
        match spec_wire_scalar(KindIndex::Uint64, wire_type, old(buf)@) {
            Some((raw, n)) => r is Ok && Value::U64(*final(value)) == spec_scalar_from_raw(KindIndex::Uint64, raw) && final(buf)@ == old(buf)@.skip(n as int),
            None => r is Err && *final(value) == *old(value),
        },
{
    let wt = match wire_type {
        WireType::Varint => prost::encoding::WireType::Varint,
        WireType::SixtyFourBit => prost::encoding::WireType::SixtyFourBit,
        WireType::LengthDelimited => prost::encoding::WireType::LengthDelimited,
        WireType::StartGroup => prost::encoding::WireType::StartGroup,
        WireType::EndGroup => prost::encoding::WireType::EndGroup,
        WireType::ThirtyTwoBit => prost::encoding::WireType::ThirtyTwoBit,
    };
    prost::encoding::uint64::merge(wt, value, buf, prost::encoding::DecodeContext::default())
}

/// `prost::encoding::sint32::merge` on a byte slice: a varint record, ZigZag-decoded from its low 32 bits; on a
/// wrong wire type or too few bytes it fails and leaves the value alone.
#[verifier::external_body]
fn merge_sint32(wire_type: WireType, value: &mut i32, buf: &mut &[u8]) -> (r: Result<(), prost::DecodeError>)
    ensures
        match spec_wire_scalar(KindIndex::Sint32, wire_type, old(buf)@) {
            Some((raw, n)) => r is Ok && Value::I32(*final(value)) == spec_scalar_from_raw(KindIndex::Sint32, raw) && final(buf)@ == old(buf)@.skip(n as int),
            None => r is Err && *final(value) == *old(value),
        },
{
    let wt = match wire_type {
        WireType::Varint => prost::encoding::WireType::Varint,
        WireType::SixtyFourBit => prost::encoding::WireType::SixtyFourBit,
        WireType::LengthDelimited => prost::encoding::WireType::LengthDelimited,
        WireType::StartGroup => prost::encoding::WireType::StartGroup,
        WireType::EndGroup => prost::encoding::WireType::EndGroup,
        WireType::ThirtyTwoBit => prost::encoding::WireType::ThirtyTwoBit,
    };
    prost::encoding::sint32::merge(wt, value, buf, prost::encoding::DecodeContext::default())
}

/// `prost::encoding::sint64::merge` on a byte slice: a varint record, ZigZag-decoded; on a
/// wrong wire type or too few bytes it fails and leaves the value alone.
#[verifier::external_body]
fn merge_sint64(wire_type: WireType, value: &mut i64, buf: &mut &[u8]) -> (r: Result<(), prost::DecodeError>)
    ensures
        match spec_wire_scalar(KindIndex::Sint64, wire_type, old(buf)@) {
            Some((raw, n)) => r is Ok && Value::I64(*final(value)) == spec_scalar_from_raw(KindIndex::Sint64, raw) && final(buf)@ == old(buf)@.skip(n as int),
            None => r is Err && *final(value) == *old(value),
        },
{
    let wt = match wire_type {
        WireType::Varint => prost::encoding::WireType::Varint,
        WireType::SixtyFourBit => prost::encoding::WireType::SixtyFourBit,
        WireType::LengthDelimited => prost::encoding::WireType::LengthDelimited,
        WireType::StartGroup => prost::encoding::WireType::StartGroup,
        WireType::EndGroup => prost::encoding::WireType::EndGroup,
        WireType::ThirtyTwoBit => prost::encoding::WireType::ThirtyTwoBit,
    };
    prost::encoding::sint64::merge(wt, value, buf, prost::encoding::DecodeContext::default())
}

/// `prost::encoding::fixed32::merge` on a byte slice: four little-endian bytes; on a
/// wrong wire type or too few bytes it fails and leaves the value alone.
#[verifier::external_body]
fn merge_fixed32(wire_type: WireType, value: &mut u32, buf: &mut &[u8]) -> (r: Result<(), prost::DecodeError>)
    ensures
        match spec_wire_scalar(KindIndex::Fixed32, wire_type, old(buf)@) {
            Some((raw, n)) => r is Ok && Value::U32(*final(value)) == spec_scalar_from_raw(KindIndex::Fixed32, raw) && final(buf)@ == old(buf)@.skip(n as int),
            None => r is Err && *final(value) == *old(value),
        },
{
    let wt = match wire_type {
        WireType::Varint => prost::encoding::WireType::Varint,
        WireType::SixtyFourBit => prost::encoding::WireType::SixtyFourBit,
        WireType::LengthDelimited => prost::encoding::WireType::LengthDelimited,
        WireType::StartGroup => prost::encoding::WireType::StartGroup,
        WireType::EndGroup => prost::encoding::WireType::EndGroup,
        WireType::ThirtyTwoBit => prost::encoding::WireType::ThirtyTwoBit,
    };
    prost::encoding::fixed32::merge(wt, value, buf, prost::encoding::DecodeContext::default())
}

/// `prost::encoding::fixed64::merge` on a byte slice: eight little-endian bytes; on a
/// wrong wire type or too few bytes it fails and leaves the value alone.
#[verifier::external_body]
fn merge_fixed64(wire_type: WireType, value: &mut u64, buf: &mut &[u8]) -> (r: Result<(), prost::DecodeError>)
    ensures
        match spec_wire_scalar(KindIndex::Fixed64, wire_type, old(buf)@) {
            Some((raw, n)) => r is Ok && Value::U64(*final(value)) == spec_scalar_from_raw(KindIndex::Fixed64, raw) && final(buf)@ == old(buf)@.skip(n as int),
            None => r is Err && *final(value) == *old(value),
        },
{
    let wt = match wire_type {
        WireType::Varint => prost::encoding::WireType::Varint,
        WireType::SixtyFourBit => prost::encoding::WireType::SixtyFourBit,
        WireType::LengthDelimited => prost::encoding::WireType::LengthDelimited,
        WireType::StartGroup => prost::encoding::WireType::StartGroup,
        WireType::EndGroup => prost::encoding::WireType::EndGroup,
        WireType::ThirtyTwoBit => prost::encoding::WireType::ThirtyTwoBit,
    };
    prost::encoding::fixed64::merge(wt, value, buf, prost::encoding::DecodeContext::default())
}

/// `prost::encoding::sfixed32::merge` on a byte slice: four little-endian bytes as a signed integer; on a
/// wrong wire type or too few bytes it fails and leaves the value alone.
#[verifier::external_body]
fn merge_sfixed32(wire_type: WireType, value: &mut i32, buf: &mut &[u8]) -> (r: Result<(), prost::DecodeError>)
    ensures
        match spec_wire_scalar(KindIndex::Sfixed32, wire_type, old(buf)@) {
            Some((raw, n)) => r is Ok && Value::I32(*final(value)) == spec_scalar_from_raw(KindIndex::Sfixed32, raw) && final(buf)@ == old(buf)@.skip(n as int),
            None => r is Err && *final(value) == *old(value),
        },
{
    let wt = match wire_type {
        WireType::Varint => prost::encoding::WireType::Varint,
        WireType::SixtyFourBit => prost::encoding::WireType::SixtyFourBit,
        WireType::LengthDelimited => prost::encoding::WireType::LengthDelimited,
        WireType::StartGroup => prost::encoding::WireType::StartGroup,
        WireType::EndGroup => prost::encoding::WireType::EndGroup,
        WireType::ThirtyTwoBit => prost::encoding::WireType::ThirtyTwoBit,
    };
    prost::encoding::sfixed32::merge(wt, value, buf, prost::encoding::DecodeContext::default())
}

/// `prost::encoding::sfixed64::merge` on a byte slice: eight little-endian bytes as a signed integer; on a
/// wrong wire type or too few bytes it fails and leaves the value alone.
#[verifier::external_body]
fn merge_sfixed64(wire_type: WireType, value: &mut i64, buf: &mut &[u8]) -> (r: Result<(), prost::DecodeError>)
    ensures
        match spec_wire_scalar(KindIndex::Sfixed64, wire_type, old(buf)@) {
            Some((raw, n)) => r is Ok && Value::I64(*final(value)) == spec_scalar_from_raw(KindIndex::Sfixed64, raw) && final(buf)@ == old(buf)@.skip(n as int),
            None => r is Err && *final(value) == *old(value),
        },
{
    let wt = match wire_type {
        WireType::Varint => prost::encoding::WireType::Varint,
        WireType::SixtyFourBit => prost::encoding::WireType::SixtyFourBit,
        WireType::LengthDelimited => prost::encoding::WireType::LengthDelimited,
        WireType::StartGroup => prost::encoding::WireType::StartGroup,
        WireType::EndGroup => prost::encoding::WireType::EndGroup,
        WireType::ThirtyTwoBit => prost::encoding::WireType::ThirtyTwoBit,
    };
    prost::encoding::sfixed64::merge(wt, value, buf, prost::encoding::DecodeContext::default())
}

/// `prost::encoding::bytes::merge` into a `Vec<u8>` on a byte slice: a
/// length-delimited record's payload replaces the value; on a wrong wire
/// type or a length past the end it fails and leaves the value alone.
#[verifier::external_body]
fn merge_bytes(wire_type: WireType, value: &mut Vec<u8>, buf: &mut &[u8]) -> (r: Result<(), prost::DecodeError>)
    ensures
        match spec_wire_payload(wire_type, old(buf)@) {
            Some((payload, n)) => r is Ok && final(value)@ == payload && final(buf)@ == old(buf)@.skip(n as int),
            None => r is Err && *final(value) == *old(value),
        },
{
    let wt = match wire_type {
        WireType::Varint => prost::encoding::WireType::Varint,
        WireType::SixtyFourBit => prost::encoding::WireType::SixtyFourBit,
        WireType::LengthDelimited => prost::encoding::WireType::LengthDelimited,
        WireType::StartGroup => prost::encoding::WireType::StartGroup,
        WireType::EndGroup => prost::encoding::WireType::EndGroup,
        WireType::ThirtyTwoBit => prost::encoding::WireType::ThirtyTwoBit,
    };
    prost::encoding::bytes::merge(wt, value, buf, prost::encoding::DecodeContext::default())
}

/// `prost::encoding::string::merge` on a byte slice: a length-delimited
/// record's payload, if it is UTF-8, replaces the value; on any failure
/// the value is left empty.
#[verifier::external_body]
fn merge_string(wire_type: WireType, value: &mut String, buf: &mut &[u8]) -> (r: Result<(), prost::DecodeError>)
    ensures
        match spec_wire_payload(wire_type, old(buf)@) {
            Some((payload, n)) => if vstd::utf8::valid_utf8(payload) {
                r is Ok && str_bytes(final(value)@) == payload && final(buf)@ == old(buf)@.skip(n as int)
            } else {
                r is Err && final(value)@.len() == 0
            },
            None => r is Err && final(value)@.len() == 0,
        },
{
    let wt = match wire_type {
        WireType::Varint => prost::encoding::WireType::Varint,
        WireType::SixtyFourBit => prost::encoding::WireType::SixtyFourBit,
        WireType::LengthDelimited => prost::encoding::WireType::LengthDelimited,
        WireType::StartGroup => prost::encoding::WireType::StartGroup,
        WireType::EndGroup => prost::encoding::WireType::EndGroup,
        WireType::ThirtyTwoBit => prost::encoding::WireType::ThirtyTwoBit,
    };
    prost::encoding::string::merge(wt, value, buf, prost::encoding::DecodeContext::default())
}

/// `prost::encoding::skip_field` on a byte slice, with the default
/// recursion budget: advances past the field's value (see
/// `spec_skip_field`).
#[verifier::external_body]
fn skip_field(wire_type: WireType, tag: u32, buf: &mut &[u8]) -> (r: Result<(), prost::DecodeError>)
    ensures
        match spec_skip_field(wire_type, tag, old(buf)@, RECURSION_LIMIT as nat) {
            Some(n) => r is Ok && final(buf)@ == old(buf)@.skip(n as int),
            None => r is Err,
        },
{
    let wt = match wire_type {
        WireType::Varint => prost::encoding::WireType::Varint,
        WireType::SixtyFourBit => prost::encoding::WireType::SixtyFourBit,
        WireType::LengthDelimited => prost::encoding::WireType::LengthDelimited,
        WireType::StartGroup => prost::encoding::WireType::StartGroup,
        WireType::EndGroup => prost::encoding::WireType::EndGroup,
        WireType::ThirtyTwoBit => prost::encoding::WireType::ThirtyTwoBit,
    };
    prost::encoding::skip_field(wt, tag, buf, prost::encoding::DecodeContext::default())
}

/// `after` is what is left of `before` once a prefix of it is read.
pub open spec fn read_prefix(before: Seq<u8>, after: Seq<u8>) -> bool {
    after.len() <= before.len() && after == before.skip(before.len() - after.len())
}

proof fn lemma_read_prefix_trans(a: Seq<u8>, b: Seq<u8>, c: Seq<u8>)
    requires
        read_prefix(a, b),
        read_prefix(b, c),
    ensures
        read_prefix(a, c),
{
    assert(c == a.skip(a.len() - c.len()));
}

proof fn lemma_le_bounds(s: Seq<u8>)
    ensures
        s.len() >= 4 ==> spec_le32_value(s) < 0x1_0000_0000,
        s.len() >= 8 ==> spec_le64_value(s) < 0x1_0000_0000_0000_0000,
{
    if s.len() >= 8 {
        assert(s.skip(4).len() >= 4);
        let lo = spec_le32_value(s);
        let hi = spec_le32_value(s.skip(4));
        assert(lo + 0x1_0000_0000 * hi < 0x1_0000_0000_0000_0000) by (nonlinear_arith)
            requires
                lo < 0x1_0000_0000,
                hi < 0x1_0000_0000,
        ;
    }
}

/// A failure of a `prost` primitive, as a decode failure.
fn wire(r: Result<(), prost::DecodeError>) -> (out: Result<(), WireError>)
    ensures
        r is Ok <==> out is Ok,
{
    match r {
        Ok(()) => Ok(()),
        Err(e) => Err(WireError::Wire(e)),
    }
}

/// Whether two map keys are the same key.
fn same_key_exec(a: &MapKey, b: &MapKey) -> (r: bool)
    ensures
        r == same_key(*a, *b),
{
    match (a, b) {
        (MapKey::Bool(x), MapKey::Bool(y)) => *x == *y,
        (MapKey::I32(x), MapKey::I32(y)) => *x == *y,
        (MapKey::I64(x), MapKey::I64(y)) => *x == *y,
        (MapKey::U32(x), MapKey::U32(y)) => *x == *y,
        (MapKey::U64(x), MapKey::U64(y)) => *x == *y,
        (MapKey::String(x), MapKey::String(y)) => *x == *y,
        _ => false,
    }
}

impl MapKey {
    /// Merges a record into the key: the scalar merge of the key's kind.
    pub(crate) fn merge_field(&mut self, view: &RawFieldView, wire_type: WireType, buf: &mut &[u8]) -> (r:
        Result<(), WireError>)
        requires
            view.wf(),
            key_matches_kind(view.kind, *old(self)),
        ensures
            key_matches_kind(view.kind, *final(self)),
            r is Ok ==> read_prefix(old(buf)@, final(buf)@),
            !(*old(self) is String) ==> match spec_wire_scalar(view.kind, wire_type, old(buf)@) {
                Some((raw, n)) => r is Ok && crate::encode::key_as_value(*final(self)) == spec_scalar_from_raw(
                    view.kind,
                    raw,
                ) && final(buf)@ == old(buf)@.skip(n as int),
                None => r is Err,
            },
            *old(self) is String ==> match spec_wire_payload(wire_type, old(buf)@) {
                Some((payload, n)) => if vstd::utf8::valid_utf8(payload) {
                    r is Ok && *final(self) is String && str_bytes(final(self)->String_0@) == payload
                        && final(buf)@ == old(buf)@.skip(n as int)
                } else {
                    r is Err
                },
                None => r is Err,
            },
    {
        proof {
            if let Some((_, n)) = spec_wire_scalar(view.kind, wire_type, buf@) {
                if wire_type == WireType::Varint {
                    lemma_decode_varint_bounds(buf@);
                }
            }
            if let Some((_, n)) = spec_wire_payload(wire_type, buf@) {
                lemma_decode_varint_bounds(buf@);
            }
        }
        match (self, view.kind_index()) {
            (MapKey::Bool(value), KindIndex::Bool) => wire(merge_bool(wire_type, value, buf)),
            (MapKey::I32(value), KindIndex::Int32) => wire(merge_int32(wire_type, value, buf)),
            (MapKey::I32(value), KindIndex::Sint32) => wire(merge_sint32(wire_type, value, buf)),
            (MapKey::I32(value), KindIndex::Sfixed32) => wire(merge_sfixed32(wire_type, value, buf)),
            (MapKey::I64(value), KindIndex::Int64) => wire(merge_int64(wire_type, value, buf)),
            (MapKey::I64(value), KindIndex::Sint64) => wire(merge_sint64(wire_type, value, buf)),
            (MapKey::I64(value), KindIndex::Sfixed64) => wire(merge_sfixed64(wire_type, value, buf)),
            (MapKey::U32(value), KindIndex::Uint32) => wire(merge_uint32(wire_type, value, buf)),
            (MapKey::U32(value), KindIndex::Fixed32) => wire(merge_fixed32(wire_type, value, buf)),
            (MapKey::U64(value), KindIndex::Uint64) => wire(merge_uint64(wire_type, value, buf)),
            (MapKey::U64(value), KindIndex::Fixed64) => wire(merge_fixed64(wire_type, value, buf)),
            (MapKey::String(value), KindIndex::String) => wire(merge_string(wire_type, value, buf)),
            _ => {
                proof {
                    assert(false);
                }
                Ok(())
            },
        }
    }
}

/// A decoded key names a field number a key can carry.
pub(crate) proof fn lemma_decode_key_bounds(s: Seq<u8>)
    requires
        spec_decode_key(s) is Some,
    ensures
        1 <= spec_decode_key(s)->Some_0.0 <= 536_870_911,
        1 <= spec_decode_key(s)->Some_0.2 <= s.len(),
{
    lemma_decode_varint_bounds(s);
}

impl UnknownField {
    /// Reads the value of an unknown field whose key has been read: a
    /// varint, eight or four bytes, a length-delimited payload, or a
    /// group's fields through its matching end key (nesting at most
    /// `depth` groups).
    pub fn decode_value(number: u32, wire_type: WireType, buf: &mut &[u8], depth: u32) -> (r: Result<
        UnknownField,
        WireError,
    >)
        requires
            valid_tag(number as nat),
        ensures
            r is Ok ==> read_prefix(old(buf)@, final(buf)@),
            r matches Ok(f) ==> f.number == number && field_wf(f),
            wire_type == WireType::Varint ==> match spec_decode_varint(old(buf)@) {
                Some((v, n)) => (r matches Ok(f) && f.value == UnknownFieldValue::Varint(v as u64))
                    && final(buf)@ == old(buf)@.skip(n as int),
                None => r is Err,
            },
            wire_type == WireType::SixtyFourBit ==> match spec_wire_scalar(KindIndex::Fixed64, wire_type, old(buf)@) {
                Some((v, n)) => (r matches Ok(f) && f.value == UnknownFieldValue::SixtyFourBit(v as u64))
                    && final(buf)@ == old(buf)@.skip(n as int),
                None => r is Err,
            },
            wire_type == WireType::ThirtyTwoBit ==> match spec_wire_scalar(KindIndex::Fixed32, wire_type, old(buf)@) {
                Some((v, n)) => (r matches Ok(f) && f.value == UnknownFieldValue::ThirtyTwoBit(v as u32))
                    && final(buf)@ == old(buf)@.skip(n as int),
                None => r is Err,
            },
            wire_type == WireType::LengthDelimited ==> match spec_wire_payload(wire_type, old(buf)@) {
                Some((payload, n)) => (r matches Ok(f) && f.value is LengthDelimited
                    && f.value->LengthDelimited_0@ == payload) && final(buf)@ == old(buf)@.skip(n as int),
                None => r is Err,
            },
            wire_type == WireType::StartGroup ==> (r matches Ok(f) ==> f.value is Group),
            wire_type == WireType::EndGroup ==> r is Err,
            match spec_unknown_len(wire_type, number, old(buf)@, depth as nat) {
                Some(n) => (r matches Ok(f) && unknown_value_read(f.value, wire_type, number, old(buf)@, depth as nat))
                    && final(buf)@ == old(buf)@.skip(n as int),
                None => r is Err,
            },
        decreases depth,
    {
        let ghost start = buf@;
        proof {
            if spec_decode_varint(buf@) is Some {
                lemma_decode_varint_bounds(buf@);
            }
            lemma_le_bounds(buf@);
        }
        let value = match wire_type {
            WireType::Varint => match decode_varint(buf) {
                Ok(v) => UnknownFieldValue::Varint(v),
                Err(e) => {
                    return Err(WireError::Wire(e));
                },
            },
            WireType::SixtyFourBit => {
                let mut v: u64 = 0;
                match merge_fixed64(wire_type, &mut v, buf) {
                    Ok(()) => UnknownFieldValue::SixtyFourBit(v),
                    Err(e) => {
                        return Err(WireError::Wire(e));
                    },
                }
            },
            WireType::LengthDelimited => {
                let mut v: Vec<u8> = Vec::new();
                match merge_bytes(wire_type, &mut v, buf) {
                    Ok(()) => UnknownFieldValue::LengthDelimited(v),
                    Err(e) => {
                        return Err(WireError::Wire(e));
                    },
                }
            },
            WireType::StartGroup => {
                if depth == 0 {
                    return Err(WireError::RecursionLimitReached);
                }
                let mut set = UnknownFieldSet { fields: Vec::new() };
                proof {
                    assert(start.skip(0) == start);
                }
                loop
                    invariant_except_break
                        group_prefix_read(set.fields@, number, start, depth as nat) == Some(
                            (start.len() - buf@.len()) as nat,
                        ),
                        spec_unknown_group_len(number, start, depth as nat) == match spec_unknown_group_len(
                            number,
                            buf@,
                            depth as nat,
                        ) {
                            Some(k) => Some((start.len() - buf@.len() + k) as nat),
                            None => None,
                        },
                    invariant
                        wire_type == WireType::StartGroup,
                        valid_tag(number as nat),
                        depth > 0,
                        read_prefix(start, buf@),
                        fields_wf(set.fields@),
                        start == old(buf)@,
                    ensures
                        read_prefix(start, buf@),
                        fields_wf(set.fields@),
                        spec_unknown_group_len(number, start, depth as nat) == Some((start.len() - buf@.len()) as nat),
                        ({
                            &&& group_prefix_read(set.fields@, number, start, depth as nat) matches Some(c)
                            &&& c <= start.len()
                            &&& spec_decode_key(start.skip(c as int)) matches Some((t, et, _))
                            &&& et == WireType::EndGroup
                            &&& t == number
                        }),
                    decreases buf@.len(),
                {
                    let ghost before = buf@;
                    proof {
                        if spec_decode_key(buf@) is Some {
                            lemma_decode_key_bounds(buf@);
                        }
                    }
                    let (field_number, field_wire_type) = match decode_key(buf) {
                        Ok(key) => key,
                        Err(e) => {
                            proof {
                                assert(spec_unknown_group_len(number, before, depth as nat) is None);
                            }
                            return Err(WireError::Wire(e));
                        },
                    };
                    let ghost n = (before.len() - buf@.len()) as nat;
                    proof {
                        lemma_read_prefix_trans(start, before, buf@);
                        assert(spec_decode_key(before) == Some((field_number, field_wire_type, n)));
                    }
                    if field_wire_type == WireType::EndGroup {
                        if field_number != number {
                            proof {
                                assert(spec_unknown_group_len(number, before, depth as nat) is None);
                            }
                            return Err(WireError::UnexpectedEndGroupTag);
                        }
                        proof {
                            let p = (start.len() - before.len()) as nat;
                            assert(start.skip(p as int) == before);
                            assert(spec_unknown_group_len(number, before, depth as nat) == Some(n));
                        }
                        break;
                    }
                    let ghost mid = buf@;
                    let ghost fs0 = set.fields@;
                    let field = match UnknownField::decode_value(field_number, field_wire_type, buf, depth - 1) {
                        Ok(field) => field,
                        Err(e) => {
                            proof {
                                assert(spec_unknown_len(field_wire_type, field_number, mid, (depth - 1) as nat) is None);
                                assert(before.skip(n as int) == mid);
                                assert(spec_unknown_group_len(number, before, depth as nat) is None);
                            }
                            return Err(e);
                        },
                    };
                    proof {
                        assert(set.fields@.push(field).drop_last() == set.fields@);
                        lemma_group_step(fs0, field, number, start, before, mid, buf@, depth as nat, field_wire_type);
                    }
                    set.insert(field);
                }
                UnknownFieldValue::Group(set)
            },
            WireType::EndGroup => {
                return Err(WireError::UnexpectedEndGroupTag);
            },
            WireType::ThirtyTwoBit => {
                let mut v: u32 = 0;
                match merge_fixed32(wire_type, &mut v, buf) {
                    Ok(()) => UnknownFieldValue::ThirtyTwoBit(v),
                    Err(e) => {
                        return Err(WireError::Wire(e));
                    },
                }
            },
        };
        proof {
            if wire_type != WireType::StartGroup {
                assert(read_prefix(start, buf@));
            }
        }
        Ok(UnknownField { number, value })
    }
}

/// How a merge nests: a container merges its elements at the same depth
/// and place, a single value reads its record, a message reads its fields
/// one level deeper.
pub open spec fn merge_rank(v: Value) -> nat {
    if v is List || v is MapEntries {
        4
    } else {
        2
    }
}

/// A list whose elements are single values of a list field's kind is fit
/// for the field.
proof fn lemma_list_valid(pool: crate::descriptor::DescriptorPoolInner, info: crate::descriptor::FieldInfo, vs: Vec<Value>)
    requires
        info.is_list,
        forall|k: int| 0 <= k < vs@.len() ==> valid_element(pool, info.kind, #[trigger] vs@[k]),
    ensures
        valid_value(pool, info, Value::List(vs)),
        encodable(pool, info, Value::List(vs)),
{
}

/// A byte slice split at `mid`: what is before and what is after.
proof fn lemma_split(s: Seq<u8>, n: nat, len: nat)
    requires
        n + len <= s.len(),
    ensures
        s.skip(n as int).subrange(0, len as int) == s.subrange(n as int, (n + len) as int),
        s.skip(n as int).subrange(len as int, s.len() - n) == s.skip((n + len) as int),
{
    assert(s.skip(n as int).subrange(0, len as int) =~= s.subrange(n as int, (n + len) as int));
    assert(s.skip(n as int).subrange(len as int, s.len() - n) =~= s.skip((n + len) as int));
}

/// Merges a record into a list: a packed record's elements, or the
/// record's element, are appended.
#[verifier::loop_isolation(false)]
#[verifier::spinoff_prover]
#[verifier::rlimit(60)]
fn merge_list(values: &mut Vec<Value>, view: &RawFieldView, wire_type: WireType, buf: &mut &[u8], depth: u32) -> (r:
    Result<(), WireError>)
    requires
        view.wf(),
        view.is_list,
        forall|k: int|
            0 <= k < old(values)@.len() ==> valid_element(view.spec_pool(), view.kind, #[trigger] old(values)@[k]),
    ensures
        forall|k: int|
            0 <= k < final(values)@.len() ==> valid_element(view.spec_pool(), view.kind, #[trigger] final(values)@[k]),
        r is Ok ==> read_prefix(old(buf)@, final(buf)@),
        old(values)@.len() <= final(values)@.len(),
        final(values)@.take(old(values)@.len() as int) == old(values)@,
        view.kind.spec_is_packable() ==> if wire_type == WireType::LengthDelimited {
            match spec_wire_payload(wire_type, old(buf)@) {
                Some((payload, n)) => match spec_decode_packed(view.kind, payload) {
                    Some(vs) => r is Ok && final(values)@ == old(values)@ + vs && final(buf)@ == old(buf)@.skip(
                        n as int,
                    ),
                    None => r is Err,
                },
                None => r is Err,
            }
        } else {
            match spec_wire_scalar(view.kind, wire_type, old(buf)@) {
                Some((raw, n)) => r is Ok && final(values)@ == old(values)@.push(
                    spec_scalar_from_raw(view.kind, raw),
                ) && final(buf)@ == old(buf)@.skip(n as int),
                None => r is Err,
            }
        },
        !view.kind.spec_is_packable() ==> (r is Ok ==> final(values)@.len() == old(values)@.len() + 1),
        view.kind is Bytes ==> match spec_wire_payload(wire_type, old(buf)@) {
            Some((payload, n)) => {
                &&& r is Ok
                &&& final(values)@.len() == old(values)@.len() + 1
                &&& final(values)@.last() is Bytes
                &&& final(values)@.last()->Bytes_0@ == payload
                &&& final(buf)@ == old(buf)@.skip(n as int)
            },
            None => r is Err,
        },
        view.kind is String ==> match spec_wire_payload(wire_type, old(buf)@) {
            Some((payload, n)) => if vstd::utf8::valid_utf8(payload) {
                &&& r is Ok
                &&& final(values)@.len() == old(values)@.len() + 1
                &&& final(values)@.last() is String
                &&& str_bytes(final(values)@.last()->String_0@) == payload
                &&& final(buf)@ == old(buf)@.skip(n as int)
            } else {
                r is Err
            },
            None => r is Err,
        },
        view.kind.spec_is_message() && !view.is_group ==> match spec_wire_payload(wire_type, old(buf)@) {
            Some((payload, n)) => if depth == 0 {
                r is Err
            } else {
                r is Ok ==> {
                    &&& final(values)@.len() == old(values)@.len() + 1
                    &&& final(values)@.last() is Message
                    &&& records_merged(
                        view.spec_pool(),
                        message_index_of(view.kind),
                        Map::<u32, ValueOrUnknown>::empty(),
                        payload,
                        (depth - 1) as nat,
                        final(values)@.last()->Message_0.spec_map(),
                    )
                    &&& final(buf)@ == old(buf)@.skip(n as int)
                }
            },
            None => r is Err,
        },
        view.kind.spec_is_message() && view.is_group ==> if wire_type != WireType::StartGroup || depth == 0 {
            r is Err
        } else {
            r is Ok ==> {
                &&& final(values)@.len() == old(values)@.len() + 1
                &&& final(values)@.last() is Message
                &&& exists|c: nat|
                    #![trigger group_extent(c)]
                    group_extent(c) && group_merged(
                        view.spec_pool(),
                        message_index_of(view.kind),
                        Map::<u32, ValueOrUnknown>::empty(),
                        view.spec_info().number,
                        old(buf)@,
                        (depth - 1) as nat,
                        final(values)@.last()->Message_0.spec_map(),
                        c,
                    ) && c <= old(buf)@.len() && final(buf)@ == old(buf)@.skip(c as int)
            }
        },
        r is Err ==> record_unreadable(view.spec_pool(), view.spec_info(), wire_type, old(buf)@, depth as nat),
        r is Err ==> record_len(view.spec_pool(), view.spec_info(), wire_type, old(buf)@, depth as nat) is None,
    decreases depth, old(buf)@.len(), 3nat,
{
    let ghost pool = view.spec_pool();
    let ghost info = view.spec_info();
    let ghost start = buf@;
    proof {
        lemma_le_bounds(buf@);
        if spec_decode_varint(buf@) is Some {
            lemma_decode_varint_bounds(buf@);
        }
        assert(start.skip(0) == start);
    }
        let ghost old_values = values@;
        if wire_type == WireType::LengthDelimited && view.kind_index().is_packable() {
            let len = match decode_varint(buf) {
                Ok(len) => len,
                Err(e) => {
                    proof {
                        lemma_list_unreadable(pool, info, wire_type, start, depth as nat);
                    }
                    return Err(WireError::Wire(e));
                },
            };
            if len > buf.len() as u64 {
                proof {
                    lemma_list_unreadable(pool, info, wire_type, start, depth as nat);
                }
                return Err(WireError::BufferUnderflow);
            }
            let ghost n0 = (start.len() - buf@.len()) as nat;
            let (sub0, rest) = buf.split_at(len as usize);
            proof {
                lemma_split(start, n0, len as nat);
            }
            let ghost payload = sub0@;
            proof {
                assert(spec_wire_payload(wire_type, start) == Some((payload, (n0 + len) as nat)));
            }
            let mut sub = sub0;
            let elem_wt = wire_type_for_kind_index(view.kind_index());
            while sub.len() > 0
                invariant
                    view.wf(),
                    pool == view.spec_pool(),
                    info == view.spec_info(),
                    info.is_list,
                    info.kind.spec_is_packable(),
                    elem_wt == spec_wire_type(info.kind),
                    sub@.len() < start.len(),
                    forall|k: int| 0 <= k < values@.len() ==> valid_element(pool, info.kind, #[trigger] values@[k]),
                    spec_decode_packed(info.kind, payload) == match spec_decode_packed(info.kind, sub@) {
                        Some(tail) => Some(values@.subrange(old_values.len() as int, values@.len() as int) + tail),
                        None => None,
                    },
                    old_values.len() <= values@.len(),
                    values@.take(old_values.len() as int) == old_values,
                decreases sub@.len(),
            {
                let ghost before = sub@;
                proof {
                    lemma_le_bounds(sub@);
                    if spec_decode_varint(sub@) is Some {
                        lemma_decode_varint_bounds(sub@);
                    }
                }
                let mut value = value_default_for_kind_index(
                    view.kind_index(),
                    view.enum_default(),
                    view.message_descriptor(),
                );
                match value.merge_field(view, elem_wt, &mut sub, depth) {
                    Ok(()) => {},
                    Err(e) => {
                        proof {
                            assert(spec_decode_packed(info.kind, before) is None);
                            lemma_list_unreadable(pool, info, wire_type, start, depth as nat);
                        }
                        return Err(e);
                    },
                }
                let ghost prev = values@;
                values.push(value);
                proof {
                    assert(values@.subrange(old_values.len() as int, values@.len() as int) == prev.subrange(
                        old_values.len() as int,
                        prev.len() as int,
                    ).push(value));
                    assert(values@.take(old_values.len() as int) == prev.take(old_values.len() as int));
                }
            }
            proof {
                assert(values@ == old_values + values@.subrange(old_values.len() as int, values@.len() as int));
                lemma_list_valid(pool, info, *values);
            }
            *buf = rest;
            Ok(())
        } else {
            let mut value = value_default_for_kind_index(
                view.kind_index(),
                view.enum_default(),
                view.message_descriptor(),
            );
            proof {
                if info.kind.spec_is_message() {
                    assert(value->Message_0.spec_map() =~= Map::<u32, ValueOrUnknown>::empty());
                    assert(value->Message_0.spec_pool() == pool);
                }
            }
            let ghost v0 = value;
            match value.merge_field(view, wire_type, buf, depth) {
                Ok(()) => {},
                Err(e) => {
                    proof {
                        if info.kind.spec_is_message() {
                            assert(v0->Message_0.spec_desc().spec_index() as int == message_index_of(info.kind));
                            lemma_record_unreadable_message(pool, info, wire_type, start, depth as nat);
                        } else {
                            lemma_list_unreadable(pool, info, wire_type, start, depth as nat);
                        }
                    }
                    return Err(e);
                },
            }
            values.push(value);
            proof {
                assert(values@.take(old_values.len() as int) == old_values);
                lemma_list_valid(pool, info, *values);
                if info.kind.spec_is_message() && info.is_group && wire_type == WireType::StartGroup && depth > 0 {
                    let c = choose|c: nat|
                        #![trigger group_extent(c)]
                        group_extent(c) && group_merged(
                            pool,
                            message_index_of(info.kind),
                            Map::<u32, ValueOrUnknown>::empty(),
                            info.number,
                            old(buf)@,
                            (depth - 1) as nat,
                            value->Message_0.spec_map(),
                            c,
                        ) && c <= old(buf)@.len() && buf@ == old(buf)@.skip(c as int);
                    assert(group_extent(c));
                }
            }
            Ok(())
        }
}

/// The position of the first entry whose key is the same key as `k`.
pub open spec fn key_position(es: Seq<(MapKey, Value)>, k: MapKey) -> Option<int>
    decreases es.len(),
{
    if es.len() == 0 {
        None
    } else if same_key(es[0].0, k) {
        Some(0)
    } else {
        match key_position(es.drop_first(), k) {
            Some(i) => Some(i + 1),
            None => None,
        }
    }
}

/// The entries with `(k, v)` put in place of the entry of the same key,
/// or after the others.
pub open spec fn map_put(es: Seq<(MapKey, Value)>, k: MapKey, v: Value) -> Seq<(MapKey, Value)> {
    match key_position(es, k) {
        Some(i) => es.update(i, (k, v)),
        None => es.push((k, v)),
    }
}

/// The first entry of the same key is the first one a scan finds.
pub(crate) proof fn lemma_key_position(es: Seq<(MapKey, Value)>, k: MapKey, i: int)
    requires
        0 <= i <= es.len(),
        forall|j: int| 0 <= j < i ==> !same_key(#[trigger] es[j].0, k),
        i < es.len() ==> same_key(es[i].0, k),
    ensures
        key_position(es, k) == if i < es.len() {
            Some(i)
        } else {
            None::<int>
        },
    decreases es.len(),
{
    if es.len() > 0 && i > 0 {
        let t = es.drop_first();
        assert forall|j: int| 0 <= j < i - 1 implies !same_key(#[trigger] t[j].0, k) by {
            assert(t[j] == es[j + 1]);
        }
        if i < es.len() {
            assert(t[i - 1] == es[i]);
        }
        assert(!same_key(es[0].0, k));
        lemma_key_position(t, k, i - 1);
    }
}

/// A map entry record whose entry cannot be read has no length.
proof fn lemma_map_len_none(
    pool: crate::descriptor::DescriptorPoolInner,
    info: crate::descriptor::FieldInfo,
    start: Seq<u8>,
    depth: nat,
    len: nat,
    n0: nat,
)
    requires
        info.is_map,
        !info.is_list,
        spec_decode_varint(start) == Some((len, n0)),
        n0 + len <= start.len(),
        !entry_ok(
            pool,
            pool.map_entry_infos(info.kind).0,
            pool.map_entry_infos(info.kind).1,
            start.subrange(n0 as int, (n0 + len) as int),
            depth,
        ),
    ensures
        record_len(pool, info, WireType::LengthDelimited, start, depth) is None,
{
}

/// Merges a map entry record into a map: the entry's key and value are
/// read (starting from the zero key and the value field's default), and
/// the entry replaces the one of the same key or is appended.
#[verifier::loop_isolation(false)]
#[verifier::spinoff_prover]
#[verifier::rlimit(40)]
fn merge_map_entry(values: &mut Vec<(MapKey, Value)>, view: &RawFieldView, buf: &mut &[u8], depth: u32) -> (r: Result<
    (),
    WireError,
>)
    requires
        view.wf(),
        view.is_map,
        !view.is_list,
        valid_value(view.spec_pool(), view.spec_info(), Value::MapEntries(*old(values))),
    ensures
        valid_value(view.spec_pool(), view.spec_info(), Value::MapEntries(*final(values))),
        r is Ok ==> read_prefix(old(buf)@, final(buf)@),
        map_record_merged(
            view.spec_pool(),
            view.spec_info(),
            old(buf)@,
            final(buf)@,
            old(values)@,
            final(values)@,
            r is Ok,
            depth as nat,
        ),
        r is Err ==> map_record_unreadable(view.spec_pool(), view.spec_info(), old(buf)@, depth as nat),
        r is Err ==> record_len(view.spec_pool(), view.spec_info(), WireType::LengthDelimited, old(buf)@, depth as nat)
            is None,
    decreases depth, old(buf)@.len(), 3nat,
{
    let ghost pool = view.spec_pool();
    let ghost info = view.spec_info();
    let ghost start = buf@;
    proof {
        if spec_decode_varint(buf@) is Some {
            lemma_decode_varint_bounds(buf@);
        }
    }
    let kv = view.map_entry_fields();
    let (key_view, value_view) = match kv {
        Some(kv) => kv,
        None => {
            proof {
                assert(false);
            }
            return Ok(());
        },
    };
    let ghost ki = key_view.spec_info();
    let ghost vi = value_view.spec_info();
    let mut key = mapkey_default_for_kind_index(key_view.kind_index());
    let mut value = rawfield_absent_value(&value_view);
    let ghost key0 = key;
    let ghost value0 = value;
    let len = match decode_varint(buf) {
        Ok(len) => len,
        Err(e) => {
            return Err(WireError::Wire(e));
        },
    };
    if len > buf.len() as u64 {
        proof {
            assert(record_len(pool, info, WireType::LengthDelimited, start, depth as nat) is None);
        }
        return Err(WireError::BufferUnderflow);
    }
    let ghost n0 = (start.len() - buf@.len()) as nat;
    let (sub0, rest) = buf.split_at(len as usize);
    proof {
        lemma_split(start, n0, len as nat);
    }
    let ghost whole = sub0@;
    let mut sub = sub0;
    while sub.len() > 0
        invariant
            key_view.wf(),
            value_view.wf(),
            key_view.spec_pool() == pool,
            value_view.spec_pool() == pool,
            ki == key_view.spec_info(),
            vi == value_view.spec_info(),
            !vi.is_list,
            !vi.is_map,
            key_matches_kind(ki.kind, key),
            valid_value(pool, vi, value),
            sub@.len() < start.len(),
            forall|k1: MapKey, v1: Value|
                #[trigger] entry_merged(pool, ki, vi, key, value, sub@, depth as nat, k1, v1) ==> entry_merged(
                    pool,
                    ki,
                    vi,
                    key0,
                    value0,
                    whole,
                    depth as nat,
                    k1,
                    v1,
                ),
            entry_unreadable(pool, ki, vi, sub@, depth as nat) ==> entry_unreadable(pool, ki, vi, whole, depth as nat),
            entry_ok(pool, ki, vi, whole, depth as nat) ==> entry_ok(pool, ki, vi, sub@, depth as nat),
            spec_decode_varint(start) == Some((len as nat, n0)),
            n0 + len <= start.len(),
            whole == start.subrange(n0 as int, (n0 + len) as int),
            (ki, vi) == pool.map_entry_infos(info.kind),
        decreases sub@.len(),
    {
        let ghost key_before = key;
        let ghost value_before = value;
        let ghost s_before = sub@;
        proof {
            if spec_decode_key(sub@) is Some {
                lemma_decode_key_bounds(sub@);
            }
        }
        let (number, field_wire_type) = match decode_key(&mut sub) {
            Ok(key) => key,
            Err(e) => {
                proof {
                    lemma_entry_unreadable_key(pool, ki, vi, s_before, depth as nat);
                    lemma_map_unreadable_entry(pool, info, start, depth as nat, len as nat, n0);
                    lemma_map_len_none(pool, info, start, depth as nat, len as nat, n0);
                }
                return Err(WireError::Wire(e));
            },
        };
        let ghost s_record = sub@;
        let ghost n_key = (s_before.len() - s_record.len()) as nat;
        proof {
            assert(spec_decode_key(s_before) == Some((number, field_wire_type, n_key)));
            assert(s_record == s_before.skip(n_key as int));
        }
        if number == 1 {
            match key.merge_field(&key_view, field_wire_type, &mut sub) {
                Ok(()) => {},
                Err(e) => {
                    proof {
                        lemma_entry_step_unreadable_key(pool, ki, vi, field_wire_type, s_record, depth as nat);
                        lemma_entry_unreadable_step(pool, ki, vi, s_before, depth as nat, number, field_wire_type, n_key);
                        lemma_map_unreadable_entry(pool, info, start, depth as nat, len as nat, n0);
                        assert(entry_step_len(pool, ki, vi, number, field_wire_type, s_record, depth as nat) is None);
                        lemma_map_len_none(pool, info, start, depth as nat, len as nat, n0);
                    }
                    return Err(e);
                },
            }
        } else if number == 2 {
            proof {
                lemma_encodable_shape(pool, vi, value);
            }
            let res = value.merge_field(&value_view, field_wire_type, &mut sub, depth);
            proof {
                lemma_record_merged(
                    pool,
                    vi,
                    field_wire_type,
                    s_record,
                    sub@,
                    Some(value_before),
                    value_before,
                    value,
                    res,
                    depth as nat,
                );
            }
            match res {
                Ok(()) => {},
                Err(e) => {
                    proof {
                        lemma_entry_step_unreadable_value(pool, ki, vi, field_wire_type, s_record, depth as nat);
                        lemma_entry_unreadable_step(pool, ki, vi, s_before, depth as nat, number, field_wire_type, n_key);
                        lemma_map_unreadable_entry(pool, info, start, depth as nat, len as nat, n0);
                        assert(entry_step_len(pool, ki, vi, number, field_wire_type, s_record, depth as nat) is None);
                        lemma_map_len_none(pool, info, start, depth as nat, len as nat, n0);
                    }
                    return Err(e);
                },
            }
        } else {
            match skip_field(field_wire_type, number, &mut sub) {
                Ok(()) => {},
                Err(e) => {
                    proof {
                        lemma_entry_step_unreadable_skip(pool, ki, vi, number, field_wire_type, s_record, depth as nat);
                        lemma_entry_unreadable_step(pool, ki, vi, s_before, depth as nat, number, field_wire_type, n_key);
                        lemma_map_unreadable_entry(pool, info, start, depth as nat, len as nat, n0);
                        assert(entry_step_len(pool, ki, vi, number, field_wire_type, s_record, depth as nat) is None);
                        lemma_map_len_none(pool, info, start, depth as nat, len as nat, n0);
                    }
                    return Err(WireError::Wire(e));
                },
            }
            proof {
                lemma_skip_bounds(field_wire_type, number, s_record, RECURSION_LIMIT as nat);
            }
        }
        proof {
            assert(entry_step(
                pool,
                ki,
                vi,
                key_before,
                value_before,
                number,
                field_wire_type,
                s_record,
                depth as nat,
                key,
                value,
                sub@,
            ));
            assert forall|k1: MapKey, v1: Value|
                #[trigger] entry_merged(pool, ki, vi, key, value, sub@, depth as nat, k1, v1) implies entry_merged(
                pool,
                ki,
                vi,
                key0,
                value0,
                whole,
                depth as nat,
                k1,
                v1,
            ) by {
                assert(entry_point(key, value, sub@));
                assert(entry_merged(pool, ki, vi, key_before, value_before, s_before, depth as nat, k1, v1));
            }
            lemma_len_of_entry_step(
                pool,
                ki,
                vi,
                key_before,
                value_before,
                number,
                field_wire_type,
                s_record,
                depth as nat,
                key,
                value,
                sub@,
            );
            assert(s_before.skip((n_key + (s_record.len() - sub@.len())) as int) =~= sub@);
            if entry_unreadable(pool, ki, vi, sub@, depth as nat) {
                lemma_entry_unreadable_back(
                    pool,
                    ki,
                    vi,
                    s_before,
                    depth as nat,
                    number,
                    field_wire_type,
                    n_key,
                    key_before,
                    value_before,
                    key,
                    value,
                    sub@,
                );
            }
        }
    }
    *buf = rest;
    proof {
        assert(entry_merged(pool, ki, vi, key, value, sub@, depth as nat, key, value));
        assert(entry_start(key0, value0));
        assert(entry_read(pool, ki, vi, whole, depth as nat, key, value));
    }
    let ghost old_entries = *values;
    let mut i: usize = 0;
    while i < values.len()
        invariant
            i <= values@.len(),
            forall|k: int| 0 <= k < i ==> !same_key(#[trigger] values@[k].0, key),
        decreases values@.len() - i,
    {
        if same_key_exec(&values[i].0, &key) {
            break;
        }
        i = i + 1;
    }
    proof {
        lemma_key_position(old_entries@, key, i as int);
    }
    if i < values.len() {
        values.set(i, (key, value));
    } else {
        values.push((key, value));
    }
    proof {
        lemma_map_put(pool, info, old_entries, *values, i as int, key, value);
        assert(values@ == map_put(old_entries@, key, value));
    }
    Ok(())
}

/// Putting an entry into a valid map, in place of the entry of the same
/// key or after the others, keeps it valid.
proof fn lemma_map_put(
    pool: crate::descriptor::DescriptorPoolInner,
    info: crate::descriptor::FieldInfo,
    old_entries: Vec<(MapKey, Value)>,
    new_entries: Vec<(MapKey, Value)>,
    i: int,
    key: MapKey,
    value: Value,
)
    requires
        info.is_map,
        !info.is_list,
        valid_value(pool, info, Value::MapEntries(old_entries)),
        key_matches_kind(pool.map_entry_infos(info.kind).0.kind, key),
        valid_value(pool, pool.map_entry_infos(info.kind).1, value),
        0 <= i <= old_entries@.len(),
        forall|k: int| 0 <= k < i ==> !same_key(#[trigger] old_entries@[k].0, key),
        i < old_entries@.len() ==> same_key(old_entries@[i].0, key) && new_entries@ == old_entries@.update(
            i,
            (key, value),
        ),
        i == old_entries@.len() ==> new_entries@ == old_entries@.push((key, value)),
    ensures
        valid_value(pool, info, Value::MapEntries(new_entries)),
{
    reveal_with_fuel(valid_value, 2);
    let (ki, vi) = pool.map_entry_infos(info.kind);
    let es = old_entries@;
    let ns = new_entries@;
    let v = Value::MapEntries(old_entries);
    assert(v->MapEntries_0 == old_entries);
    assert forall|a: int| 0 <= a < es.len() implies key_matches_kind(ki.kind, (#[trigger] es[a]).0) && valid_value(pool, vi, es[a].1) by {
        assert(v->MapEntries_0@[a] == es[a]);
    }
    assert forall|a: int, b: int| 0 <= a < b < es.len() implies !same_key(#[trigger] es[a].0, #[trigger] es[b].0) by {
        assert(v->MapEntries_0@[a] == es[a]);
        assert(v->MapEntries_0@[b] == es[b]);
    }
    assert forall|a: int| 0 <= a < ns.len() implies key_matches_kind(ki.kind, (#[trigger] ns[a]).0) && valid_value(
        pool,
        vi,
        ns[a].1,
    ) by {
        if a < es.len() && a != i {
            assert(ns[a] == es[a]);
        }
    }
    assert forall|a: int, b: int| 0 <= a < b < ns.len() implies !same_key(#[trigger] ns[a].0, #[trigger] ns[b].0) by {
        if a != i && b != i {
            assert(ns[a] == es[a] && ns[b] == es[b]);
        } else if b == i {
            assert(ns[a] == es[a]);
        } else {
            assert(a == i);
            assert(ns[b] == es[b]);
            if i < es.len() {
                assert(!same_key(es[i].0, es[b].0));
            }
        }
    }
}

impl Value {
    /// Merges a record into a single value: the scalar merge of the
    /// field's kind.
    #[verifier::rlimit(80)]
    #[verifier::spinoff_prover]
    fn merge_single(&mut self, view: &RawFieldView, wire_type: WireType, buf: &mut &[u8]) -> (r: Result<
        (),
        WireError,
    >)
        requires
            view.wf(),
            is_scalar(*old(self)),
            scalar_matches_kind(view.kind, *old(self)),
        ensures
            scalar_matches_kind(view.kind, *final(self)),
            is_scalar(*final(self)),
            r is Ok ==> read_prefix(old(buf)@, final(buf)@),
            !(*old(self) is String || *old(self) is Bytes) ==> match spec_wire_scalar(
                view.kind,
                wire_type,
                old(buf)@,
            ) {
                Some((raw, n)) => r is Ok && *final(self) == spec_scalar_from_raw(view.kind, raw) && final(buf)@
                    == old(buf)@.skip(n as int),
                None => r is Err,
            },
            *old(self) is Bytes ==> match spec_wire_payload(wire_type, old(buf)@) {
                Some((payload, n)) => r is Ok && *final(self) is Bytes && final(self)->Bytes_0@ == payload
                    && final(buf)@ == old(buf)@.skip(n as int),
                None => r is Err,
            },
            *old(self) is String ==> match spec_wire_payload(wire_type, old(buf)@) {
                Some((payload, n)) => if vstd::utf8::valid_utf8(payload) {
                    r is Ok && *final(self) is String && str_bytes(final(self)->String_0@) == payload
                        && final(buf)@ == old(buf)@.skip(n as int)
                } else {
                    r is Err
                },
                None => r is Err,
            },
    {
        proof {
            lemma_le_bounds(buf@);
            if spec_decode_varint(buf@) is Some {
                lemma_decode_varint_bounds(buf@);
            }
        }
        match (self, view.kind_index()) {
            (Value::Bool(value), KindIndex::Bool) => wire(merge_bool(wire_type, value, buf)),
            (Value::I32(value), KindIndex::Int32) => wire(merge_int32(wire_type, value, buf)),
            (Value::I32(value), KindIndex::Sint32) => wire(merge_sint32(wire_type, value, buf)),
            (Value::I32(value), KindIndex::Sfixed32) => wire(merge_sfixed32(wire_type, value, buf)),
            (Value::I64(value), KindIndex::Int64) => wire(merge_int64(wire_type, value, buf)),
            (Value::I64(value), KindIndex::Sint64) => wire(merge_sint64(wire_type, value, buf)),
            (Value::I64(value), KindIndex::Sfixed64) => wire(merge_sfixed64(wire_type, value, buf)),
            (Value::U32(value), KindIndex::Uint32) => wire(merge_uint32(wire_type, value, buf)),
            (Value::U32(value), KindIndex::Fixed32) => wire(merge_fixed32(wire_type, value, buf)),
            (Value::U64(value), KindIndex::Uint64) => wire(merge_uint64(wire_type, value, buf)),
            (Value::U64(value), KindIndex::Fixed64) => wire(merge_fixed64(wire_type, value, buf)),
            (Value::F32(bits), KindIndex::Float) => wire(merge_fixed32(wire_type, bits, buf)),
            (Value::F64(bits), KindIndex::Double) => wire(merge_fixed64(wire_type, bits, buf)),
            (Value::String(value), KindIndex::String) => wire(merge_string(wire_type, value, buf)),
            (Value::Bytes(value), KindIndex::Bytes) => wire(merge_bytes(wire_type, value, buf)),
            (Value::EnumNumber(value), KindIndex::Enum(_)) => wire(merge_int32(wire_type, value, buf)),
            _ => {
                proof {
                    assert(false);
                }
                Ok(())
            },
        }
    }

    /// Merges a record (its key already read) into the value: a single
    /// value is replaced by the record's; a list gains the record's element,
    /// or a packed record's elements; a map gains or updates the record's
    /// entry; a message merges the record's fields (at most `depth` levels
    /// of messages deeper).
    pub(crate) fn merge_field(&mut self, view: &RawFieldView, wire_type: WireType, buf: &mut &[u8], depth: u32) -> (r:
        Result<(), WireError>)
        requires
            view.wf(),
            encodable(view.spec_pool(), view.spec_info(), *old(self)),
        ensures
            encodable(view.spec_pool(), view.spec_info(), *final(self)),
            r is Ok ==> read_prefix(old(buf)@, final(buf)@),
            is_scalar(*old(self)) && !(*old(self) is String || *old(self) is Bytes) ==> match spec_wire_scalar(
                view.kind,
                wire_type,
                old(buf)@,
            ) {
                Some((raw, n)) => r is Ok && *final(self) == spec_scalar_from_raw(view.kind, raw) && final(buf)@
                    == old(buf)@.skip(n as int),
                None => r is Err,
            },
            *old(self) is Bytes ==> match spec_wire_payload(wire_type, old(buf)@) {
                Some((payload, n)) => r is Ok && *final(self) is Bytes && final(self)->Bytes_0@ == payload
                    && final(buf)@ == old(buf)@.skip(n as int),
                None => r is Err,
            },
            *old(self) is String ==> match spec_wire_payload(wire_type, old(buf)@) {
                Some((payload, n)) => if vstd::utf8::valid_utf8(payload) {
                    r is Ok && *final(self) is String && str_bytes(final(self)->String_0@) == payload
                        && final(buf)@ == old(buf)@.skip(n as int)
                } else {
                    r is Err
                },
                None => r is Err,
            },
            *old(self) is Message ==> *final(self) is Message && final(self)->Message_0.spec_desc()
                == old(self)->Message_0.spec_desc(),
            *old(self) is List ==> *final(self) is List && old(self)->List_0@.len() <= final(self)->List_0@.len()
                && final(self)->List_0@.take(old(self)->List_0@.len() as int) == old(self)->List_0@,
            *old(self) is List && view.kind.spec_is_packable() ==> if wire_type == WireType::LengthDelimited {
                match spec_wire_payload(wire_type, old(buf)@) {
                    Some((payload, n)) => match spec_decode_packed(view.kind, payload) {
                        Some(vs) => r is Ok && final(self)->List_0@ == old(self)->List_0@ + vs && final(buf)@
                            == old(buf)@.skip(n as int),
                        None => r is Err,
                    },
                    None => r is Err,
                }
            } else {
                match spec_wire_scalar(view.kind, wire_type, old(buf)@) {
                    Some((raw, n)) => r is Ok && final(self)->List_0@ == old(self)->List_0@.push(
                        spec_scalar_from_raw(view.kind, raw),
                    ) && final(buf)@ == old(buf)@.skip(n as int),
                    None => r is Err,
                }
            },
            *old(self) is MapEntries ==> *final(self) is MapEntries,
            *old(self) is Message && !view.is_group ==> match spec_wire_payload(wire_type, old(buf)@) {
                Some((payload, n)) => if depth == 0 {
                    r is Err
                } else {
                    r is Ok ==> *final(self) is Message && records_merged(
                        old(self)->Message_0.spec_pool(),
                        old(self)->Message_0.spec_desc().spec_index() as int,
                        old(self)->Message_0.spec_map(),
                        payload,
                        (depth - 1) as nat,
                        final(self)->Message_0.spec_map(),
                    ) && final(buf)@ == old(buf)@.skip(n as int)
                },
                None => r is Err,
            },
            *old(self) is Message && view.is_group ==> if wire_type != WireType::StartGroup || depth == 0 {
                r is Err
            } else {
                r is Ok ==> *final(self) is Message && exists|c: nat|
                    #![trigger group_extent(c)]
                    group_extent(c) && group_merged(
                        old(self)->Message_0.spec_pool(),
                        old(self)->Message_0.spec_desc().spec_index() as int,
                        old(self)->Message_0.spec_map(),
                        view.spec_info().number,
                        old(buf)@,
                        (depth - 1) as nat,
                        final(self)->Message_0.spec_map(),
                        c,
                    ) && c <= old(buf)@.len() && final(buf)@ == old(buf)@.skip(c as int)
            },
            *old(self) is MapEntries ==> map_record_merged(
                view.spec_pool(),
                view.spec_info(),
                old(buf)@,
                final(buf)@,
                old(self)->MapEntries_0@,
                final(self)->MapEntries_0@,
                r is Ok,
                depth as nat,
            ),
            *old(self) is List && !view.kind.spec_is_packable() && r is Ok ==> final(self)->List_0@.len()
                == old(self)->List_0@.len() + 1,
            *old(self) is List && view.kind is Bytes ==> match spec_wire_payload(wire_type, old(buf)@) {
                Some((payload, n)) => {
                    &&& r is Ok
                    &&& final(self)->List_0@.len() == old(self)->List_0@.len() + 1
                    &&& final(self)->List_0@.last() is Bytes
                    &&& final(self)->List_0@.last()->Bytes_0@ == payload
                    &&& final(buf)@ == old(buf)@.skip(n as int)
                },
                None => r is Err,
            },
            *old(self) is List && view.kind is String ==> match spec_wire_payload(wire_type, old(buf)@) {
                Some((payload, n)) => if vstd::utf8::valid_utf8(payload) {
                    &&& r is Ok
                    &&& final(self)->List_0@.len() == old(self)->List_0@.len() + 1
                    &&& final(self)->List_0@.last() is String
                    &&& str_bytes(final(self)->List_0@.last()->String_0@) == payload
                    &&& final(buf)@ == old(buf)@.skip(n as int)
                } else {
                    r is Err
                },
                None => r is Err,
            },
            *old(self) is List && view.kind.spec_is_message() && !view.is_group ==> match spec_wire_payload(wire_type, old(buf)@) {
            Some((payload, n)) => if depth == 0 {
                r is Err
            } else {
                r is Ok ==> {
                    &&& final(self)->List_0@.len() == old(self)->List_0@.len() + 1
                    &&& final(self)->List_0@.last() is Message
                    &&& records_merged(
                        view.spec_pool(),
                        message_index_of(view.kind),
                        Map::<u32, ValueOrUnknown>::empty(),
                        payload,
                        (depth - 1) as nat,
                        final(self)->List_0@.last()->Message_0.spec_map(),
                    )
                    &&& final(buf)@ == old(buf)@.skip(n as int)
                }
            },
            None => r is Err,
        },
        *old(self) is List && view.kind.spec_is_message() && view.is_group ==> if wire_type != WireType::StartGroup || depth == 0 {
            r is Err
        } else {
            r is Ok ==> {
                &&& final(self)->List_0@.len() == old(self)->List_0@.len() + 1
                &&& final(self)->List_0@.last() is Message
                &&& exists|c: nat|
                    #![trigger group_extent(c)]
                    group_extent(c) && group_merged(
                        view.spec_pool(),
                        message_index_of(view.kind),
                        Map::<u32, ValueOrUnknown>::empty(),
                        view.spec_info().number,
                        old(buf)@,
                        (depth - 1) as nat,
                        final(self)->List_0@.last()->Message_0.spec_map(),
                        c,
                    ) && c <= old(buf)@.len() && final(buf)@ == old(buf)@.skip(c as int)
            }
        },
            r is Err && (!view.is_list || *old(self) is List) ==> record_unreadable(
                view.spec_pool(),
                view.spec_info(),
                wire_type,
                old(buf)@,
                depth as nat,
            ),
            r is Err && *old(self) is Message && !view.is_group ==> match spec_wire_payload(wire_type, old(buf)@) {
                Some((payload, n)) => depth == 0 || records_unreadable(
                    old(self)->Message_0.spec_pool(),
                    old(self)->Message_0.spec_desc().spec_index() as int,
                    payload,
                    (depth - 1) as nat,
                ),
                None => true,
            },
            r is Err && *old(self) is Message && view.is_group ==> wire_type != WireType::StartGroup || depth == 0
                || group_unreadable(
                old(self)->Message_0.spec_pool(),
                old(self)->Message_0.spec_desc().spec_index() as int,
                view.spec_info().number,
                old(buf)@,
                (depth - 1) as nat,
            ),
            r is Err && (!view.is_list || *old(self) is List) ==> record_len(
                view.spec_pool(),
                view.spec_info(),
                wire_type,
                old(buf)@,
                depth as nat,
            ) is None,
            r is Err && *old(self) is Message && !view.is_group ==> match spec_wire_payload(wire_type, old(buf)@) {
                Some((payload, n)) => depth == 0 || !records_ok(
                    old(self)->Message_0.spec_pool(),
                    old(self)->Message_0.spec_desc().spec_index() as int,
                    payload,
                    (depth - 1) as nat,
                ),
                None => true,
            },
            r is Err && *old(self) is Message && view.is_group ==> wire_type != WireType::StartGroup || depth == 0
                || group_len(
                old(self)->Message_0.spec_pool(),
                old(self)->Message_0.spec_desc().spec_index() as int,
                view.spec_info().number,
                old(buf)@,
                (depth - 1) as nat,
            ) is None,
        decreases depth, old(buf)@.len(), merge_rank(*old(self)),
    {
        let ghost pool = view.spec_pool();
        let ghost info = view.spec_info();
        proof {
            lemma_encodable_shape(pool, info, *self);
        }
        let r = match self {
            Value::List(values) => {
                let r = merge_list(values, view, wire_type, buf, depth);
                proof {
                    lemma_list_valid(pool, info, *values);
                }
                r
            },
            Value::MapEntries(values) => merge_map_entry(values, view, buf, depth),
            Value::Message(message) => {
                proof {
                    assert(valid_element(pool, info.kind, Value::Message(*message)));
                    assert(message.wf());
                }
                if view.is_group {
                    message.merge_group(view.number(), wire_type, buf, depth)
                } else {
                    message.merge_length_delimited(wire_type, buf, depth)
                }
            },
            _ => self.merge_single(view, wire_type, buf),
        };
        proof {
            if r is Err && (!info.is_list || *old(self) is List) {
                if *old(self) is MapEntries {
                    lemma_record_unreadable_map(pool, info, wire_type, old(buf)@, depth as nat);
                } else if *old(self) is Message {
                    assert(valid_element(pool, info.kind, *old(self)));
                    lemma_record_unreadable_message(pool, info, wire_type, old(buf)@, depth as nat);
                } else if !(*old(self) is List) {
                    assert forall|a: Seq<u8>, p: Option<Value>, slot: ValueOrUnknown|
                        !#[trigger] record_merged(pool, info, wire_type, old(buf)@, a, p, slot, true, depth as nat) by {}
                }
            }
        }
        proof {
            reveal_with_fuel(valid_value, 2);
            reveal_with_fuel(valid_element, 2);
            if *self is Message {
                assert(valid_element(pool, info.kind, *self));
            } else if *self is List {
                assert(valid_value(pool, info, *self));
            } else if *self is MapEntries {
                assert(valid_value(pool, info, *self));
            } else {
                assert(valid_element(pool, info.kind, *self));
            }
        }
        r
    }
}

/// `prost` skips no more than what is left.
proof fn lemma_skip_bounds(wt: WireType, tag: u32, s: Seq<u8>, depth: nat)
    requires
        spec_skip_field(wt, tag, s, depth) is Some,
    ensures
        spec_skip_field(wt, tag, s, depth)->Some_0 <= s.len(),
    decreases s.len(), 1nat,
{
    if spec_decode_varint(s) is Some {
        lemma_decode_varint_bounds(s);
    }
    if wt == WireType::StartGroup {
        lemma_skip_group_bounds(tag, s, depth);
    }
}

proof fn lemma_skip_group_bounds(tag: u32, s: Seq<u8>, depth: nat)
    requires
        spec_skip_group(tag, s, depth) is Some,
    ensures
        spec_skip_group(tag, s, depth)->Some_0 <= s.len(),
    decreases s.len(), 0nat,
{
    let (t, wt, n) = spec_decode_key(s)->Some_0;
    if wt != WireType::EndGroup {
        let m = spec_skip_field(wt, t, s.skip(n as int), (depth - 1) as nat)->Some_0;
        lemma_skip_group_bounds(tag, s.skip((n + m) as int), depth);
    }
}

/// The members of the oneof of field `number` of message `m`, other than
/// `number` itself; none when the number is not a field's, or the field
/// is in no oneof.
pub open(crate) spec fn merge_siblings(pool: crate::descriptor::DescriptorPoolInner, m: int, number: u32) -> Set<u32> {
    match pool.field_index(m, number) {
        Some(f) => match pool.messages@[m].fields@[f as int].oneof {
            Some(o) => without(pool.oneof_numbers(m, o as int), number).to_set(),
            None => Set::empty(),
        },
        None => Set::empty(),
    }
}

/// The wire view of what a record numbered `number` merges into in
/// message `m`: the field of that number, else the extension.
pub open spec fn record_info(pool: crate::descriptor::DescriptorPoolInner, m: int, number: u32) -> Option<crate::descriptor::FieldInfo> {
    match pool.field_index(m, number) {
        Some(f) => Some(pool.field_info(m, f as int)),
        None => match pool.extension_of(m, number) {
            Some(e) => Some(pool.ext_info(e as int)),
            None => None,
        },
    }
}

/// The entries a map field held before a merge, if any.
pub open spec fn held_entries(prior: Option<Value>) -> Seq<(MapKey, Value)> {
    match prior {
        Some(Value::MapEntries(es)) => es@,
        _ => Seq::empty(),
    }
}

/// What merging a map entry record at the start of `before` into the
/// entries `held` gives: the record's length-delimited bytes are read as
/// an entry (`entry_read`), which takes the place of the entry of the same
/// key or follows the others (`entries`), and the bytes after the record
/// are left (`after`). It fails when the length cannot be read or runs
/// past the end.
pub open spec fn map_record_merged(
    pool: crate::descriptor::DescriptorPoolInner,
    info: crate::descriptor::FieldInfo,
    before: Seq<u8>,
    after: Seq<u8>,
    held: Seq<(MapKey, Value)>,
    entries: Seq<(MapKey, Value)>,
    ok: bool,
    depth: nat,
) -> bool
    decreases depth, before.len(), 0nat
    via map_record_merged_decreases
{
    match spec_decode_varint(before) {
        Some((len, n)) => if n + len > before.len() {
            !ok
        } else {
            ok ==> {
                &&& after == before.skip((n + len) as int)
                &&& exists|k: MapKey, v: Value|
                    entries == #[trigger] map_put(held, k, v) && entry_read(
                        pool,
                        pool.map_entry_infos(info.kind).0,
                        pool.map_entry_infos(info.kind).1,
                        before.subrange(n as int, (n + len) as int),
                        depth,
                        k,
                        v,
                    )
            }
        },
        None => !ok,
    }
}

/// A map entry record's bytes are fewer than the record's: its length
/// takes at least one byte.
#[via_fn]
proof fn map_record_merged_decreases(
    pool: crate::descriptor::DescriptorPoolInner,
    info: crate::descriptor::FieldInfo,
    before: Seq<u8>,
    after: Seq<u8>,
    held: Seq<(MapKey, Value)>,
    entries: Seq<(MapKey, Value)>,
    ok: bool,
    depth: nat,
) {
    if spec_decode_varint(before) is Some {
        lemma_decode_varint_bounds(before);
    }
}

/// The key and value a map entry starts from.
pub open spec fn entry_start(key: MapKey, value: Value) -> bool {
    true
}

/// A state of a map entry between two of its records, and the bytes left
/// there.
pub open spec fn entry_point(key: MapKey, value: Value, rest: Seq<u8>) -> bool {
    true
}

/// Whether reading the records `s` of a map entry whose key and value
/// fields are `ki` and `vi`, from the zero key and the value field's
/// default, can give the key `k` and the value `v`.
pub open spec fn entry_read(
    pool: crate::descriptor::DescriptorPoolInner,
    ki: crate::descriptor::FieldInfo,
    vi: crate::descriptor::FieldInfo,
    s: Seq<u8>,
    depth: nat,
    k: MapKey,
    v: Value,
) -> bool
    decreases depth, s.len(), 4nat,
{
    exists|k0: MapKey, v0: Value|
        #![trigger entry_start(k0, v0)]
        entry_start(k0, v0) && is_default_key(k0, ki.kind) && is_canonical_default(pool, vi, v0) && entry_merged(
            pool,
            ki,
            vi,
            k0,
            v0,
            s,
            depth,
            k,
            v,
        )
}

/// Whether reading the records of `s`, one after another, can take a map
/// entry from the key `k0` and value `v0` to `k1` and `v1`, each record
/// read as `entry_step` states.
pub open spec fn entry_merged(
    pool: crate::descriptor::DescriptorPoolInner,
    ki: crate::descriptor::FieldInfo,
    vi: crate::descriptor::FieldInfo,
    k0: MapKey,
    v0: Value,
    s: Seq<u8>,
    depth: nat,
    k1: MapKey,
    v1: Value,
) -> bool
    decreases depth, s.len(), 3nat,
{
    if s.len() == 0 {
        k1 == k0 && v1 == v0
    } else {
        match spec_decode_key(s) {
            Some((number, wt, n)) => {
                &&& 1 <= n <= s.len()
                &&& exists|k: MapKey, v: Value, rest: Seq<u8>|
                    #![trigger entry_point(k, v, rest)]
                    entry_point(k, v, rest) && rest.len() < s.len() && entry_step(
                        pool,
                        ki,
                        vi,
                        k0,
                        v0,
                        number,
                        wt,
                        s.skip(n as int),
                        depth,
                        k,
                        v,
                        rest,
                    ) && entry_merged(pool, ki, vi, k, v, rest, depth, k1, v1)
            },
            None => false,
        }
    }
}

/// What reading one record of a map entry, whose key (`number`, `wt`) has
/// been read and whose bytes start `s`, does to the entry's key `k0` and
/// value `v0`, giving `k` and `v` and leaving `rest`: record 1 is read as
/// the key, by its kind; record 2 is merged into the value as
/// `record_merged` states; any other record is skipped.
pub open spec fn entry_step(
    pool: crate::descriptor::DescriptorPoolInner,
    ki: crate::descriptor::FieldInfo,
    vi: crate::descriptor::FieldInfo,
    k0: MapKey,
    v0: Value,
    number: u32,
    wt: WireType,
    s: Seq<u8>,
    depth: nat,
    k: MapKey,
    v: Value,
    rest: Seq<u8>,
) -> bool
    decreases depth, s.len(), 2nat,
{
    if number == MAP_ENTRY_KEY_NUMBER {
        &&& v == v0
        &&& key_matches_kind(ki.kind, k)
        &&& if ki.kind is String {
            match spec_wire_payload(wt, s) {
                Some((payload, m)) => vstd::utf8::valid_utf8(payload) && k is String && str_bytes(k->String_0@)
                    == payload && rest == s.skip(m as int),
                None => false,
            }
        } else {
            match spec_wire_scalar(ki.kind, wt, s) {
                Some((raw, m)) => crate::encode::key_as_value(k) == spec_scalar_from_raw(ki.kind, raw) && rest
                    == s.skip(m as int),
                None => false,
            }
        }
    } else if number == MAP_ENTRY_VALUE_NUMBER {
        &&& k == k0
        &&& read_prefix(s, rest)
        &&& record_merged(pool, vi, wt, s, rest, Some(v0), ValueOrUnknown::Value(v), true, depth)
    } else {
        &&& k == k0
        &&& v == v0
        &&& spec_skip_field(wt, number, s, RECURSION_LIMIT as nat) matches Some(m)
        &&& rest == s.skip(m as int)
    }
}

/// The slot holds a list of one element more than `held`, which it
/// begins with.
pub open spec fn list_grown(slot: ValueOrUnknown, held: Seq<Value>) -> bool {
    &&& slot is Value
    &&& slot->Value_0 is List
    &&& slot->Value_0->List_0@.len() == held.len() + 1
    &&& slot->Value_0->List_0@.take(held.len() as int) == held
}

/// What merging a record at the start of `before` into a field leaves in
/// the field's slot: the record's value replaces a single scalar, string
/// or bytes value; a list gains the record's element, or a packed
/// record's elements, after those it held (`prior`); a map gains or
/// updates the record's entry (`map_record_merged`); a message merges the
/// record's fields into the one it held (`records_merged`, `group_merged`),
/// one level deeper. When the merge succeeds (`ok`), the bytes it leaves
/// (`after`) are those after the record; for a scalar, string, bytes or
/// packed record it succeeds exactly when the record can be read.
pub open spec fn record_merged(
    pool: crate::descriptor::DescriptorPoolInner,
    info: crate::descriptor::FieldInfo,
    wt: WireType,
    before: Seq<u8>,
    after: Seq<u8>,
    prior: Option<Value>,
    slot: ValueOrUnknown,
    ok: bool,
    depth: nat,
) -> bool
    decreases depth, before.len(), 1nat,
{
    let single = !info.is_list && !info.is_map;
    if single && !info.kind.spec_is_message() && !(info.kind is String) && !(info.kind is Bytes) {
        match spec_wire_scalar(info.kind, wt, before) {
            Some((raw, n)) => ok && slot == ValueOrUnknown::Value(spec_scalar_from_raw(info.kind, raw))
                && after == before.skip(n as int),
            None => !ok,
        }
    } else if single && info.kind is Bytes {
        match spec_wire_payload(wt, before) {
            Some((payload, n)) => ok && slot is Value && slot->Value_0 is Bytes && slot->Value_0->Bytes_0@
                == payload && after == before.skip(n as int),
            None => !ok,
        }
    } else if single && info.kind is String {
        match spec_wire_payload(wt, before) {
            Some((payload, n)) => if vstd::utf8::valid_utf8(payload) {
                ok && slot is Value && slot->Value_0 is String && str_bytes(slot->Value_0->String_0@)
                    == payload && after == before.skip(n as int)
            } else {
                !ok
            },
            None => !ok,
        }
    } else if info.is_list && info.kind.spec_is_packable() {
        let held = match prior {
            Some(Value::List(vs)) => vs@,
            _ => Seq::empty(),
        };
        let list_is = |vs: Seq<Value>| slot is Value && slot->Value_0 is List && slot->Value_0->List_0@ == vs;
        if wt == WireType::LengthDelimited {
            match spec_wire_payload(wt, before) {
                Some((payload, n)) => match spec_decode_packed(info.kind, payload) {
                    Some(vs) => ok && list_is(held + vs) && after == before.skip(n as int),
                    None => !ok,
                },
                None => !ok,
            }
        } else {
            match spec_wire_scalar(info.kind, wt, before) {
                Some((raw, n)) => ok && list_is(held.push(spec_scalar_from_raw(info.kind, raw))) && after
                    == before.skip(n as int),
                None => !ok,
            }
        }
    } else if info.is_list {
        let held = match prior {
            Some(Value::List(vs)) => vs@,
            _ => Seq::empty(),
        };
        if info.kind is Bytes {
            match spec_wire_payload(wt, before) {
                Some((payload, n)) => {
                    &&& ok
                    &&& list_grown(slot, held)
                    &&& slot->Value_0->List_0@.last() is Bytes
                    &&& slot->Value_0->List_0@.last()->Bytes_0@ == payload
                    &&& after == before.skip(n as int)
                },
                None => !ok,
            }
        } else if info.kind is String {
            match spec_wire_payload(wt, before) {
                Some((payload, n)) => if vstd::utf8::valid_utf8(payload) {
                    &&& ok
                    &&& list_grown(slot, held)
                    &&& slot->Value_0->List_0@.last() is String
                    &&& str_bytes(slot->Value_0->List_0@.last()->String_0@) == payload
                    &&& after == before.skip(n as int)
                } else {
                    !ok
                },
                None => !ok,
            }
        } else if info.kind.spec_is_message() && !info.is_group {
            match spec_wire_payload(wt, before) {
                Some((payload, n)) => if depth == 0 {
                    !ok
                } else {
                    ok ==> {
                        &&& list_grown(slot, held)
                        &&& slot->Value_0->List_0@.last() is Message
                        &&& records_merged(
                            pool,
                            message_index_of(info.kind),
                            Map::<u32, ValueOrUnknown>::empty(),
                            payload,
                            (depth - 1) as nat,
                            slot->Value_0->List_0@.last()->Message_0.spec_map(),
                        )
                        &&& after == before.skip(n as int)
                    }
                },
                None => !ok,
            }
        } else if info.kind.spec_is_message() {
            if wt != WireType::StartGroup || depth == 0 {
                !ok
            } else {
                ok ==> {
                    &&& list_grown(slot, held)
                    &&& slot->Value_0->List_0@.last() is Message
                    &&& exists|c: nat|
                        #![trigger group_extent(c)]
                        group_extent(c) && group_merged(
                            pool,
                            message_index_of(info.kind),
                            Map::<u32, ValueOrUnknown>::empty(),
                            info.number,
                            before,
                            (depth - 1) as nat,
                            slot->Value_0->List_0@.last()->Message_0.spec_map(),
                            c,
                        ) && c <= before.len() && after == before.skip(c as int)
                }
            }
        } else {
            ok ==> list_grown(slot, held)
        }
    } else if info.is_map {
        &&& ok ==> slot is Value && slot->Value_0 is MapEntries
        &&& map_record_merged(pool, info, before, after, held_entries(prior), slot->Value_0->MapEntries_0@, ok, depth)
    } else if info.kind.spec_is_message() && !info.is_group {
        match spec_wire_payload(wt, before) {
            Some((payload, n)) => if depth == 0 {
                !ok
            } else {
                ok ==> {
                    &&& slot is Value
                    &&& slot->Value_0 is Message
                    &&& records_merged(
                        pool,
                        message_index_of(info.kind),
                        held_message(prior),
                        payload,
                        (depth - 1) as nat,
                        slot->Value_0->Message_0.spec_map(),
                    )
                    &&& after == before.skip(n as int)
                }
            },
            None => !ok,
        }
    } else if info.kind.spec_is_message() {
        if wt != WireType::StartGroup || depth == 0 {
            !ok
        } else {
            ok ==> {
                &&& slot is Value
                &&& slot->Value_0 is Message
                &&& exists|c: nat|
                    #![trigger group_extent(c)]
                    group_extent(c) && group_merged(
                        pool,
                        message_index_of(info.kind),
                        held_message(prior),
                        info.number,
                        before,
                        (depth - 1) as nat,
                        slot->Value_0->Message_0.spec_map(),
                        c,
                    ) && c <= before.len() && after == before.skip(c as int)
            }
        }
    } else {
        true
    }
}

/// The message type a message or group kind names.
pub open spec fn message_index_of(kind: KindIndex) -> int {
    match kind {
        KindIndex::Message(i) => i as int,
        KindIndex::Group(i) => i as int,
        _ => 0,
    }
}

/// The slots of the message a message field held before a merge: none
/// when it held no message.
pub open spec fn held_message(prior: Option<Value>) -> Map<u32, ValueOrUnknown> {
    match prior {
        Some(Value::Message(m)) => m.spec_map(),
        _ => Map::empty(),
    }
}

/// Whether merging the records of a group numbered `tag` at the start of
/// `s`, through its end key, can take the slots of message `mi` from
/// `before` to `after`, taking `consumed` bytes; each record merged as
/// `record_step` states.
pub open spec fn group_merged(
    pool: crate::descriptor::DescriptorPoolInner,
    mi: int,
    before: Map<u32, ValueOrUnknown>,
    tag: u32,
    s: Seq<u8>,
    depth: nat,
    after: Map<u32, ValueOrUnknown>,
    consumed: nat,
) -> bool
    decreases depth, s.len(), 3nat,
{
    match spec_decode_key(s) {
        Some((number, wt, k)) => {
            &&& 1 <= k <= s.len()
            &&& if wt == WireType::EndGroup {
                number == tag && after == before && consumed == k
            } else {
                exists|mid: Map<u32, ValueOrUnknown>, rest: Seq<u8>, c: nat|
                    #![trigger group_point(mid, rest, c)]
                    group_point(mid, rest, c) && rest.len() < s.len() && record_step(
                        pool,
                        mi,
                        before,
                        number,
                        wt,
                        s.skip(k as int),
                        depth,
                        mid,
                        rest,
                    ) && group_merged(pool, mi, mid, tag, rest, depth, after, c) && consumed == (s.len()
                        - rest.len()) + c
            }
        },
        None => false,
    }
}

/// A field's merge, as `Value::merge_field` states it, is the record's
/// merge into its slot.
proof fn lemma_record_merged(
    pool: crate::descriptor::DescriptorPoolInner,
    info: crate::descriptor::FieldInfo,
    wt: WireType,
    before: Seq<u8>,
    after: Seq<u8>,
    prior: Option<Value>,
    e0: Value,
    e1: Value,
    r: Result<(), WireError>,
    depth: nat,
)
    requires
        valid_value(pool, info, e0),
        e0 is Message && !info.is_group ==> match spec_wire_payload(wt, before) {
            Some((payload, n)) => if depth == 0 {
                r is Err
            } else {
                r is Ok ==> e1 is Message && records_merged(
                    e0->Message_0.spec_pool(),
                    e0->Message_0.spec_desc().spec_index() as int,
                    e0->Message_0.spec_map(),
                    payload,
                    (depth - 1) as nat,
                    e1->Message_0.spec_map(),
                ) && after == before.skip(n as int)
            },
            None => r is Err,
        },
        e0 is Message && info.is_group ==> if wt != WireType::StartGroup || depth == 0 {
            r is Err
        } else {
            r is Ok ==> e1 is Message && exists|c: nat|
                #![trigger group_extent(c)]
                group_extent(c) && group_merged(
                    e0->Message_0.spec_pool(),
                    e0->Message_0.spec_desc().spec_index() as int,
                    e0->Message_0.spec_map(),
                    info.number,
                    before,
                    (depth - 1) as nat,
                    e1->Message_0.spec_map(),
                    c,
                ) && c <= before.len() && after == before.skip(c as int)
        },
        match prior {
            Some(v) => e0 == v,
            None => is_canonical_default(pool, info, e0),
        },
        is_scalar(e0) && !(e0 is String || e0 is Bytes) ==> match spec_wire_scalar(info.kind, wt, before) {
            Some((raw, n)) => r is Ok && e1 == spec_scalar_from_raw(info.kind, raw) && after == before.skip(n as int),
            None => r is Err,
        },
        e0 is Bytes ==> match spec_wire_payload(wt, before) {
            Some((payload, n)) => r is Ok && e1 is Bytes && e1->Bytes_0@ == payload && after == before.skip(n as int),
            None => r is Err,
        },
        e0 is String ==> match spec_wire_payload(wt, before) {
            Some((payload, n)) => if vstd::utf8::valid_utf8(payload) {
                r is Ok && e1 is String && str_bytes(e1->String_0@) == payload && after == before.skip(n as int)
            } else {
                r is Err
            },
            None => r is Err,
        },
        e0 is List ==> e1 is List && e0->List_0@.len() <= e1->List_0@.len() && e1->List_0@.take(
            e0->List_0@.len() as int,
        ) == e0->List_0@,
        e0 is List && !info.kind.spec_is_packable() && r is Ok ==> e1->List_0@.len() == e0->List_0@.len() + 1,
        e0 is List && info.kind is Bytes ==> match spec_wire_payload(wt, before) {
            Some((payload, n)) => {
                &&& r is Ok
                &&& e1->List_0@.len() == e0->List_0@.len() + 1
                &&& e1->List_0@.last() is Bytes
                &&& e1->List_0@.last()->Bytes_0@ == payload
                &&& after == before.skip(n as int)
            },
            None => r is Err,
        },
        e0 is List && info.kind is String ==> match spec_wire_payload(wt, before) {
            Some((payload, n)) => if vstd::utf8::valid_utf8(payload) {
                &&& r is Ok
                &&& e1->List_0@.len() == e0->List_0@.len() + 1
                &&& e1->List_0@.last() is String
                &&& str_bytes(e1->List_0@.last()->String_0@) == payload
                &&& after == before.skip(n as int)
            } else {
                r is Err
            },
            None => r is Err,
        },
        e0 is MapEntries ==> e1 is MapEntries,
        e0 is MapEntries ==> map_record_merged(pool, info, before, after, e0->MapEntries_0@, e1->MapEntries_0@, r is Ok, depth),
        e0 is List && info.kind.spec_is_packable() ==> if wt == WireType::LengthDelimited {
            match spec_wire_payload(wt, before) {
                Some((payload, n)) => match spec_decode_packed(info.kind, payload) {
                    Some(vs) => r is Ok && e1 is List && e1->List_0@ == e0->List_0@ + vs && after == before.skip(n as int),
                    None => r is Err,
                },
                None => r is Err,
            }
        } else {
            match spec_wire_scalar(info.kind, wt, before) {
                Some((raw, n)) => r is Ok && e1 is List && e1->List_0@ == e0->List_0@.push(spec_scalar_from_raw(info.kind, raw))
                    && after == before.skip(n as int),
                None => r is Err,
            }
        },
        e0 is List && info.kind.spec_is_message() && !info.is_group ==> match spec_wire_payload(wt, before) {
            Some((payload, n)) => if depth == 0 {
                r is Err
            } else {
                r is Ok ==> {
                    &&& e1->List_0@.len() == e0->List_0@.len() + 1
                    &&& e1->List_0@.last() is Message
                    &&& records_merged(
                        pool,
                        message_index_of(info.kind),
                        Map::<u32, ValueOrUnknown>::empty(),
                        payload,
                        (depth - 1) as nat,
                        e1->List_0@.last()->Message_0.spec_map(),
                    )
                    &&& after == before.skip(n as int)
                }
            },
            None => r is Err,
        },
        e0 is List && info.kind.spec_is_message() && info.is_group ==> if wt != WireType::StartGroup || depth == 0 {
            r is Err
        } else {
            r is Ok ==> {
                &&& e1->List_0@.len() == e0->List_0@.len() + 1
                &&& e1->List_0@.last() is Message
                &&& exists|c: nat|
                    #![trigger group_extent(c)]
                    group_extent(c) && group_merged(
                        pool,
                        message_index_of(info.kind),
                        Map::<u32, ValueOrUnknown>::empty(),
                        info.number,
                        before,
                        (depth - 1) as nat,
                        e1->List_0@.last()->Message_0.spec_map(),
                        c,
                    ) && c <= before.len() && after == before.skip(c as int)
            }
        },
    ensures
        record_merged(pool, info, wt, before, after, prior, ValueOrUnknown::Value(e1), r is Ok, depth),
{
    if info.is_list {
        assert(e0 is List);
        if prior is None {
            assert(e0->List_0@ =~= Seq::<Value>::empty());
        }
    } else if info.is_map {
        assert(e0 is MapEntries);
        if prior is None {
            assert(e0->MapEntries_0@ =~= Seq::<(MapKey, Value)>::empty());
        }
        assert(held_entries(prior) == e0->MapEntries_0@);
    } else if !info.is_map {
        assert(valid_element(pool, info.kind, e0));
        if !info.kind.spec_is_message() {
            assert(scalar_matches_kind(info.kind, e0));
        } else {
            assert(e0 is Message);
            let m0 = e0->Message_0;
            assert(m0.spec_pool() == pool);
            assert(m0.spec_desc().spec_index() as int == message_index_of(info.kind));
            if prior is None {
                assert(m0.spec_slots().len() == 0);
                assert(m0.spec_map() =~= Map::<u32, ValueOrUnknown>::empty());
            }
            assert(held_message(prior) == m0.spec_map());
            if info.is_group && r is Ok && wt == WireType::StartGroup && depth > 0 {
                let c = choose|c: nat|
                    #![trigger group_extent(c)]
                    group_extent(c) && group_merged(
                        e0->Message_0.spec_pool(),
                        e0->Message_0.spec_desc().spec_index() as int,
                        e0->Message_0.spec_map(),
                        info.number,
                        before,
                        (depth - 1) as nat,
                        e1->Message_0.spec_map(),
                        c,
                    ) && c <= before.len() && after == before.skip(c as int);
                assert(group_extent(c));
                assert(group_merged(
                    pool,
                    message_index_of(info.kind),
                    held_message(prior),
                    info.number,
                    before,
                    (depth - 1) as nat,
                    e1->Message_0.spec_map(),
                    c,
                ));
            }
        }
    }
}

/// What merging one record, whose key (`number`, `wt`) has been read and
/// whose bytes start `s`, does to the slots of message `mi` when it
/// succeeds, leaving `rest`: the record's oneof siblings are cleared, every
/// other slot but the record's is kept; the record's slot holds a value, merged as
/// `record_merged` states, or, for a number of no field or extension, the
/// unknown fields held there followed by the record's, which carries the
/// record's number.
pub open spec fn record_step(
    pool: crate::descriptor::DescriptorPoolInner,
    mi: int,
    before: Map<u32, ValueOrUnknown>,
    number: u32,
    wt: WireType,
    s: Seq<u8>,
    depth: nat,
    after: Map<u32, ValueOrUnknown>,
    rest: Seq<u8>,
) -> bool
    decreases depth, s.len(), 2nat,
{
    let sib = merge_siblings(pool, mi, number);
    &&& read_prefix(s, rest)
    &&& after.remove_keys(sib).remove(number) == before.remove_keys(sib).remove(number)
    &&& forall|k: u32| #[trigger] sib.contains(k) ==> !after.dom().contains(k)
    &&& after.dom().contains(number)
    &&& match record_info(pool, mi, number) {
        Some(info) => after[number] is Value && record_merged(pool, info, wt, s, rest, value_in(before, number), after[number], true, depth),
        None => {
            &&& spec_unknown_len(wt, number, s, depth) matches Some(n)
            &&& rest == s.skip(n as int)
            &&& after[number] is Unknown
            &&& after[number]->Unknown_0.fields@.len() >= 1
            &&& after[number]->Unknown_0.fields@.last().number == number
            &&& after[number]->Unknown_0.fields@.drop_last() == (if before.dom().contains(number)
                && before[number] is Unknown {
                before[number]->Unknown_0.fields@
            } else {
                Seq::empty()
            })
            &&& unknown_value_read(after[number]->Unknown_0.fields@.last().value, wt, number, s, depth)
        },
    }
}

/// Reading a member of a oneof clears the other members: once a record of
/// a field that belongs to a oneof is merged into a message, the message
/// holds that field and no other member of the oneof.
pub proof fn law_oneof_last_member(
    pool: crate::descriptor::DescriptorPoolInner,
    mi: int,
    before: Map<u32, ValueOrUnknown>,
    number: u32,
    wt: WireType,
    s: Seq<u8>,
    depth: nat,
    after: Map<u32, ValueOrUnknown>,
    rest: Seq<u8>,
    f: u32,
    o: u32,
)
    requires
        record_step(pool, mi, before, number, wt, s, depth, after, rest),
        pool.field_index(mi, number) == Some(f),
        pool.messages@[mi].fields@[f as int].oneof == Some(o),
    ensures
        after.dom().contains(number),
        forall|k: u32|
            #[trigger] pool.oneof_numbers(mi, o as int).contains(k) && k != number ==> !after.dom().contains(k),
{
    let all = pool.oneof_numbers(mi, o as int);
    let pred = |x: u32| x != number;
    assert forall|k: u32| #[trigger] all.contains(k) && k != number implies !after.dom().contains(k) by {
        let i = choose|i: int| 0 <= i < all.len() && all[i] == k;
        all.filter_lemma(pred);
        assert(all.filter(pred).contains(all[i]));
        assert(merge_siblings(pool, mi, number).contains(k));
    }
}

/// Where a scan for a key stops: at an entry of that key with none before
/// it, or past the end when no entry has that key.
proof fn lemma_key_position_found(es: Seq<(MapKey, Value)>, k: MapKey)
    ensures
        match key_position(es, k) {
            Some(i) => 0 <= i < es.len() && same_key(es[i].0, k) && forall|j: int|
                0 <= j < i ==> !same_key(#[trigger] es[j].0, k),
            None => forall|j: int| 0 <= j < es.len() ==> !same_key(#[trigger] es[j].0, k),
        },
    decreases es.len(),
{
    if es.len() > 0 && !same_key(es[0].0, k) {
        let t = es.drop_first();
        lemma_key_position_found(t, k);
        assert forall|j: int| 1 <= j < es.len() implies es[j] == t[j - 1] by {}
        match key_position(t, k) {
            Some(i) => {
                assert forall|j: int| 0 <= j < i + 1 implies !same_key(#[trigger] es[j].0, k) by {
                    if j > 0 {
                        assert(es[j] == t[j - 1]);
                    }
                }
            },
            None => {
                assert forall|j: int| 0 <= j < es.len() implies !same_key(#[trigger] es[j].0, k) by {
                    if j > 0 {
                        assert(es[j] == t[j - 1]);
                    }
                }
            },
        }
    }
}

/// The last entry read for a key wins: after a map entry record is merged
/// into a map whose keys are distinct, the map holds the entry just read,
/// every entry of its key holds the value just read, the entries of other
/// keys keep their places and values, and the map grows by one entry only
/// when it held no entry of that key.
pub proof fn law_map_entry_last_wins(
    pool: crate::descriptor::DescriptorPoolInner,
    info: crate::descriptor::FieldInfo,
    before: Seq<u8>,
    after: Seq<u8>,
    held: Seq<(MapKey, Value)>,
    entries: Seq<(MapKey, Value)>,
    depth: nat,
)
    requires
        map_record_merged(pool, info, before, after, held, entries, true, depth),
        forall|a: int, b: int| 0 <= a < b < held.len() ==> !same_key(#[trigger] held[a].0, #[trigger] held[b].0),
    ensures
        spec_decode_varint(before) matches Some((len, n)) && exists|k: MapKey, v: Value|
            {
                &&& #[trigger] entry_read(
                    pool,
                    pool.map_entry_infos(info.kind).0,
                    pool.map_entry_infos(info.kind).1,
                    before.subrange(n as int, (n + len) as int),
                    depth,
                    k,
                    v,
                )
                &&& exists|i: int| 0 <= i < entries.len() && entries[i] == (k, v)
                &&& forall|i: int| 0 <= i < entries.len() && same_key(#[trigger] entries[i].0, k) ==> entries[i].1 == v
                &&& forall|j: int| 0 <= j < held.len() && !same_key(#[trigger] held[j].0, k) ==> entries[j] == held[j]
                &&& (exists|j: int| 0 <= j < held.len() && same_key(#[trigger] held[j].0, k)) ==> entries.len()
                    == held.len()
                &&& (forall|j: int| 0 <= j < held.len() ==> !same_key(#[trigger] held[j].0, k)) ==> entries.len()
                    == held.len() + 1
            },
{
    let (len, n) = spec_decode_varint(before)->Some_0;
    let (ki, vi) = pool.map_entry_infos(info.kind);
    let payload = before.subrange(n as int, (n + len) as int);
    let (k, v) = choose|k: MapKey, v: Value|
        entries == #[trigger] map_put(held, k, v) && entry_read(pool, ki, vi, payload, depth, k, v);
    lemma_key_position_found(held, k);
    match key_position(held, k) {
        Some(p) => {
            assert(entries == held.update(p, (k, v)));
            assert(entries[p] == (k, v));
            assert forall|i: int| 0 <= i < entries.len() && same_key(#[trigger] entries[i].0, k) implies entries[i].1
                == v by {
                if i != p {
                    assert(entries[i] == held[i]);
                    if i < p {
                        assert(!same_key(held[i].0, held[p].0));
                    } else {
                        assert(!same_key(held[p].0, held[i].0));
                    }
                }
            }
            assert forall|j: int| 0 <= j < held.len() && !same_key(#[trigger] held[j].0, k) implies entries[j]
                == held[j] by {
                assert(j != p);
            }
        },
        None => {
            assert(entries == held.push((k, v)));
            assert(entries[held.len() as int] == (k, v));
            assert forall|i: int| 0 <= i < entries.len() && same_key(#[trigger] entries[i].0, k) implies entries[i].1
                == v by {
                if i < held.len() {
                    assert(entries[i] == held[i]);
                }
            }
            assert forall|j: int| 0 <= j < held.len() && !same_key(#[trigger] held[j].0, k) implies entries[j]
                == held[j] by {}
        },
    }
    assert(entry_read(pool, ki, vi, payload, depth, k, v));
}


/// The last record of a singular field that is not a message wins: what a
/// record of such a field leaves in the field is fixed by the record's
/// bytes alone, whatever the field held before, and equal values come out
/// of two merges of the same record.
pub proof fn law_singular_last_wins(
    pool: crate::descriptor::DescriptorPoolInner,
    info: crate::descriptor::FieldInfo,
    wt: WireType,
    s: Seq<u8>,
    depth: nat,
    a1: Seq<u8>,
    p1: Option<Value>,
    slot1: ValueOrUnknown,
    a2: Seq<u8>,
    p2: Option<Value>,
    slot2: ValueOrUnknown,
)
    requires
        !info.is_list,
        !info.is_map,
        !info.kind.spec_is_message(),
        record_merged(pool, info, wt, s, a1, p1, slot1, true, depth),
        record_merged(pool, info, wt, s, a2, p2, slot2, true, depth),
    ensures
        a1 == a2,
        slot1 is Value,
        slot2 is Value,
        same_scalar(slot1->Value_0, slot2->Value_0),
{
    if info.kind is String {
        let x = slot1->Value_0->String_0@;
        let y = slot2->Value_0->String_0@;
        vstd::utf8::encode_utf8_decode_utf8(x);
        vstd::utf8::encode_utf8_decode_utf8(y);
        assert(str_bytes(x) == str_bytes(y));
    }
}

/// Records of a repeated field append: after a record of a repeated field
/// is merged, the field holds a list that starts with the elements it held
/// before, in their order, and is no shorter.
pub proof fn law_list_record_appends(
    pool: crate::descriptor::DescriptorPoolInner,
    info: crate::descriptor::FieldInfo,
    wt: WireType,
    s: Seq<u8>,
    depth: nat,
    after: Seq<u8>,
    held: Vec<Value>,
    slot: ValueOrUnknown,
)
    requires
        info.is_list,
        record_merged(pool, info, wt, s, after, Some(Value::List(held)), slot, true, depth),
    ensures
        slot is Value,
        slot->Value_0 is List,
        slot->Value_0->List_0@.len() >= held@.len(),
        slot->Value_0->List_0@.take(held@.len() as int) == held@,
{
    if info.kind.spec_is_packable() && wt == WireType::LengthDelimited {
        let (payload, n) = spec_wire_payload(wt, s)->Some_0;
        let vs = spec_decode_packed(info.kind, payload)->Some_0;
        assert((held@ + vs).take(held@.len() as int) =~= held@);
    } else if info.kind.spec_is_packable() {
        let (raw, n) = spec_wire_scalar(info.kind, wt, s)->Some_0;
        assert(held@.push(spec_scalar_from_raw(info.kind, raw)).take(held@.len() as int) =~= held@);
    }
}

/// A record of a singular message field is merged into the message the
/// field held, not put in its place: a record whose payload is empty
/// leaves the field holding a message with the same slots as before.
pub proof fn law_message_record_merges_into_held(
    pool: crate::descriptor::DescriptorPoolInner,
    info: crate::descriptor::FieldInfo,
    s: Seq<u8>,
    depth: nat,
    after: Seq<u8>,
    held: DynamicMessage,
    slot: ValueOrUnknown,
)
    requires
        !info.is_list,
        !info.is_map,
        info.kind is Message,
        record_merged(
            pool,
            info,
            WireType::LengthDelimited,
            s,
            after,
            Some(Value::Message(held)),
            slot,
            true,
            depth,
        ),
        spec_decode_varint(s) matches Some((len, n)) && len == 0,
    ensures
        slot is Value,
        slot->Value_0 is Message,
        slot->Value_0->Message_0.spec_map() == held.spec_map(),
{
    let (len, n) = spec_decode_varint(s)->Some_0;
    assert(s.subrange(n as int, (n + len) as int).len() == 0);
}

/// A group of a singular group field is merged into the message the field
/// held, not put in its place: a group that ends at once leaves the field
/// holding a message with the same slots as before.
pub proof fn law_group_merges_into_held(
    pool: crate::descriptor::DescriptorPoolInner,
    info: crate::descriptor::FieldInfo,
    s: Seq<u8>,
    depth: nat,
    after: Seq<u8>,
    held: DynamicMessage,
    slot: ValueOrUnknown,
)
    requires
        !info.is_list,
        !info.is_map,
        info.is_group,
        info.kind is Group,
        record_merged(pool, info, WireType::StartGroup, s, after, Some(Value::Message(held)), slot, true, depth),
        spec_decode_key(s) matches Some((number, wt, k)) && wt == WireType::EndGroup,
    ensures
        slot is Value,
        slot->Value_0 is Message,
        slot->Value_0->Message_0.spec_map() == held.spec_map(),
{
    let c = choose|c: nat|
        #![trigger group_extent(c)]
        group_extent(c) && group_merged(
            pool,
            message_index_of(info.kind),
            held_message(Some(Value::Message(held))),
            info.number,
            s,
            (depth - 1) as nat,
            slot->Value_0->Message_0.spec_map(),
            c,
        ) && c <= s.len() && after == s.skip(c as int);
}

/// A string is read only from valid UTF-8: a record of a singular string
/// field is accepted exactly when its payload is valid UTF-8, and the
/// string read then has exactly the payload's bytes.
pub proof fn law_string_record_utf8(
    pool: crate::descriptor::DescriptorPoolInner,
    info: crate::descriptor::FieldInfo,
    s: Seq<u8>,
    depth: nat,
    after: Seq<u8>,
    prior: Option<Value>,
    slot: ValueOrUnknown,
    ok: bool,
)
    requires
        !info.is_list,
        !info.is_map,
        info.kind is String,
        record_merged(pool, info, WireType::LengthDelimited, s, after, prior, slot, ok, depth),
        spec_decode_varint(s) matches Some((len, n)) && n + len <= s.len(),
    ensures
        ok <==> vstd::utf8::valid_utf8(s.subrange(spec_decode_varint(s)->Some_0.1 as int, (spec_decode_varint(s)->Some_0.1
            + spec_decode_varint(s)->Some_0.0) as int)),
        ok ==> slot is Value && slot->Value_0 is String && str_bytes(slot->Value_0->String_0@) == s.subrange(
            spec_decode_varint(s)->Some_0.1 as int,
            (spec_decode_varint(s)->Some_0.1 + spec_decode_varint(s)->Some_0.0) as int,
        ),
{
}

/// A record's merge leaves bytes that the bytes alone fix: two merges of
/// the same record into a field leave the same bytes.
pub(crate) proof fn lemma_record_merged_rest(
    pool: crate::descriptor::DescriptorPoolInner,
    info: crate::descriptor::FieldInfo,
    wt: WireType,
    s: Seq<u8>,
    depth: nat,
    a1: Seq<u8>,
    p1: Option<Value>,
    slot1: ValueOrUnknown,
    a2: Seq<u8>,
    p2: Option<Value>,
    slot2: ValueOrUnknown,
)
    requires
        record_merged(pool, info, wt, s, a1, p1, slot1, true, depth),
        record_merged(pool, info, wt, s, a2, p2, slot2, true, depth),
    ensures
        a1 == a2,
    decreases depth, s.len(), 0nat,
{
    if (info.is_list || !info.is_map) && info.kind.spec_is_message() && info.is_group && wt == WireType::StartGroup
        && depth > 0 {
        let mi = message_index_of(info.kind);
        if info.is_list {
            let held1 = match p1 {
                Some(Value::List(vs)) => vs@,
                _ => Seq::empty(),
            };
            let c1 = choose|c: nat|
                #![trigger group_extent(c)]
                group_extent(c) && group_merged(
                    pool,
                    mi,
                    Map::<u32, ValueOrUnknown>::empty(),
                    info.number,
                    s,
                    (depth - 1) as nat,
                    slot1->Value_0->List_0@.last()->Message_0.spec_map(),
                    c,
                ) && c <= s.len() && a1 == s.skip(c as int);
            let c2 = choose|c: nat|
                #![trigger group_extent(c)]
                group_extent(c) && group_merged(
                    pool,
                    mi,
                    Map::<u32, ValueOrUnknown>::empty(),
                    info.number,
                    s,
                    (depth - 1) as nat,
                    slot2->Value_0->List_0@.last()->Message_0.spec_map(),
                    c,
                ) && c <= s.len() && a2 == s.skip(c as int);
            lemma_group_consumed(
                pool,
                mi,
                Map::<u32, ValueOrUnknown>::empty(),
                Map::<u32, ValueOrUnknown>::empty(),
                info.number,
                s,
                (depth - 1) as nat,
                slot1->Value_0->List_0@.last()->Message_0.spec_map(),
                slot2->Value_0->List_0@.last()->Message_0.spec_map(),
                c1,
                c2,
            );
        } else {
            let c1 = choose|c: nat|
                #![trigger group_extent(c)]
                group_extent(c) && group_merged(
                    pool,
                    mi,
                    held_message(p1),
                    info.number,
                    s,
                    (depth - 1) as nat,
                    slot1->Value_0->Message_0.spec_map(),
                    c,
                ) && c <= s.len() && a1 == s.skip(c as int);
            let c2 = choose|c: nat|
                #![trigger group_extent(c)]
                group_extent(c) && group_merged(
                    pool,
                    mi,
                    held_message(p2),
                    info.number,
                    s,
                    (depth - 1) as nat,
                    slot2->Value_0->Message_0.spec_map(),
                    c,
                ) && c <= s.len() && a2 == s.skip(c as int);
            lemma_group_consumed(
                pool,
                mi,
                held_message(p1),
                held_message(p2),
                info.number,
                s,
                (depth - 1) as nat,
                slot1->Value_0->Message_0.spec_map(),
                slot2->Value_0->Message_0.spec_map(),
                c1,
                c2,
            );
        }
    }
}

/// A group's records leave bytes that the bytes alone fix: two merges of
/// the same group take the same number of bytes.
proof fn lemma_group_consumed(
    pool: crate::descriptor::DescriptorPoolInner,
    mi: int,
    b1: Map<u32, ValueOrUnknown>,
    b2: Map<u32, ValueOrUnknown>,
    tag: u32,
    s: Seq<u8>,
    depth: nat,
    a1: Map<u32, ValueOrUnknown>,
    a2: Map<u32, ValueOrUnknown>,
    c1: nat,
    c2: nat,
)
    requires
        group_merged(pool, mi, b1, tag, s, depth, a1, c1),
        group_merged(pool, mi, b2, tag, s, depth, a2, c2),
    ensures
        c1 == c2,
    decreases depth, s.len(), 2nat,
{
    let (number, wt, k) = spec_decode_key(s)->Some_0;
    if wt != WireType::EndGroup {
        let (m1, r1, d1) = choose|mid: Map<u32, ValueOrUnknown>, rest: Seq<u8>, c: nat|
            #![trigger group_point(mid, rest, c)]
            group_point(mid, rest, c) && rest.len() < s.len() && record_step(
                pool,
                mi,
                b1,
                number,
                wt,
                s.skip(k as int),
                depth,
                mid,
                rest,
            ) && group_merged(pool, mi, mid, tag, rest, depth, a1, c) && c1 == (s.len() - rest.len()) + c;
        let (m2, r2, d2) = choose|mid: Map<u32, ValueOrUnknown>, rest: Seq<u8>, c: nat|
            #![trigger group_point(mid, rest, c)]
            group_point(mid, rest, c) && rest.len() < s.len() && record_step(
                pool,
                mi,
                b2,
                number,
                wt,
                s.skip(k as int),
                depth,
                mid,
                rest,
            ) && group_merged(pool, mi, mid, tag, rest, depth, a2, c) && c2 == (s.len() - rest.len()) + c;
        lemma_record_step_rest(pool, mi, b1, b2, number, wt, s.skip(k as int), depth, m1, r1, m2, r2);
        lemma_group_consumed(pool, mi, m1, m2, tag, r1, depth, a1, a2, d1, d2);
    }
}

/// A record's step leaves bytes that the bytes alone fix.
pub(crate) proof fn lemma_record_step_rest(
    pool: crate::descriptor::DescriptorPoolInner,
    mi: int,
    b1: Map<u32, ValueOrUnknown>,
    b2: Map<u32, ValueOrUnknown>,
    number: u32,
    wt: WireType,
    s: Seq<u8>,
    depth: nat,
    m1: Map<u32, ValueOrUnknown>,
    r1: Seq<u8>,
    m2: Map<u32, ValueOrUnknown>,
    r2: Seq<u8>,
)
    requires
        record_step(pool, mi, b1, number, wt, s, depth, m1, r1),
        record_step(pool, mi, b2, number, wt, s, depth, m2, r2),
    ensures
        r1 == r2,
    decreases depth, s.len(), 1nat,
{
    if let Some(info) = record_info(pool, mi, number) {
        lemma_record_merged_rest(
            pool,
            info,
            wt,
            s,
            depth,
            r1,
            value_in(b1, number),
            m1[number],
            r2,
            value_in(b2, number),
            m2[number],
        );
    }
}

/// How many bytes the record at the start of `s` takes when it can be
/// merged into a field, whatever the field held, with at most `depth`
/// messages entered: none when it cannot. A scalar, string, bytes or
/// packed record must read as the field's kind; a message or group record
/// must hold records that can be merged one level deeper; a map entry
/// record must hold records that read as an entry.
pub open spec fn record_len(
    pool: crate::descriptor::DescriptorPoolInner,
    info: crate::descriptor::FieldInfo,
    wt: WireType,
    s: Seq<u8>,
    depth: nat,
) -> Option<nat>
    decreases depth, s.len(), 1nat,
{
    let single = !info.is_list && !info.is_map;
    let listy = info.is_list || !info.is_map;
    if listy && info.kind.spec_is_message() && !info.is_group {
        match spec_wire_payload(wt, s) {
            Some((payload, n)) => if depth > 0 && records_ok(pool, message_index_of(info.kind), payload, (depth - 1) as nat) {
                Some(n)
            } else {
                None
            },
            None => None,
        }
    } else if listy && info.kind.spec_is_message() {
        if wt == WireType::StartGroup && depth > 0 {
            group_len(pool, message_index_of(info.kind), info.number, s, (depth - 1) as nat)
        } else {
            None
        }
    } else if info.is_list && info.kind.spec_is_packable() && wt == WireType::LengthDelimited {
        match spec_wire_payload(wt, s) {
            Some((payload, n)) => if spec_decode_packed(info.kind, payload) is Some {
                Some(n)
            } else {
                None
            },
            None => None,
        }
    } else if listy && (info.kind is Bytes || info.kind is String) {
        match spec_wire_payload(wt, s) {
            Some((payload, n)) => if info.kind is Bytes || vstd::utf8::valid_utf8(payload) {
                Some(n)
            } else {
                None
            },
            None => None,
        }
    } else if listy {
        match spec_wire_scalar(info.kind, wt, s) {
            Some((raw, n)) => Some(n),
            None => None,
        }
    } else {
        match spec_decode_varint(s) {
            Some((len, n)) => if 1 <= n && n + len <= s.len() && entry_ok(
                pool,
                pool.map_entry_infos(info.kind).0,
                pool.map_entry_infos(info.kind).1,
                s.subrange(n as int, (n + len) as int),
                depth,
            ) {
                Some(n + len)
            } else {
                None
            },
            None => None,
        }
    }
}

/// How many bytes the record whose key (`number`, `wt`) has been read and
/// whose bytes start `s` takes when it can be merged into message `mi`:
/// as its field's or extension's record, or as an unknown field.
pub open spec fn step_len(
    pool: crate::descriptor::DescriptorPoolInner,
    mi: int,
    number: u32,
    wt: WireType,
    s: Seq<u8>,
    depth: nat,
) -> Option<nat>
    decreases depth, s.len(), 2nat,
{
    match record_info(pool, mi, number) {
        Some(info) => record_len(pool, info, wt, s, depth),
        None => spec_unknown_len(wt, number, s, depth),
    }
}

/// Whether the records of `s`, one after another, can be merged into
/// message `mi` with at most `depth` messages entered.
pub open spec fn records_ok(pool: crate::descriptor::DescriptorPoolInner, mi: int, s: Seq<u8>, depth: nat) -> bool
    decreases depth, s.len(), 3nat,
{
    if s.len() == 0 {
        true
    } else {
        match spec_decode_key(s) {
            Some((number, wt, k)) => 1 <= k <= s.len() && match step_len(pool, mi, number, wt, s.skip(k as int), depth) {
                Some(l) => k + l <= s.len() && records_ok(pool, mi, s.skip((k + l) as int), depth),
                None => false,
            },
            None => false,
        }
    }
}

/// How many bytes the records of a group numbered `tag` at the start of
/// `s`, through its end key, take when they can be merged into message
/// `mi`.
pub open spec fn group_len(
    pool: crate::descriptor::DescriptorPoolInner,
    mi: int,
    tag: u32,
    s: Seq<u8>,
    depth: nat,
) -> Option<nat>
    decreases depth, s.len(), 3nat,
{
    match spec_decode_key(s) {
        Some((number, wt, k)) => if !(1 <= k <= s.len()) {
            None
        } else if wt == WireType::EndGroup {
            if number == tag {
                Some(k)
            } else {
                None
            }
        } else {
            match step_len(pool, mi, number, wt, s.skip(k as int), depth) {
                Some(l) => if k + l <= s.len() {
                    match group_len(pool, mi, tag, s.skip((k + l) as int), depth) {
                        Some(c) => Some(k + l + c),
                        None => None,
                    }
                } else {
                    None
                },
                None => None,
            }
        },
        None => None,
    }
}

/// How many bytes a record of a map entry, whose key (`number`, `wt`) has
/// been read and whose bytes start `s`, takes when it can be read: record 1
/// as the key's kind, record 2 as the value field's record, any other
/// skipped.
pub open spec fn entry_step_len(
    pool: crate::descriptor::DescriptorPoolInner,
    ki: crate::descriptor::FieldInfo,
    vi: crate::descriptor::FieldInfo,
    number: u32,
    wt: WireType,
    s: Seq<u8>,
    depth: nat,
) -> Option<nat>
    decreases depth, s.len(), 2nat,
{
    if number == MAP_ENTRY_KEY_NUMBER {
        if ki.kind is String {
            match spec_wire_payload(wt, s) {
                Some((payload, m)) => if vstd::utf8::valid_utf8(payload) {
                    Some(m)
                } else {
                    None
                },
                None => None,
            }
        } else {
            match spec_wire_scalar(ki.kind, wt, s) {
                Some((raw, m)) => Some(m),
                None => None,
            }
        }
    } else if number == MAP_ENTRY_VALUE_NUMBER {
        record_len(pool, vi, wt, s, depth)
    } else {
        spec_skip_field(wt, number, s, RECURSION_LIMIT as nat)
    }
}

/// Whether the records `s` of a map entry, one after another, can be read.
pub open spec fn entry_ok(
    pool: crate::descriptor::DescriptorPoolInner,
    ki: crate::descriptor::FieldInfo,
    vi: crate::descriptor::FieldInfo,
    s: Seq<u8>,
    depth: nat,
) -> bool
    decreases depth, s.len(), 3nat,
{
    if s.len() == 0 {
        true
    } else {
        match spec_decode_key(s) {
            Some((number, wt, n)) => 1 <= n <= s.len() && match entry_step_len(pool, ki, vi, number, wt, s.skip(n as int), depth) {
                Some(l) => n + l <= s.len() && entry_ok(pool, ki, vi, s.skip((n + l) as int), depth),
                None => false,
            },
            None => false,
        }
    }
}

/// A record read from `s` as a scalar or a length-delimited payload takes
/// between one byte and what is left.
pub(crate) proof fn lemma_read_bounds(kind: KindIndex, wt: WireType, s: Seq<u8>)
    ensures
        spec_wire_scalar(kind, wt, s) matches Some((raw, n)) ==> 1 <= n <= s.len(),
        spec_wire_payload(wt, s) matches Some((payload, n)) ==> 1 <= n <= s.len() && payload.len() < n,
{
    if spec_decode_varint(s) is Some {
        lemma_decode_varint_bounds(s);
    }
}

/// A field's record merged into its slot takes the bytes that
/// `record_len` gives, and leaves those after them.
pub(crate) proof fn lemma_len_of_record_merged(
    pool: crate::descriptor::DescriptorPoolInner,
    info: crate::descriptor::FieldInfo,
    wt: WireType,
    before: Seq<u8>,
    after: Seq<u8>,
    prior: Option<Value>,
    slot: ValueOrUnknown,
    depth: nat,
)
    requires
        record_merged(pool, info, wt, before, after, prior, slot, true, depth),
    ensures
        after.len() <= before.len(),
        record_len(pool, info, wt, before, depth) == Some((before.len() - after.len()) as nat),
        after == before.skip(before.len() - after.len()),
    decreases depth, before.len(), 1nat,
{
    lemma_read_bounds(info.kind, wt, before);
    let single = !info.is_list && !info.is_map;
    if info.is_list && info.kind.spec_is_message() && !info.is_group {
        let (payload, n) = spec_wire_payload(wt, before)->Some_0;
        let m = slot->Value_0->List_0@.last()->Message_0.spec_map();
        lemma_ok_of_records_merged(pool, message_index_of(info.kind), Map::empty(), payload, (depth - 1) as nat, m);
    } else if info.is_list && info.kind.spec_is_message() {
        let c = choose|c: nat|
            #![trigger group_extent(c)]
            group_extent(c) && group_merged(
                pool,
                message_index_of(info.kind),
                Map::<u32, ValueOrUnknown>::empty(),
                info.number,
                before,
                (depth - 1) as nat,
                slot->Value_0->List_0@.last()->Message_0.spec_map(),
                c,
            ) && c <= before.len() && after == before.skip(c as int);
        lemma_len_of_group_merged(
            pool,
            message_index_of(info.kind),
            Map::empty(),
            info.number,
            before,
            (depth - 1) as nat,
            slot->Value_0->List_0@.last()->Message_0.spec_map(),
            c,
        );
    } else if !info.is_list && !info.is_map && info.kind.spec_is_message() && !info.is_group {
        let (payload, n) = spec_wire_payload(wt, before)->Some_0;
        lemma_ok_of_records_merged(
            pool,
            message_index_of(info.kind),
            held_message(prior),
            payload,
            (depth - 1) as nat,
            slot->Value_0->Message_0.spec_map(),
        );
    } else if !info.is_list && !info.is_map && info.kind.spec_is_message() {
        let c = choose|c: nat|
            #![trigger group_extent(c)]
            group_extent(c) && group_merged(
                pool,
                message_index_of(info.kind),
                held_message(prior),
                info.number,
                before,
                (depth - 1) as nat,
                slot->Value_0->Message_0.spec_map(),
                c,
            ) && c <= before.len() && after == before.skip(c as int);
        lemma_len_of_group_merged(
            pool,
            message_index_of(info.kind),
            held_message(prior),
            info.number,
            before,
            (depth - 1) as nat,
            slot->Value_0->Message_0.spec_map(),
            c,
        );
    } else if !info.is_list && info.is_map {
        let (len, n) = spec_decode_varint(before)->Some_0;
        lemma_decode_varint_bounds(before);
        let es = slot->Value_0->MapEntries_0@;
        let held = held_entries(prior);
        let (k, v) = choose|k: MapKey, v: Value|
            es == #[trigger] map_put(held, k, v) && entry_read(
                pool,
                pool.map_entry_infos(info.kind).0,
                pool.map_entry_infos(info.kind).1,
                before.subrange(n as int, (n + len) as int),
                depth,
                k,
                v,
            );
        lemma_ok_of_entry_read(
            pool,
            pool.map_entry_infos(info.kind).0,
            pool.map_entry_infos(info.kind).1,
            before.subrange(n as int, (n + len) as int),
            depth,
            k,
            v,
        );
    }
}

/// One record merged into a message takes the bytes that `step_len`
/// gives, and leaves those after them.
proof fn lemma_len_of_record_step(
    pool: crate::descriptor::DescriptorPoolInner,
    mi: int,
    before: Map<u32, ValueOrUnknown>,
    number: u32,
    wt: WireType,
    s: Seq<u8>,
    depth: nat,
    after: Map<u32, ValueOrUnknown>,
    rest: Seq<u8>,
)
    requires
        record_step(pool, mi, before, number, wt, s, depth, after, rest),
    ensures
        rest.len() <= s.len(),
        step_len(pool, mi, number, wt, s, depth) == Some((s.len() - rest.len()) as nat),
        rest == s.skip(s.len() - rest.len()),
    decreases depth, s.len(), 2nat,
{
    match record_info(pool, mi, number) {
        Some(info) => {
            lemma_len_of_record_merged(pool, info, wt, s, rest, value_in(before, number), after[number], depth);
        },
        None => {
            lemma_unknown_len_bounds(wt, number, s, depth);
        },
    }
}

/// The records of a run merged one after another into a message can be
/// read: `records_ok` holds of them.
proof fn lemma_ok_of_records_merged(
    pool: crate::descriptor::DescriptorPoolInner,
    mi: int,
    before: Map<u32, ValueOrUnknown>,
    s: Seq<u8>,
    depth: nat,
    after: Map<u32, ValueOrUnknown>,
)
    requires
        records_merged(pool, mi, before, s, depth, after),
    ensures
        records_ok(pool, mi, s, depth),
    decreases depth, s.len(), 3nat,
{
    if s.len() > 0 {
        let (number, wt, k) = spec_decode_key(s)->Some_0;
        let (mid, rest) = choose|mid: Map<u32, ValueOrUnknown>, rest: Seq<u8>|
            #![trigger merge_point(mid, rest)]
            merge_point(mid, rest) && rest.len() < s.len() && record_step(
                pool,
                mi,
                before,
                number,
                wt,
                s.skip(k as int),
                depth,
                mid,
                rest,
            ) && records_merged(pool, mi, mid, rest, depth, after);
        lemma_len_of_record_step(pool, mi, before, number, wt, s.skip(k as int), depth, mid, rest);
        lemma_ok_of_records_merged(pool, mi, mid, rest, depth, after);
        let l = (s.skip(k as int).len() - rest.len()) as nat;
        assert(s.skip((k + l) as int) =~= rest);
    }
}

/// The records of a group merged into a message take the bytes that
/// `group_len` gives.
pub(crate) proof fn lemma_len_of_group_merged(
    pool: crate::descriptor::DescriptorPoolInner,
    mi: int,
    before: Map<u32, ValueOrUnknown>,
    tag: u32,
    s: Seq<u8>,
    depth: nat,
    after: Map<u32, ValueOrUnknown>,
    consumed: nat,
)
    requires
        group_merged(pool, mi, before, tag, s, depth, after, consumed),
    ensures
        group_len(pool, mi, tag, s, depth) == Some(consumed),
    decreases depth, s.len(), 3nat,
{
    let (number, wt, k) = spec_decode_key(s)->Some_0;
    if wt != WireType::EndGroup {
        let (mid, rest, c) = choose|mid: Map<u32, ValueOrUnknown>, rest: Seq<u8>, c: nat|
            #![trigger group_point(mid, rest, c)]
            group_point(mid, rest, c) && rest.len() < s.len() && record_step(
                pool,
                mi,
                before,
                number,
                wt,
                s.skip(k as int),
                depth,
                mid,
                rest,
            ) && group_merged(pool, mi, mid, tag, rest, depth, after, c) && consumed == (s.len() - rest.len()) + c;
        lemma_len_of_record_step(pool, mi, before, number, wt, s.skip(k as int), depth, mid, rest);
        lemma_len_of_group_merged(pool, mi, mid, tag, rest, depth, after, c);
        let l = (s.skip(k as int).len() - rest.len()) as nat;
        assert(s.skip((k + l) as int) =~= rest);
    }
}

/// The records of a map entry read into a key and value can be read:
/// `entry_ok` holds of them.
proof fn lemma_ok_of_entry_read(
    pool: crate::descriptor::DescriptorPoolInner,
    ki: crate::descriptor::FieldInfo,
    vi: crate::descriptor::FieldInfo,
    s: Seq<u8>,
    depth: nat,
    k: MapKey,
    v: Value,
)
    requires
        entry_read(pool, ki, vi, s, depth, k, v),
    ensures
        entry_ok(pool, ki, vi, s, depth),
    decreases depth, s.len(), 4nat,
{
    let (k0, v0) = choose|k0: MapKey, v0: Value|
        #![trigger entry_start(k0, v0)]
        entry_start(k0, v0) && is_default_key(k0, ki.kind) && is_canonical_default(pool, vi, v0) && entry_merged(
            pool,
            ki,
            vi,
            k0,
            v0,
            s,
            depth,
            k,
            v,
        );
    lemma_ok_of_entry_merged(pool, ki, vi, k0, v0, s, depth, k, v);
}

/// The records of a map entry read one after another can be read.
proof fn lemma_ok_of_entry_merged(
    pool: crate::descriptor::DescriptorPoolInner,
    ki: crate::descriptor::FieldInfo,
    vi: crate::descriptor::FieldInfo,
    k0: MapKey,
    v0: Value,
    s: Seq<u8>,
    depth: nat,
    k1: MapKey,
    v1: Value,
)
    requires
        entry_merged(pool, ki, vi, k0, v0, s, depth, k1, v1),
    ensures
        entry_ok(pool, ki, vi, s, depth),
    decreases depth, s.len(), 3nat,
{
    if s.len() > 0 {
        let (number, wt, n) = spec_decode_key(s)->Some_0;
        let (k, v, rest) = choose|k: MapKey, v: Value, rest: Seq<u8>|
            #![trigger entry_point(k, v, rest)]
            entry_point(k, v, rest) && rest.len() < s.len() && entry_step(
                pool,
                ki,
                vi,
                k0,
                v0,
                number,
                wt,
                s.skip(n as int),
                depth,
                k,
                v,
                rest,
            ) && entry_merged(pool, ki, vi, k, v, rest, depth, k1, v1);
        lemma_len_of_entry_step(pool, ki, vi, k0, v0, number, wt, s.skip(n as int), depth, k, v, rest);
        lemma_ok_of_entry_merged(pool, ki, vi, k, v, rest, depth, k1, v1);
        let l = (s.skip(n as int).len() - rest.len()) as nat;
        assert(s.skip((n + l) as int) =~= rest);
    }
}

/// One record of a map entry read takes the bytes that `entry_step_len`
/// gives, and leaves those after them.
proof fn lemma_len_of_entry_step(
    pool: crate::descriptor::DescriptorPoolInner,
    ki: crate::descriptor::FieldInfo,
    vi: crate::descriptor::FieldInfo,
    k0: MapKey,
    v0: Value,
    number: u32,
    wt: WireType,
    s: Seq<u8>,
    depth: nat,
    k: MapKey,
    v: Value,
    rest: Seq<u8>,
)
    requires
        entry_step(pool, ki, vi, k0, v0, number, wt, s, depth, k, v, rest),
    ensures
        rest.len() <= s.len(),
        entry_step_len(pool, ki, vi, number, wt, s, depth) == Some((s.len() - rest.len()) as nat),
        rest == s.skip(s.len() - rest.len()),
    decreases depth, s.len(), 2nat,
{
    lemma_read_bounds(ki.kind, wt, s);
    if number == MAP_ENTRY_KEY_NUMBER {
    } else if number == MAP_ENTRY_VALUE_NUMBER {
        lemma_len_of_record_merged(pool, vi, wt, s, rest, Some(v0), ValueOrUnknown::Value(v), depth);
    } else {
        lemma_skip_bounds(wt, number, s, RECURSION_LIMIT as nat);
    }
}

/// No run of records in `s` can be merged into message `mi`, whatever
/// the message held.
pub open spec fn records_unreadable(
    pool: crate::descriptor::DescriptorPoolInner,
    mi: int,
    s: Seq<u8>,
    depth: nat,
) -> bool {
    forall|b: Map<u32, ValueOrUnknown>, a: Map<u32, ValueOrUnknown>| !#[trigger] records_merged(pool, mi, b, s, depth, a)
}

/// No group numbered `tag` at the start of `s` can be merged into message
/// `mi`, whatever the message held.
pub open spec fn group_unreadable(
    pool: crate::descriptor::DescriptorPoolInner,
    mi: int,
    tag: u32,
    s: Seq<u8>,
    depth: nat,
) -> bool {
    forall|b: Map<u32, ValueOrUnknown>, a: Map<u32, ValueOrUnknown>, c: nat|
        !#[trigger] group_merged(pool, mi, b, tag, s, depth, a, c)
}

/// The record at the start of `s` cannot be merged into the field,
/// whatever the field held.
pub open spec fn record_unreadable(
    pool: crate::descriptor::DescriptorPoolInner,
    info: crate::descriptor::FieldInfo,
    wt: WireType,
    s: Seq<u8>,
    depth: nat,
) -> bool {
    forall|a: Seq<u8>, p: Option<Value>, slot: ValueOrUnknown|
        !#[trigger] record_merged(pool, info, wt, s, a, p, slot, true, depth)
}

/// The record whose key (`number`, `wt`) has been read and whose bytes
/// start `s` cannot be merged into message `mi`, whatever it held.
pub open spec fn step_unreadable(
    pool: crate::descriptor::DescriptorPoolInner,
    mi: int,
    number: u32,
    wt: WireType,
    s: Seq<u8>,
    depth: nat,
) -> bool {
    forall|b: Map<u32, ValueOrUnknown>, m: Map<u32, ValueOrUnknown>, rest: Seq<u8>|
        !#[trigger] record_step(pool, mi, b, number, wt, s, depth, m, rest)
}

/// The map entry record at the start of `s` cannot be merged into any
/// entries.
pub open spec fn map_record_unreadable(
    pool: crate::descriptor::DescriptorPoolInner,
    info: crate::descriptor::FieldInfo,
    s: Seq<u8>,
    depth: nat,
) -> bool {
    forall|a: Seq<u8>, h: Seq<(MapKey, Value)>, e: Seq<(MapKey, Value)>|
        !#[trigger] map_record_merged(pool, info, s, a, h, e, true, depth)
}

/// The records `s` cannot be read as a map entry, from any key and value.
pub open spec fn entry_unreadable(
    pool: crate::descriptor::DescriptorPoolInner,
    ki: crate::descriptor::FieldInfo,
    vi: crate::descriptor::FieldInfo,
    s: Seq<u8>,
    depth: nat,
) -> bool {
    forall|k0: MapKey, v0: Value, k: MapKey, v: Value| !#[trigger] entry_merged(pool, ki, vi, k0, v0, s, depth, k, v)
}

/// No record of a map entry, whose key (`number`, `wt`) has been read and
/// whose bytes start `s`, can be read, from any key and value.
pub open spec fn entry_step_unreadable(
    pool: crate::descriptor::DescriptorPoolInner,
    ki: crate::descriptor::FieldInfo,
    vi: crate::descriptor::FieldInfo,
    number: u32,
    wt: WireType,
    s: Seq<u8>,
    depth: nat,
) -> bool {
    forall|k0: MapKey, v0: Value, k: MapKey, v: Value, rest: Seq<u8>|
        !#[trigger] entry_step(pool, ki, vi, k0, v0, number, wt, s, depth, k, v, rest)
}

/// A map entry key record that cannot be read as the key's kind cannot be
/// read into any entry.
proof fn lemma_entry_step_unreadable_key(
    pool: crate::descriptor::DescriptorPoolInner,
    ki: crate::descriptor::FieldInfo,
    vi: crate::descriptor::FieldInfo,
    wt: WireType,
    s: Seq<u8>,
    depth: nat,
)
    requires
        ki.kind is String ==> match spec_wire_payload(wt, s) {
            Some((payload, m)) => !vstd::utf8::valid_utf8(payload),
            None => true,
        },
        !(ki.kind is String) ==> spec_wire_scalar(ki.kind, wt, s) is None,
    ensures
        entry_step_unreadable(pool, ki, vi, MAP_ENTRY_KEY_NUMBER, wt, s, depth),
{
    assert forall|k0: MapKey, v0: Value, k: MapKey, v: Value, rest: Seq<u8>|
        !#[trigger] entry_step(pool, ki, vi, k0, v0, MAP_ENTRY_KEY_NUMBER, wt, s, depth, k, v, rest) by {}
}

/// A map entry value record that cannot be merged into the value field
/// cannot be read into any entry.
proof fn lemma_entry_step_unreadable_value(
    pool: crate::descriptor::DescriptorPoolInner,
    ki: crate::descriptor::FieldInfo,
    vi: crate::descriptor::FieldInfo,
    wt: WireType,
    s: Seq<u8>,
    depth: nat,
)
    requires
        record_unreadable(pool, vi, wt, s, depth),
    ensures
        entry_step_unreadable(pool, ki, vi, MAP_ENTRY_VALUE_NUMBER, wt, s, depth),
{
    assert forall|k0: MapKey, v0: Value, k: MapKey, v: Value, rest: Seq<u8>|
        !#[trigger] entry_step(pool, ki, vi, k0, v0, MAP_ENTRY_VALUE_NUMBER, wt, s, depth, k, v, rest) by {
        if entry_step(pool, ki, vi, k0, v0, MAP_ENTRY_VALUE_NUMBER, wt, s, depth, k, v, rest) {
            assert(record_merged(pool, vi, wt, s, rest, Some(v0), ValueOrUnknown::Value(v), true, depth));
        }
    }
}

/// A map entry record of another number that cannot be skipped cannot be
/// read into any entry.
proof fn lemma_entry_step_unreadable_skip(
    pool: crate::descriptor::DescriptorPoolInner,
    ki: crate::descriptor::FieldInfo,
    vi: crate::descriptor::FieldInfo,
    number: u32,
    wt: WireType,
    s: Seq<u8>,
    depth: nat,
)
    requires
        number != MAP_ENTRY_KEY_NUMBER,
        number != MAP_ENTRY_VALUE_NUMBER,
        spec_skip_field(wt, number, s, RECURSION_LIMIT as nat) is None,
    ensures
        entry_step_unreadable(pool, ki, vi, number, wt, s, depth),
{
    assert forall|k0: MapKey, v0: Value, k: MapKey, v: Value, rest: Seq<u8>|
        !#[trigger] entry_step(pool, ki, vi, k0, v0, number, wt, s, depth, k, v, rest) by {}
}

/// A map entry record whose records cannot be read as an entry cannot be
/// merged into any entries.
proof fn lemma_map_unreadable_entry(
    pool: crate::descriptor::DescriptorPoolInner,
    info: crate::descriptor::FieldInfo,
    s: Seq<u8>,
    depth: nat,
    len: nat,
    n: nat,
)
    requires
        spec_decode_varint(s) == Some((len, n)),
        n + len <= s.len(),
        entry_unreadable(
            pool,
            pool.map_entry_infos(info.kind).0,
            pool.map_entry_infos(info.kind).1,
            s.subrange(n as int, (n + len) as int),
            depth,
        ),
    ensures
        map_record_unreadable(pool, info, s, depth),
{
    let ki = pool.map_entry_infos(info.kind).0;
    let vi = pool.map_entry_infos(info.kind).1;
    let payload = s.subrange(n as int, (n + len) as int);
    assert forall|a: Seq<u8>, h: Seq<(MapKey, Value)>, e: Seq<(MapKey, Value)>|
        !#[trigger] map_record_merged(pool, info, s, a, h, e, true, depth) by {
        if map_record_merged(pool, info, s, a, h, e, true, depth) {
            let (k, v) = choose|k: MapKey, v: Value|
                e == #[trigger] map_put(h, k, v) && entry_read(pool, ki, vi, payload, depth, k, v);
            assert(entry_read(pool, ki, vi, payload, depth, k, v));
            let (k0, v0) = choose|k0: MapKey, v0: Value|
                #![trigger entry_start(k0, v0)]
                entry_start(k0, v0) && is_default_key(k0, ki.kind) && is_canonical_default(pool, vi, v0)
                    && entry_merged(pool, ki, vi, k0, v0, payload, depth, k, v);
            assert(entry_merged(pool, ki, vi, k0, v0, payload, depth, k, v));
        }
    }
}

/// A list record that cannot be read as the list's kind cannot be merged
/// into the list.
proof fn lemma_list_unreadable(
    pool: crate::descriptor::DescriptorPoolInner,
    info: crate::descriptor::FieldInfo,
    wt: WireType,
    s: Seq<u8>,
    depth: nat,
)
    requires
        info.is_list,
        !info.kind.spec_is_message(),
        info.kind.spec_is_packable() && wt == WireType::LengthDelimited ==> match spec_wire_payload(wt, s) {
            Some((payload, n)) => spec_decode_packed(info.kind, payload) is None,
            None => true,
        },
        info.kind.spec_is_packable() && wt != WireType::LengthDelimited ==> spec_wire_scalar(info.kind, wt, s) is None,
        info.kind is Bytes ==> spec_wire_payload(wt, s) is None,
        info.kind is String ==> match spec_wire_payload(wt, s) {
            Some((payload, n)) => !vstd::utf8::valid_utf8(payload),
            None => true,
        },
    ensures
        record_unreadable(pool, info, wt, s, depth),
{
    assert forall|a: Seq<u8>, p: Option<Value>, slot: ValueOrUnknown|
        !#[trigger] record_merged(pool, info, wt, s, a, p, slot, true, depth) by {}
}

/// A map entry record that cannot be merged into any entries cannot be
/// merged into the map field.
proof fn lemma_record_unreadable_map(
    pool: crate::descriptor::DescriptorPoolInner,
    info: crate::descriptor::FieldInfo,
    wt: WireType,
    s: Seq<u8>,
    depth: nat,
)
    requires
        info.is_map,
        !info.is_list,
        map_record_unreadable(pool, info, s, depth),
    ensures
        record_unreadable(pool, info, wt, s, depth),
{
    assert forall|a: Seq<u8>, p: Option<Value>, slot: ValueOrUnknown|
        !#[trigger] record_merged(pool, info, wt, s, a, p, slot, true, depth) by {
        if record_merged(pool, info, wt, s, a, p, slot, true, depth) {
            assert(map_record_merged(pool, info, s, a, held_entries(p), slot->Value_0->MapEntries_0@, true, depth));
        }
    }
}

/// A message or group record whose records cannot be merged, whatever
/// the message held, cannot be merged into the field (a single message
/// or a list of messages).
proof fn lemma_record_unreadable_message(
    pool: crate::descriptor::DescriptorPoolInner,
    info: crate::descriptor::FieldInfo,
    wt: WireType,
    s: Seq<u8>,
    depth: nat,
)
    requires
        info.kind.spec_is_message(),
        info.is_list || !info.is_map,
        info.is_group ==> wt != WireType::StartGroup || depth == 0 || group_unreadable(
            pool,
            message_index_of(info.kind),
            info.number,
            s,
            (depth - 1) as nat,
        ),
        !info.is_group ==> match spec_wire_payload(wt, s) {
            Some((payload, n)) => depth == 0 || records_unreadable(
                pool,
                message_index_of(info.kind),
                payload,
                (depth - 1) as nat,
            ),
            None => true,
        },
    ensures
        record_unreadable(pool, info, wt, s, depth),
{
    let mi = message_index_of(info.kind);
    assert forall|a: Seq<u8>, p: Option<Value>, slot: ValueOrUnknown|
        !#[trigger] record_merged(pool, info, wt, s, a, p, slot, true, depth) by {
        if record_merged(pool, info, wt, s, a, p, slot, true, depth) {
            if info.is_group {
                if info.is_list {
                    let c = choose|c: nat|
                        #![trigger group_extent(c)]
                        group_extent(c) && group_merged(
                            pool,
                            mi,
                            Map::<u32, ValueOrUnknown>::empty(),
                            info.number,
                            s,
                            (depth - 1) as nat,
                            slot->Value_0->List_0@.last()->Message_0.spec_map(),
                            c,
                        ) && c <= s.len() && a == s.skip(c as int);
                    assert(group_merged(
                        pool,
                        mi,
                        Map::<u32, ValueOrUnknown>::empty(),
                        info.number,
                        s,
                        (depth - 1) as nat,
                        slot->Value_0->List_0@.last()->Message_0.spec_map(),
                        c,
                    ));
                } else {
                    let c = choose|c: nat|
                        #![trigger group_extent(c)]
                        group_extent(c) && group_merged(
                            pool,
                            mi,
                            held_message(p),
                            info.number,
                            s,
                            (depth - 1) as nat,
                            slot->Value_0->Message_0.spec_map(),
                            c,
                        ) && c <= s.len() && a == s.skip(c as int);
                    assert(group_merged(
                        pool,
                        mi,
                        held_message(p),
                        info.number,
                        s,
                        (depth - 1) as nat,
                        slot->Value_0->Message_0.spec_map(),
                        c,
                    ));
                }
            } else {
                let (payload, n) = spec_wire_payload(wt, s)->Some_0;
                if info.is_list {
                    assert(records_merged(
                        pool,
                        mi,
                        Map::<u32, ValueOrUnknown>::empty(),
                        payload,
                        (depth - 1) as nat,
                        slot->Value_0->List_0@.last()->Message_0.spec_map(),
                    ));
                } else {
                    assert(records_merged(
                        pool,
                        mi,
                        held_message(p),
                        payload,
                        (depth - 1) as nat,
                        slot->Value_0->Message_0.spec_map(),
                    ));
                }
            }
        }
    }
}

/// A record of a field or extension that cannot be merged into it cannot
/// be merged into the message.
proof fn lemma_step_unreadable_field(
    pool: crate::descriptor::DescriptorPoolInner,
    mi: int,
    number: u32,
    wt: WireType,
    s: Seq<u8>,
    depth: nat,
    info: crate::descriptor::FieldInfo,
)
    requires
        record_info(pool, mi, number) == Some(info),
        record_unreadable(pool, info, wt, s, depth),
    ensures
        step_unreadable(pool, mi, number, wt, s, depth),
{
    assert forall|b: Map<u32, ValueOrUnknown>, m: Map<u32, ValueOrUnknown>, rest: Seq<u8>|
        !#[trigger] record_step(pool, mi, b, number, wt, s, depth, m, rest) by {
        if record_step(pool, mi, b, number, wt, s, depth, m, rest) {
            assert(record_merged(pool, info, wt, s, rest, value_in(b, number), m[number], true, depth));
        }
    }
}

/// A record of a number of no field or extension whose bytes cannot be
/// read as an unknown field cannot be merged into the message.
proof fn lemma_step_unreadable_unknown(
    pool: crate::descriptor::DescriptorPoolInner,
    mi: int,
    number: u32,
    wt: WireType,
    s: Seq<u8>,
    depth: nat,
)
    requires
        record_info(pool, mi, number) is None,
        spec_unknown_len(wt, number, s, depth) is None,
    ensures
        step_unreadable(pool, mi, number, wt, s, depth),
{
    assert forall|b: Map<u32, ValueOrUnknown>, m: Map<u32, ValueOrUnknown>, rest: Seq<u8>|
        !#[trigger] record_step(pool, mi, b, number, wt, s, depth, m, rest) by {}
}

/// Records whose first key cannot be read cannot be merged.
proof fn lemma_records_unreadable_key(pool: crate::descriptor::DescriptorPoolInner, mi: int, s: Seq<u8>, depth: nat)
    requires
        s.len() > 0,
        spec_decode_key(s) is None,
    ensures
        records_unreadable(pool, mi, s, depth),
{
    assert forall|b: Map<u32, ValueOrUnknown>, a: Map<u32, ValueOrUnknown>|
        !#[trigger] records_merged(pool, mi, b, s, depth, a) by {}
}

/// Records whose first record cannot be merged cannot be merged.
proof fn lemma_records_unreadable_step(
    pool: crate::descriptor::DescriptorPoolInner,
    mi: int,
    s: Seq<u8>,
    depth: nat,
    number: u32,
    wt: WireType,
    k: nat,
)
    requires
        s.len() > 0,
        spec_decode_key(s) == Some((number, wt, k)),
        step_unreadable(pool, mi, number, wt, s.skip(k as int), depth),
    ensures
        records_unreadable(pool, mi, s, depth),
{
    assert forall|b: Map<u32, ValueOrUnknown>, a: Map<u32, ValueOrUnknown>|
        !#[trigger] records_merged(pool, mi, b, s, depth, a) by {
        if records_merged(pool, mi, b, s, depth, a) {
            let (m1, r1) = choose|m1: Map<u32, ValueOrUnknown>, r1: Seq<u8>|
                #![trigger merge_point(m1, r1)]
                merge_point(m1, r1) && r1.len() < s.len() && record_step(
                    pool,
                    mi,
                    b,
                    number,
                    wt,
                    s.skip(k as int),
                    depth,
                    m1,
                    r1,
                ) && records_merged(pool, mi, m1, r1, depth, a);
            assert(record_step(pool, mi, b, number, wt, s.skip(k as int), depth, m1, r1));
        }
    }
}

/// Records whose first record merges, leaving records that cannot be
/// merged, cannot be merged.
proof fn lemma_records_unreadable_back(
    pool: crate::descriptor::DescriptorPoolInner,
    mi: int,
    s: Seq<u8>,
    depth: nat,
    number: u32,
    wt: WireType,
    k: nat,
    b_step: Map<u32, ValueOrUnknown>,
    mid: Map<u32, ValueOrUnknown>,
    rest: Seq<u8>,
)
    requires
        s.len() > 0,
        spec_decode_key(s) == Some((number, wt, k)),
        record_step(pool, mi, b_step, number, wt, s.skip(k as int), depth, mid, rest),
        records_unreadable(pool, mi, rest, depth),
    ensures
        records_unreadable(pool, mi, s, depth),
{
    assert forall|b: Map<u32, ValueOrUnknown>, a: Map<u32, ValueOrUnknown>|
        !#[trigger] records_merged(pool, mi, b, s, depth, a) by {
        if records_merged(pool, mi, b, s, depth, a) {
            let m = lemma_records_peel(pool, mi, b, s, depth, a, number, wt, k, b_step, mid, rest);
            assert(records_merged(pool, mi, m, rest, depth, a));
        }
    }
}

/// A group whose first key cannot be read, or is the end of another
/// group, cannot be merged.
proof fn lemma_group_unreadable_key(
    pool: crate::descriptor::DescriptorPoolInner,
    mi: int,
    tag: u32,
    s: Seq<u8>,
    depth: nat,
)
    requires
        spec_decode_key(s) matches Some((number, wt, k)) ==> wt == WireType::EndGroup && number != tag,
    ensures
        group_unreadable(pool, mi, tag, s, depth),
{
    assert forall|b: Map<u32, ValueOrUnknown>, a: Map<u32, ValueOrUnknown>, c: nat|
        !#[trigger] group_merged(pool, mi, b, tag, s, depth, a, c) by {}
}

/// A group whose first record cannot be merged cannot be merged.
proof fn lemma_group_unreadable_step(
    pool: crate::descriptor::DescriptorPoolInner,
    mi: int,
    tag: u32,
    s: Seq<u8>,
    depth: nat,
    number: u32,
    wt: WireType,
    k: nat,
)
    requires
        spec_decode_key(s) == Some((number, wt, k)),
        wt != WireType::EndGroup,
        step_unreadable(pool, mi, number, wt, s.skip(k as int), depth),
    ensures
        group_unreadable(pool, mi, tag, s, depth),
{
    assert forall|b: Map<u32, ValueOrUnknown>, a: Map<u32, ValueOrUnknown>, c: nat|
        !#[trigger] group_merged(pool, mi, b, tag, s, depth, a, c) by {
        if group_merged(pool, mi, b, tag, s, depth, a, c) {
            let (m1, r1, c1) = choose|m1: Map<u32, ValueOrUnknown>, r1: Seq<u8>, c1: nat|
                #![trigger group_point(m1, r1, c1)]
                group_point(m1, r1, c1) && r1.len() < s.len() && record_step(
                    pool,
                    mi,
                    b,
                    number,
                    wt,
                    s.skip(k as int),
                    depth,
                    m1,
                    r1,
                ) && group_merged(pool, mi, m1, tag, r1, depth, a, c1) && c == (s.len() - r1.len()) + c1;
            assert(record_step(pool, mi, b, number, wt, s.skip(k as int), depth, m1, r1));
        }
    }
}

/// A group whose first record merges, leaving a rest that cannot be
/// merged, cannot be merged.
proof fn lemma_group_unreadable_back(
    pool: crate::descriptor::DescriptorPoolInner,
    mi: int,
    tag: u32,
    s: Seq<u8>,
    depth: nat,
    number: u32,
    wt: WireType,
    k: nat,
    b_step: Map<u32, ValueOrUnknown>,
    mid: Map<u32, ValueOrUnknown>,
    rest: Seq<u8>,
)
    requires
        spec_decode_key(s) == Some((number, wt, k)),
        wt != WireType::EndGroup,
        record_step(pool, mi, b_step, number, wt, s.skip(k as int), depth, mid, rest),
        group_unreadable(pool, mi, tag, rest, depth),
    ensures
        group_unreadable(pool, mi, tag, s, depth),
{
    assert forall|b: Map<u32, ValueOrUnknown>, a: Map<u32, ValueOrUnknown>, c: nat|
        !#[trigger] group_merged(pool, mi, b, tag, s, depth, a, c) by {
        if group_merged(pool, mi, b, tag, s, depth, a, c) {
            let r = lemma_group_peel(pool, mi, b, tag, s, depth, a, c, number, wt, k, b_step, mid, rest);
            assert(group_merged(pool, mi, r.0, tag, rest, depth, a, r.1));
        }
    }
}

/// Map entry records whose first key cannot be read cannot be read.
proof fn lemma_entry_unreadable_key(
    pool: crate::descriptor::DescriptorPoolInner,
    ki: crate::descriptor::FieldInfo,
    vi: crate::descriptor::FieldInfo,
    s: Seq<u8>,
    depth: nat,
)
    requires
        s.len() > 0,
        spec_decode_key(s) is None,
    ensures
        entry_unreadable(pool, ki, vi, s, depth),
{
    assert forall|k0: MapKey, v0: Value, k: MapKey, v: Value|
        !#[trigger] entry_merged(pool, ki, vi, k0, v0, s, depth, k, v) by {}
}

/// Map entry records whose first record cannot be read cannot be read.
proof fn lemma_entry_unreadable_step(
    pool: crate::descriptor::DescriptorPoolInner,
    ki: crate::descriptor::FieldInfo,
    vi: crate::descriptor::FieldInfo,
    s: Seq<u8>,
    depth: nat,
    number: u32,
    wt: WireType,
    n: nat,
)
    requires
        s.len() > 0,
        spec_decode_key(s) == Some((number, wt, n)),
        entry_step_unreadable(pool, ki, vi, number, wt, s.skip(n as int), depth),
    ensures
        entry_unreadable(pool, ki, vi, s, depth),
{
    assert forall|k0: MapKey, v0: Value, k1: MapKey, v1: Value|
        !#[trigger] entry_merged(pool, ki, vi, k0, v0, s, depth, k1, v1) by {
        if entry_merged(pool, ki, vi, k0, v0, s, depth, k1, v1) {
            let (ka, va, ra) = choose|ka: MapKey, va: Value, ra: Seq<u8>|
                #![trigger entry_point(ka, va, ra)]
                entry_point(ka, va, ra) && ra.len() < s.len() && entry_step(
                    pool,
                    ki,
                    vi,
                    k0,
                    v0,
                    number,
                    wt,
                    s.skip(n as int),
                    depth,
                    ka,
                    va,
                    ra,
                ) && entry_merged(pool, ki, vi, ka, va, ra, depth, k1, v1);
            assert(entry_step(pool, ki, vi, k0, v0, number, wt, s.skip(n as int), depth, ka, va, ra));
        }
    }
}

/// Map entry records whose first record reads, leaving records that
/// cannot be read, cannot be read.
proof fn lemma_entry_unreadable_back(
    pool: crate::descriptor::DescriptorPoolInner,
    ki: crate::descriptor::FieldInfo,
    vi: crate::descriptor::FieldInfo,
    s: Seq<u8>,
    depth: nat,
    number: u32,
    wt: WireType,
    n: nat,
    kb: MapKey,
    vb: Value,
    k: MapKey,
    v: Value,
    rest: Seq<u8>,
)
    requires
        s.len() > 0,
        spec_decode_key(s) == Some((number, wt, n)),
        entry_step(pool, ki, vi, kb, vb, number, wt, s.skip(n as int), depth, k, v, rest),
        entry_unreadable(pool, ki, vi, rest, depth),
    ensures
        entry_unreadable(pool, ki, vi, s, depth),
{
    assert forall|k0: MapKey, v0: Value, k1: MapKey, v1: Value|
        !#[trigger] entry_merged(pool, ki, vi, k0, v0, s, depth, k1, v1) by {
        if entry_merged(pool, ki, vi, k0, v0, s, depth, k1, v1) {
            let r = lemma_entry_peel(pool, ki, vi, k0, v0, s, depth, k1, v1, number, wt, n, kb, vb, k, v, rest);
            assert(entry_merged(pool, ki, vi, r.0, r.1, rest, depth, k1, v1));
        }
    }
}

/// A run of records that can be merged, whose first record merges as
/// (`mid`, `rest`) shows, can be merged from `rest` on.
proof fn lemma_records_peel(
    pool: crate::descriptor::DescriptorPoolInner,
    mi: int,
    b: Map<u32, ValueOrUnknown>,
    s: Seq<u8>,
    depth: nat,
    a: Map<u32, ValueOrUnknown>,
    number: u32,
    wt: WireType,
    k: nat,
    b_step: Map<u32, ValueOrUnknown>,
    mid: Map<u32, ValueOrUnknown>,
    rest: Seq<u8>,
) -> (m: Map<u32, ValueOrUnknown>)
    requires
        records_merged(pool, mi, b, s, depth, a),
        s.len() > 0,
        spec_decode_key(s) == Some((number, wt, k)),
        record_step(pool, mi, b_step, number, wt, s.skip(k as int), depth, mid, rest),
    ensures
        records_merged(pool, mi, m, rest, depth, a),
{
    let (m1, r1) = choose|m1: Map<u32, ValueOrUnknown>, r1: Seq<u8>|
        #![trigger merge_point(m1, r1)]
        merge_point(m1, r1) && r1.len() < s.len() && record_step(pool, mi, b, number, wt, s.skip(k as int), depth, m1, r1)
            && records_merged(pool, mi, m1, r1, depth, a);
    lemma_record_step_rest(pool, mi, b, b_step, number, wt, s.skip(k as int), depth, m1, r1, mid, rest);
    m1
}

/// A group that can be merged, whose first record (not its end) merges as
/// (`mid`, `rest`) shows, can be merged from `rest` on.
proof fn lemma_group_peel(
    pool: crate::descriptor::DescriptorPoolInner,
    mi: int,
    b: Map<u32, ValueOrUnknown>,
    tag: u32,
    s: Seq<u8>,
    depth: nat,
    a: Map<u32, ValueOrUnknown>,
    c: nat,
    number: u32,
    wt: WireType,
    k: nat,
    b_step: Map<u32, ValueOrUnknown>,
    mid: Map<u32, ValueOrUnknown>,
    rest: Seq<u8>,
) -> (r: (Map<u32, ValueOrUnknown>, nat))
    requires
        group_merged(pool, mi, b, tag, s, depth, a, c),
        spec_decode_key(s) == Some((number, wt, k)),
        wt != WireType::EndGroup,
        record_step(pool, mi, b_step, number, wt, s.skip(k as int), depth, mid, rest),
    ensures
        group_merged(pool, mi, r.0, tag, rest, depth, a, r.1),
{
    let (m1, r1, c1) = choose|m1: Map<u32, ValueOrUnknown>, r1: Seq<u8>, c1: nat|
        #![trigger group_point(m1, r1, c1)]
        group_point(m1, r1, c1) && r1.len() < s.len() && record_step(
            pool,
            mi,
            b,
            number,
            wt,
            s.skip(k as int),
            depth,
            m1,
            r1,
        ) && group_merged(pool, mi, m1, tag, r1, depth, a, c1) && c == (s.len() - r1.len()) + c1;
    lemma_record_step_rest(pool, mi, b, b_step, number, wt, s.skip(k as int), depth, m1, r1, mid, rest);
    (m1, c1)
}

/// A map entry's record step leaves bytes that the bytes alone fix.
proof fn lemma_entry_step_rest(
    pool: crate::descriptor::DescriptorPoolInner,
    ki: crate::descriptor::FieldInfo,
    vi: crate::descriptor::FieldInfo,
    k0: MapKey,
    v0: Value,
    k0b: MapKey,
    v0b: Value,
    number: u32,
    wt: WireType,
    s: Seq<u8>,
    depth: nat,
    k1: MapKey,
    v1: Value,
    r1: Seq<u8>,
    k2: MapKey,
    v2: Value,
    r2: Seq<u8>,
)
    requires
        entry_step(pool, ki, vi, k0, v0, number, wt, s, depth, k1, v1, r1),
        entry_step(pool, ki, vi, k0b, v0b, number, wt, s, depth, k2, v2, r2),
    ensures
        r1 == r2,
{
    if number == MAP_ENTRY_VALUE_NUMBER {
        lemma_record_merged_rest(
            pool,
            vi,
            wt,
            s,
            depth,
            r1,
            Some(v0),
            ValueOrUnknown::Value(v1),
            r2,
            Some(v0b),
            ValueOrUnknown::Value(v2),
        );
    }
}

/// Map entry records that can be read, whose first record reads as
/// (`k`, `v`, `rest`) shows, can be read from `rest` on.
proof fn lemma_entry_peel(
    pool: crate::descriptor::DescriptorPoolInner,
    ki: crate::descriptor::FieldInfo,
    vi: crate::descriptor::FieldInfo,
    k0: MapKey,
    v0: Value,
    s: Seq<u8>,
    depth: nat,
    k1: MapKey,
    v1: Value,
    number: u32,
    wt: WireType,
    n: nat,
    kb: MapKey,
    vb: Value,
    k: MapKey,
    v: Value,
    rest: Seq<u8>,
) -> (r: (MapKey, Value))
    requires
        entry_merged(pool, ki, vi, k0, v0, s, depth, k1, v1),
        s.len() > 0,
        spec_decode_key(s) == Some((number, wt, n)),
        entry_step(pool, ki, vi, kb, vb, number, wt, s.skip(n as int), depth, k, v, rest),
    ensures
        entry_merged(pool, ki, vi, r.0, r.1, rest, depth, k1, v1),
{
    let (ka, va, ra) = choose|ka: MapKey, va: Value, ra: Seq<u8>|
        #![trigger entry_point(ka, va, ra)]
        entry_point(ka, va, ra) && ra.len() < s.len() && entry_step(
            pool,
            ki,
            vi,
            k0,
            v0,
            number,
            wt,
            s.skip(n as int),
            depth,
            ka,
            va,
            ra,
        ) && entry_merged(pool, ki, vi, ka, va, ra, depth, k1, v1);
    lemma_entry_step_rest(pool, ki, vi, k0, v0, kb, vb, number, wt, s.skip(n as int), depth, ka, va, ra, k, v, rest);
    (ka, va)
}

/// A state of the slots inside a group, the bytes left there, and the
/// bytes the rest of the group takes.
pub open spec fn group_point(slots: Map<u32, ValueOrUnknown>, rest: Seq<u8>, consumed: nat) -> bool {
    true
}

/// The bytes a group record takes.
pub open spec fn group_extent(consumed: nat) -> bool {
    true
}

/// A state of the slots between two records, and the bytes left there.
pub open spec fn merge_point(slots: Map<u32, ValueOrUnknown>, rest: Seq<u8>) -> bool {
    true
}

/// Whether merging the records of `s`, one after another in order, can
/// take the slots of message `mi` from `before` to `after`, each record
/// merged as `record_step` states, with at most `depth` messages entered.
pub open spec fn records_merged(
    pool: crate::descriptor::DescriptorPoolInner,
    mi: int,
    before: Map<u32, ValueOrUnknown>,
    s: Seq<u8>,
    depth: nat,
    after: Map<u32, ValueOrUnknown>,
) -> bool
    decreases depth, s.len(), 3nat,
{
    if s.len() == 0 {
        after == before
    } else {
        match spec_decode_key(s) {
            Some((number, wt, k)) => {
                &&& 1 <= k <= s.len()
                &&& exists|mid: Map<u32, ValueOrUnknown>, rest: Seq<u8>|
                    #![trigger merge_point(mid, rest)]
                    merge_point(mid, rest) && rest.len() < s.len() && record_step(
                        pool,
                        mi,
                        before,
                        number,
                        wt,
                        s.skip(k as int),
                        depth,
                        mid,
                        rest,
                    ) && records_merged(pool, mi, mid, rest, depth, after)
            },
            None => false,
        }
    }
}

impl DynamicMessage {
    /// Merges a length-delimited message record into the message: the
    /// record's fields, one level deeper (`prost`'s message merge).
    #[verifier::loop_isolation(false)]
    fn merge_length_delimited(&mut self, wire_type: WireType, buf: &mut &[u8], depth: u32) -> (r: Result<
        (),
        WireError,
    >)
        requires
            old(self).wf(),
        ensures
            final(self).wf(),
            final(self).spec_desc() == old(self).spec_desc(),
            r is Ok ==> read_prefix(old(buf)@, final(buf)@),
            match spec_wire_payload(wire_type, old(buf)@) {
                Some((payload, n)) => if depth == 0 {
                    r is Err
                } else {
                    r is Ok ==> records_merged(
                        old(self).spec_pool(),
                        old(self).spec_desc().spec_index() as int,
                        old(self).spec_map(),
                        payload,
                        (depth - 1) as nat,
                        final(self).spec_map(),
                    ) && final(buf)@ == old(buf)@.skip(n as int)
                },
                None => r is Err,
            },
            r is Err ==> match spec_wire_payload(wire_type, old(buf)@) {
                Some((payload, n)) => depth == 0 || records_unreadable(
                    old(self).spec_pool(),
                    old(self).spec_desc().spec_index() as int,
                    payload,
                    (depth - 1) as nat,
                ),
                None => true,
            },
            r is Err ==> match spec_wire_payload(wire_type, old(buf)@) {
                Some((payload, n)) => depth == 0 || !records_ok(
                    old(self).spec_pool(),
                    old(self).spec_desc().spec_index() as int,
                    payload,
                    (depth - 1) as nat,
                ),
                None => true,
            },
        decreases depth, old(buf)@.len(), 0nat,
    {
        if wire_type != WireType::LengthDelimited {
            return Err(WireError::UnexpectedWireType);
        }
        if depth == 0 {
            return Err(WireError::RecursionLimitReached);
        }
        let ghost start = buf@;
        proof {
            if spec_decode_varint(buf@) is Some {
                lemma_decode_varint_bounds(buf@);
            }
        }
        let len = match decode_varint(buf) {
            Ok(len) => len,
            Err(e) => {
                return Err(WireError::Wire(e));
            },
        };
        if len > buf.len() as u64 {
            return Err(WireError::BufferUnderflow);
        }
        let ghost n0 = (start.len() - buf@.len()) as nat;
        let (sub0, rest) = buf.split_at(len as usize);
        proof {
            lemma_split(start, n0, len as nat);
        }
        let mut sub = sub0;
        let ghost desc = self.spec_desc();
        let ghost pool = self.spec_pool();
        let ghost mi = self.spec_desc().spec_index() as int;
        let ghost start_map = self.spec_map();
        let ghost payload = sub0@;
        let ghost d = (depth - 1) as nat;
        while sub.len() > 0
            invariant
                self.wf(),
                self.spec_desc() == desc,
                pool == self.spec_pool(),
                depth > 0,
                d == (depth - 1) as nat,
                forall|after: Map<u32, ValueOrUnknown>| #[trigger]
                    records_merged(pool, mi, self.spec_map(), sub@, d, after) ==> records_merged(
                        pool,
                        mi,
                        start_map,
                        payload,
                        d,
                        after,
                    ),
                records_unreadable(pool, mi, sub@, d) ==> records_unreadable(pool, mi, payload, d),
                records_ok(pool, mi, payload, d) ==> records_ok(pool, mi, sub@, d),
            decreases sub@.len(),
        {
            let ghost r0 = sub@;
            let ghost cur = self.spec_map();
            proof {
                if spec_decode_key(sub@) is Some {
                    lemma_decode_key_bounds(sub@);
                }
            }
            let (tag, field_wire_type) = match decode_key(&mut sub) {
                Ok(key) => key,
                Err(e) => {
                    proof {
                        lemma_records_unreadable_key(pool, mi, r0, d);
                    }
                    return Err(WireError::Wire(e));
                },
            };
            let ghost k = (r0.len() - sub@.len()) as nat;
            proof {
                assert(spec_decode_key(r0) == Some((tag, field_wire_type, k)));
                assert(sub@ == r0.skip(k as int));
            }
            match self.merge_field(tag, field_wire_type, &mut sub, depth - 1) {
                Ok(()) => {},
                Err(e) => {
                    proof {
                        lemma_records_unreadable_step(pool, mi, r0, d, tag, field_wire_type, k);
                    }
                    return Err(e);
                },
            }
            proof {
                let new = self.spec_map();
                let r2 = sub@;
                assert(record_step(pool, mi, cur, tag, field_wire_type, r0.skip(k as int), d, new, r2));
                if records_unreadable(pool, mi, r2, d) {
                    lemma_records_unreadable_back(pool, mi, r0, d, tag, field_wire_type, k, cur, new, r2);
                }
                lemma_len_of_record_step(pool, mi, cur, tag, field_wire_type, r0.skip(k as int), d, new, r2);
                assert(r0.skip((k + (r0.skip(k as int).len() - r2.len())) as int) =~= r2);
                assert forall|after: Map<u32, ValueOrUnknown>| #[trigger]
                    records_merged(pool, mi, new, r2, d, after) implies records_merged(
                    pool,
                    mi,
                    start_map,
                    payload,
                    d,
                    after,
                ) by {
                    assert(r2.len() < r0.len());
                    assert(merge_point(new, r2));
                    assert(records_merged(pool, mi, cur, r0, d, after));
                }
            }
        }
        proof {
            assert(records_merged(pool, mi, self.spec_map(), sub@, d, self.spec_map()));
        }
        *buf = rest;
        Ok(())
    }

    /// Merges a group record into the message: the fields up to the
    /// group's end key, one level deeper (`prost`'s group merge).
    #[verifier::loop_isolation(false)]
    fn merge_group(&mut self, tag: u32, wire_type: WireType, buf: &mut &[u8], depth: u32) -> (r: Result<
        (),
        WireError,
    >)
        requires
            old(self).wf(),
        ensures
            final(self).wf(),
            final(self).spec_desc() == old(self).spec_desc(),
            r is Ok ==> read_prefix(old(buf)@, final(buf)@),
            if wire_type != WireType::StartGroup || depth == 0 {
                r is Err
            } else {
                r is Ok ==> exists|c: nat|
                    #![trigger group_extent(c)]
                    group_extent(c) && group_merged(
                        old(self).spec_pool(),
                        old(self).spec_desc().spec_index() as int,
                        old(self).spec_map(),
                        tag,
                        old(buf)@,
                        (depth - 1) as nat,
                        final(self).spec_map(),
                        c,
                    ) && c <= old(buf)@.len() && final(buf)@ == old(buf)@.skip(c as int)
            },
            r is Err ==> wire_type != WireType::StartGroup || depth == 0 || group_unreadable(
                old(self).spec_pool(),
                old(self).spec_desc().spec_index() as int,
                tag,
                old(buf)@,
                (depth - 1) as nat,
            ),
            r is Err ==> wire_type != WireType::StartGroup || depth == 0 || group_len(
                old(self).spec_pool(),
                old(self).spec_desc().spec_index() as int,
                tag,
                old(buf)@,
                (depth - 1) as nat,
            ) is None,
        decreases depth, old(buf)@.len(), 0nat,
    {
        if wire_type != WireType::StartGroup {
            return Err(WireError::UnexpectedWireType);
        }
        if depth == 0 {
            return Err(WireError::RecursionLimitReached);
        }
        let ghost start = buf@;
        let ghost desc = self.spec_desc();
        let ghost pool = self.spec_pool();
        let ghost mi = self.spec_desc().spec_index() as int;
        let ghost start_map = self.spec_map();
        let ghost d = (depth - 1) as nat;
        proof {
            assert(start.skip(0) == start);
        }
        loop
            invariant
                self.wf(),
                self.spec_desc() == desc,
                pool == self.spec_pool(),
                depth > 0,
                d == (depth - 1) as nat,
                read_prefix(start, buf@),
                start == old(buf)@,
                forall|after: Map<u32, ValueOrUnknown>, c: nat| #[trigger]
                    group_merged(pool, mi, self.spec_map(), tag, buf@, d, after, c) ==> group_merged(
                        pool,
                        mi,
                        start_map,
                        tag,
                        start,
                        d,
                        after,
                        (c + (start.len() - buf@.len())) as nat,
                    ),
                group_unreadable(pool, mi, tag, buf@, d) ==> group_unreadable(pool, mi, tag, start, d),
                group_len(pool, mi, tag, start, d) is Some ==> group_len(pool, mi, tag, buf@, d) is Some,
            decreases buf@.len(),
        {
            let ghost before = buf@;
            let ghost cur = self.spec_map();
            proof {
                if spec_decode_key(buf@) is Some {
                    lemma_decode_key_bounds(buf@);
                }
            }
            let (field_tag, field_wire_type) = match decode_key(buf) {
                Ok(key) => key,
                Err(e) => {
                    proof {
                        lemma_group_unreadable_key(pool, mi, tag, before, d);
                    }
                    return Err(WireError::Wire(e));
                },
            };
            let ghost k = (before.len() - buf@.len()) as nat;
            proof {
                lemma_read_prefix_trans(start, before, buf@);
                assert(spec_decode_key(before) == Some((field_tag, field_wire_type, k)));
            }
            if field_wire_type == WireType::EndGroup {
                if field_tag != tag {
                    proof {
                        lemma_group_unreadable_key(pool, mi, tag, before, d);
                    }
                    return Err(WireError::UnexpectedEndGroupTag);
                }
                proof {
                    assert(group_merged(pool, mi, cur, tag, before, d, cur, k));
                    let c = (k + (start.len() - before.len())) as nat;
                    assert(group_merged(pool, mi, start_map, tag, start, d, cur, c));
                    assert(c == start.len() - buf@.len());
                    assert(buf@ == start.skip(c as int));
                    assert(group_extent(c));
                }
                return Ok(());
            }
            let ghost mid = buf@;
            proof {
                assert(mid == before.skip(k as int));
            }
            match self.merge_field(field_tag, field_wire_type, buf, depth - 1) {
                Ok(()) => {},
                Err(e) => {
                    proof {
                        lemma_group_unreadable_step(pool, mi, tag, before, d, field_tag, field_wire_type, k);
                    }
                    return Err(e);
                },
            }
            proof {
                lemma_read_prefix_trans(start, mid, buf@);
                let new = self.spec_map();
                let r2 = buf@;
                assert(record_step(pool, mi, cur, field_tag, field_wire_type, before.skip(k as int), d, new, r2));
                lemma_len_of_record_step(pool, mi, cur, field_tag, field_wire_type, before.skip(k as int), d, new, r2);
                assert(before.skip((k + (before.skip(k as int).len() - r2.len())) as int) =~= r2);
                if group_unreadable(pool, mi, tag, r2, d) {
                    lemma_group_unreadable_back(pool, mi, tag, before, d, field_tag, field_wire_type, k, cur, new, r2);
                }
                assert forall|after: Map<u32, ValueOrUnknown>, c: nat| #[trigger]
                    group_merged(pool, mi, new, tag, r2, d, after, c) implies group_merged(
                    pool,
                    mi,
                    start_map,
                    tag,
                    start,
                    d,
                    after,
                    (c + (start.len() - r2.len())) as nat,
                ) by {
                    assert(r2.len() < before.len());
                    assert(group_point(new, r2, c));
                    let c1 = ((before.len() - r2.len()) + c) as nat;
                    assert(group_merged(pool, mi, cur, tag, before, d, after, c1));
                }
            }
        }
    }

    /// Merges one field record, whose key (`number`, `wire_type`) has been
    /// read, into the message: into the field of that number (the other
    /// members of its oneof are cleared, and an absent field starts from
    /// its default), else into the extension of that number, else as an
    /// unknown field. Messages nest at most `depth` levels deeper.
    pub fn merge_field(&mut self, number: u32, wire_type: WireType, buf: &mut &[u8], depth: u32) -> (r: Result<
        (),
        WireError,
    >)
        requires
            old(self).wf(),
            valid_tag(number as nat),
        ensures
            final(self).wf(),
            final(self).spec_desc() == old(self).spec_desc(),
            r is Ok ==> read_prefix(old(buf)@, final(buf)@),
            final(self).spec_map().remove_keys(
                merge_siblings(old(self).spec_pool(), old(self).spec_desc().spec_index() as int, number),
            ).remove(number) == old(self).spec_map().remove_keys(
                merge_siblings(old(self).spec_pool(), old(self).spec_desc().spec_index() as int, number),
            ).remove(number),
            forall|k: u32|
                #[trigger] merge_siblings(old(self).spec_pool(), old(self).spec_desc().spec_index() as int, number).contains(
                    k,
                ) ==> !final(self).spec_map().dom().contains(k),
            (old(self).spec_pool().field_index(old(self).spec_desc().spec_index() as int, number) is Some
                || old(self).spec_pool().extension_of(old(self).spec_desc().spec_index() as int, number) is Some)
                ==> final(self).spec_map().dom().contains(number) && final(self).spec_map()[number] is Value,
            match record_info(old(self).spec_pool(), old(self).spec_desc().spec_index() as int, number) {
                Some(info) => record_merged(
                    old(self).spec_pool(),
                    info,
                    wire_type,
                    old(buf)@,
                    final(buf)@,
                    value_in(old(self).spec_map(), number),
                    final(self).spec_map()[number],
                    r is Ok,
                    depth as nat,
                ),
                None => match spec_unknown_len(wire_type, number, old(buf)@, depth as nat) {
                    Some(n) => {
                        &&& r is Ok
                        &&& final(buf)@ == old(buf)@.skip(n as int)
                        &&& final(self).spec_map()[number] is Unknown
                        &&& unknown_value_read(
                            final(self).spec_map()[number]->Unknown_0.fields@.last().value,
                            wire_type,
                            number,
                            old(buf)@,
                            depth as nat,
                        )
                    },
                    None => r is Err,
                },
            },
            (old(self).spec_pool().field_index(old(self).spec_desc().spec_index() as int, number) is None
                && old(self).spec_pool().extension_of(old(self).spec_desc().spec_index() as int, number) is None
                && r is Ok) ==> {
                &&& final(self).spec_map().dom().contains(number)
                &&& final(self).spec_map()[number] is Unknown
                &&& final(self).spec_map()[number]->Unknown_0.fields@.len() >= 1
                &&& final(self).spec_map()[number]->Unknown_0.fields@.drop_last() == (if old(self).spec_map().dom().contains(
                    number,
                ) && old(self).spec_map()[number] is Unknown {
                    old(self).spec_map()[number]->Unknown_0.fields@
                } else {
                    Seq::empty()
                })
            },
            r is Ok ==> record_step(
                old(self).spec_pool(),
                old(self).spec_desc().spec_index() as int,
                old(self).spec_map(),
                number,
                wire_type,
                old(buf)@,
                depth as nat,
                final(self).spec_map(),
                final(buf)@,
            ),
            r is Err ==> step_unreadable(
                old(self).spec_pool(),
                old(self).spec_desc().spec_index() as int,
                number,
                wire_type,
                old(buf)@,
                depth as nat,
            ),
            r is Err ==> step_len(
                old(self).spec_pool(),
                old(self).spec_desc().spec_index() as int,
                number,
                wire_type,
                old(buf)@,
                depth as nat,
            ) is None,
        match old(self).spec_pool().field_index(old(self).spec_desc().spec_index() as int, number) {
            Some(f) => match old(self).spec_pool().messages@[old(self).spec_desc().spec_index() as int].fields@[f as int].oneof {
                Some(o) => forall|k: u32|
                    #[trigger] old(self).spec_pool().oneof_numbers(old(self).spec_desc().spec_index() as int, o as int).contains(
                        k,
                    ) && k != number ==> !final(self).spec_map().dom().contains(k),
                None => true,
            },
            None => true,
        },
        decreases depth, old(buf)@.len(), 5nat,
    {
        let ghost before = *self;
        let ghost pool = self.spec_pool();
        let ghost mi = self.desc.index as int;
        proof {
            assert(pool.message_ok(mi));
        }
        match self.desc.field_view(number) {
            Some(view) => {
                let ghost f = pool.field_index(mi, number)->Some_0;
                let siblings = match view.oneof_sibling_numbers(number) {
                    Some(siblings) => siblings,
                    None => Vec::new(),
                };
                proof {
                    let fd = pool.messages@[mi].fields@[f as int];
                    if let Some(o) = fd.oneof {
                        assert(siblings@ == without(pool.oneof_numbers(mi, o as int), number));
                    } else {
                        assert(siblings@ =~= Seq::<u32>::empty());
                        assert(siblings@.to_set() =~= Set::<u32>::empty());
                    }
                    assert(siblings@.to_set() =~= merge_siblings(pool, mi, number));
                }
                self.fields.clear_numbers(&siblings);
                let build = (|| -> (v: Value)
                    requires
                        view.wf(),
                    ensures
                        is_canonical_default(view.spec_pool(), view.spec_info(), v),
                        valid_value(view.spec_pool(), view.spec_info(), v),
                    { rawfield_absent_value(&view) });
                let ghost cleared = self.fields.spec_map();
                let entry = self.fields.decode_entry(number, build);
                proof {
                    if value_in(cleared, number) is Some {
                        let s = before.spec_slots();
                        let j = choose|j: int| 0 <= j < s.len() && s[j].0 == number;
                        lemma_position(s, j);
                        assert(slot_ok(pool, mi, s[j].0, s[j].1));
                    }
                    lemma_encodable_shape(pool, view.spec_info(), *entry);
                }
                let ghost e0 = *entry;
                let r = entry.merge_field(&view, wire_type, buf, depth);
                proof {
                    lemma_encodable_shape(pool, view.spec_info(), *entry);
                    lemma_fields_valid_after(before, *self);
                    let sib = merge_siblings(pool, mi, number);
                    assert(!sib.contains(number));
                    assert(value_in(cleared, number) == value_in(before.spec_map(), number));
                    assert(record_info(pool, mi, number) == Some(view.spec_info()));
                    lemma_record_merged(view.spec_pool(), view.spec_info(), wire_type, old(buf)@, buf@, value_in(
                        before.spec_map(),
                        number,
                    ), e0, *entry, r, depth as nat);
                    assert(!sib.contains(number));
                    assert(self.spec_map().remove_keys(sib).remove(number) =~= before.spec_map().remove_keys(sib).remove(
                        number,
                    ));
                    if r is Err {
                        lemma_step_unreadable_field(pool, mi, number, wire_type, old(buf)@, depth as nat, view.spec_info());
                    }
                    if let Some(o2) = pool.messages@[mi].fields@[f as int].oneof {
                    assert forall|k: u32|
                        #[trigger] pool.oneof_numbers(mi, o2 as int).contains(k) && k != number implies !self.spec_map().dom().contains(
                        k,
                    ) by {
                        let all = pool.oneof_numbers(mi, o2 as int);
                        let pred = |x: u32| x != number;
                        let i = choose|i: int| 0 <= i < all.len() && all[i] == k;
                        all.filter_lemma(pred);
                        assert(all.filter(pred).contains(all[i]));
                        assert(merge_siblings(pool, mi, number).contains(k));
                    }
                    }
                }
                r
            },
            None => match self.desc.get_extension(number) {
                Some(extension) => {
                    let view = extension.view();
                    let build = (|| -> (v: Value)
                        requires
                            view.wf(),
                        ensures
                            is_canonical_default(view.spec_pool(), view.spec_info(), v),
                            valid_value(view.spec_pool(), view.spec_info(), v),
                        { rawfield_absent_value(&view) });
                    let entry = self.fields.decode_entry(number, build);
                    proof {
                        lemma_extension_not_field(pool, mi, number);
                        if value_in(before.spec_map(), number) is Some {
                            let s = before.spec_slots();
                            let j = choose|j: int| 0 <= j < s.len() && s[j].0 == number;
                            lemma_position(s, j);
                            assert(slot_ok(pool, mi, s[j].0, s[j].1));
                        }
                        lemma_encodable_shape(pool, view.spec_info(), *entry);
                    }
                    let ghost e0 = *entry;
                    let r = entry.merge_field(&view, wire_type, buf, depth);
                    proof {
                        lemma_encodable_shape(pool, view.spec_info(), *entry);
                        lemma_fields_valid_after(before, *self);
                        assert(record_info(pool, mi, number) == Some(view.spec_info()));
                        lemma_record_merged(view.spec_pool(), view.spec_info(), wire_type, old(buf)@, buf@, value_in(
                            before.spec_map(),
                            number,
                        ), e0, *entry, r, depth as nat);
                        assert(merge_siblings(pool, mi, number) =~= Set::<u32>::empty());
                        assert(self.spec_map().remove_keys(Set::<u32>::empty()).remove(number) =~= before.spec_map().remove_keys(
                            Set::<u32>::empty(),
                        ).remove(number));
                        if r is Err {
                            lemma_step_unreadable_field(pool, mi, number, wire_type, old(buf)@, depth as nat, view.spec_info());
                        }
                    }
                    r
                },
                None => {
                    proof {
                        if value_in(before.spec_map(), number) is Some {
                            let s = before.spec_slots();
                            let j = choose|j: int| 0 <= j < s.len() && s[j].0 == number;
                            lemma_position(s, j);
                            assert(slot_ok(pool, mi, s[j].0, s[j].1));
                        }
                    }
                    let field = match UnknownField::decode_value(number, wire_type, buf, depth) {
                        Ok(field) => field,
                        Err(e) => {
                            proof {
                                lemma_step_unreadable_unknown(pool, mi, number, wire_type, old(buf)@, depth as nat);
                            }
                            return Err(e);
                        },
                    };
                    self.fields.add_unknown(number, field);
                    proof {
                        let u = self.spec_map()[number]->Unknown_0;
                        assert(u.fields@.drop_last().push(field) == u.fields@);
                        if before.spec_map().dom().contains(number) && before.spec_map()[number] is Unknown {
                            let s = before.spec_slots();
                            let j = choose|j: int| 0 <= j < s.len() && s[j].0 == number;
                            lemma_position(s, j);
                            assert(slot_ok(pool, mi, s[j].0, s[j].1));
                        }
                        assert(u.fields@.drop_last() == (if before.spec_map().dom().contains(number)
                            && before.spec_map()[number] is Unknown {
                            before.spec_map()[number]->Unknown_0.fields@
                        } else {
                            Seq::empty()
                        }));
                        assert(u.fields@.last() == field);
                        assert(fields_wf(u.fields@.drop_last()));
                        assert(fields_wf(u.fields@));
                        assert(u.wf_for(number));
                        assert forall|n: u32| #[trigger]
                            self.spec_map().dom().contains(n) implies (before.spec_map().dom().contains(n)
                                && self.spec_map()[n] == before.spec_map()[n]) || slot_ok(
                                self.spec_pool(),
                                self.desc.index as int,
                                n,
                                self.spec_map()[n],
                            ) by {
                            if n != number {
                                assert(self.spec_map().remove(number).dom().contains(n));
                                assert(before.spec_map().remove(number).dom().contains(n));
                                assert(self.spec_map()[n] == self.spec_map().remove(number)[n]);
                                assert(before.spec_map()[n] == before.spec_map().remove(number)[n]);
                            }
                        }
                        lemma_fields_valid_after(before, *self);
                        assert(merge_siblings(pool, mi, number) =~= Set::<u32>::empty());
                        assert(self.spec_map().remove_keys(Set::<u32>::empty()) =~= self.spec_map());
                        assert(before.spec_map().remove_keys(Set::<u32>::empty()) =~= before.spec_map());
                    }
                    Ok(())
                },
            },
        }
    }

    /// Merges every record of `buf` into the message, in order.
    #[verifier::loop_isolation(false)]
    pub fn merge(&mut self, buf: &[u8]) -> (r: Result<(), WireError>)
        requires
            old(self).wf(),
        ensures
            final(self).wf(),
            final(self).spec_desc() == old(self).spec_desc(),
            buf@.len() == 0 ==> r is Ok && *final(self) == *old(self),
            r is Ok ==> records_merged(
                old(self).spec_pool(),
                old(self).spec_desc().spec_index() as int,
                old(self).spec_map(),
                buf@,
                RECURSION_LIMIT as nat,
                final(self).spec_map(),
            ),
            r is Err ==> records_unreadable(
                old(self).spec_pool(),
                old(self).spec_desc().spec_index() as int,
                buf@,
                RECURSION_LIMIT as nat,
            ),
            r is Err ==> !records_ok(
                old(self).spec_pool(),
                old(self).spec_desc().spec_index() as int,
                buf@,
                RECURSION_LIMIT as nat,
            ),
    {
        let mut rest = buf;
        let ghost desc = self.spec_desc();
        let ghost pool = self.spec_pool();
        let ghost mi = self.spec_desc().spec_index() as int;
        let ghost start_map = self.spec_map();
        while rest.len() > 0
            invariant
                self.wf(),
                self.spec_desc() == desc,
                pool == self.spec_pool(),
                rest@.len() <= buf@.len(),
                buf@.len() == 0 ==> *self == *old(self),
                forall|after: Map<u32, ValueOrUnknown>| #[trigger]
                    records_merged(pool, mi, self.spec_map(), rest@, RECURSION_LIMIT as nat, after) ==> records_merged(
                        pool,
                        mi,
                        start_map,
                        buf@,
                        RECURSION_LIMIT as nat,
                        after,
                    ),
                records_unreadable(pool, mi, rest@, RECURSION_LIMIT as nat) ==> records_unreadable(
                    pool,
                    mi,
                    buf@,
                    RECURSION_LIMIT as nat,
                ),
                records_ok(pool, mi, buf@, RECURSION_LIMIT as nat) ==> records_ok(pool, mi, rest@, RECURSION_LIMIT as nat),
            decreases rest@.len(),
        {
            let ghost r0 = rest@;
            let ghost cur = self.spec_map();
            proof {
                if spec_decode_key(rest@) is Some {
                    lemma_decode_key_bounds(rest@);
                }
            }
            let (tag, wire_type) = match decode_key(&mut rest) {
                Ok(key) => key,
                Err(e) => {
                    proof {
                        lemma_records_unreadable_key(pool, mi, r0, RECURSION_LIMIT as nat);
                    }
                    return Err(WireError::Wire(e));
                },
            };
            let ghost k = (r0.len() - rest@.len()) as nat;
            let ghost r1 = rest@;
            proof {
                assert(spec_decode_key(r0) == Some((tag, wire_type, k)));
                assert(r1 == r0.skip(k as int));
            }
            match self.merge_field(tag, wire_type, &mut rest, RECURSION_LIMIT) {
                Ok(()) => {},
                Err(e) => {
                    proof {
                        lemma_records_unreadable_step(pool, mi, r0, RECURSION_LIMIT as nat, tag, wire_type, k);
                    }
                    return Err(e);
                },
            }
            proof {
                let new = self.spec_map();
                let r2 = rest@;
                assert(record_step(pool, mi, cur, tag, wire_type, r0.skip(k as int), RECURSION_LIMIT as nat, new, r2));
                lemma_len_of_record_step(pool, mi, cur, tag, wire_type, r0.skip(k as int), RECURSION_LIMIT as nat, new, r2);
                assert(r0.skip((k + (r0.skip(k as int).len() - r2.len())) as int) =~= r2);
                if records_unreadable(pool, mi, r2, RECURSION_LIMIT as nat) {
                    lemma_records_unreadable_back(
                        pool,
                        mi,
                        r0,
                        RECURSION_LIMIT as nat,
                        tag,
                        wire_type,
                        k,
                        cur,
                        new,
                        r2,
                    );
                }
                assert forall|after: Map<u32, ValueOrUnknown>| #[trigger]
                    records_merged(pool, mi, new, r2, RECURSION_LIMIT as nat, after) implies records_merged(
                    pool,
                    mi,
                    start_map,
                    buf@,
                    RECURSION_LIMIT as nat,
                    after,
                ) by {
                    assert(r2.len() < r0.len());
                    assert(merge_point(new, r2));
                    assert(records_merged(pool, mi, cur, r0, RECURSION_LIMIT as nat, after));
                }
            }
        }
        proof {
            assert(records_merged(pool, mi, self.spec_map(), rest@, RECURSION_LIMIT as nat, self.spec_map()));
        }
        Ok(())
    }

    /// Decodes a message of type `desc` from `buf`.
    pub fn decode(desc: MessageDescriptor, buf: &[u8]) -> (r: Result<DynamicMessage, WireError>)
        requires
            desc.wf(),
        ensures
            r matches Ok(m) ==> m.wf() && m.spec_desc() == desc,
            buf@.len() == 0 ==> (r matches Ok(m) && m.spec_slots().len() == 0),
            r matches Ok(m) ==> records_merged(
                desc.spec_pool().spec_inner(),
                desc.spec_index() as int,
                Map::<u32, ValueOrUnknown>::empty(),
                buf@,
                RECURSION_LIMIT as nat,
                m.spec_map(),
            ),
            r is Err ==> records_unreadable(
                desc.spec_pool().spec_inner(),
                desc.spec_index() as int,
                buf@,
                RECURSION_LIMIT as nat,
            ),
            r is Err ==> !records_ok(desc.spec_pool().spec_inner(), desc.spec_index() as int, buf@, RECURSION_LIMIT as nat),
    {
        let mut message = DynamicMessage::new(desc);
        proof {
            assert(message.spec_map() =~= Map::<u32, ValueOrUnknown>::empty());
        }
        match message.merge(buf) {
            Ok(()) => Ok(message),
            Err(e) => Err(e),
        }
    }
}

} // verus!
