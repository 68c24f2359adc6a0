//! The protobuf wire format: its mathematical description, and the
//! `prost` encoding primitives that write and read it.

use vstd::prelude::*;
use prost::bytes::BufMut;

verus! {

/// The largest field number a protobuf key can carry.
pub const MAX_TAG: u32 = 536_870_911;

/// The wire type of an encoded record.
#[derive(Clone, Copy, Debug, PartialEq, Eq, Structural)]
pub enum WireType {
    Varint,
    SixtyFourBit,
    LengthDelimited,
    StartGroup,
    EndGroup,
    ThirtyTwoBit,
}

impl WireType {
    /// The three-bit code of the wire type in a record key.
    pub open spec fn code(self) -> nat {
        match self {
            WireType::Varint => 0,
            WireType::SixtyFourBit => 1,
            WireType::LengthDelimited => 2,
            WireType::StartGroup => 3,
            WireType::EndGroup => 4,
            WireType::ThirtyTwoBit => 5,
        }
    }
}

/// LEB128: seven bits per byte, least significant group first, the high
/// bit set on every byte but the last.
pub open spec fn spec_varint(v: nat) -> Seq<u8>
    decreases v,
{
    if v < 128 {
        seq![v as u8]
    } else {
        seq![(v % 128 + 128) as u8] + spec_varint(v / 128)
    }
}

/// A record key: the field number shifted past the three wire-type bits.
pub open spec fn spec_key(tag: nat, wire_type: WireType) -> Seq<u8> {
    spec_varint(tag * 8 + wire_type.code())
}

/// Four bytes, least significant first.
pub open spec fn spec_le32(v: u32) -> Seq<u8> {
    seq![
        (v % 0x100) as u8,
        ((v / 0x100) % 0x100) as u8,
        ((v / 0x1_0000) % 0x100) as u8,
        ((v / 0x100_0000) % 0x100) as u8,
    ]
}

/// Eight bytes, least significant first.
pub open spec fn spec_le64(v: u64) -> Seq<u8> {
    spec_le32((v % 0x1_0000_0000) as u32) + spec_le32((v / 0x1_0000_0000) as u32)
}

/// A varint record: key and value.
pub open spec fn spec_varint_field(tag: nat, v: nat) -> Seq<u8> {
    spec_key(tag, WireType::Varint) + spec_varint(v)
}

/// A four-byte record.
pub open spec fn spec_fixed32_field(tag: nat, v: u32) -> Seq<u8> {
    spec_key(tag, WireType::ThirtyTwoBit) + spec_le32(v)
}

/// An eight-byte record.
pub open spec fn spec_fixed64_field(tag: nat, v: u64) -> Seq<u8> {
    spec_key(tag, WireType::SixtyFourBit) + spec_le64(v)
}

/// A length-delimited record: key, length, payload.
pub open spec fn spec_len_field(tag: nat, data: Seq<u8>) -> Seq<u8> {
    spec_key(tag, WireType::LengthDelimited) + spec_varint(data.len()) + data
}

/// A group record: start key, payload, end key.
pub open spec fn spec_group_field(tag: nat, data: Seq<u8>) -> Seq<u8> {
    spec_key(tag, WireType::StartGroup) + data + spec_key(tag, WireType::EndGroup)
}

/// The 64-bit pattern of a signed integer (two's complement).
pub open spec fn spec_i64_bits(v: int) -> nat {
    if v >= 0 { v as nat } else { (v + 0x1_0000_0000_0000_0000) as nat }
}

/// The 32-bit pattern of a signed integer (two's complement).
pub open spec fn spec_i32_bits(v: int) -> u32 {
    if v >= 0 { v as u32 } else { (v + 0x1_0000_0000) as u32 }
}

/// ZigZag: non-negative `v` maps to `2v`, negative `v` to `-2v - 1`.
pub open spec fn spec_zigzag(v: int) -> nat {
    if v >= 0 { (2 * v) as nat } else { (-2 * v - 1) as nat }
}

/// The number of bytes of the varint of `v`.
pub open spec fn spec_varint_len(v: nat) -> nat
    decreases v,
{
    if v < 128 { 1 } else { 1 + spec_varint_len(v / 128) }
}

/// The number of bytes of the key of field `tag`, whatever its wire type.
pub open spec fn spec_key_len(tag: nat) -> nat {
    spec_varint_len(tag * 8)
}

pub proof fn lemma_varint_len(v: nat)
    ensures
        spec_varint(v).len() == spec_varint_len(v),
        1 <= spec_varint_len(v),
        v < 0x1_0000_0000_0000_0000 ==> spec_varint_len(v) <= 10,
    decreases v,
{
    if v >= 128 {
        lemma_varint_len(v / 128);
    }
    if v < 0x1_0000_0000_0000_0000 {
        assert(pow128(10) == 0x40_0000_0000_0000_0000) by { reveal_with_fuel(pow128, 11); }
        lemma_varint_len_bound(v, 10);
    }
}

/// The power of 128 that bounds `k` seven-bit groups.
pub open spec fn pow128(k: nat) -> nat
    decreases k,
{
    if k == 0 { 1 } else { 128 * pow128((k - 1) as nat) }
}

proof fn lemma_varint_len_bound(v: nat, k: nat)
    requires
        k >= 1,
        v < pow128(k),
    ensures
        spec_varint_len(v) <= k,
    decreases k,
{
    if v >= 128 {
        if k == 1 {
            assert(pow128(1) == 128) by { reveal_with_fuel(pow128, 2); }
        } else {
            lemma_varint_len_bound(v / 128, (k - 1) as nat);
        }
    }
}

/// The length of a varint depends only on how many seven-bit groups the
/// value needs, so the low three bits of a key never change it.
pub proof fn lemma_key_len(tag: nat, wire_type: WireType)
    ensures
        spec_key(tag, wire_type).len() == spec_key_len(tag),
    decreases tag,
{
    lemma_varint_len(tag * 8 + wire_type.code());
    lemma_varint_len_low_bits(tag * 8, wire_type.code());
}

proof fn lemma_varint_len_low_bits(x: nat, low: nat)
    requires
        x % 8 == 0,
        low < 8,
    ensures
        spec_varint_len(x + low) == spec_varint_len(x),
{
    if x >= 128 {
        assert((x + low) / 128 == x / 128) by (nonlinear_arith)
            requires
                x % 8 == 0,
                low < 8,
        ;
    } else {
        assert(x + low < 128) by (nonlinear_arith)
            requires
                x % 8 == 0,
                low < 8,
                x < 128,
        ;
    }
}

/// The UTF-8 bytes of a string.
pub open spec fn spec_utf8(s: Seq<char>) -> Seq<u8> {
    vstd::utf8::encode_utf8(s)
}

/// Whether `tag` is a field number a key can carry.
pub open spec fn valid_tag(tag: nat) -> bool {
    1 <= tag <= MAX_TAG
}

/// `prost::encoding::encode_varint`: appends the LEB128 encoding of `value`.
#[verifier::external_body]
pub(crate) fn encode_varint(value: u64, buf: &mut Vec<u8>)
    ensures
        final(buf)@ == old(buf)@ + spec_varint(value as nat),
{
    prost::encoding::encode_varint(value, buf)
}

/// `prost::encoding::encoded_len_varint`: the byte length of the LEB128
/// encoding of `value`.
#[verifier::external_body]
pub(crate) fn encoded_len_varint(value: u64) -> (r: usize)
    ensures
        r == spec_varint_len(value as nat),
{
    prost::encoding::encoded_len_varint(value)
}

/// `prost::encoding::encode_key`: appends the varint of
/// `tag << 3 | wire_type` (its debug assertion asks for a valid tag).
#[verifier::external_body]
pub(crate) fn encode_key(tag: u32, wire_type: WireType, buf: &mut Vec<u8>)
    requires
        valid_tag(tag as nat),
    ensures
        final(buf)@ == old(buf)@ + spec_key(tag as nat, wire_type),
{
    let wire_type = match wire_type {
        WireType::Varint => prost::encoding::WireType::Varint,
        WireType::SixtyFourBit => prost::encoding::WireType::SixtyFourBit,
        WireType::LengthDelimited => prost::encoding::WireType::LengthDelimited,
        WireType::StartGroup => prost::encoding::WireType::StartGroup,
        WireType::EndGroup => prost::encoding::WireType::EndGroup,
        WireType::ThirtyTwoBit => prost::encoding::WireType::ThirtyTwoBit,
    };
    prost::encoding::encode_key(tag, wire_type, buf)
}

/// `prost::encoding::key_len`: the byte length of the key of `tag`.
#[verifier::external_body]
pub(crate) fn key_len(tag: u32) -> (r: usize)
    requires
        tag <= MAX_TAG,
    ensures
        r == spec_key_len(tag as nat),
{
    prost::encoding::key_len(tag)
}

/// `prost::encoding::bool::encode`: a varint record holding 0 or 1.
#[verifier::external_body]
pub(crate) fn encode_bool(tag: u32, value: bool, buf: &mut Vec<u8>)
    requires
        valid_tag(tag as nat),
    ensures
        final(buf)@ == old(buf)@ + spec_varint_field(tag as nat, if value { 1 } else { 0 }),
{
    prost::encoding::bool::encode(tag, &value, buf)
}

/// `prost::encoding::int32::encode`: a varint record of the sign-extended value.
#[verifier::external_body]
pub(crate) fn encode_int32(tag: u32, value: i32, buf: &mut Vec<u8>)
    requires
        valid_tag(tag as nat),
    ensures
        final(buf)@ == old(buf)@ + spec_varint_field(tag as nat, spec_i64_bits(value as int)),
{
    prost::encoding::int32::encode(tag, &value, buf)
}

/// `prost::encoding::int64::encode`: a varint record of the two's complement bits.
#[verifier::external_body]
pub(crate) fn encode_int64(tag: u32, value: i64, buf: &mut Vec<u8>)
    requires
        valid_tag(tag as nat),
    ensures
        final(buf)@ == old(buf)@ + spec_varint_field(tag as nat, spec_i64_bits(value as int)),
{
    prost::encoding::int64::encode(tag, &value, buf)
}

/// `prost::encoding::uint32::encode`: a varint record of the value.
#[verifier::external_body]
pub(crate) fn encode_uint32(tag: u32, value: u32, buf: &mut Vec<u8>)
    requires
        valid_tag(tag as nat),
    ensures
        final(buf)@ == old(buf)@ + spec_varint_field(tag as nat, value as nat),
{
    prost::encoding::uint32::encode(tag, &value, buf)
}

/// `prost::encoding::uint64::encode`: a varint record of the value.
#[verifier::external_body]
pub(crate) fn encode_uint64(tag: u32, value: u64, buf: &mut Vec<u8>)
    requires
        valid_tag(tag as nat),
    ensures
        final(buf)@ == old(buf)@ + spec_varint_field(tag as nat, value as nat),
{
    prost::encoding::uint64::encode(tag, &value, buf)
}

/// `prost::encoding::sint32::encode`: a varint record of the ZigZag value.
#[verifier::external_body]
pub(crate) fn encode_sint32(tag: u32, value: i32, buf: &mut Vec<u8>)
    requires
        valid_tag(tag as nat),
    ensures
        final(buf)@ == old(buf)@ + spec_varint_field(tag as nat, spec_zigzag(value as int)),
{
    prost::encoding::sint32::encode(tag, &value, buf)
}

/// `prost::encoding::sint64::encode`: a varint record of the ZigZag value.
#[verifier::external_body]
pub(crate) fn encode_sint64(tag: u32, value: i64, buf: &mut Vec<u8>)
    requires
        valid_tag(tag as nat),
    ensures
        final(buf)@ == old(buf)@ + spec_varint_field(tag as nat, spec_zigzag(value as int)),
{
    prost::encoding::sint64::encode(tag, &value, buf)
}

/// `prost::encoding::fixed32::encode`: a four-byte record.
#[verifier::external_body]
pub(crate) fn encode_fixed32(tag: u32, value: u32, buf: &mut Vec<u8>)
    requires
        valid_tag(tag as nat),
    ensures
        final(buf)@ == old(buf)@ + spec_fixed32_field(tag as nat, value),
{
    prost::encoding::fixed32::encode(tag, &value, buf)
}

/// `prost::encoding::fixed64::encode`: an eight-byte record.
#[verifier::external_body]
pub(crate) fn encode_fixed64(tag: u32, value: u64, buf: &mut Vec<u8>)
    requires
        valid_tag(tag as nat),
    ensures
        final(buf)@ == old(buf)@ + spec_fixed64_field(tag as nat, value),
{
    prost::encoding::fixed64::encode(tag, &value, buf)
}

/// `prost::encoding::sfixed32::encode`: a four-byte record of the two's complement bits.
#[verifier::external_body]
pub(crate) fn encode_sfixed32(tag: u32, value: i32, buf: &mut Vec<u8>)
    requires
        valid_tag(tag as nat),
    ensures
        final(buf)@ == old(buf)@ + spec_fixed32_field(tag as nat, spec_i32_bits(value as int)),
{
    prost::encoding::sfixed32::encode(tag, &value, buf)
}

/// `prost::encoding::sfixed64::encode`: an eight-byte record of the two's complement bits.
#[verifier::external_body]
pub(crate) fn encode_sfixed64(tag: u32, value: i64, buf: &mut Vec<u8>)
    requires
        valid_tag(tag as nat),
    ensures
        final(buf)@ == old(buf)@ + spec_fixed64_field(
            tag as nat,
            spec_i64_bits(value as int) as u64,
        ),
{
    prost::encoding::sfixed64::encode(tag, &value, buf)
}

/// `prost::encoding::string::encode`: a length-delimited record of the UTF-8 bytes.
#[verifier::external_body]
pub(crate) fn encode_string(tag: u32, value: &String, buf: &mut Vec<u8>)
    requires
        valid_tag(tag as nat),
    ensures
        final(buf)@ == old(buf)@ + spec_len_field(tag as nat, spec_utf8(value@)),
{
    prost::encoding::string::encode(tag, value, buf)
}

/// `prost::encoding::bytes::encode`: a length-delimited record of the bytes.
#[verifier::external_body]
pub(crate) fn encode_bytes(tag: u32, value: &Vec<u8>, buf: &mut Vec<u8>)
    requires
        valid_tag(tag as nat),
    ensures
        final(buf)@ == old(buf)@ + spec_len_field(tag as nat, value@),
{
    prost::encoding::bytes::encode(tag, value, buf)
}

/// `BufMut::put_u32_le` on a `Vec<u8>`: appends four little-endian bytes.
#[verifier::external_body]
pub(crate) fn put_u32_le(buf: &mut Vec<u8>, value: u32)
    ensures
        final(buf)@ == old(buf)@ + spec_le32(value),
{
    buf.put_u32_le(value)
}

/// `BufMut::put_u64_le` on a `Vec<u8>`: appends eight little-endian bytes.
#[verifier::external_body]
pub(crate) fn put_u64_le(buf: &mut Vec<u8>, value: u64)
    ensures
        final(buf)@ == old(buf)@ + spec_le64(value),
{
    buf.put_u64_le(value)
}

/// `BufMut::put_i32_le` on a `Vec<u8>`: appends the four little-endian
/// bytes of the two's complement bits.
#[verifier::external_body]
pub(crate) fn put_i32_le(buf: &mut Vec<u8>, value: i32)
    ensures
        final(buf)@ == old(buf)@ + spec_le32(spec_i32_bits(value as int)),
{
    buf.put_i32_le(value)
}

/// `BufMut::put_i64_le` on a `Vec<u8>`: appends the eight little-endian
/// bytes of the two's complement bits.
#[verifier::external_body]
pub(crate) fn put_i64_le(buf: &mut Vec<u8>, value: i64)
    ensures
        final(buf)@ == old(buf)@ + spec_le64(spec_i64_bits(value as int) as u64),
{
    buf.put_i64_le(value)
}

/// `prost::encoding::bool::encoded_len`: the key and one byte.
#[verifier::external_body]
pub(crate) fn encoded_len_bool(tag: u32, value: bool) -> (r: usize)
    requires
        tag <= MAX_TAG,
    ensures
        r == spec_key_len(tag as nat) + 1,
{
    prost::encoding::bool::encoded_len(tag, &value)
}

/// `prost::encoding::int32::encoded_len`: the key and the varint of the sign-extended value.
#[verifier::external_body]
pub(crate) fn encoded_len_int32(tag: u32, value: i32) -> (r: usize)
    requires
        tag <= MAX_TAG,
    ensures
        r == spec_key_len(tag as nat) + spec_varint_len(spec_i64_bits(value as int)),
{
    prost::encoding::int32::encoded_len(tag, &value)
}

/// `prost::encoding::int64::encoded_len`: the key and the varint of the two's complement bits.
#[verifier::external_body]
pub(crate) fn encoded_len_int64(tag: u32, value: i64) -> (r: usize)
    requires
        tag <= MAX_TAG,
    ensures
        r == spec_key_len(tag as nat) + spec_varint_len(spec_i64_bits(value as int)),
{
    prost::encoding::int64::encoded_len(tag, &value)
}

/// `prost::encoding::uint32::encoded_len`: the key and the varint of the value.
#[verifier::external_body]
pub(crate) fn encoded_len_uint32(tag: u32, value: u32) -> (r: usize)
    requires
        tag <= MAX_TAG,
    ensures
        r == spec_key_len(tag as nat) + spec_varint_len(value as nat),
{
    prost::encoding::uint32::encoded_len(tag, &value)
}

/// `prost::encoding::uint64::encoded_len`: the key and the varint of the value.
#[verifier::external_body]
pub(crate) fn encoded_len_uint64(tag: u32, value: u64) -> (r: usize)
    requires
        tag <= MAX_TAG,
    ensures
        r == spec_key_len(tag as nat) + spec_varint_len(value as nat),
{
    prost::encoding::uint64::encoded_len(tag, &value)
}

/// `prost::encoding::sint32::encoded_len`: the key and the varint of the ZigZag value.
#[verifier::external_body]
pub(crate) fn encoded_len_sint32(tag: u32, value: i32) -> (r: usize)
    requires
        tag <= MAX_TAG,
    ensures
        r == spec_key_len(tag as nat) + spec_varint_len(spec_zigzag(value as int)),
{
    prost::encoding::sint32::encoded_len(tag, &value)
}

/// `prost::encoding::sint64::encoded_len`: the key and the varint of the ZigZag value.
#[verifier::external_body]
pub(crate) fn encoded_len_sint64(tag: u32, value: i64) -> (r: usize)
    requires
        tag <= MAX_TAG,
    ensures
        r == spec_key_len(tag as nat) + spec_varint_len(spec_zigzag(value as int)),
{
    prost::encoding::sint64::encoded_len(tag, &value)
}

/// `prost::encoding::fixed32::encoded_len`: the key and four bytes.
#[verifier::external_body]
pub(crate) fn encoded_len_fixed32(tag: u32, value: u32) -> (r: usize)
    requires
        tag <= MAX_TAG,
    ensures
        r == spec_key_len(tag as nat) + 4,
{
    prost::encoding::fixed32::encoded_len(tag, &value)
}

/// `prost::encoding::fixed64::encoded_len`: the key and eight bytes.
#[verifier::external_body]
pub(crate) fn encoded_len_fixed64(tag: u32, value: u64) -> (r: usize)
    requires
        tag <= MAX_TAG,
    ensures
        r == spec_key_len(tag as nat) + 8,
{
    prost::encoding::fixed64::encoded_len(tag, &value)
}

/// `prost::encoding::sfixed32::encoded_len`: the key and four bytes.
#[verifier::external_body]
pub(crate) fn encoded_len_sfixed32(tag: u32, value: i32) -> (r: usize)
    requires
        tag <= MAX_TAG,
    ensures
        r == spec_key_len(tag as nat) + 4,
{
    prost::encoding::sfixed32::encoded_len(tag, &value)
}

/// `prost::encoding::sfixed64::encoded_len`: the key and eight bytes.
#[verifier::external_body]
pub(crate) fn encoded_len_sfixed64(tag: u32, value: i64) -> (r: usize)
    requires
        tag <= MAX_TAG,
    ensures
        r == spec_key_len(tag as nat) + 8,
{
    prost::encoding::sfixed64::encoded_len(tag, &value)
}

/// `prost::encoding::string::encoded_len`: the key, the length and the UTF-8 bytes.
#[verifier::external_body]
pub(crate) fn encoded_len_string(tag: u32, value: &String) -> (r: usize)
    requires
        tag <= MAX_TAG,
        spec_key_len(tag as nat) + spec_varint_len(spec_utf8(value@).len()) + spec_utf8(value@).len() <= usize::MAX,
    ensures
        r == spec_key_len(tag as nat) + spec_varint_len(spec_utf8(value@).len()) + spec_utf8(value@).len(),
{
    prost::encoding::string::encoded_len(tag, value)
}

/// `prost::encoding::bytes::encoded_len`: the key, the length and the bytes.
#[verifier::external_body]
pub(crate) fn encoded_len_bytes(tag: u32, value: &Vec<u8>) -> (r: usize)
    requires
        tag <= MAX_TAG,
        spec_key_len(tag as nat) + spec_varint_len(value@.len()) + value@.len() <= usize::MAX,
    ensures
        r == spec_key_len(tag as nat) + spec_varint_len(value@.len()) + value@.len(),
{
    prost::encoding::bytes::encoded_len(tag, value)
}

/// The byte length of a record's encoding, by part.
pub proof fn lemma_field_lens(tag: nat, v: nat, data: Seq<u8>, a: u32, b: u64)
    ensures
        spec_varint_field(tag, v).len() == spec_key_len(tag) + spec_varint_len(v),
        spec_fixed32_field(tag, a).len() == spec_key_len(tag) + 4,
        spec_fixed64_field(tag, b).len() == spec_key_len(tag) + 8,
        spec_len_field(tag, data).len() == spec_key_len(tag) + spec_varint_len(data.len()) + data.len(),
        spec_group_field(tag, data).len() == 2 * spec_key_len(tag) + data.len(),
        spec_le32(a).len() == 4,
        spec_le64(b).len() == 8,
        spec_varint(v).len() == spec_varint_len(v),
{
    lemma_key_len(tag, WireType::Varint);
    lemma_key_len(tag, WireType::ThirtyTwoBit);
    lemma_key_len(tag, WireType::SixtyFourBit);
    lemma_key_len(tag, WireType::LengthDelimited);
    lemma_key_len(tag, WireType::StartGroup);
    lemma_key_len(tag, WireType::EndGroup);
    lemma_varint_len(v);
    lemma_varint_len(data.len());
}

/// A key takes at most five bytes.
pub proof fn lemma_key_len_bound(tag: nat)
    requires
        tag <= MAX_TAG,
    ensures
        1 <= spec_key_len(tag) <= 5,
{
    lemma_varint_len(tag * 8);
    assert(pow128(5) == 0x8_0000_0000) by {
        reveal_with_fuel(pow128, 6);
    }
    lemma_varint_len_bound(tag * 8, 5);
}

/// ZigZag encoding of a 32-bit signed integer.
pub fn from_sint32(value: i32) -> (r: u32)
    ensures
        r == spec_zigzag(value as int),
{
    let r = ((value << 1u32) ^ (value >> 31u32)) as u32;
    assert((value >= 0 ==> r == 2 * value) && (value < 0 ==> r == -2 * value - 1)) by (bit_vector)
        requires
            r == ((value << 1u32) ^ (value >> 31u32)) as u32,
    ;
    r
}

/// ZigZag encoding of a 64-bit signed integer.
pub fn from_sint64(value: i64) -> (r: u64)
    ensures
        r == spec_zigzag(value as int),
{
    let r = ((value << 1u64) ^ (value >> 63u64)) as u64;
    assert((value >= 0 ==> r == 2 * value) && (value < 0 ==> r == -2 * value - 1)) by (bit_vector)
        requires
            r == ((value << 1u64) ^ (value >> 63u64)) as u64,
    ;
    r
}

/// Two to the power `k`.
pub open spec fn spec_pow2(k: nat) -> nat
    decreases k,
{
    if k == 0 {
        1
    } else {
        2 * spec_pow2((k - 1) as nat)
    }
}

pub proof fn lemma_pow2_adds(a: nat, b: nat)
    ensures
        spec_pow2(a) * spec_pow2(b) == spec_pow2(a + b),
    decreases a,
{
    if a == 0 {
        assert(spec_pow2(0) == 1);
        assert(spec_pow2(a) * spec_pow2(b) == spec_pow2(b));
    } else {
        lemma_pow2_adds((a - 1) as nat, b);
        assert(spec_pow2(a + b) == 2 * spec_pow2((a - 1 + b) as nat));
        assert(spec_pow2(a) * spec_pow2(b) == 2 * (spec_pow2((a - 1) as nat) * spec_pow2(b))) by (nonlinear_arith)
            requires
                spec_pow2(a) == 2 * spec_pow2((a - 1) as nat),
        ;
    }
}

pub proof fn lemma_pow2_pos(k: nat)
    ensures
        spec_pow2(k) >= 1,
    decreases k,
{
    if k > 0 {
        lemma_pow2_pos((k - 1) as nat);
    }
}

} // verus!
