//! Reading back what a message writes: the records of a message, merged
//! one after another into an empty message of its type, can leave exactly
//! the message's slots (for single values, packed lists and messages of
//! them), and any such merge leaves slots of the same contents (for
//! single values, lists packed or not, maps, messages and unknown
//! fields); with `readable`, decoding the message's bytes succeeds.

use vstd::prelude::*;
use crate::decode::{
    law_record_roundtrip, lemma_decode_key_bounds, lemma_len_record, merge_point, merge_siblings, message_index_of,
    read_prefix, record_info, record_merged, record_step, records_merged, spec_decode_key,
    group_prefix_read, law_unknown_roundtrip, spec_unknown_len, unknown_depth, unknown_fields_depth, unknown_value_read,
    unknown_wire_type, RECURSION_LIMIT,
};
use crate::descriptor::{DescriptorPoolInner, FieldInfo, KindIndex};
use crate::encode::{
    spec_encode_key_field, spec_encode_list, spec_encode_map, spec_encode_message, spec_encode_present, spec_encode_slot,
    spec_encode_slots, spec_encode_value,
};
use crate::fields::{value_in, ValueOrUnknown};
use crate::unknown::{fields_wf, spec_encode_unknown_field, spec_encode_unknown_fields, UnknownField, UnknownFieldValue};
use crate::message::{slot_ok, DynamicMessage};
use crate::sorted::{as_map, lemma_insert, sorted_by_number};
use crate::value::{
    is_default_for, is_default_key, is_kind_zero, key_matches_kind, same_key, spec_wire_type, valid_element, valid_value,
    MapKey, Value,
};
use crate::wire::{spec_key, valid_tag, WireType};

verus! {

/// A value of a field that reads back as itself from the record it
/// writes: the field is not a map, and a list field is packed; the value
/// writes its record (the field tracks presence, or the value is not its
/// default), which fits in memory; a message or group holds in each of
/// its slots a value of a field or extension of its type that reads back,
/// nested at most `depth` messages deep.
pub open spec fn reads_back(pool: DescriptorPoolInner, info: FieldInfo, v: Value, depth: nat) -> bool
    decreases depth,
{
    &&& !info.is_map
    &&& info.is_group == (info.kind is Group)
    &&& info.is_list ==> info.is_packed && info.kind.spec_is_packable()
    &&& info.supports_presence || !is_default_for(pool, info, v)
    &&& spec_encode_present(pool, info, v).len() <= usize::MAX
    &&& info.kind.spec_is_message() && !info.is_list ==> {
        &&& depth > 0
        &&& v is Message
        &&& forall|i: int, j: int|
            0 <= i < v->Message_0.spec_slots().len() && 0 <= j < v->Message_0.spec_slots().len()
                ==> !merge_siblings(pool, message_index_of(info.kind), (#[trigger] v->Message_0.spec_slots()[i]).0).contains(
                (#[trigger] v->Message_0.spec_slots()[j]).0,
            )
        &&& forall|i: int|
            0 <= i < v->Message_0.spec_slots().len() ==> (#[trigger] v->Message_0.spec_slots()[i]).1 is Value
                && match record_info(pool, message_index_of(info.kind), v->Message_0.spec_slots()[i].0) {
                Some(f) => reads_back(pool, f, v->Message_0.spec_slots()[i].1->Value_0, (depth - 1) as nat),
                None => false,
            }
    }
}

/// Each slot of a run of slots of message `mi` holds a value of a field or
/// extension of the message that reads back, and no two slots hold
/// members of one oneof.
pub open spec fn slots_read_back(
    pool: DescriptorPoolInner,
    mi: int,
    slots: Seq<(u32, ValueOrUnknown)>,
    depth: nat,
) -> bool {
    &&& forall|i: int, j: int|
        0 <= i < slots.len() && 0 <= j < slots.len() ==> !merge_siblings(pool, mi, (#[trigger] slots[i]).0).contains(
            (#[trigger] slots[j]).0,
        )
    &&& forall|i: int|
        0 <= i < slots.len() ==> (#[trigger] slots[i]).1 is Value && match record_info(pool, mi, slots[i].0) {
            Some(f) => reads_back(pool, f, slots[i].1->Value_0, depth),
            None => false,
        }
}

/// The field or extension a number of a message names carries that
/// number, a valid one.
proof fn lemma_record_info_number(pool: DescriptorPoolInner, mi: int, n: u32)
    requires
        pool.wf(),
        0 <= mi < pool.messages@.len(),
        record_info(pool, mi, n) is Some,
    ensures
        record_info(pool, mi, n)->Some_0.number == n,
        valid_tag(n as nat),
        pool.kind_ok(record_info(pool, mi, n)->Some_0.kind),
{
    assert(pool.message_ok(mi));
    let msg = pool.messages@[mi];
    match pool.field_index(mi, n) {
        Some(f) => {
            assert(msg.field_numbers.spec_map().dom().contains(n));
            assert(pool.field_ok(mi, f as int));
        },
        None => {
            let exts = msg.extensions@;
            crate::message::lemma_find_extension_member(pool, exts, n);
            let k = choose|k: int|
                0 <= k < exts.len() && exts[k] == pool.find_extension(exts, n)->Some_0
                    && pool.extensions@[exts[k] as int].number == n;
            assert(exts[k] < pool.extensions@.len());
            assert(pool.extension_ok(exts[k] as int));
        },
    }
}

/// No slot before position `i` holds a sibling of `n` when no slot does.
proof fn lemma_no_sibling_slots(pool: DescriptorPoolInner, mi: int, s: Seq<(u32, ValueOrUnknown)>, i: int, n: u32)
    requires
        0 <= i <= s.len(),
        forall|j: int| 0 <= j < s.len() ==> !merge_siblings(pool, mi, n).contains(#[trigger] s[j].0),
    ensures
        forall|k: u32| #[trigger] merge_siblings(pool, mi, n).contains(k) ==> !as_map(s.take(i)).dom().contains(k),
{
    assert forall|k: u32| #[trigger] merge_siblings(pool, mi, n).contains(k) implies !as_map(
        s.take(i),
    ).dom().contains(k) by {
        if as_map(s.take(i)).dom().contains(k) {
            let t = s.take(i);
            assert(crate::sorted::has_number(t, k));
            let j = choose|j: int| 0 <= j < t.len() && t[j].0 == k;
            assert(t[j] == s[j]);
        }
    }
}

/// The bytes of two runs of slots, one after the other, are those of the
/// first run followed by those of the second.
proof fn lemma_encode_slots_concat(
    pool: DescriptorPoolInner,
    mi: int,
    a: Seq<(u32, ValueOrUnknown)>,
    b: Seq<(u32, ValueOrUnknown)>,
)
    ensures
        spec_encode_slots(pool, mi, a + b) == spec_encode_slots(pool, mi, a) + spec_encode_slots(pool, mi, b),
    decreases b.len(),
{
    if b.len() == 0 {
        assert(a + b =~= a);
        assert(spec_encode_slots(pool, mi, a) + Seq::<u8>::empty() =~= spec_encode_slots(pool, mi, a));
    } else {
        assert((a + b).drop_last() =~= a + b.drop_last());
        assert((a + b).last() == b.last());
        lemma_encode_slots_concat(pool, mi, a, b.drop_last());
        assert(spec_encode_slots(pool, mi, a + b) =~= spec_encode_slots(pool, mi, a) + spec_encode_slots(
            pool,
            mi,
            b,
        ));
    }
}

/// What a field's record reads back as: its key, then the field's value
/// merged into its empty slot, leaving the bytes that follow.
pub open spec fn record_reads_back(pool: DescriptorPoolInner, info: FieldInfo, v: Value, rest: Seq<u8>, depth: nat) -> bool {
    let s = spec_encode_present(pool, info, v) + rest;
    let wt = if info.is_list {
        WireType::LengthDelimited
    } else {
        spec_wire_type(info.kind)
    };
    let k = spec_key(info.number as nat, wt).len();
    &&& k <= spec_encode_present(pool, info, v).len()
    &&& spec_decode_key(s) == Some((info.number, wt, k))
    &&& record_merged(pool, info, wt, s.skip(k as int), rest, None, ValueOrUnknown::Value(v), true, depth)
}

/// The record a value that reads back writes, followed by any bytes,
/// reads back as the field's key; merged into the field's empty slot, it
/// can leave exactly that value, and the bytes that follow.
proof fn lemma_value_record(pool: DescriptorPoolInner, info: FieldInfo, v: Value, rest: Seq<u8>, depth: nat)
    requires
        pool.wf(),
        valid_tag(info.number as nat),
        pool.kind_ok(info.kind),
        valid_value(pool, info, v),
        reads_back(pool, info, v, depth),
    ensures
        record_reads_back(pool, info, v, rest, depth),
    decreases depth, 1nat,
{
    if info.kind.spec_is_message() && !info.is_list && info.is_group {
        lemma_group_record(pool, info, v, rest, depth);
    } else if info.kind.spec_is_message() && !info.is_list {
        lemma_message_record(pool, info, v, rest, depth);
    } else {
        lemma_plain_record(pool, info, v, rest, depth);
    }
}

/// A single length-delimited message field reads back as its message.
#[verifier::spinoff_prover]
proof fn lemma_message_record(pool: DescriptorPoolInner, info: FieldInfo, v: Value, rest: Seq<u8>, depth: nat)
    requires
        pool.wf(),
        valid_tag(info.number as nat),
        pool.kind_ok(info.kind),
        valid_value(pool, info, v),
        reads_back(pool, info, v, depth),
        info.kind.spec_is_message(),
        !info.is_list,
        !info.is_group,
    ensures
        record_reads_back(pool, info, v, rest, depth),
    decreases depth, 0nat,
{
    let n = info.number;
    reveal_with_fuel(crate::value::valid_value, 2);
    assert(valid_element(pool, info.kind, v));
    let m = v->Message_0;
    let mi = message_index_of(info.kind);
    let slots = m.fields.fields@;
    let data = spec_encode_message(m);
    assert(data == spec_encode_slots(pool, mi, slots));
    assert(spec_encode_present(pool, info, v) == crate::wire::spec_len_field(n as nat, data));
    crate::wire::lemma_field_lens(n as nat, 0, data, 0, 0);
    crate::wire::lemma_key_len(n as nat, WireType::LengthDelimited);
    lemma_len_record(n, data, rest);
    assert(slots_read_back(pool, mi, slots, (depth - 1) as nat));
    lemma_slots_roundtrip(pool, mi, slots, 0, (depth - 1) as nat);
    assert(slots.take(0) =~= Seq::<(u32, ValueOrUnknown)>::empty());
    assert(slots.skip(0) =~= slots);
    assert(as_map(slots.take(0)) =~= Map::<u32, ValueOrUnknown>::empty());
    assert(crate::decode::held_message(None) == Map::<u32, ValueOrUnknown>::empty());
    assert(m.spec_map() == as_map(slots));
}

/// A single group field reads back as its message.
#[verifier::spinoff_prover]
proof fn lemma_group_record(pool: DescriptorPoolInner, info: FieldInfo, v: Value, rest: Seq<u8>, depth: nat)
    requires
        pool.wf(),
        valid_tag(info.number as nat),
        pool.kind_ok(info.kind),
        valid_value(pool, info, v),
        reads_back(pool, info, v, depth),
        info.kind.spec_is_message(),
        !info.is_list,
        info.is_group,
    ensures
        record_reads_back(pool, info, v, rest, depth),
    decreases depth, 0nat,
{
    let n = info.number;
    reveal_with_fuel(crate::value::valid_value, 2);
    assert(valid_element(pool, info.kind, v));
    let m = v->Message_0;
    let mi = message_index_of(info.kind);
    let slots = m.fields.fields@;
    let data = spec_encode_message(m);
    let start = spec_key(n as nat, WireType::StartGroup);
    let end = spec_key(n as nat, WireType::EndGroup);
    assert(data == spec_encode_slots(pool, mi, slots));
    assert(spec_encode_present(pool, info, v) == crate::wire::spec_group_field(n as nat, data));
    let whole = spec_encode_present(pool, info, v) + rest;
    assert(whole =~= start + (data + end + rest));
    crate::decode::lemma_key_roundtrip(n, WireType::StartGroup, data + end + rest);
    crate::wire::lemma_varint_len((n * 8 + WireType::StartGroup.code()) as nat);
    let k = start.len();
    assert(whole.skip(k as int) =~= data + end + rest);
    assert(slots_read_back(pool, mi, slots, (depth - 1) as nat));
    lemma_group_slots_roundtrip(pool, mi, slots, 0, n, rest, (depth - 1) as nat);
    assert(slots.take(0) =~= Seq::<(u32, ValueOrUnknown)>::empty());
    assert(slots.skip(0) =~= slots);
    assert(as_map(slots.take(0)) =~= Map::<u32, ValueOrUnknown>::empty());
    assert(crate::decode::held_message(None) == Map::<u32, ValueOrUnknown>::empty());
    assert(m.spec_map() == as_map(slots));
    let c = (data.len() + end.len()) as nat;
    assert((data + end + rest).skip(c as int) =~= rest);
    assert(crate::decode::group_extent(c));
}

/// The records of the slots from position `i` on, then the end key of
/// group `tag` and any bytes, merged one after another into the slots
/// before `i`, can leave exactly all the slots, taking the records and
/// the end key.
#[verifier::spinoff_prover]
proof fn lemma_group_slots_roundtrip(
    pool: DescriptorPoolInner,
    mi: int,
    s: Seq<(u32, ValueOrUnknown)>,
    i: int,
    tag: u32,
    rest: Seq<u8>,
    depth: nat,
)
    requires
        pool.wf(),
        0 <= mi < pool.messages@.len(),
        valid_tag(tag as nat),
        sorted_by_number(s),
        forall|j: int| 0 <= j < s.len() ==> slot_ok(pool, mi, (#[trigger] s[j]).0, s[j].1),
        slots_read_back(pool, mi, s, depth),
        0 <= i <= s.len(),
    ensures
        crate::decode::group_merged(
            pool,
            mi,
            as_map(s.take(i)),
            tag,
            spec_encode_slots(pool, mi, s.skip(i)) + spec_key(tag as nat, WireType::EndGroup) + rest,
            depth,
            as_map(s),
            (spec_encode_slots(pool, mi, s.skip(i)).len() + spec_key(tag as nat, WireType::EndGroup).len()) as nat,
        ),
    decreases depth, (s.len() - i + 2) as nat,
{
    let end = spec_key(tag as nat, WireType::EndGroup);
    if i == s.len() {
        assert(s.skip(i) =~= Seq::<(u32, ValueOrUnknown)>::empty());
        assert(s.take(i) =~= s);
        let whole = spec_encode_slots(pool, mi, s.skip(i)) + end + rest;
        assert(whole =~= end + rest);
        crate::decode::lemma_key_roundtrip(tag, WireType::EndGroup, rest);
        crate::wire::lemma_varint_len((tag * 8 + WireType::EndGroup.code()) as nat);
    } else {
        lemma_group_slots_roundtrip(pool, mi, s, i + 1, tag, rest, depth);
        lemma_slot_step(pool, mi, s, i, end + rest, depth);
        let later = spec_encode_slots(pool, mi, s.skip(i + 1));
        let t = later + (end + rest);
        assert(later + end + rest =~= t);
        assert(spec_encode_slots(pool, mi, s.skip(i)) + end + rest =~= spec_encode_slots(pool, mi, s.skip(i)) + (end
            + rest));
        let c = (later.len() + end.len()) as nat;
        assert(crate::decode::group_point(as_map(s.take(i + 1)), t, c));
    }
}

/// A single scalar, string or bytes field, or a packed list, reads back as
/// its value.
#[verifier::spinoff_prover]
proof fn lemma_plain_record(pool: DescriptorPoolInner, info: FieldInfo, v: Value, rest: Seq<u8>, depth: nat)
    requires
        pool.wf(),
        valid_tag(info.number as nat),
        pool.kind_ok(info.kind),
        valid_value(pool, info, v),
        reads_back(pool, info, v, depth),
        !(info.kind.spec_is_message() && !info.is_list),
    ensures
        record_reads_back(pool, info, v, rest, depth),
{
    let n = info.number;
    law_record_roundtrip(pool, info, v, rest, depth);
    let wt = if info.is_list {
        WireType::LengthDelimited
    } else {
        spec_wire_type(info.kind)
    };
    crate::wire::lemma_key_len(n as nat, wt);
    crate::wire::lemma_key_len(n as nat, WireType::Varint);
    crate::wire::lemma_key_len(n as nat, WireType::ThirtyTwoBit);
    crate::wire::lemma_key_len(n as nat, WireType::SixtyFourBit);
    crate::wire::lemma_key_len(n as nat, WireType::LengthDelimited);
}

/// The slot at position `i` writes one record, followed by those of the
/// slots after it and any bytes (`tail`); the record reads back as the
/// slot's key, and merged into the slots before `i` it leaves them with
/// that slot added, and the bytes after the record.
proof fn lemma_slot_step(
    pool: DescriptorPoolInner,
    mi: int,
    s: Seq<(u32, ValueOrUnknown)>,
    i: int,
    tail: Seq<u8>,
    depth: nat,
)
    requires
        pool.wf(),
        0 <= mi < pool.messages@.len(),
        sorted_by_number(s),
        forall|j: int| 0 <= j < s.len() ==> slot_ok(pool, mi, (#[trigger] s[j]).0, s[j].1),
        slots_read_back(pool, mi, s, depth),
        0 <= i < s.len(),
    ensures
        ({
            let n = s[i].0;
            let info = record_info(pool, mi, n)->Some_0;
            let wt = if info.is_list {
                WireType::LengthDelimited
            } else {
                spec_wire_type(info.kind)
            };
            let k = spec_key(n as nat, wt).len();
            let t = spec_encode_slots(pool, mi, s.skip(i + 1)) + tail;
            let whole = spec_encode_slots(pool, mi, s.skip(i)) + tail;
            &&& record_info(pool, mi, n) is Some
            &&& valid_tag(n as nat)
            &&& pool.kind_ok(info.kind)
            &&& info.number == n
            &&& valid_value(pool, info, s[i].1->Value_0)
            &&& reads_back(pool, info, s[i].1->Value_0, depth)
            &&& whole == spec_encode_present(pool, info, s[i].1->Value_0) + t
            &&& spec_decode_key(whole) == Some((n, wt, k))
            &&& wt != WireType::EndGroup
            &&& 1 <= k <= whole.len()
            &&& t.len() < whole.len()
            &&& as_map(s.take(i + 1)) == as_map(s.take(i)).insert(n, s[i].1)
            &&& !as_map(s.take(i)).dom().contains(n)
            &&& forall|m: u32| #[trigger] merge_siblings(pool, mi, n).contains(m) ==> !as_map(s.take(i)).dom().contains(m)
            &&& record_step(pool, mi, as_map(s.take(i)), n, wt, whole.skip(k as int), depth, as_map(s.take(i + 1)), t)
        }),
    decreases depth, (s.len() - i + 1) as nat,
{
    let n = s[i].0;
    let v = s[i].1->Value_0;
    assert(slot_ok(pool, mi, s[i].0, s[i].1));
    let info = record_info(pool, mi, n)->Some_0;
    lemma_record_info_number(pool, mi, n);
    let later = spec_encode_slots(pool, mi, s.skip(i + 1));
    let t = later + tail;
    let x = spec_encode_slot(pool, mi, s[i]);
    assert(x == spec_encode_present(pool, info, v));
    lemma_encode_slots_concat(pool, mi, seq![s[i]], s.skip(i + 1));
    assert(seq![s[i]] + s.skip(i + 1) =~= s.skip(i));
    assert(seq![s[i]].drop_last() =~= Seq::<(u32, ValueOrUnknown)>::empty());
    assert(seq![s[i]].last() == s[i]);
    assert(spec_encode_slots(pool, mi, Seq::<(u32, ValueOrUnknown)>::empty()) == Seq::<u8>::empty());
    assert(spec_encode_slots(pool, mi, seq![s[i]]) =~= x);
    assert(spec_encode_slots(pool, mi, s.skip(i)) == x + later);
    let whole = x + t;
    assert(spec_encode_slots(pool, mi, s.skip(i)) + tail =~= whole);
    lemma_value_record(pool, info, v, t, depth);
    assert(record_reads_back(pool, info, v, t, depth));
    let wt = if info.is_list {
        WireType::LengthDelimited
    } else {
        spec_wire_type(info.kind)
    };
    let k = spec_key(n as nat, wt).len();
    assert(whole.skip(k as int) =~= x.skip(k as int) + t);
    assert(read_prefix(whole.skip(k as int), t)) by {
        assert(whole.skip(k as int).skip(whole.skip(k as int).len() - t.len()) =~= t);
    }
    let before = as_map(s.take(i));
    let mid = as_map(s.take(i + 1));
    assert forall|j: int| 0 <= j < i implies (#[trigger] s.take(i)[j]).0 < n by {
        assert(s.take(i)[j] == s[j]);
    }
    lemma_insert(s.take(i), i, n, s[i].1);
    assert(s.take(i).insert(i, (n, s[i].1)) =~= s.take(i + 1));
    assert(mid == before.insert(n, s[i].1));
    assert(value_in(before, n) is None);
    let sib = merge_siblings(pool, mi, n);
    assert(mid.remove_keys(sib).remove(n) =~= before.remove_keys(sib).remove(n));
    assert forall|j: int| 0 <= j < s.len() implies !sib.contains(#[trigger] s[j].0) by {
        assert(!merge_siblings(pool, mi, s[i].0).contains(s[j].0));
    }
    lemma_no_sibling_slots(pool, mi, s, i + 1, n);
    lemma_no_sibling_slots(pool, mi, s, i, n);
    assert(record_step(pool, mi, before, n, wt, whole.skip(k as int), depth, mid, t));
    lemma_decode_key_bounds(whole);
}

/// The records of the slots from position `i` on, merged one after
/// another into the slots before `i`, can leave exactly all the slots.
#[verifier::spinoff_prover]
proof fn lemma_slots_roundtrip(
    pool: DescriptorPoolInner,
    mi: int,
    s: Seq<(u32, ValueOrUnknown)>,
    i: int,
    depth: nat,
)
    requires
        pool.wf(),
        0 <= mi < pool.messages@.len(),
        sorted_by_number(s),
        forall|j: int| 0 <= j < s.len() ==> slot_ok(pool, mi, (#[trigger] s[j]).0, s[j].1),
        slots_read_back(pool, mi, s, depth),
        0 <= i <= s.len(),
    ensures
        records_merged(pool, mi, as_map(s.take(i)), spec_encode_slots(pool, mi, s.skip(i)), depth, as_map(s)),
    decreases depth, (s.len() - i + 2) as nat,
{
    if i == s.len() {
        assert(s.skip(i) =~= Seq::<(u32, ValueOrUnknown)>::empty());
        assert(s.take(i) =~= s);
    } else {
        lemma_slots_roundtrip(pool, mi, s, i + 1, depth);
        lemma_slot_step(pool, mi, s, i, Seq::empty(), depth);
        assert(spec_encode_slots(pool, mi, s.skip(i)) + Seq::<u8>::empty() =~= spec_encode_slots(pool, mi, s.skip(i)));
        assert(spec_encode_slots(pool, mi, s.skip(i + 1)) + Seq::<u8>::empty() =~= spec_encode_slots(
            pool,
            mi,
            s.skip(i + 1),
        ));
        assert(merge_point(as_map(s.take(i + 1)), spec_encode_slots(pool, mi, s.skip(i + 1))));
    }
}

/// Reading back a whole message: the records a message writes, merged one
/// after another into an empty message of its type, can leave exactly the
/// message's slots, when each slot holds a value that reads back
/// (`reads_back`): a single scalar, string or bytes value, a packed list,
/// or a single message or group of such values, that writes its record.
pub proof fn law_message_roundtrip(m: DynamicMessage, depth: nat)
    requires
        m.wf(),
        slots_read_back(m.spec_pool(), m.spec_desc().spec_index() as int, m.spec_slots(), depth),
    ensures
        records_merged(
            m.spec_pool(),
            m.spec_desc().spec_index() as int,
            Map::<u32, ValueOrUnknown>::empty(),
            spec_encode_message(m),
            depth,
            m.spec_map(),
        ),
{
    let pool = m.spec_pool();
    let mi = m.spec_desc().spec_index() as int;
    let slots = m.spec_slots();
    lemma_slots_roundtrip(pool, mi, slots, 0, depth);
    assert(slots.take(0) =~= Seq::<(u32, ValueOrUnknown)>::empty());
    assert(slots.skip(0) =~= slots);
    assert(as_map(slots.take(0)) =~= Map::<u32, ValueOrUnknown>::empty());
}

/// Each slot of a run of slots of message `mi` holds a single number,
/// bool or enum value of a field or extension: no string, bytes, list,
/// map or message.
pub open spec fn numeric_slots(pool: DescriptorPoolInner, mi: int, slots: Seq<(u32, ValueOrUnknown)>) -> bool {
    forall|i: int|
        0 <= i < slots.len() ==> match record_info(pool, mi, (#[trigger] slots[i]).0) {
            Some(f) => !f.is_list && !f.is_map && !f.kind.spec_is_message() && !(f.kind is String) && !(
            f.kind is Bytes),
            None => false,
        }
}

/// Merging a record of a single number, bool or enum field leaves the
/// same slots however it is merged.
proof fn lemma_numeric_step_unique(
    pool: DescriptorPoolInner,
    mi: int,
    b: Map<u32, ValueOrUnknown>,
    n: u32,
    wt: WireType,
    s: Seq<u8>,
    depth: nat,
    m1: Map<u32, ValueOrUnknown>,
    r1: Seq<u8>,
    m2: Map<u32, ValueOrUnknown>,
    r2: Seq<u8>,
)
    requires
        record_info(pool, mi, n) matches Some(f) && !f.is_list && !f.is_map && !f.kind.spec_is_message() && !(
        f.kind is String) && !(f.kind is Bytes),
        record_step(pool, mi, b, n, wt, s, depth, m1, r1),
        record_step(pool, mi, b, n, wt, s, depth, m2, r2),
    ensures
        m1 == m2,
{
    let sib = merge_siblings(pool, mi, n);
    assert forall|j: u32| #[trigger] m1.dom().contains(j) == m2.dom().contains(j) && (m1.dom().contains(j) ==> m1[j]
        == m2[j]) by {
        if j != n && !sib.contains(j) {
            assert(m1.remove_keys(sib).remove(n).dom().contains(j) == m1.dom().contains(j));
            assert(m2.remove_keys(sib).remove(n).dom().contains(j) == m2.dom().contains(j));
            if m1.dom().contains(j) {
                assert(m1.remove_keys(sib).remove(n)[j] == m1[j]);
                assert(m2.remove_keys(sib).remove(n)[j] == m2[j]);
            }
        }
    }
    assert(m1 =~= m2);
}

/// Any merge of the records of the slots from position `i` on, into the
/// slots before `i`, leaves exactly all the slots, when every slot holds a
/// single number, bool or enum value.
proof fn lemma_slots_unique(
    pool: DescriptorPoolInner,
    mi: int,
    s: Seq<(u32, ValueOrUnknown)>,
    i: int,
    depth: nat,
    a: Map<u32, ValueOrUnknown>,
)
    requires
        pool.wf(),
        0 <= mi < pool.messages@.len(),
        sorted_by_number(s),
        forall|j: int| 0 <= j < s.len() ==> slot_ok(pool, mi, (#[trigger] s[j]).0, s[j].1),
        slots_read_back(pool, mi, s, depth),
        numeric_slots(pool, mi, s),
        0 <= i <= s.len(),
        records_merged(pool, mi, as_map(s.take(i)), spec_encode_slots(pool, mi, s.skip(i)), depth, a),
    ensures
        a == as_map(s),
    decreases s.len() - i,
{
    if i == s.len() {
        assert(s.skip(i) =~= Seq::<(u32, ValueOrUnknown)>::empty());
        assert(s.take(i) =~= s);
    } else {
        lemma_slot_step(pool, mi, s, i, Seq::empty(), depth);
        assert(spec_encode_slots(pool, mi, s.skip(i)) + Seq::<u8>::empty() =~= spec_encode_slots(pool, mi, s.skip(i)));
        assert(spec_encode_slots(pool, mi, s.skip(i + 1)) + Seq::<u8>::empty() =~= spec_encode_slots(
            pool,
            mi,
            s.skip(i + 1),
        ));
        let n = s[i].0;
        let info = record_info(pool, mi, n)->Some_0;
        let wt = if info.is_list {
            WireType::LengthDelimited
        } else {
            spec_wire_type(info.kind)
        };
        let k = spec_key(n as nat, wt).len();
        let t = spec_encode_slots(pool, mi, s.skip(i + 1));
        let whole = spec_encode_slots(pool, mi, s.skip(i));
        let before = as_map(s.take(i));
        let mid = as_map(s.take(i + 1));
        let (m1, r1) = choose|m1: Map<u32, ValueOrUnknown>, r1: Seq<u8>|
            #![trigger merge_point(m1, r1)]
            merge_point(m1, r1) && r1.len() < whole.len() && record_step(
                pool,
                mi,
                before,
                n,
                wt,
                whole.skip(k as int),
                depth,
                m1,
                r1,
            ) && records_merged(pool, mi, m1, r1, depth, a);
        crate::decode::lemma_record_step_rest(pool, mi, before, before, n, wt, whole.skip(k as int), depth, m1, r1, mid, t);
        assert(numeric_slots(pool, mi, s) ==> match record_info(pool, mi, s[i].0) {
            Some(f) => !f.is_list && !f.is_map && !f.kind.spec_is_message() && !(f.kind is String) && !(
            f.kind is Bytes),
            None => false,
        });
        lemma_numeric_step_unique(pool, mi, before, n, wt, whole.skip(k as int), depth, m1, r1, mid, t);
        lemma_slots_unique(pool, mi, s, i + 1, depth, a);
    }
}

/// Decoding what a message of numbers writes gives back exactly its
/// slots: when every slot holds a single number, bool or enum value that
/// reads back, any merge of the message's bytes into an empty message of
/// its type leaves exactly the message's slots.
pub proof fn law_numeric_message_roundtrip(m: DynamicMessage, depth: nat, after: Map<u32, ValueOrUnknown>)
    requires
        m.wf(),
        slots_read_back(m.spec_pool(), m.spec_desc().spec_index() as int, m.spec_slots(), depth),
        numeric_slots(m.spec_pool(), m.spec_desc().spec_index() as int, m.spec_slots()),
        records_merged(
            m.spec_pool(),
            m.spec_desc().spec_index() as int,
            Map::<u32, ValueOrUnknown>::empty(),
            spec_encode_message(m),
            depth,
            after,
        ),
    ensures
        after == m.spec_map(),
{
    let pool = m.spec_pool();
    let mi = m.spec_desc().spec_index() as int;
    let slots = m.spec_slots();
    assert(slots.take(0) =~= Seq::<(u32, ValueOrUnknown)>::empty());
    assert(slots.skip(0) =~= slots);
    assert(as_map(slots.take(0)) =~= Map::<u32, ValueOrUnknown>::empty());
    lemma_slots_unique(pool, mi, slots, 0, depth, after);
}

/// Two unknown field values hold the same contents: the same number or
/// bits, the same bytes, or groups of fields of the same contents.
pub open spec fn same_unknown_value(a: UnknownFieldValue, b: UnknownFieldValue) -> bool
    decreases a, 1nat,
{
    match (a, b) {
        (UnknownFieldValue::LengthDelimited(x), UnknownFieldValue::LengthDelimited(y)) => x@ == y@,
        (UnknownFieldValue::Group(x), UnknownFieldValue::Group(y)) => same_unknown_fields(x.fields@, y.fields@),
        _ => a == b,
    }
}

/// Two runs of unknown fields hold the same contents: as many fields, of
/// the same numbers and values of the same contents, in the same order.
pub open spec fn same_unknown_fields(x: Seq<UnknownField>, y: Seq<UnknownField>) -> bool
    decreases x, 0nat,
{
    x.len() == y.len() && forall|i: int|
        0 <= i < x.len() ==> (#[trigger] x[i]).number == y[i].number && same_unknown_value(x[i].value, y[i].value)
}

/// Two slots hold the same contents, at most `depth` messages deep:
/// values of the same contents, unknown fields of the same contents, or
/// equal slots.
pub open spec fn same_slot(x: ValueOrUnknown, y: ValueOrUnknown, depth: nat) -> bool
    decreases depth, x,
{
    match (x, y) {
        (ValueOrUnknown::Value(p), ValueOrUnknown::Value(q)) => same_value(p, q, depth),
        (ValueOrUnknown::Unknown(u), ValueOrUnknown::Unknown(w)) => same_unknown_fields(u.fields@, w.fields@),
        _ => x == y,
    }
}

/// Two values hold the same contents, at most `depth` messages deep:
/// strings of the same characters, bytes of the same bytes, lists of as
/// many elements of the same contents in the same order, maps of as many
/// entries of the same keys and values of the same contents in the same
/// order, messages whose slots hold the same contents, and otherwise
/// equal values.
pub open spec fn same_value(a: Value, b: Value, depth: nat) -> bool
    decreases depth, a,
{
    match (a, b) {
        (Value::String(x), Value::String(y)) => x@ == y@,
        (Value::Bytes(x), Value::Bytes(y)) => x@ == y@,
        (Value::List(x), Value::List(y)) => x@.len() == y@.len() && forall|i: int|
            0 <= i < x@.len() ==> same_value(#[trigger] x@[i], y@[i], depth),
        (Value::MapEntries(x), Value::MapEntries(y)) => x@.len() == y@.len() && forall|i: int|
            0 <= i < x@.len() ==> same_key((#[trigger] x@[i]).0, y@[i].0) && same_value(x@[i].1, y@[i].1, depth),
        (Value::Message(x), Value::Message(y)) => {
            &&& depth > 0
            &&& x.spec_map().dom() == y.spec_map().dom()
            &&& forall|k: u32|
                #[trigger] x.spec_map().dom().contains(k) ==> same_slot(x.spec_map()[k], y.spec_map()[k], (depth - 1) as nat)
        },
        _ => a == b,
    }
}

/// Two sets of slots hold the same contents: the same numbers, holding
/// slots of the same contents (`same_slot`).
pub open spec fn same_slots(x: Map<u32, ValueOrUnknown>, y: Map<u32, ValueOrUnknown>, depth: nat) -> bool {
    &&& x.dom() == y.dom()
    &&& forall|k: u32|
        #[trigger] x.dom().contains(k) ==> same_slot(x[k], y[k], depth)
}

/// A record merged from slots of the same contents as `before`, with the
/// record's slot holding a value of the same contents as `v`, leaves slots
/// of the same contents as `before` with `v` added.
proof fn lemma_same_slots_step(
    pool: DescriptorPoolInner,
    mi: int,
    b: Map<u32, ValueOrUnknown>,
    before: Map<u32, ValueOrUnknown>,
    n: u32,
    wt: WireType,
    s: Seq<u8>,
    depth: nat,
    m1: Map<u32, ValueOrUnknown>,
    r1: Seq<u8>,
    v: Value,
)
    requires
        same_slots(b, before, depth),
        !before.dom().contains(n),
        forall|m: u32| #[trigger] merge_siblings(pool, mi, n).contains(m) ==> !before.dom().contains(m),
        record_step(pool, mi, b, n, wt, s, depth, m1, r1),
        m1[n] is Value,
        same_value(m1[n]->Value_0, v, depth),
    ensures
        same_slots(m1, before.insert(n, ValueOrUnknown::Value(v)), depth),
{
    let sib = merge_siblings(pool, mi, n);
    let mid = before.insert(n, ValueOrUnknown::Value(v));
    assert(!sib.contains(n));
    assert forall|j: u32| #[trigger] m1.dom().contains(j) == mid.dom().contains(j) by {
        if j != n && !sib.contains(j) {
            assert(m1.remove_keys(sib).remove(n).dom().contains(j) == m1.dom().contains(j));
            assert(b.remove_keys(sib).remove(n).dom().contains(j) == b.dom().contains(j));
        }
    }
    assert(m1.dom() =~= mid.dom());
    assert forall|j: u32| #[trigger] m1.dom().contains(j) implies same_slot(m1[j], mid[j], depth) by {
        if j != n {
            assert(!sib.contains(j));
            assert(m1.remove_keys(sib).remove(n)[j] == m1[j]);
            assert(b.remove_keys(sib).remove(n)[j] == b[j]);
            assert(b.dom().contains(j));
        }
    }
}

/// Any merge of a record that a single scalar, string or bytes value, or
/// a packed list, that reads back writes, into a slot holding nothing,
/// leaves a value of the same contents.
#[verifier::spinoff_prover]
#[verifier::rlimit(40)]
proof fn lemma_record_same(
    pool: DescriptorPoolInner,
    info: FieldInfo,
    v: Value,
    t: Seq<u8>,
    depth: nat,
    a1: Seq<u8>,
    slot: ValueOrUnknown,
)
    requires
        pool.wf(),
        valid_tag(info.number as nat),
        pool.kind_ok(info.kind),
        valid_value(pool, info, v),
        reads_back(pool, info, v, depth),
        !info.kind.spec_is_message(),
        ({
            let wt = if info.is_list {
                WireType::LengthDelimited
            } else {
                spec_wire_type(info.kind)
            };
            let k = spec_key(info.number as nat, wt).len();
            record_merged(
                pool,
                info,
                wt,
                (spec_encode_present(pool, info, v) + t).skip(k as int),
                a1,
                None,
                slot,
                true,
                depth,
            )
        }),
    ensures
        slot is Value,
        same_value(slot->Value_0, v, depth),
    decreases depth, 1nat,
{
    let n = info.number;
    let wt = if info.is_list {
        WireType::LengthDelimited
    } else {
        spec_wire_type(info.kind)
    };
    let k = spec_key(n as nat, wt).len();
    let whole = spec_encode_present(pool, info, v) + t;
    law_record_roundtrip(pool, info, v, t, depth);
    broadcast use vstd::utf8::encode_utf8_decode_utf8;
    if v is List {
        let x = slot->Value_0->List_0@;
        let y = v->List_0@;
        assert(x == y);
        assert forall|i: int| 0 <= i < x.len() implies same_value(#[trigger] x[i], y[i], depth) by {
            assert(valid_element(pool, info.kind, y[i]));
            assert(!(x[i] is Message) && !(x[i] is List) && !(x[i] is String) && !(x[i] is Bytes));
        }
    }
    if v is String {
        let x = slot->Value_0->String_0@;
        let y = v->String_0@;
        assert(crate::descriptor::str_bytes(x) == crate::descriptor::str_bytes(y));
        assert(vstd::utf8::decode_utf8(vstd::utf8::encode_utf8(x)) == x);
        assert(vstd::utf8::decode_utf8(vstd::utf8::encode_utf8(y)) == y);
    }
}

/// A value of a field that reads back as the same contents from the
/// record or records it writes: the field packs only packable kinds; the
/// value writes its records (the field tracks presence, or the value is
/// not its default), which fit in memory; the single value, each element
/// of an unpacked list, or each value of a map (`entry_contents`) is a
/// scalar, string or bytes value, or a message or group whose slots read
/// back as the same contents (`slots_contents`), nested at most `depth`
/// messages deep.
pub open spec fn contents_read_back(pool: DescriptorPoolInner, info: FieldInfo, v: Value, depth: nat) -> bool
    decreases depth, 2nat,
{
    &&& info.is_group == (info.kind is Group)
    &&& info.is_list && info.is_packed ==> info.kind.spec_is_packable()
    &&& info.supports_presence || !is_default_for(pool, info, v)
    &&& spec_encode_present(pool, info, v).len() <= usize::MAX
    &&& if info.is_map {
        v is MapEntries && v->MapEntries_0@.len() > 0 && forall|i: int|
            0 <= i < v->MapEntries_0@.len() ==> entry_contents(
                pool,
                pool.map_entry_infos(info.kind).1,
                (#[trigger] v->MapEntries_0@[i]).1,
                depth,
            )
    } else if info.is_list && !info.is_packed {
        v is List && v->List_0@.len() > 0 && forall|i: int|
            0 <= i < v->List_0@.len() ==> element_contents(pool, info.kind, #[trigger] v->List_0@[i], depth)
    } else {
        element_contents(pool, info.kind, v, depth)
    }
}

/// The value of a map entry that reads back as the same contents from
/// the entry's record: it is written (the value field tracks presence, or
/// the value is not its default), or it is the value an entry without a
/// value record reads as (the declared default, else the kind's zero); it
/// is no group, and reads back as the same contents.
pub open spec fn entry_contents(pool: DescriptorPoolInner, vi: FieldInfo, v: Value, depth: nat) -> bool
    decreases depth, 1nat,
{
    &&& !(vi.kind is Group)
    &&& vi.supports_presence || !is_default_for(pool, vi, v) || crate::value::is_canonical_default(pool, vi, v)
    &&& element_contents(pool, vi.kind, v, depth)
}

/// A single value of a kind that reads back as the same contents: a
/// message or group of a message kind is one level deeper, and its slots
/// read back as the same contents.
pub open spec fn element_contents(pool: DescriptorPoolInner, kind: KindIndex, v: Value, depth: nat) -> bool
    decreases depth, 0nat,
{
    kind.spec_is_message() ==> depth > 0 && v is Message && slots_contents(
        pool,
        message_index_of(kind),
        v->Message_0.spec_slots(),
        (depth - 1) as nat,
    )
}

/// Each slot of a run of slots of message `mi` holds a value of a field or
/// extension of the message that reads back as the same contents, or
/// unknown fields, at a number of no field or extension, that nest their
/// groups within `depth` and fit in memory; no two slots hold members of
/// one oneof.
pub open spec fn slots_contents(pool: DescriptorPoolInner, mi: int, slots: Seq<(u32, ValueOrUnknown)>, depth: nat) -> bool
    decreases depth, 3nat,
{
    &&& forall|i: int, j: int|
        0 <= i < slots.len() && 0 <= j < slots.len() ==> !merge_siblings(pool, mi, (#[trigger] slots[i]).0).contains(
            (#[trigger] slots[j]).0,
        )
    &&& forall|i: int|
        0 <= i < slots.len() ==> match (#[trigger] slots[i]).1 {
            ValueOrUnknown::Value(v) => match record_info(pool, mi, slots[i].0) {
                Some(f) => contents_read_back(pool, f, v, depth),
                None => false,
            },
            ValueOrUnknown::Unknown(u) => {
                &&& record_info(pool, mi, slots[i].0) is None
                &&& u.fields@.len() > 0
                &&& unknown_fields_depth(u.fields@) <= depth
                &&& spec_encode_unknown_fields(u.fields@).len() <= usize::MAX
            },
            ValueOrUnknown::Taken => false,
        }
}

/// The slots `b` hold the same contents as `before`, and, from the `j`-th
/// element on, the list slot `n` holds `j` elements of the same contents
/// as the first `j` of `vs`.
pub open spec fn list_partial(
    b: Map<u32, ValueOrUnknown>,
    before: Map<u32, ValueOrUnknown>,
    n: u32,
    vs: Seq<Value>,
    j: int,
    depth: nat,
) -> bool {
    if j == 0 {
        same_slots(b, before, depth)
    } else {
        &&& b.dom() == before.dom().insert(n)
        &&& !before.dom().contains(n)
        &&& forall|k: u32|
            #[trigger] before.dom().contains(k) ==> same_slot(b[k], before[k], depth)
        &&& b[n] is Value
        &&& b[n]->Value_0 is List
        &&& b[n]->Value_0->List_0@.len() == j
        &&& forall|e: int| 0 <= e < j ==> same_value(#[trigger] b[n]->Value_0->List_0@[e], vs[e], depth)
    }
}

/// The record of one element of an unpacked list, followed by any bytes,
/// reads back as the field's key with the element's wire type.
proof fn lemma_element_key(pool: DescriptorPoolInner, info: FieldInfo, e: Value, t: Seq<u8>)
    requires
        valid_tag(info.number as nat),
        valid_element(pool, info.kind, e),
        spec_encode_present(pool, info, e).len() <= usize::MAX,
    ensures
        ({
            let rec = spec_encode_present(pool, info, e);
            let wt = crate::readable::element_wt(info);
            let k = spec_key(info.number as nat, wt).len();
            &&& spec_decode_key(rec + t) == Some((info.number, wt, k))
            &&& 1 <= k <= rec.len()
        }),
{
    let n = info.number;
    let rec = spec_encode_present(pool, info, e);
    crate::wire::lemma_key_len(n as nat, WireType::LengthDelimited);
    crate::wire::lemma_key_len(n as nat, WireType::StartGroup);
    crate::wire::lemma_key_len(n as nat, WireType::EndGroup);
    crate::wire::lemma_key_len(n as nat, WireType::Varint);
    crate::wire::lemma_key_len(n as nat, WireType::ThirtyTwoBit);
    crate::wire::lemma_key_len(n as nat, WireType::SixtyFourBit);
    lemma_decode_key_bounds_any(rec + t);
    if info.kind.spec_is_message() {
        let data = spec_encode_message(e->Message_0);
        crate::wire::lemma_field_lens(n as nat, 0, data, 0, 0);
        if info.is_group {
            let start = spec_key(n as nat, WireType::StartGroup);
            let end = spec_key(n as nat, WireType::EndGroup);
            assert(rec + t =~= start + (data + end + t));
            crate::decode::lemma_key_roundtrip(n, WireType::StartGroup, data + end + t);
        } else {
            lemma_len_record(n, data, t);
        }
    } else if e is String || e is Bytes {
        let data = match e {
            Value::String(x) => crate::wire::spec_utf8(x@),
            Value::Bytes(b) => b@,
            _ => Seq::empty(),
        };
        crate::wire::lemma_field_lens(n as nat, 0, data, 0, 0);
        crate::decode::lemma_payload_roundtrip(n, info.kind, e, t);
    } else {
        crate::decode::lemma_scalar_roundtrip(n, info.kind, e, t);
        let wt = spec_wire_type(info.kind);
        let k = spec_key(n as nat, wt).len();
        crate::decode::lemma_read_bounds(info.kind, wt, (rec + t).skip(k as int));
        let (raw, len) = crate::decode::spec_wire_scalar(info.kind, wt, (rec + t).skip(k as int))->Some_0;
        assert((rec + t).skip((k + len) as int).len() == t.len());
    }
}

/// A decoded key takes between one byte and what is left.
proof fn lemma_decode_key_bounds_any(s: Seq<u8>)
    ensures
        spec_decode_key(s) matches Some((n, wt, k)) ==> 1 <= k <= s.len(),
{
    if spec_decode_key(s) is Some {
        lemma_decode_key_bounds(s);
    }
}

/// A value that reads back as the same contents, and is no unpacked list
/// and no message, reads back.
proof fn lemma_contents_reads_back(pool: DescriptorPoolInner, info: FieldInfo, v: Value, depth: nat)
    requires
        contents_read_back(pool, info, v, depth),
        !info.is_map,
        !(info.is_list && !info.is_packed),
        !info.kind.spec_is_message(),
    ensures
        reads_back(pool, info, v, depth),
{
}

/// The record of a single value, or of a packed list, that reads back as
/// the same contents, followed by any bytes, reads back as its key.
proof fn lemma_single_key(pool: DescriptorPoolInner, info: FieldInfo, v: Value, t: Seq<u8>, depth: nat)
    requires
        pool.wf(),
        valid_tag(info.number as nat),
        pool.kind_ok(info.kind),
        valid_value(pool, info, v),
        contents_read_back(pool, info, v, depth),
        !(info.is_list && !info.is_packed),
        !info.is_map,
    ensures
        ({
            let rec = spec_encode_present(pool, info, v);
            let wt = if info.is_list {
                WireType::LengthDelimited
            } else {
                spec_wire_type(info.kind)
            };
            let k = spec_key(info.number as nat, wt).len();
            &&& spec_decode_key(rec + t) == Some((info.number, wt, k))
            &&& 1 <= k <= rec.len()
        }),
{
    let rec = spec_encode_present(pool, info, v);
    lemma_decode_key_bounds_any(rec + t);
    if info.kind.spec_is_message() && !info.is_group {
        reveal_with_fuel(crate::value::valid_value, 2);
        assert(valid_element(pool, info.kind, v));
        let data = spec_encode_message(v->Message_0);
        crate::wire::lemma_field_lens(info.number as nat, 0, data, 0, 0);
        crate::wire::lemma_key_len(info.number as nat, WireType::LengthDelimited);
        lemma_len_record(info.number, data, t);
    } else if info.kind.spec_is_message() {
        reveal_with_fuel(crate::value::valid_value, 2);
        assert(valid_element(pool, info.kind, v));
        let n = info.number;
        let data = spec_encode_message(v->Message_0);
        let start = spec_key(n as nat, WireType::StartGroup);
        let end = spec_key(n as nat, WireType::EndGroup);
        crate::wire::lemma_field_lens(n as nat, 0, data, 0, 0);
        crate::wire::lemma_key_len(n as nat, WireType::StartGroup);
        assert(rec == crate::wire::spec_group_field(n as nat, data));
        assert(rec + t =~= start + (data + end + t));
        crate::decode::lemma_key_roundtrip(n, WireType::StartGroup, data + end + t);
        crate::wire::lemma_varint_len((n * 8 + WireType::StartGroup.code()) as nat);
    } else {
        lemma_contents_reads_back(pool, info, v, depth);
        lemma_value_record(pool, info, v, t, depth);
    }
}

/// Any merge of the fields of a group written from message `m`, through
/// the group's end key, into an empty message, leaves slots of the same
/// contents as `m`'s, and the bytes after the end key.
proof fn lemma_group_same(
    pool: DescriptorPoolInner,
    mi: int,
    m: DynamicMessage,
    n: u32,
    t: Seq<u8>,
    depth: nat,
    before: Seq<u8>,
    a1: Seq<u8>,
    got: Map<u32, ValueOrUnknown>,
    c: nat,
)
    requires
        pool.wf(),
        0 <= mi < pool.messages@.len(),
        valid_tag(n as nat),
        m.fields_valid(),
        m.spec_pool() == pool,
        m.desc.index == mi,
        slots_contents(pool, mi, m.spec_slots(), depth),
        spec_encode_message(m).len() <= usize::MAX,
        before == spec_encode_message(m) + (spec_key(n as nat, WireType::EndGroup) + t),
        crate::decode::group_merged(pool, mi, Map::<u32, ValueOrUnknown>::empty(), n, before, depth, got, c),
        c <= before.len(),
        a1 == before.skip(c as int),
    ensures
        a1 == t,
        same_slots(got, m.spec_map(), depth),
    decreases depth, m.spec_slots().len() + 2, 0nat, 0nat,
{
    let slots = m.spec_slots();
    let data = spec_encode_message(m);
    let end = spec_key(n as nat, WireType::EndGroup);
    assert(data == spec_encode_slots(pool, mi, slots));
    assert(slots.take(0) =~= Seq::<(u32, ValueOrUnknown)>::empty());
    assert(slots.skip(0) =~= slots);
    assert(as_map(slots.take(0)) =~= Map::<u32, ValueOrUnknown>::empty());
    assert(m.spec_map() == as_map(slots));
    let g = Some((n, t));
    assert(spec_encode_slots(pool, mi, slots.skip(0)) + tail_of(g) =~= before);
    assert(merged_to(pool, mi, Map::<u32, ValueOrUnknown>::empty(), spec_encode_slots(pool, mi, slots.skip(0)), depth, got, g));
    lemma_slots_contents_same(pool, mi, slots, 0, depth, Map::<u32, ValueOrUnknown>::empty(), got, g);
    crate::decode::lemma_len_of_group_merged(pool, mi, Map::<u32, ValueOrUnknown>::empty(), n, before, depth, got, c);
    lemma_slots_contents_nests(pool, mi, slots, depth);
    crate::readable::lemma_group_body_len(pool, mi, slots, n, t, depth);
    assert(before.skip((data.len() + end.len()) as int) =~= t);
}

/// Any merge of the record of a single value, or of a packed list, that
/// reads back as the same contents, into a slot holding nothing, leaves a
/// value of the same contents, and the bytes after the record.
#[verifier::spinoff_prover]
#[verifier::rlimit(40)]
proof fn lemma_single_same(
    pool: DescriptorPoolInner,
    info: FieldInfo,
    v: Value,
    t: Seq<u8>,
    depth: nat,
    prior: Option<Value>,
    a1: Seq<u8>,
    slot: ValueOrUnknown,
)
    requires
        pool.wf(),
        valid_tag(info.number as nat),
        pool.kind_ok(info.kind),
        valid_value(pool, info, v),
        contents_read_back(pool, info, v, depth),
        !(info.is_list && !info.is_packed),
        !info.is_map,
        prior is None || !info.is_list && crate::decode::held_message(prior) == Map::<u32, ValueOrUnknown>::empty(),
        ({
            let wt = if info.is_list {
                WireType::LengthDelimited
            } else {
                spec_wire_type(info.kind)
            };
            let k = spec_key(info.number as nat, wt).len();
            record_merged(
                pool,
                info,
                wt,
                (spec_encode_present(pool, info, v) + t).skip(k as int),
                a1,
                prior,
                slot,
                true,
                depth,
            )
        }),
    ensures
        a1 == t,
        slot is Value,
        same_value(slot->Value_0, v, depth),
    decreases depth, 0nat, 0nat, 0nat,
{
    let n = info.number;
    let wt = if info.is_list {
        WireType::LengthDelimited
    } else {
        spec_wire_type(info.kind)
    };
    let k = spec_key(n as nat, wt).len();
    let whole = spec_encode_present(pool, info, v) + t;
    assert(record_merged(pool, info, wt, whole.skip(k as int), a1, None, slot, true, depth));
    if info.kind.spec_is_message() && !info.is_group {
        reveal_with_fuel(crate::value::valid_value, 2);
        assert(valid_element(pool, info.kind, v));
        let m = v->Message_0;
        let mi = message_index_of(info.kind);
        let slots = m.spec_slots();
        let data = spec_encode_message(m);
        assert(data == spec_encode_slots(pool, mi, slots));
        assert(spec_encode_present(pool, info, v) == crate::wire::spec_len_field(n as nat, data));
        crate::wire::lemma_field_lens(n as nat, 0, data, 0, 0);
        crate::wire::lemma_key_len(n as nat, WireType::LengthDelimited);
        lemma_len_record(n, data, t);
        assert(slots.take(0) =~= Seq::<(u32, ValueOrUnknown)>::empty());
        assert(slots.skip(0) =~= slots);
        assert(as_map(slots.take(0)) =~= Map::<u32, ValueOrUnknown>::empty());
        assert(crate::decode::held_message(None) == Map::<u32, ValueOrUnknown>::empty());
        assert(m.spec_map() == as_map(slots));
        assert(0 <= mi < pool.messages@.len());
        lemma_slots_contents_same(
            pool,
            mi,
            slots,
            0,
            (depth - 1) as nat,
            Map::<u32, ValueOrUnknown>::empty(),
            slot->Value_0->Message_0.spec_map(),
            None,
        );
    } else if info.kind.spec_is_message() {
        reveal_with_fuel(crate::value::valid_value, 2);
        assert(valid_element(pool, info.kind, v));
        let m = v->Message_0;
        let mi = message_index_of(info.kind);
        let data = spec_encode_message(m);
        let start = spec_key(n as nat, WireType::StartGroup);
        let end = spec_key(n as nat, WireType::EndGroup);
        crate::wire::lemma_field_lens(n as nat, 0, data, 0, 0);
        crate::wire::lemma_key_len(n as nat, WireType::StartGroup);
        crate::wire::lemma_varint_len((n * 8 + WireType::StartGroup.code()) as nat);
        assert(spec_encode_present(pool, info, v) == crate::wire::spec_group_field(n as nat, data));
        let before = whole.skip(k as int);
        assert(before =~= data + (end + t));
        assert(crate::decode::held_message(None) == Map::<u32, ValueOrUnknown>::empty());
        assert(0 <= mi < pool.messages@.len());
        let c = choose|c: nat|
            #![trigger crate::decode::group_extent(c)]
            crate::decode::group_extent(c) && crate::decode::group_merged(
                pool,
                mi,
                crate::decode::held_message(None),
                n,
                before,
                (depth - 1) as nat,
                slot->Value_0->Message_0.spec_map(),
                c,
            ) && c <= before.len() && a1 == before.skip(c as int);
        lemma_group_same(pool, mi, m, n, t, (depth - 1) as nat, before, a1, slot->Value_0->Message_0.spec_map(), c);
    } else {
        lemma_contents_reads_back(pool, info, v, depth);
        lemma_record_same(pool, info, v, t, depth, a1, slot);
        lemma_value_record(pool, info, v, t, depth);
        crate::decode::lemma_record_merged_rest(
            pool,
            info,
            wt,
            whole.skip(k as int),
            depth,
            a1,
            None,
            slot,
            t,
            None,
            ValueOrUnknown::Value(v),
        );
    }
}

/// Any merge of the record of one element of an unpacked list, into a
/// slot holding nothing or a list, leaves a list of one element more,
/// beginning with those held and ending with an element of the same
/// contents as the one written, and the bytes after the record.
#[verifier::spinoff_prover]
#[verifier::rlimit(60)]
proof fn lemma_element_same(
    pool: DescriptorPoolInner,
    info: FieldInfo,
    e: Value,
    t: Seq<u8>,
    depth: nat,
    prior: Option<Value>,
    a1: Seq<u8>,
    slot: ValueOrUnknown,
)
    requires
        pool.wf(),
        valid_tag(info.number as nat),
        pool.kind_ok(info.kind),
        info.is_list,
        !info.is_packed,
        !info.is_map,
        info.is_group == (info.kind is Group),
        valid_element(pool, info.kind, e),
        element_contents(pool, info.kind, e, depth),
        spec_encode_present(pool, info, e).len() <= usize::MAX,
        prior is None || prior matches Some(Value::List(_)),
        record_merged(
            pool,
            info,
            crate::readable::element_wt(info),
            (spec_encode_present(pool, info, e) + t).skip(
                spec_key(info.number as nat, crate::readable::element_wt(info)).len() as int,
            ),
            a1,
            prior,
            slot,
            true,
            depth,
        ),
    ensures
        a1 == t,
        slot is Value,
        slot->Value_0 is List,
        ({
            let held = match prior {
                Some(Value::List(vs)) => vs@,
                _ => Seq::empty(),
            };
            let l = slot->Value_0->List_0@;
            &&& l.len() == held.len() + 1
            &&& l.take(held.len() as int) == held
            &&& same_value(l.last(), e, depth)
        }),
    decreases depth, 0nat, 0nat, 0nat,
{
    broadcast use vstd::utf8::encode_utf8_decode_utf8;
    let n = info.number;
    let wt = crate::readable::element_wt(info);
    let k = spec_key(n as nat, wt).len();
    let rec = spec_encode_present(pool, info, e);
    let s = rec + t;
    let before = s.skip(k as int);
    let held = match prior {
        Some(Value::List(vs)) => vs@,
        _ => Seq::<Value>::empty(),
    };
    crate::wire::lemma_key_len(n as nat, WireType::LengthDelimited);
    crate::wire::lemma_key_len(n as nat, WireType::StartGroup);
    if info.kind.spec_is_message() {
        let m = e->Message_0;
        let mi = message_index_of(info.kind);
        let slots = m.spec_slots();
        let data = spec_encode_message(m);
        assert(data == spec_encode_slots(pool, mi, slots));
        assert(0 <= mi < pool.messages@.len());
        assert(slots.take(0) =~= Seq::<(u32, ValueOrUnknown)>::empty());
        assert(slots.skip(0) =~= slots);
        assert(as_map(slots.take(0)) =~= Map::<u32, ValueOrUnknown>::empty());
        assert(m.spec_map() == as_map(slots));
        crate::wire::lemma_field_lens(n as nat, 0, data, 0, 0);
        let l = slot->Value_0->List_0@;
        if info.is_group {
            let end = spec_key(n as nat, WireType::EndGroup);
            let start = spec_key(n as nat, WireType::StartGroup);
            assert(rec == crate::wire::spec_group_field(n as nat, data));
            assert(before =~= data + end + t);
            assert(spec_encode_slots(pool, mi, slots.skip(0)) + end + t =~= data + end + t);
            let c = choose|c: nat|
                #![trigger crate::decode::group_extent(c)]
                crate::decode::group_extent(c) && crate::decode::group_merged(
                    pool,
                    mi,
                    Map::<u32, ValueOrUnknown>::empty(),
                    n,
                    before,
                    (depth - 1) as nat,
                    l.last()->Message_0.spec_map(),
                    c,
                ) && c <= before.len() && a1 == before.skip(c as int);
            assert(before =~= data + (end + t));
            lemma_group_same(pool, mi, m, n, t, (depth - 1) as nat, before, a1, l.last()->Message_0.spec_map(), c);
        } else {
            assert(rec == crate::wire::spec_len_field(n as nat, data));
            lemma_len_record(n, data, t);
            lemma_slots_contents_same(
                pool,
                mi,
                slots,
                0,
                (depth - 1) as nat,
                Map::<u32, ValueOrUnknown>::empty(),
                l.last()->Message_0.spec_map(),
                None,
            );
        }
    } else if e is String || e is Bytes {
        crate::decode::lemma_payload_roundtrip(n, info.kind, e, t);
        let (payload, len) = crate::decode::spec_wire_payload(WireType::LengthDelimited, before)->Some_0;
        assert(s.skip((k + len) as int) =~= before.skip(len as int));
        if e is String {
            let x = slot->Value_0->List_0@.last()->String_0@;
            let y = e->String_0@;
            assert(crate::descriptor::str_bytes(x) == crate::descriptor::str_bytes(y));
            assert(vstd::utf8::decode_utf8(vstd::utf8::encode_utf8(x)) == x);
            assert(vstd::utf8::decode_utf8(vstd::utf8::encode_utf8(y)) == y);
        }
    } else {
        crate::decode::lemma_scalar_roundtrip(n, info.kind, e, t);
        lemma_decode_key_bounds_any(s);
        crate::decode::lemma_read_bounds(info.kind, wt, before);
        let (raw, len) = crate::decode::spec_wire_scalar(info.kind, wt, before)->Some_0;
        assert(s.skip((k + len) as int) =~= before.skip(len as int));
        let l = slot->Value_0->List_0@;
        assert(l == held.push(e));
        assert(l.take(held.len() as int) =~= held);
        assert(l.last() == e);
        assert(!(e is Message) && !(e is List) && !(e is String) && !(e is Bytes) && !(e is MapEntries));
    }
}

/// The bytes that follow a run of records: nothing at the top of a
/// message, or a group's end key and what follows it.
pub open spec fn tail_of(g: Option<(u32, Seq<u8>)>) -> Seq<u8> {
    match g {
        None => Seq::empty(),
        Some((tag, rest)) => spec_key(tag as nat, WireType::EndGroup) + rest,
    }
}

/// The records `bytes` merged into message `mi`, from `b` to `a`: on
/// their own (`g` is `None`), or as the fields of a group numbered `tag`
/// followed by its end key and `rest`.
pub open spec fn merged_to(
    pool: DescriptorPoolInner,
    mi: int,
    b: Map<u32, ValueOrUnknown>,
    bytes: Seq<u8>,
    depth: nat,
    a: Map<u32, ValueOrUnknown>,
    g: Option<(u32, Seq<u8>)>,
) -> bool {
    match g {
        None => records_merged(pool, mi, b, bytes, depth, a),
        Some((tag, rest)) => exists|c: nat|
            #[trigger] crate::decode::group_merged(pool, mi, b, tag, bytes + tail_of(g), depth, a, c),
    }
}

/// A merge of no records leaves the slots as they were.
proof fn lemma_merged_none(
    pool: DescriptorPoolInner,
    mi: int,
    b: Map<u32, ValueOrUnknown>,
    depth: nat,
    a: Map<u32, ValueOrUnknown>,
    g: Option<(u32, Seq<u8>)>,
)
    requires
        merged_to(pool, mi, b, Seq::empty(), depth, a, g),
        g matches Some((tag, _)) ==> valid_tag(tag as nat),
    ensures
        a == b,
{
    if let Some((tag, rest)) = g {
        let c = choose|c: nat| #[trigger] crate::decode::group_merged(pool, mi, b, tag, Seq::<u8>::empty() + tail_of(g), depth, a, c);
        assert(Seq::<u8>::empty() + tail_of(g) =~= spec_key(tag as nat, WireType::EndGroup) + rest);
        crate::decode::lemma_key_roundtrip(tag, WireType::EndGroup, rest);
        crate::wire::lemma_varint_len((tag * 8 + WireType::EndGroup.code()) as nat);
    }
}

/// The first record of a merge of records: its step, and the merge of
/// the records after it.
proof fn lemma_take_step(
    pool: DescriptorPoolInner,
    mi: int,
    b: Map<u32, ValueOrUnknown>,
    whole: Seq<u8>,
    depth: nat,
    a: Map<u32, ValueOrUnknown>,
    g: Option<(u32, Seq<u8>)>,
    n: u32,
    wt: WireType,
    k: nat,
) -> (r: (Map<u32, ValueOrUnknown>, Seq<u8>))
    requires
        merged_to(pool, mi, b, whole, depth, a, g),
        whole.len() > 0,
        spec_decode_key(whole + tail_of(g)) == Some((n, wt, k)),
        1 <= k <= whole.len(),
        wt != WireType::EndGroup,
    ensures
        record_step(pool, mi, b, n, wt, (whole + tail_of(g)).skip(k as int), depth, r.0, r.1),
        forall|t: Seq<u8>| r.1 == t + tail_of(g) ==> #[trigger] merged_to(pool, mi, r.0, t, depth, a, g),
{
    match g {
        None => {
            assert(whole + tail_of(g) =~= whole);
            let (mid, rest) = choose|mid: Map<u32, ValueOrUnknown>, rest: Seq<u8>|
                #![trigger merge_point(mid, rest)]
                merge_point(mid, rest) && rest.len() < whole.len() && record_step(
                    pool,
                    mi,
                    b,
                    n,
                    wt,
                    whole.skip(k as int),
                    depth,
                    mid,
                    rest,
                ) && records_merged(pool, mi, mid, rest, depth, a);
            assert forall|t: Seq<u8>| rest == t + tail_of(g) implies #[trigger] merged_to(pool, mi, mid, t, depth, a, g) by {
                assert(t + tail_of(g) =~= t);
            }
            (mid, rest)
        },
        Some((tag, rest0)) => {
            let s = whole + tail_of(g);
            let c = choose|c: nat| #[trigger] crate::decode::group_merged(pool, mi, b, tag, s, depth, a, c);
            let (mid, rest, c1) = choose|mid: Map<u32, ValueOrUnknown>, rest: Seq<u8>, c1: nat|
                #![trigger crate::decode::group_point(mid, rest, c1)]
                crate::decode::group_point(mid, rest, c1) && rest.len() < s.len() && record_step(
                    pool,
                    mi,
                    b,
                    n,
                    wt,
                    s.skip(k as int),
                    depth,
                    mid,
                    rest,
                ) && crate::decode::group_merged(pool, mi, mid, tag, rest, depth, a, c1) && c == (s.len() - rest.len()) + c1;
            assert forall|t: Seq<u8>| rest == t + tail_of(g) implies #[trigger] merged_to(pool, mi, mid, t, depth, a, g) by {
                assert(crate::decode::group_merged(pool, mi, mid, tag, t + tail_of(g), depth, a, c1));
            }
            (mid, rest)
        },
    }
}

/// The position of slot `i` in a sorted run of slots that holds no two
/// members of one oneof: its slot joins those before it, and no member of
/// its oneof is among them.
proof fn lemma_slot_joins(pool: DescriptorPoolInner, mi: int, s: Seq<(u32, ValueOrUnknown)>, i: int)
    requires
        sorted_by_number(s),
        0 <= i < s.len(),
        forall|x: int, y: int|
            0 <= x < s.len() && 0 <= y < s.len() ==> !merge_siblings(pool, mi, (#[trigger] s[x]).0).contains(
                (#[trigger] s[y]).0,
            ),
    ensures
        as_map(s.take(i + 1)) == as_map(s.take(i)).insert(s[i].0, s[i].1),
        !as_map(s.take(i)).dom().contains(s[i].0),
        forall|m: u32| #[trigger] merge_siblings(pool, mi, s[i].0).contains(m) ==> !as_map(s.take(i)).dom().contains(m),
        !merge_siblings(pool, mi, s[i].0).contains(s[i].0),
{
    let n = s[i].0;
    assert forall|j: int| 0 <= j < i implies (#[trigger] s.take(i)[j]).0 < n by {
        assert(s.take(i)[j] == s[j]);
    }
    lemma_insert(s.take(i), i, n, s[i].1);
    assert(s.take(i).insert(i, (n, s[i].1)) =~= s.take(i + 1));
    assert forall|j: int| 0 <= j < s.len() implies !merge_siblings(pool, mi, n).contains(#[trigger] s[j].0) by {
        assert(!merge_siblings(pool, mi, s[i].0).contains(s[j].0));
    }
    lemma_no_sibling_slots(pool, mi, s, i, n);
}

/// Any merge of the records of the slots from position `i` on, into
/// slots of the same contents as those before `i`, leaves slots of the
/// same contents as all the slots, when each slot reads back as the same
/// contents.
#[verifier::spinoff_prover]
#[verifier::rlimit(40)]
proof fn lemma_slots_contents_same(
    pool: DescriptorPoolInner,
    mi: int,
    s: Seq<(u32, ValueOrUnknown)>,
    i: int,
    depth: nat,
    b: Map<u32, ValueOrUnknown>,
    a: Map<u32, ValueOrUnknown>,
    g: Option<(u32, Seq<u8>)>,
)
    requires
        pool.wf(),
        0 <= mi < pool.messages@.len(),
        sorted_by_number(s),
        forall|j: int| 0 <= j < s.len() ==> slot_ok(pool, mi, (#[trigger] s[j]).0, s[j].1),
        slots_contents(pool, mi, s, depth),
        0 <= i <= s.len(),
        same_slots(b, as_map(s.take(i)), depth),
        merged_to(pool, mi, b, spec_encode_slots(pool, mi, s.skip(i)), depth, a, g),
        g matches Some((tag, _)) ==> valid_tag(tag as nat),
    ensures
        same_slots(a, as_map(s), depth),
    decreases depth, s.len() - i + 1, 1nat, 0nat,
{
    if i == s.len() {
        assert(s.skip(i) =~= Seq::<(u32, ValueOrUnknown)>::empty());
        assert(s.take(i) =~= s);
        assert(spec_encode_slots(pool, mi, s.skip(i)) =~= Seq::<u8>::empty());
        lemma_merged_none(pool, mi, b, depth, a, g);
    } else if s[i].1 is Unknown {
        let n = s[i].0;
        let fs = s[i].1->Unknown_0.fields@;
        assert(slot_ok(pool, mi, s[i].0, s[i].1));
        let later = spec_encode_slots(pool, mi, s.skip(i + 1));
        let whole = spec_encode_slots(pool, mi, s.skip(i));
        lemma_encode_slots_concat(pool, mi, seq![s[i]], s.skip(i + 1));
        assert(seq![s[i]] + s.skip(i + 1) =~= s.skip(i));
        assert(seq![s[i]].drop_last() =~= Seq::<(u32, ValueOrUnknown)>::empty());
        assert(seq![s[i]].last() == s[i]);
        assert(spec_encode_slots(pool, mi, Seq::<(u32, ValueOrUnknown)>::empty()) == Seq::<u8>::empty());
        let x = spec_encode_slot(pool, mi, s[i]);
        assert(spec_encode_slots(pool, mi, seq![s[i]]) =~= x);
        assert(whole == x + later);
        assert(fs.skip(0) =~= fs);
        assert(unknown_partial(b, as_map(s.take(i)), n, fs, 0, depth));
        lemma_unknown_contents_same(pool, mi, s, i, 0, depth, b, a, g);
    } else {
        let n = s[i].0;
        let v = s[i].1->Value_0;
        assert(slot_ok(pool, mi, s[i].0, s[i].1));
        lemma_record_info_number(pool, mi, n);
        let info = record_info(pool, mi, n)->Some_0;
        assert(valid_value(pool, info, v));
        let later = spec_encode_slots(pool, mi, s.skip(i + 1));
        let whole = spec_encode_slots(pool, mi, s.skip(i));
        lemma_encode_slots_concat(pool, mi, seq![s[i]], s.skip(i + 1));
        assert(seq![s[i]] + s.skip(i + 1) =~= s.skip(i));
        assert(seq![s[i]].drop_last() =~= Seq::<(u32, ValueOrUnknown)>::empty());
        assert(seq![s[i]].last() == s[i]);
        assert(spec_encode_slots(pool, mi, Seq::<(u32, ValueOrUnknown)>::empty()) == Seq::<u8>::empty());
        let x = spec_encode_slot(pool, mi, s[i]);
        assert(spec_encode_slots(pool, mi, seq![s[i]]) =~= x);
        assert(whole == x + later);
        assert(x == spec_encode_present(pool, info, v));
        lemma_slot_joins(pool, mi, s, i);
        let before = as_map(s.take(i));
        if info.is_map {
            let es = v->MapEntries_0@;
            assert(es.skip(0) =~= es);
            assert(map_partial(b, before, n, es, 0, depth));
            lemma_map_contents_same(pool, mi, s, i, 0, depth, b, a, g);
        } else if info.is_list && !info.is_packed {
            let vs = v->List_0@;
            assert(vs.skip(0) =~= vs);
            assert(list_partial(b, before, n, vs, 0, depth));
            lemma_list_contents_same(pool, mi, s, i, 0, depth, b, a, g);
        } else {
            let wt = if info.is_list {
                WireType::LengthDelimited
            } else {
                spec_wire_type(info.kind)
            };
            let k = spec_key(n as nat, wt).len();
            let tl = tail_of(g);
            lemma_single_key(pool, info, v, later + tl, depth);
            assert(whole + tl =~= x + (later + tl));
            let (mid, rest) = lemma_take_step(pool, mi, b, whole, depth, a, g, n, wt, k);
            assert(!b.dom().contains(n));
            assert(value_in(b, n) is None);
            lemma_single_same(pool, info, v, later + tl, depth, None, rest, mid[n]);
            lemma_same_slots_step(pool, mi, b, before, n, wt, (whole + tl).skip(k as int), depth, mid, rest, v);
            assert(merged_to(pool, mi, mid, later, depth, a, g));
            lemma_slots_contents_same(pool, mi, s, i + 1, depth, mid, a, g);
        }
    }
}

/// Any merge of the records of the elements of the unpacked list at
/// position `i` from its `j`-th element on, then of the slots after it,
/// into slots holding the same contents as those before `i` and the
/// list's first `j` elements, leaves slots of the same contents as all
/// the slots.
#[verifier::spinoff_prover]
#[verifier::rlimit(100)]
proof fn lemma_list_contents_same(
    pool: DescriptorPoolInner,
    mi: int,
    s: Seq<(u32, ValueOrUnknown)>,
    i: int,
    j: int,
    depth: nat,
    b: Map<u32, ValueOrUnknown>,
    a: Map<u32, ValueOrUnknown>,
    g: Option<(u32, Seq<u8>)>,
)
    requires
        pool.wf(),
        0 <= mi < pool.messages@.len(),
        sorted_by_number(s),
        forall|x: int| 0 <= x < s.len() ==> slot_ok(pool, mi, (#[trigger] s[x]).0, s[x].1),
        slots_contents(pool, mi, s, depth),
        0 <= i < s.len(),
        record_info(pool, mi, s[i].0) matches Some(f) && f.is_list && !f.is_packed,
        0 <= j <= s[i].1->Value_0->List_0@.len(),
        list_partial(b, as_map(s.take(i)), s[i].0, s[i].1->Value_0->List_0@, j, depth),
        merged_to(
            pool,
            mi,
            b,
            spec_encode_list(pool, record_info(pool, mi, s[i].0)->Some_0, s[i].1->Value_0->List_0@.skip(j))
                + spec_encode_slots(pool, mi, s.skip(i + 1)),
            depth,
            a,
            g,
        ),
        g matches Some((tag, _)) ==> valid_tag(tag as nat),
    ensures
        same_slots(a, as_map(s), depth),
    decreases depth, s.len() - i + 1, 0nat, s[i].1->Value_0->List_0@.len() - j,
{
    let n = s[i].0;
    let v = s[i].1->Value_0;
    let vs = v->List_0@;
    assert(slot_ok(pool, mi, s[i].0, s[i].1));
    lemma_record_info_number(pool, mi, n);
    let info = record_info(pool, mi, n)->Some_0;
    assert(valid_value(pool, info, v));
    assert(contents_read_back(pool, info, v, depth));
    let later = spec_encode_slots(pool, mi, s.skip(i + 1));
    let before = as_map(s.take(i));
    lemma_slot_joins(pool, mi, s, i);
    if j == vs.len() {
        assert(vs.skip(j) =~= Seq::<Value>::empty());
        assert(spec_encode_list(pool, info, vs.skip(j)) + later =~= later);
        let after = as_map(s.take(i + 1));
        assert(after == before.insert(n, s[i].1));
        assert forall|k: u32| #[trigger] b.dom().contains(k) implies same_slot(b[k], after[k], depth) by {
            if k == n {
                assert(same_value(b[n]->Value_0, v, depth));
            }
        }
        assert(b.dom() =~= after.dom());
        assert(same_slots(b, after, depth));
        lemma_slots_contents_same(pool, mi, s, i + 1, depth, b, a, g);
    } else {
        let e = vs[j];
        assert(valid_element(pool, info.kind, e));
        assert(element_contents(pool, info.kind, e, depth));
        let rec = spec_encode_value(pool, info, e);
        assert(rec == spec_encode_present(pool, info, e));
        crate::encode::lemma_encode_list_concat(pool, info, seq![e], vs.skip(j + 1));
        assert(seq![e] + vs.skip(j + 1) =~= vs.skip(j));
        assert(seq![e].drop_last() =~= Seq::<Value>::empty());
        assert(spec_encode_list(pool, info, Seq::<Value>::empty()) == Seq::<u8>::empty());
        assert(spec_encode_list(pool, info, seq![e]) =~= rec);
        let t = spec_encode_list(pool, info, vs.skip(j + 1)) + later;
        let whole = spec_encode_list(pool, info, vs.skip(j)) + later;
        assert(whole =~= rec + t);
        assert(rec.len() <= spec_encode_present(pool, info, v).len()) by {
            crate::encode::lemma_encode_list_concat(pool, info, vs.take(j), vs.skip(j));
            assert(vs.take(j) + vs.skip(j) =~= vs);
        }
        let tl = tail_of(g);
        lemma_element_key(pool, info, e, t + tl);
        assert(whole + tl =~= rec + (t + tl));
        let wt = crate::readable::element_wt(info);
        let k = spec_key(n as nat, wt).len();
        let (mid, rest) = lemma_take_step(pool, mi, b, whole, depth, a, g, n, wt, k);
        let prior = value_in(b, n);
        if j == 0 {
            assert(!b.dom().contains(n));
        }
        lemma_element_same(pool, info, e, t + tl, depth, prior, rest, mid[n]);
        assert(merged_to(pool, mi, mid, t, depth, a, g));
        let sib = merge_siblings(pool, mi, n);
        let held = match prior {
            Some(Value::List(ws)) => ws@,
            _ => Seq::<Value>::empty(),
        };
        assert(held.len() == j);
        assert forall|k2: u32| #[trigger] mid.dom().contains(k2) == before.dom().insert(n).contains(k2) by {
            if k2 != n && !sib.contains(k2) {
                assert(mid.remove_keys(sib).remove(n).dom().contains(k2) == mid.dom().contains(k2));
                assert(b.remove_keys(sib).remove(n).dom().contains(k2) == b.dom().contains(k2));
            }
        }
        assert(mid.dom() =~= before.dom().insert(n));
        assert forall|k2: u32| #[trigger] before.dom().contains(k2) implies same_slot(mid[k2], before[k2], depth) by {
            assert(k2 != n);
            assert(!sib.contains(k2));
            assert(mid.remove_keys(sib).remove(n)[k2] == mid[k2]);
            assert(b.remove_keys(sib).remove(n)[k2] == b[k2]);
            assert(b.dom().contains(k2));
        }
        let l = mid[n]->Value_0->List_0@;
        assert forall|x: int| 0 <= x < j + 1 implies same_value(#[trigger] l[x], vs[x], depth) by {
            if x < j {
                assert(l[x] == l.take(j)[x]);
                assert(l[x] == held[x]);
            }
        }
        assert(list_partial(mid, before, n, vs, j + 1, depth));
        lemma_list_contents_same(pool, mi, s, i, j + 1, depth, mid, a, g);
    }
}

/// The slots `b` hold the same contents as `before`, and, from the `j`-th
/// entry on, the map slot `n` holds `j` entries of the same keys and
/// contents as the first `j` of `es`.
pub open spec fn map_partial(
    b: Map<u32, ValueOrUnknown>,
    before: Map<u32, ValueOrUnknown>,
    n: u32,
    es: Seq<(MapKey, Value)>,
    j: int,
    depth: nat,
) -> bool {
    if j == 0 {
        same_slots(b, before, depth)
    } else {
        &&& b.dom() == before.dom().insert(n)
        &&& !before.dom().contains(n)
        &&& forall|k: u32|
            #[trigger] before.dom().contains(k) ==> same_slot(b[k], before[k], depth)
        &&& b[n] is Value
        &&& b[n]->Value_0 is MapEntries
        &&& b[n]->Value_0->MapEntries_0@.len() == j
        &&& forall|e: int|
            0 <= e < j ==> same_key((#[trigger] b[n]->Value_0->MapEntries_0@[e]).0, es[e].0) && same_value(
                b[n]->Value_0->MapEntries_0@[e].1,
                es[e].1,
                depth,
            )
    }
}

/// The records of two runs of map entries, one after the other, are those
/// of the first run followed by those of the second.
proof fn lemma_encode_map_concat(pool: DescriptorPoolInner, info: FieldInfo, a: Seq<(MapKey, Value)>, b: Seq<(MapKey, Value)>)
    ensures
        spec_encode_map(pool, info, a + b) == spec_encode_map(pool, info, a) + spec_encode_map(pool, info, b),
    decreases b.len(),
{
    if b.len() == 0 {
        assert(a + b =~= a);
        assert(spec_encode_map(pool, info, a) + Seq::<u8>::empty() =~= spec_encode_map(pool, info, a));
    } else {
        assert((a + b).drop_last() =~= a + b.drop_last());
        assert((a + b).last() == b.last());
        lemma_encode_map_concat(pool, info, a, b.drop_last());
        assert(spec_encode_map(pool, info, a + b) =~= spec_encode_map(pool, info, a) + spec_encode_map(pool, info, b));
    }
}

/// Keys that are the same key as a third are the same key as each other.
proof fn lemma_same_key_equiv(a: MapKey, b: MapKey, c: MapKey)
    ensures
        same_key(a, a),
        same_key(a, b) ==> same_key(b, a),
        same_key(a, b) && same_key(b, c) ==> same_key(a, c),
{
}

/// Two zero values of a kind hold the same contents.
proof fn lemma_zero_same(pool: DescriptorPoolInner, kind: KindIndex, x: Value, y: Value, depth: nat)
    requires
        is_kind_zero(pool, kind, x),
        is_kind_zero(pool, kind, y),
        kind.spec_is_message() ==> depth > 0,
    ensures
        same_value(x, y, depth),
{
    if kind.spec_is_message() {
        assert(x->Message_0.spec_slots() =~= Seq::<(u32, ValueOrUnknown)>::empty());
        assert(y->Message_0.spec_slots() =~= Seq::<(u32, ValueOrUnknown)>::empty());
        assert(x->Message_0.spec_map() =~= Map::<u32, ValueOrUnknown>::empty());
        assert(y->Message_0.spec_map() =~= Map::<u32, ValueOrUnknown>::empty());
    } else if kind is String {
        assert(x->String_0@ =~= y->String_0@);
    } else if kind is Bytes {
        assert(x->Bytes_0@ =~= y->Bytes_0@);
    }
}

/// A key read back from a key record written from `key` is the same key.
proof fn lemma_key_from_value(kind: KindIndex, k: MapKey, key: MapKey)
    requires
        key_matches_kind(kind, k),
        key_matches_kind(kind, key),
        crate::encode::key_as_value(k) == crate::encode::key_as_value(key),
    ensures
        same_key(k, key),
{
}

/// Reading the value record of a map entry, if there is one, from the
/// value field's zero: any read leaves the key as it was, and a value of
/// the same contents as the one written.
#[verifier::spinoff_prover]
#[verifier::rlimit(40)]
proof fn lemma_entry_value_same(
    pool: DescriptorPoolInner,
    ki: FieldInfo,
    vi: FieldInfo,
    kx: MapKey,
    v0: Value,
    val: Value,
    depth: nat,
    k: MapKey,
    v: Value,
)
    requires
        pool.wf(),
        vi.number == crate::descriptor::MAP_ENTRY_VALUE_NUMBER,
        pool.kind_ok(vi.kind),
        !vi.is_list,
        !vi.is_map,
        !vi.is_group,
        crate::value::is_canonical_default(pool, vi, v0),
        vi.default matches Some(d) ==> crate::value::scalar_matches_kind(vi.kind, d),
        valid_value(pool, vi, val),
        entry_contents(pool, vi, val, depth),
        spec_encode_value(pool, vi, val).len() <= usize::MAX,
        crate::decode::entry_merged(pool, ki, vi, kx, v0, spec_encode_value(pool, vi, val), depth, k, v),
    ensures
        k == kx,
        same_value(v, val, depth),
    decreases depth, 0nat, 1nat, 0nat,
{
    let vf = spec_encode_value(pool, vi, val);
    if !vi.supports_presence && is_default_for(pool, vi, val) {
        assert(vf =~= Seq::<u8>::empty());
        assert(crate::value::is_canonical_default(pool, vi, val));
        if vi.default is None {
            lemma_zero_same(pool, vi.kind, v, val, depth);
        } else {
            let d = vi.default->Some_0;
            assert(crate::value::same_scalar(v, d) && crate::value::same_scalar(val, d));
            if v is String {
                assert(v->String_0@ == val->String_0@);
            } else if v is Bytes {
                assert(v->Bytes_0@ == val->Bytes_0@);
            }
        }
    } else {
        assert(vf == spec_encode_present(pool, vi, val));
        assert(contents_read_back(pool, vi, val, depth));
        lemma_single_key(pool, vi, val, Seq::empty(), depth);
        assert(vf + Seq::<u8>::empty() =~= vf);
        let wt = spec_wire_type(vi.kind);
        let kk = spec_key(vi.number as nat, wt).len();
        let (k1, v1, rest) = choose|k1: MapKey, v1: Value, rest: Seq<u8>|
            #![trigger crate::decode::entry_point(k1, v1, rest)]
            crate::decode::entry_point(k1, v1, rest) && rest.len() < vf.len() && crate::decode::entry_step(
                pool,
                ki,
                vi,
                kx,
                v0,
                vi.number,
                wt,
                vf.skip(kk as int),
                depth,
                k1,
                v1,
                rest,
            ) && crate::decode::entry_merged(pool, ki, vi, k1, v1, rest, depth, k, v);
        if vi.kind.spec_is_message() {
            assert(is_kind_zero(pool, vi.kind, v0));
            assert(v0->Message_0.spec_slots() =~= Seq::<(u32, ValueOrUnknown)>::empty());
            assert(v0->Message_0.spec_map() =~= Map::<u32, ValueOrUnknown>::empty());
        }
        lemma_single_same(pool, vi, val, Seq::empty(), depth, Some(v0), rest, ValueOrUnknown::Value(v1));
    }
}

/// Any read of the records of a map entry written from `key` and `val`
/// gives the same key, and a value of the same contents.
#[verifier::spinoff_prover]
#[verifier::rlimit(40)]
proof fn lemma_entry_same(
    pool: DescriptorPoolInner,
    info: FieldInfo,
    key: MapKey,
    val: Value,
    depth: nat,
    k: MapKey,
    v: Value,
)
    requires
        pool.wf(),
        info.is_map,
        info.kind is Message,
        info.kind->Message_0 < pool.messages@.len(),
        pool.messages@[info.kind->Message_0 as int].map_entry,
        key_matches_kind(pool.map_entry_infos(info.kind).0.kind, key),
        valid_value(pool, pool.map_entry_infos(info.kind).1, val),
        entry_contents(pool, pool.map_entry_infos(info.kind).1, val, depth),
        spec_encode_key_field(pool.map_entry_infos(info.kind).0, key).len() + spec_encode_value(
            pool,
            pool.map_entry_infos(info.kind).1,
            val,
        ).len() <= usize::MAX,
        crate::decode::entry_read(
            pool,
            pool.map_entry_infos(info.kind).0,
            pool.map_entry_infos(info.kind).1,
            spec_encode_key_field(pool.map_entry_infos(info.kind).0, key) + spec_encode_value(
                pool,
                pool.map_entry_infos(info.kind).1,
                val,
            ),
            depth,
            k,
            v,
        ),
    ensures
        same_key(k, key),
        same_value(v, val, depth),
    decreases depth, 0nat, 2nat, 0nat,
{
    broadcast use vstd::utf8::encode_utf8_decode_utf8;
    let (ki, vi) = pool.map_entry_infos(info.kind);
    crate::readable::lemma_entry_facts(pool, info.kind);
    let e = info.kind->Message_0 as int;
    assert(pool.message_ok(e));
    let map = pool.messages@[e].field_numbers.spec_map();
    assert(map.dom().contains(crate::descriptor::MAP_ENTRY_KEY_NUMBER));
    assert(pool.field_ok(e, map[crate::descriptor::MAP_ENTRY_KEY_NUMBER] as int));
    let kf = spec_encode_key_field(ki, key);
    let vf = spec_encode_value(pool, vi, val);
    let data = kf + vf;
    let (k0, v0) = choose|k0: MapKey, v0: Value|
        #![trigger crate::decode::entry_start(k0, v0)]
        crate::decode::entry_start(k0, v0) && is_default_key(k0, ki.kind) && crate::value::is_canonical_default(
            pool,
            vi,
            v0,
        ) && crate::decode::entry_merged(pool, ki, vi, k0, v0, data, depth, k, v);
    if !ki.supports_presence && is_default_key(key, ki.kind) {
        assert(kf =~= Seq::<u8>::empty());
        assert(data =~= vf);
        lemma_entry_value_same(pool, ki, vi, k0, v0, val, depth, k, v);
        if key is String {
            assert(k0->String_0@ =~= key->String_0@);
        }
    } else {
        let kv = crate::encode::key_as_value(key);
        assert(kf == crate::encode::spec_encode_scalar(ki.number as nat, ki.kind, kv));
        let (wt, kk) = if key is String {
            (WireType::LengthDelimited, spec_key(ki.number as nat, WireType::LengthDelimited).len())
        } else {
            (spec_wire_type(ki.kind), spec_key(ki.number as nat, spec_wire_type(ki.kind)).len())
        };
        if key is String {
            let d = crate::wire::spec_utf8(kv->String_0@);
            crate::wire::lemma_field_lens(ki.number as nat, 0, d, 0, 0);
            crate::decode::lemma_payload_roundtrip(ki.number, ki.kind, kv, vf);
        } else {
            crate::decode::lemma_scalar_roundtrip(ki.number, ki.kind, kv, vf);
        }
        let (k1, v1, rest) = choose|k1: MapKey, v1: Value, rest: Seq<u8>|
            #![trigger crate::decode::entry_point(k1, v1, rest)]
            crate::decode::entry_point(k1, v1, rest) && rest.len() < data.len() && crate::decode::entry_step(
                pool,
                ki,
                vi,
                k0,
                v0,
                ki.number,
                wt,
                data.skip(kk as int),
                depth,
                k1,
                v1,
                rest,
            ) && crate::decode::entry_merged(pool, ki, vi, k1, v1, rest, depth, k, v);
        lemma_decode_key_bounds_any(data);
        if key is String {
            let (payload, len) = crate::decode::spec_wire_payload(WireType::LengthDelimited, data.skip(kk as int))->Some_0;
            assert(data.skip((kk + len) as int) =~= data.skip(kk as int).skip(len as int));
            let x = k1->String_0@;
            let y = key->String_0@;
            assert(crate::descriptor::str_bytes(x) == crate::descriptor::str_bytes(y));
            assert(vstd::utf8::decode_utf8(vstd::utf8::encode_utf8(x)) == x);
            assert(vstd::utf8::decode_utf8(vstd::utf8::encode_utf8(y)) == y);
        } else {
            crate::decode::lemma_read_bounds(ki.kind, wt, data.skip(kk as int));
            let (raw, len) = crate::decode::spec_wire_scalar(ki.kind, wt, data.skip(kk as int))->Some_0;
            assert(data.skip((kk + len) as int) =~= data.skip(kk as int).skip(len as int));
            lemma_key_from_value(ki.kind, k1, key);
        }
        assert(rest == vf);
        lemma_entry_value_same(pool, ki, vi, k1, v0, val, depth, k, v);
    }
}

/// A record merged into slots that hold the same contents as `before`,
/// with or without the record's own slot, keeps every slot of `before`
/// and adds the record's.
proof fn lemma_step_keeps(
    pool: DescriptorPoolInner,
    mi: int,
    b: Map<u32, ValueOrUnknown>,
    before: Map<u32, ValueOrUnknown>,
    n: u32,
    wt: WireType,
    bytes: Seq<u8>,
    depth: nat,
    mid: Map<u32, ValueOrUnknown>,
    rest: Seq<u8>,
)
    requires
        record_step(pool, mi, b, n, wt, bytes, depth, mid, rest),
        b.dom() == before.dom() || b.dom() == before.dom().insert(n),
        !before.dom().contains(n),
        forall|m: u32| #[trigger] merge_siblings(pool, mi, n).contains(m) ==> !before.dom().contains(m),
        !merge_siblings(pool, mi, n).contains(n),
        forall|k: u32|
            #[trigger] before.dom().contains(k) ==> same_slot(b[k], before[k], depth),
    ensures
        mid.dom() == before.dom().insert(n),
        forall|k: u32|
            #[trigger] before.dom().contains(k) ==> same_slot(mid[k], before[k], depth),
{
    let sib = merge_siblings(pool, mi, n);
    assert forall|k2: u32| #[trigger] mid.dom().contains(k2) == before.dom().insert(n).contains(k2) by {
        if k2 != n && !sib.contains(k2) {
            assert(mid.remove_keys(sib).remove(n).dom().contains(k2) == mid.dom().contains(k2));
            assert(b.remove_keys(sib).remove(n).dom().contains(k2) == b.dom().contains(k2));
        }
    }
    assert(mid.dom() =~= before.dom().insert(n));
    assert forall|k2: u32| #[trigger] before.dom().contains(k2) implies same_slot(mid[k2], before[k2], depth) by {
        assert(k2 != n);
        assert(!sib.contains(k2));
        assert(mid.remove_keys(sib).remove(n)[k2] == mid[k2]);
        assert(b.remove_keys(sib).remove(n)[k2] == b[k2]);
        assert(b.dom().contains(k2));
    }
}

/// An entry whose key is the same key as an entry written after those
/// read so far, whose keys differ from it, is put after them.
proof fn lemma_put_appends(
    held: Seq<(MapKey, Value)>,
    es: Seq<(MapKey, Value)>,
    j: int,
    kk: MapKey,
    vv: Value,
)
    requires
        0 <= j < es.len(),
        held.len() == j,
        forall|x: int| 0 <= x < j ==> same_key((#[trigger] held[x]).0, es[x].0),
        forall|x: int, y: int| 0 <= x < y < es.len() ==> !same_key(#[trigger] es[x].0, #[trigger] es[y].0),
        same_key(kk, es[j].0),
    ensures
        crate::decode::map_put(held, kk, vv) == held.push((kk, vv)),
{
    assert forall|x: int| 0 <= x < j implies !same_key(#[trigger] held[x].0, kk) by {
        assert(!same_key(es[x].0, es[j].0));
        assert(same_key(held[x].0, es[x].0));
        lemma_same_key_equiv(held[x].0, es[x].0, kk);
        lemma_same_key_equiv(es[x].0, held[x].0, kk);
        lemma_same_key_equiv(kk, es[j].0, es[x].0);
        lemma_same_key_equiv(es[x].0, kk, es[j].0);
        lemma_same_key_equiv(held[x].0, kk, es[j].0);
    }
    crate::decode::lemma_key_position(held, kk, j);
}

/// The record of the `j`-th entry of the map at position `i`, merged into
/// slots holding the same contents as those before `i` and the map's
/// first `j` entries, leaves them holding its first `j + 1` entries, and
/// the records after it.
#[verifier::spinoff_prover]
#[verifier::rlimit(80)]
proof fn lemma_map_entry_step(
    pool: DescriptorPoolInner,
    mi: int,
    s: Seq<(u32, ValueOrUnknown)>,
    i: int,
    j: int,
    depth: nat,
    b: Map<u32, ValueOrUnknown>,
    a: Map<u32, ValueOrUnknown>,
    g: Option<(u32, Seq<u8>)>,
) -> (mid: Map<u32, ValueOrUnknown>)
    requires
        pool.wf(),
        0 <= mi < pool.messages@.len(),
        sorted_by_number(s),
        forall|x: int| 0 <= x < s.len() ==> slot_ok(pool, mi, (#[trigger] s[x]).0, s[x].1),
        slots_contents(pool, mi, s, depth),
        0 <= i < s.len(),
        record_info(pool, mi, s[i].0) matches Some(f) && f.is_map,
        0 <= j < s[i].1->Value_0->MapEntries_0@.len(),
        map_partial(b, as_map(s.take(i)), s[i].0, s[i].1->Value_0->MapEntries_0@, j, depth),
        merged_to(
            pool,
            mi,
            b,
            spec_encode_map(pool, record_info(pool, mi, s[i].0)->Some_0, s[i].1->Value_0->MapEntries_0@.skip(j))
                + spec_encode_slots(pool, mi, s.skip(i + 1)),
            depth,
            a,
            g,
        ),
        g matches Some((tag, _)) ==> valid_tag(tag as nat),
    ensures
        map_partial(mid, as_map(s.take(i)), s[i].0, s[i].1->Value_0->MapEntries_0@, j + 1, depth),
        merged_to(
            pool,
            mi,
            mid,
            spec_encode_map(pool, record_info(pool, mi, s[i].0)->Some_0, s[i].1->Value_0->MapEntries_0@.skip(j + 1))
                + spec_encode_slots(pool, mi, s.skip(i + 1)),
            depth,
            a,
            g,
        ),
    decreases depth, s.len() - i + 1, 0nat, 0nat,
{
    let n = s[i].0;
    let v = s[i].1->Value_0;
    let es = v->MapEntries_0@;
    assert(slot_ok(pool, mi, s[i].0, s[i].1));
    lemma_record_info_number(pool, mi, n);
    crate::readable::lemma_info_facts(pool, mi, n);
    let info = record_info(pool, mi, n)->Some_0;
    assert(valid_value(pool, info, v));
    assert(contents_read_back(pool, info, v, depth));
    let (ki, vi) = pool.map_entry_infos(info.kind);
    let later = spec_encode_slots(pool, mi, s.skip(i + 1));
    let before = as_map(s.take(i));
    lemma_slot_joins(pool, mi, s, i);
    let e = es[j];
    assert(key_matches_kind(ki.kind, es[j].0) && valid_value(pool, vi, es[j].1));
    assert(entry_contents(pool, vi, es[j].1, depth));
    let data = spec_encode_key_field(ki, e.0) + spec_encode_value(pool, vi, e.1);
    let rec = crate::wire::spec_len_field(n as nat, data);
    lemma_encode_map_concat(pool, info, seq![e], es.skip(j + 1));
    assert(seq![e] + es.skip(j + 1) =~= es.skip(j));
    assert(seq![e].drop_last() =~= Seq::<(MapKey, Value)>::empty());
    assert(spec_encode_map(pool, info, Seq::<(MapKey, Value)>::empty()) == Seq::<u8>::empty());
    assert(spec_encode_map(pool, info, seq![e]) =~= rec);
    let t = spec_encode_map(pool, info, es.skip(j + 1)) + later;
    let whole = spec_encode_map(pool, info, es.skip(j)) + later;
    assert(whole =~= rec + t);
    assert(rec.len() <= spec_encode_present(pool, info, v).len()) by {
        lemma_encode_map_concat(pool, info, es.take(j), es.skip(j));
        assert(es.take(j) + es.skip(j) =~= es);
    }
    crate::wire::lemma_field_lens(n as nat, 0, data, 0, 0);
    crate::wire::lemma_key_len(n as nat, WireType::LengthDelimited);
    let tl = tail_of(g);
    lemma_len_record(n, data, t + tl);
    assert(whole + tl =~= rec + (t + tl));
    lemma_decode_key_bounds_any(whole + tl);
    let k = spec_key(n as nat, WireType::LengthDelimited).len();
    let (mid, rest) = lemma_take_step(pool, mi, b, whole, depth, a, g, n, WireType::LengthDelimited, k);
    let prior = value_in(b, n);
    if j == 0 {
        assert(!b.dom().contains(n));
    }
    let held = crate::decode::held_entries(prior);
    assert(held.len() == j);
    let entries = mid[n]->Value_0->MapEntries_0@;
    let bs = (whole + tl).skip(k as int);
    crate::decode::lemma_decode_varint_bounds(bs);
    let (len, n1) = crate::decode::spec_decode_varint(bs)->Some_0;
    assert(bs.subrange(n1 as int, (n1 + len) as int) == data);
    let (kk, vv) = choose|kk: MapKey, vv: Value|
        entries == #[trigger] crate::decode::map_put(held, kk, vv) && crate::decode::entry_read(
            pool,
            ki,
            vi,
            bs.subrange(n1 as int, (n1 + len) as int),
            depth,
            kk,
            vv,
        );
    lemma_entry_same(pool, info, e.0, e.1, depth, kk, vv);
    assert forall|x: int| 0 <= x < j implies same_key((#[trigger] held[x]).0, es[x].0) by {
        assert(held[x] == b[n]->Value_0->MapEntries_0@[x]);
    }
    lemma_put_appends(held, es, j, kk, vv);
    assert(entries == held.push((kk, vv)));
    assert(rest == bs.skip((n1 + len) as int));
    assert(rest =~= t + tl);
    assert(merged_to(pool, mi, mid, t, depth, a, g));
    if j == 0 {
        assert forall|k2: u32| #[trigger] before.dom().contains(k2) implies same_slot(b[k2], before[k2], depth) by {
            assert(b.dom().contains(k2));
        }
        assert(b.dom() == before.dom());
    }
    lemma_step_keeps(pool, mi, b, before, n, WireType::LengthDelimited, bs, depth, mid, rest);
    assert forall|x: int| 0 <= x < j + 1 implies same_key((#[trigger] entries[x]).0, es[x].0) && same_value(
        entries[x].1,
        es[x].1,
        depth,
    ) by {
        if x < j {
            assert(entries[x] == held[x]);
        }
    }
    assert(map_partial(mid, before, n, es, j + 1, depth));
    mid
}

/// Any merge of the records of the entries of the map at position `i`
/// from its `j`-th entry on, then of the slots after it, into slots
/// holding the same contents as those before `i` and the map's first `j`
/// entries, leaves slots of the same contents as all the slots.
#[verifier::spinoff_prover]
#[verifier::rlimit(80)]
proof fn lemma_map_contents_same(
    pool: DescriptorPoolInner,
    mi: int,
    s: Seq<(u32, ValueOrUnknown)>,
    i: int,
    j: int,
    depth: nat,
    b: Map<u32, ValueOrUnknown>,
    a: Map<u32, ValueOrUnknown>,
    g: Option<(u32, Seq<u8>)>,
)
    requires
        pool.wf(),
        0 <= mi < pool.messages@.len(),
        sorted_by_number(s),
        forall|x: int| 0 <= x < s.len() ==> slot_ok(pool, mi, (#[trigger] s[x]).0, s[x].1),
        slots_contents(pool, mi, s, depth),
        0 <= i < s.len(),
        record_info(pool, mi, s[i].0) matches Some(f) && f.is_map,
        0 <= j <= s[i].1->Value_0->MapEntries_0@.len(),
        map_partial(b, as_map(s.take(i)), s[i].0, s[i].1->Value_0->MapEntries_0@, j, depth),
        merged_to(
            pool,
            mi,
            b,
            spec_encode_map(pool, record_info(pool, mi, s[i].0)->Some_0, s[i].1->Value_0->MapEntries_0@.skip(j))
                + spec_encode_slots(pool, mi, s.skip(i + 1)),
            depth,
            a,
            g,
        ),
        g matches Some((tag, _)) ==> valid_tag(tag as nat),
    ensures
        same_slots(a, as_map(s), depth),
    decreases depth, s.len() - i + 1, 0nat, s[i].1->Value_0->MapEntries_0@.len() - j,
{
    let n = s[i].0;
    let v = s[i].1->Value_0;
    let es = v->MapEntries_0@;
    assert(slot_ok(pool, mi, s[i].0, s[i].1));
    lemma_record_info_number(pool, mi, n);
    crate::readable::lemma_info_facts(pool, mi, n);
    let info = record_info(pool, mi, n)->Some_0;
    assert(valid_value(pool, info, v));
    assert(contents_read_back(pool, info, v, depth));
    let (ki, vi) = pool.map_entry_infos(info.kind);
    let later = spec_encode_slots(pool, mi, s.skip(i + 1));
    let before = as_map(s.take(i));
    lemma_slot_joins(pool, mi, s, i);
    if j == es.len() {
        assert(es.skip(j) =~= Seq::<(MapKey, Value)>::empty());
        assert(spec_encode_map(pool, info, es.skip(j)) + later =~= later);
        let after = as_map(s.take(i + 1));
        assert(after == before.insert(n, s[i].1));
        assert forall|k: u32| #[trigger] b.dom().contains(k) implies same_slot(b[k], after[k], depth) by {
            if k == n {
                assert(same_value(b[n]->Value_0, v, depth));
            }
        }
        assert(b.dom() =~= after.dom());
        assert(same_slots(b, after, depth));
        lemma_slots_contents_same(pool, mi, s, i + 1, depth, b, a, g);
    } else {
        let mid = lemma_map_entry_step(pool, mi, s, i, j, depth, b, a, g);
        lemma_map_contents_same(pool, mi, s, i, j + 1, depth, mid, a, g);
    }
}

/// Two unknown field values read from the same bytes hold the same
/// contents.
proof fn lemma_unknown_read_same(
    v1: UnknownFieldValue,
    v2: UnknownFieldValue,
    wt: WireType,
    tag: u32,
    s: Seq<u8>,
    depth: nat,
)
    requires
        unknown_value_read(v1, wt, tag, s, depth),
        unknown_value_read(v2, wt, tag, s, depth),
    ensures
        same_unknown_value(v1, v2),
    decreases v1, 1nat,
{
    if let UnknownFieldValue::Group(g1) = v1 {
        let g2 = v2->Group_0;
        lemma_prefix_read_same(g1.fields@, g2.fields@, tag, s, depth);
    }
}

/// Two runs of fields, each read as the fields of a group up to the
/// group's end key from the same bytes, hold the same contents.
proof fn lemma_prefix_read_same(f1: Seq<UnknownField>, f2: Seq<UnknownField>, tag: u32, s: Seq<u8>, depth: nat)
    requires
        group_prefix_read(f1, tag, s, depth) is Some,
        group_prefix_read(f1, tag, s, depth)->Some_0 <= s.len(),
        spec_decode_key(s.skip(group_prefix_read(f1, tag, s, depth)->Some_0 as int)) is Some,
        spec_decode_key(s.skip(group_prefix_read(f1, tag, s, depth)->Some_0 as int))->Some_0.1 == WireType::EndGroup,
        group_prefix_read(f2, tag, s, depth) is Some,
        group_prefix_read(f2, tag, s, depth)->Some_0 <= s.len(),
        spec_decode_key(s.skip(group_prefix_read(f2, tag, s, depth)->Some_0 as int)) is Some,
        spec_decode_key(s.skip(group_prefix_read(f2, tag, s, depth)->Some_0 as int))->Some_0.1 == WireType::EndGroup,
    ensures
        same_unknown_fields(f1, f2),
    decreases f1, 0nat,
{
    assert(s.skip(0) =~= s);
    if f1.len() > 0 && f2.len() > 0 {
        let (t, wt, n) = spec_decode_key(s)->Some_0;
        let m = spec_unknown_len(wt, t, s.skip(n as int), (depth - 1) as nat)->Some_0;
        lemma_unknown_read_same(f1[0].value, f2[0].value, wt, t, s.skip(n as int), (depth - 1) as nat);
        let c1 = group_prefix_read(f1, tag, s, depth)->Some_0;
        let c2 = group_prefix_read(f2, tag, s, depth)->Some_0;
        let r = s.skip((n + m) as int);
        let d1 = group_prefix_read(f1.drop_first(), tag, r, depth)->Some_0;
        let d2 = group_prefix_read(f2.drop_first(), tag, r, depth)->Some_0;
        assert(r.skip(d1 as int) =~= s.skip(c1 as int));
        assert(r.skip(d2 as int) =~= s.skip(c2 as int));
        lemma_prefix_read_same(f1.drop_first(), f2.drop_first(), tag, r, depth);
        assert forall|i: int| 0 <= i < f1.len() implies (#[trigger] f1[i]).number == f2[i].number && same_unknown_value(
            f1[i].value,
            f2[i].value,
        ) by {
            if i > 0 {
                assert(f1[i] == f1.drop_first()[i - 1]);
                assert(f2[i] == f2.drop_first()[i - 1]);
            }
        }
    }
}

/// The slots `b` hold the same contents as `before`, and, from the `j`-th
/// unknown field on, the slot `n` holds `j` unknown fields of the same
/// contents as the first `j` of `fs`.
pub open spec fn unknown_partial(
    b: Map<u32, ValueOrUnknown>,
    before: Map<u32, ValueOrUnknown>,
    n: u32,
    fs: Seq<UnknownField>,
    j: int,
    depth: nat,
) -> bool {
    if j == 0 {
        same_slots(b, before, depth)
    } else {
        &&& b.dom() == before.dom().insert(n)
        &&& !before.dom().contains(n)
        &&& forall|k: u32| #[trigger] before.dom().contains(k) ==> same_slot(b[k], before[k], depth)
        &&& b[n] is Unknown
        &&& b[n]->Unknown_0.fields@.len() == j
        &&& forall|e: int|
            0 <= e < j ==> (#[trigger] b[n]->Unknown_0.fields@[e]).number == fs[e].number && same_unknown_value(
                b[n]->Unknown_0.fields@[e].value,
                fs[e].value,
            )
    }
}

/// Any merge of the records of the unknown fields at position `i` from
/// the `j`-th on, then of the slots after it, into slots holding the same
/// contents as those before `i` and the first `j` unknown fields, leaves
/// slots of the same contents as all the slots.
#[verifier::spinoff_prover]
#[verifier::rlimit(80)]
proof fn lemma_unknown_contents_same(
    pool: DescriptorPoolInner,
    mi: int,
    s: Seq<(u32, ValueOrUnknown)>,
    i: int,
    j: int,
    depth: nat,
    b: Map<u32, ValueOrUnknown>,
    a: Map<u32, ValueOrUnknown>,
    g: Option<(u32, Seq<u8>)>,
)
    requires
        pool.wf(),
        0 <= mi < pool.messages@.len(),
        sorted_by_number(s),
        forall|x: int| 0 <= x < s.len() ==> slot_ok(pool, mi, (#[trigger] s[x]).0, s[x].1),
        slots_contents(pool, mi, s, depth),
        0 <= i < s.len(),
        s[i].1 is Unknown,
        0 <= j <= s[i].1->Unknown_0.fields@.len(),
        fields_wf(s[i].1->Unknown_0.fields@.skip(j)),
        unknown_fields_depth(s[i].1->Unknown_0.fields@.skip(j)) <= depth,
        spec_encode_unknown_fields(s[i].1->Unknown_0.fields@.skip(j)).len() <= usize::MAX,
        unknown_partial(b, as_map(s.take(i)), s[i].0, s[i].1->Unknown_0.fields@, j, depth),
        merged_to(
            pool,
            mi,
            b,
            spec_encode_unknown_fields(s[i].1->Unknown_0.fields@.skip(j)) + spec_encode_slots(pool, mi, s.skip(i + 1)),
            depth,
            a,
            g,
        ),
        g matches Some((tag, _)) ==> valid_tag(tag as nat),
    ensures
        same_slots(a, as_map(s), depth),
    decreases depth, s.len() - i + 1, 0nat, s[i].1->Unknown_0.fields@.len() - j,
{
    let n = s[i].0;
    let u = s[i].1->Unknown_0;
    let fs = u.fields@;
    assert(slot_ok(pool, mi, s[i].0, s[i].1));
    assert(u.wf_for(n));
    assert(record_info(pool, mi, n) is None && fs.len() > 0);
    let later = spec_encode_slots(pool, mi, s.skip(i + 1));
    let before = as_map(s.take(i));
    lemma_slot_joins(pool, mi, s, i);
    if j == fs.len() {
        assert(fs.skip(j) =~= Seq::<UnknownField>::empty());
        assert(spec_encode_unknown_fields(fs.skip(j)) + later =~= later);
        let after = as_map(s.take(i + 1));
        assert(after == before.insert(n, s[i].1));
        assert forall|k: u32| #[trigger] b.dom().contains(k) implies same_slot(b[k], after[k], depth) by {
            if k == n {
                assert(same_unknown_fields(b[n]->Unknown_0.fields@, fs));
            }
        }
        assert(b.dom() =~= after.dom());
        lemma_slots_contents_same(pool, mi, s, i + 1, depth, b, a, g);
    } else {
        let fj = fs.skip(j);
        let f = fs[j];
        crate::decode::lemma_unknown_fields_front(fj);
        assert(fj[0] == f);
        assert(fj.drop_first() =~= fs.skip(j + 1));
        assert(f.number == n);
        let rec = spec_encode_unknown_field(f);
        let t = spec_encode_unknown_fields(fs.skip(j + 1)) + later;
        let whole = spec_encode_unknown_fields(fj) + later;
        assert(whole =~= rec + t);
        assert(unknown_depth(f) <= depth);
        let tl = tail_of(g);
        law_unknown_roundtrip(f, t + tl, depth);
        assert(whole + tl =~= rec + (t + tl));
        let wt = unknown_wire_type(f.value);
        let k = spec_key(n as nat, wt).len();
        lemma_decode_key_bounds_any(whole + tl);
        let (mid, rest) = lemma_take_step(pool, mi, b, whole, depth, a, g, n, wt, k);
        assert((whole + tl).skip(k as int).skip((rec.len() - k) as int) =~= t + tl);
        assert(rest == t + tl);
        assert(merged_to(pool, mi, mid, t, depth, a, g));
        let got = mid[n]->Unknown_0.fields@;
        lemma_unknown_read_same(got.last().value, f.value, wt, n, (whole + tl).skip(k as int), depth);
        if j == 0 {
            assert(!b.dom().contains(n));
            assert forall|k2: u32| #[trigger] before.dom().contains(k2) implies same_slot(b[k2], before[k2], depth) by {
                assert(b.dom().contains(k2));
            }
            assert(b.dom() == before.dom());
        }
        assert(merge_siblings(pool, mi, n) =~= Set::<u32>::empty());
        lemma_step_keeps(pool, mi, b, before, n, wt, (whole + tl).skip(k as int), depth, mid, rest);
        let held = if b.dom().contains(n) && b[n] is Unknown {
            b[n]->Unknown_0.fields@
        } else {
            Seq::<UnknownField>::empty()
        };
        assert(held.len() == j);
        assert(got.drop_last() == held);
        assert forall|e: int| 0 <= e < j + 1 implies (#[trigger] got[e]).number == fs[e].number && same_unknown_value(
            got[e].value,
            fs[e].value,
        ) by {
            if e < j {
                assert(got[e] == got.drop_last()[e]);
                assert(got[e] == b[n]->Unknown_0.fields@[e]);
            }
        }
        assert(unknown_partial(mid, before, n, fs, j + 1, depth));
        lemma_unknown_contents_same(pool, mi, s, i, j + 1, depth, mid, a, g);
    }
}

/// Decoding what a message writes gives back its contents: when each
/// slot holds a value that reads back as the same contents (a single
/// scalar, string or bytes value, a packed list, an unpacked list of
/// scalars, strings, bytes, messages or groups, a map, or a message, each
/// written), or unknown fields at a number of no field or extension, any
/// merge of the message's bytes into an empty message of its type leaves
/// slots of the same contents (`same_slots`) as the message's: the same
/// numbers, lists of the same elements in the same order, maps of the
/// same keys and values in the same order, and the same unknown fields in
/// the same order.
pub proof fn law_message_contents(m: DynamicMessage, depth: nat, after: Map<u32, ValueOrUnknown>)
    requires
        m.wf(),
        slots_contents(m.spec_pool(), m.spec_desc().spec_index() as int, m.spec_slots(), depth),
        records_merged(
            m.spec_pool(),
            m.spec_desc().spec_index() as int,
            Map::<u32, ValueOrUnknown>::empty(),
            spec_encode_message(m),
            depth,
            after,
        ),
    ensures
        same_slots(after, m.spec_map(), depth),
{
    let pool = m.spec_pool();
    let mi = m.spec_desc().spec_index() as int;
    let slots = m.spec_slots();
    assert(slots.take(0) =~= Seq::<(u32, ValueOrUnknown)>::empty());
    assert(slots.skip(0) =~= slots);
    assert(as_map(slots.take(0)) =~= Map::<u32, ValueOrUnknown>::empty());
    lemma_slots_contents_same(pool, mi, slots, 0, depth, Map::<u32, ValueOrUnknown>::empty(), after, None);
}

/// A single value that reads back as the same contents nests its
/// messages within `depth`.
proof fn lemma_element_contents_nests(pool: DescriptorPoolInner, kind: KindIndex, v: Value, depth: nat)
    requires
        element_contents(pool, kind, v, depth),
        valid_element(pool, kind, v),
    ensures
        crate::readable::element_nests(pool, kind, v, depth),
    decreases depth, 0nat,
{
    if kind.spec_is_message() {
        let m = v->Message_0;
        assert(m.fields_valid());
        lemma_slots_contents_nests(pool, message_index_of(kind), m.spec_slots(), (depth - 1) as nat);
    }
}

/// Slots that read back as the same contents nest their messages within
/// `depth`.
proof fn lemma_slots_contents_nests(pool: DescriptorPoolInner, mi: int, s: Seq<(u32, ValueOrUnknown)>, depth: nat)
    requires
        slots_contents(pool, mi, s, depth),
        forall|j: int| 0 <= j < s.len() ==> slot_ok(pool, mi, (#[trigger] s[j]).0, s[j].1),
    ensures
        crate::readable::slots_nest(pool, mi, s, depth),
    decreases depth, 2nat,
{
    assert forall|i: int| 0 <= i < s.len() implies match (#[trigger] s[i]).1 {
        ValueOrUnknown::Value(v) => match record_info(pool, mi, s[i].0) {
            Some(f) => crate::readable::value_nests(pool, f, v, depth),
            None => true,
        },
        ValueOrUnknown::Unknown(u) => record_info(pool, mi, s[i].0) is None && unknown_fields_depth(u.fields@)
            <= depth,
        ValueOrUnknown::Taken => true,
    } by {
        assert(slot_ok(pool, mi, s[i].0, s[i].1));
        if let ValueOrUnknown::Value(v) = s[i].1 {
            let f = record_info(pool, mi, s[i].0)->Some_0;
            assert(valid_value(pool, f, v));
            assert(contents_read_back(pool, f, v, depth));
            if f.is_map {
                let es = v->MapEntries_0@;
                let vi = pool.map_entry_infos(f.kind).1;
                assert forall|k: int| 0 <= k < es.len() implies crate::readable::element_nests(
                    pool,
                    vi.kind,
                    (#[trigger] es[k]).1,
                    depth,
                ) by {
                    assert(entry_contents(pool, vi, es[k].1, depth));
                    assert(valid_value(pool, vi, es[k].1));
                    lemma_element_contents_nests(pool, vi.kind, es[k].1, depth);
                }
            } else if f.is_list && !f.is_packed {
                let vs = v->List_0@;
                assert forall|k: int| 0 <= k < vs.len() implies crate::readable::element_nests(
                    pool,
                    f.kind,
                    #[trigger] vs[k],
                    depth,
                ) by {
                    assert(element_contents(pool, f.kind, vs[k], depth));
                    assert(valid_element(pool, f.kind, vs[k]));
                    lemma_element_contents_nests(pool, f.kind, vs[k], depth);
                }
            } else if f.is_list {
                let vs = v->List_0@;
                assert forall|k: int| 0 <= k < vs.len() implies crate::readable::element_nests(
                    pool,
                    f.kind,
                    #[trigger] vs[k],
                    depth,
                ) by {
                    assert(f.kind.spec_is_packable());
                }
            } else {
                assert(valid_element(pool, f.kind, v));
                lemma_element_contents_nests(pool, f.kind, v, depth);
            }
        }
    }
}

/// Decoding what a message writes: when each slot holds a value that
/// reads back as the same contents, or unknown fields at a number of no
/// field or extension (`slots_contents`), nested within the decoder's
/// depth limit, and the message's bytes fit in memory, the bytes can be
/// read (so `DynamicMessage::decode` answers them with `Ok`), and any
/// message they decode to holds the same contents (`same_slots`) as the
/// message.
pub proof fn law_decode_encoded(m: DynamicMessage, after: Map<u32, ValueOrUnknown>)
    requires
        m.wf(),
        slots_contents(m.spec_pool(), m.spec_desc().spec_index() as int, m.spec_slots(), RECURSION_LIMIT as nat),
        spec_encode_message(m).len() <= usize::MAX,
    ensures
        crate::decode::records_ok(
            m.spec_pool(),
            m.spec_desc().spec_index() as int,
            spec_encode_message(m),
            RECURSION_LIMIT as nat,
        ),
        records_merged(
            m.spec_pool(),
            m.spec_desc().spec_index() as int,
            Map::<u32, ValueOrUnknown>::empty(),
            spec_encode_message(m),
            RECURSION_LIMIT as nat,
            after,
        ) ==> same_slots(after, m.spec_map(), RECURSION_LIMIT as nat),
{
    let pool = m.spec_pool();
    let mi = m.spec_desc().spec_index() as int;
    lemma_slots_contents_nests(pool, mi, m.spec_slots(), RECURSION_LIMIT as nat);
    crate::readable::law_encoded_message_reads(m, RECURSION_LIMIT as nat);
    if records_merged(pool, mi, Map::<u32, ValueOrUnknown>::empty(), spec_encode_message(m), RECURSION_LIMIT as nat, after) {
        law_message_contents(m, RECURSION_LIMIT as nat, after);
    }
}

/// A sorted run of slots holds no slot exactly when its map is empty.
proof fn lemma_sorted_empty(s: Seq<(u32, ValueOrUnknown)>)
    requires
        sorted_by_number(s),
    ensures
        s.len() == 0 <==> as_map(s).dom() =~= Set::<u32>::empty(),
{
    if s.len() > 0 {
        crate::sorted::lemma_position(s, 0);
    } else {
        assert forall|n: u32| !#[trigger] as_map(s).dom().contains(n) by {}
    }
}

/// Two runs of unknown fields of the same contents write the same bytes.
proof fn lemma_unknown_fields_encode(f1: Seq<UnknownField>, f2: Seq<UnknownField>)
    requires
        same_unknown_fields(f1, f2),
    ensures
        spec_encode_unknown_fields(f1) == spec_encode_unknown_fields(f2),
    decreases f1, 0nat,
{
    if f1.len() > 0 {
        let i1 = f1.drop_last();
        let i2 = f2.drop_last();
        assert forall|i: int| 0 <= i < i1.len() implies (#[trigger] i1[i]).number == i2[i].number && same_unknown_value(
            i1[i].value,
            i2[i].value,
        ) by {
            assert(i1[i] == f1[i]);
            assert(i2[i] == f2[i]);
        }
        lemma_unknown_fields_encode(i1, i2);
        let l = f1.len() - 1;
        assert(f1[l].number == f2[l].number && same_unknown_value(f1[l].value, f2[l].value));
        lemma_unknown_value_encode(f1[l], f2[l]);
    }
}

/// Two unknown fields of the same number and contents write the same
/// bytes.
proof fn lemma_unknown_value_encode(a: UnknownField, b: UnknownField)
    requires
        a.number == b.number,
        same_unknown_value(a.value, b.value),
    ensures
        spec_encode_unknown_field(a) == spec_encode_unknown_field(b),
    decreases a, 1nat,
{
    if let UnknownFieldValue::Group(g1) = a.value {
        let g2 = b.value->Group_0;
        lemma_unknown_fields_encode(g1.fields@, g2.fields@);
    }
}

/// Two single values of a kind of the same contents are both defaults of
/// a field or neither.
proof fn lemma_element_default(pool: DescriptorPoolInner, info: FieldInfo, p: Value, q: Value, depth: nat)
    requires
        valid_element(pool, info.kind, p),
        valid_element(pool, info.kind, q),
        same_value(p, q, depth),
    ensures
        crate::value::is_default_for(pool, info, p) == crate::value::is_default_for(pool, info, q),
{
    if p is Message {
        let x = p->Message_0;
        let y = q->Message_0;
        assert(x.fields_valid() && y.fields_valid());
        lemma_sorted_empty(x.spec_slots());
        lemma_sorted_empty(y.spec_slots());
        assert(x.spec_map().dom() == y.spec_map().dom());
    } else if p is String {
        assert(p->String_0@ == q->String_0@);
    } else if p is Bytes {
        assert(p->Bytes_0@ == q->Bytes_0@);
    } else {
        assert(p == q);
    }
}

/// Two single values of a kind of the same contents write the same
/// record.
#[verifier::spinoff_prover]
#[verifier::rlimit(40)]
proof fn lemma_element_encode(pool: DescriptorPoolInner, info: FieldInfo, p: Value, q: Value, depth: nat)
    requires
        pool.wf(),
        pool.kind_ok(info.kind),
        valid_element(pool, info.kind, p),
        valid_element(pool, info.kind, q),
        same_value(p, q, depth),
    ensures
        spec_encode_present(pool, info, p) == spec_encode_present(pool, info, q),
    decreases depth, 0nat, 0nat,
{
    if info.kind.spec_is_message() {
        let x = p->Message_0;
        let y = q->Message_0;
        let mi = message_index_of(info.kind);
        assert(0 <= mi < pool.messages@.len());
        assert(x.fields_valid() && y.fields_valid());
        assert(x.spec_pool() == pool && y.spec_pool() == pool);
        assert(same_slots(x.spec_map(), y.spec_map(), (depth - 1) as nat));
        lemma_slots_encode(pool, mi, x.spec_slots(), y.spec_slots(), (depth - 1) as nat);
        assert(spec_encode_message(x) == spec_encode_slots(pool, mi, x.spec_slots()));
        assert(spec_encode_message(y) == spec_encode_slots(pool, mi, y.spec_slots()));
    } else if p is String {
        assert(p->String_0@ == q->String_0@);
    } else if p is Bytes {
        assert(p->Bytes_0@ == q->Bytes_0@);
    } else {
        assert(p == q);
    }
}

/// Two lists of elements of the same contents write the same records,
/// packed or not.
proof fn lemma_list_encode(pool: DescriptorPoolInner, info: FieldInfo, xs: Seq<Value>, ys: Seq<Value>, depth: nat)
    requires
        pool.wf(),
        pool.kind_ok(info.kind),
        info.is_list,
        forall|i: int| 0 <= i < xs.len() ==> valid_element(pool, info.kind, #[trigger] xs[i]),
        forall|i: int| 0 <= i < ys.len() ==> valid_element(pool, info.kind, #[trigger] ys[i]),
        xs.len() == ys.len(),
        forall|i: int| 0 <= i < xs.len() ==> same_value(#[trigger] xs[i], ys[i], depth),
    ensures
        spec_encode_list(pool, info, xs) == spec_encode_list(pool, info, ys),
        info.kind.spec_is_packable() ==> crate::encode::spec_packed_payload(info.kind, xs)
            == crate::encode::spec_packed_payload(info.kind, ys),
    decreases depth, 0nat, xs.len(),
{
    if xs.len() > 0 {
        let l = xs.len() - 1;
        assert(valid_element(pool, info.kind, xs[l]) && valid_element(pool, info.kind, ys[l]));
        assert(same_value(xs[l], ys[l], depth));
        let ix = xs.drop_last();
        let iy = ys.drop_last();
        assert forall|i: int| 0 <= i < ix.len() implies valid_element(pool, info.kind, #[trigger] ix[i]) by {
            assert(ix[i] == xs[i]);
        }
        assert forall|i: int| 0 <= i < iy.len() implies valid_element(pool, info.kind, #[trigger] iy[i]) by {
            assert(iy[i] == ys[i]);
        }
        assert forall|i: int| 0 <= i < ix.len() implies same_value(#[trigger] ix[i], iy[i], depth) by {
            assert(ix[i] == xs[i]);
            assert(iy[i] == ys[i]);
        }
        lemma_list_encode(pool, info, ix, iy, depth);
        lemma_element_encode(pool, info, xs[l], ys[l], depth);
        assert(!crate::value::is_default_for(pool, info, xs[l]));
        assert(!crate::value::is_default_for(pool, info, ys[l]));
        assert(spec_encode_value(pool, info, xs[l]) == spec_encode_value(pool, info, ys[l]));
        assert(xs.last() == xs[l] && ys.last() == ys[l]);
        if info.kind.spec_is_packable() {
            assert(xs[l] == ys[l]);
        }
    }
}

/// Two maps of entries of the same keys and contents write the same
/// records.
proof fn lemma_map_encode(
    pool: DescriptorPoolInner,
    info: FieldInfo,
    xs: Seq<(MapKey, Value)>,
    ys: Seq<(MapKey, Value)>,
    depth: nat,
)
    requires
        pool.wf(),
        info.kind is Message,
        info.kind->Message_0 < pool.messages@.len(),
        pool.messages@[info.kind->Message_0 as int].map_entry,
        forall|i: int| 0 <= i < xs.len() ==> key_matches_kind(pool.map_entry_infos(info.kind).0.kind, (#[trigger] xs[i]).0)
            && valid_value(pool, pool.map_entry_infos(info.kind).1, xs[i].1),
        forall|i: int| 0 <= i < ys.len() ==> key_matches_kind(pool.map_entry_infos(info.kind).0.kind, (#[trigger] ys[i]).0)
            && valid_value(pool, pool.map_entry_infos(info.kind).1, ys[i].1),
        xs.len() == ys.len(),
        forall|i: int| 0 <= i < xs.len() ==> same_key((#[trigger] xs[i]).0, ys[i].0) && same_value(xs[i].1, ys[i].1, depth),
    ensures
        spec_encode_map(pool, info, xs) == spec_encode_map(pool, info, ys),
    decreases depth, 0nat, xs.len(),
{
    if xs.len() > 0 {
        let (ki, vi) = pool.map_entry_infos(info.kind);
        let l = xs.len() - 1;
        assert(key_matches_kind(ki.kind, xs[l].0) && valid_value(pool, vi, xs[l].1));
        assert(key_matches_kind(ki.kind, ys[l].0) && valid_value(pool, vi, ys[l].1));
        assert(same_key(xs[l].0, ys[l].0) && same_value(xs[l].1, ys[l].1, depth));
        let ix = xs.drop_last();
        let iy = ys.drop_last();
        assert forall|i: int| 0 <= i < ix.len() implies key_matches_kind(ki.kind, (#[trigger] ix[i]).0) && valid_value(
            pool,
            vi,
            ix[i].1,
        ) by {
            assert(ix[i] == xs[i]);
        }
        assert forall|i: int| 0 <= i < iy.len() implies key_matches_kind(ki.kind, (#[trigger] iy[i]).0) && valid_value(
            pool,
            vi,
            iy[i].1,
        ) by {
            assert(iy[i] == ys[i]);
        }
        assert forall|i: int| 0 <= i < ix.len() implies same_key((#[trigger] ix[i]).0, iy[i].0) && same_value(
            ix[i].1,
            iy[i].1,
            depth,
        ) by {
            assert(ix[i] == xs[i]);
            assert(iy[i] == ys[i]);
        }
        lemma_map_encode(pool, info, ix, iy, depth);
        crate::readable::lemma_entry_facts(pool, info.kind);
        lemma_element_encode(pool, vi, xs[l].1, ys[l].1, depth);
        lemma_element_default(pool, vi, xs[l].1, ys[l].1, depth);
        assert(spec_encode_value(pool, vi, xs[l].1) == spec_encode_value(pool, vi, ys[l].1));
        if xs[l].0 is String {
            assert(xs[l].0->String_0@ == ys[l].0->String_0@);
        } else {
            assert(xs[l].0 == ys[l].0);
        }
        assert(spec_encode_key_field(ki, xs[l].0) == spec_encode_key_field(ki, ys[l].0));
        assert(xs.last() == xs[l] && ys.last() == ys[l]);
    }
}

/// Two values of a field of the same contents write the same bytes.
proof fn lemma_value_encode(pool: DescriptorPoolInner, info: FieldInfo, p: Value, q: Value, depth: nat)
    requires
        pool.wf(),
        pool.kind_ok(info.kind),
        info.is_map ==> info.kind is Message && info.kind->Message_0 < pool.messages@.len()
            && pool.messages@[info.kind->Message_0 as int].map_entry,
        !(info.is_list && info.is_map),
        info.is_packed ==> info.kind.spec_is_packable(),
        valid_value(pool, info, p),
        valid_value(pool, info, q),
        same_value(p, q, depth),
    ensures
        spec_encode_value(pool, info, p) == spec_encode_value(pool, info, q),
    decreases depth, 1nat, 0nat,
{
    if info.is_list {
        lemma_list_encode(pool, info, p->List_0@, q->List_0@, depth);
        assert(spec_encode_present(pool, info, p) == spec_encode_present(pool, info, q));
    } else if info.is_map {
        lemma_map_encode(pool, info, p->MapEntries_0@, q->MapEntries_0@, depth);
        assert(spec_encode_present(pool, info, p) == spec_encode_present(pool, info, q));
    } else {
        lemma_element_encode(pool, info, p, q, depth);
        lemma_element_default(pool, info, p, q, depth);
    }
}

/// Two slots of one number of the same contents write the same bytes.
proof fn lemma_slot_encode(pool: DescriptorPoolInner, mi: int, n: u32, x: ValueOrUnknown, y: ValueOrUnknown, depth: nat)
    requires
        pool.wf(),
        0 <= mi < pool.messages@.len(),
        slot_ok(pool, mi, n, x),
        slot_ok(pool, mi, n, y),
        same_slot(x, y, depth),
    ensures
        spec_encode_slot(pool, mi, (n, x)) == spec_encode_slot(pool, mi, (n, y)),
    decreases depth, 2nat, 0nat,
{
    match (x, y) {
        (ValueOrUnknown::Value(p), ValueOrUnknown::Value(q)) => {
            crate::readable::lemma_info_facts(pool, mi, n);
            match pool.field_index(mi, n) {
                Some(f) => lemma_value_encode(pool, pool.field_info(mi, f as int), p, q, depth),
                None => match pool.extension_of(mi, n) {
                    Some(e) => lemma_value_encode(pool, pool.ext_info(e as int), p, q, depth),
                    None => {},
                },
            }
        },
        (ValueOrUnknown::Unknown(u), ValueOrUnknown::Unknown(w)) => {
            lemma_unknown_fields_encode(u.fields@, w.fields@);
        },
        _ => {},
    }
}

/// Two sorted runs of slots of message `mi` of the same contents write
/// the same bytes.
proof fn lemma_slots_encode(
    pool: DescriptorPoolInner,
    mi: int,
    s1: Seq<(u32, ValueOrUnknown)>,
    s2: Seq<(u32, ValueOrUnknown)>,
    depth: nat,
)
    requires
        pool.wf(),
        0 <= mi < pool.messages@.len(),
        sorted_by_number(s1),
        sorted_by_number(s2),
        forall|j: int| 0 <= j < s1.len() ==> slot_ok(pool, mi, (#[trigger] s1[j]).0, s1[j].1),
        forall|j: int| 0 <= j < s2.len() ==> slot_ok(pool, mi, (#[trigger] s2[j]).0, s2[j].1),
        same_slots(as_map(s1), as_map(s2), depth),
    ensures
        spec_encode_slots(pool, mi, s1) == spec_encode_slots(pool, mi, s2),
    decreases depth, 3nat, s1.len(),
{
    lemma_sorted_empty(s1);
    lemma_sorted_empty(s2);
    if s1.len() > 0 {
        let l1 = s1.len() - 1;
        let l2 = s2.len() - 1;
        let n1 = s1[l1].0;
        let n2 = s2[l2].0;
        crate::sorted::lemma_position(s1, l1);
        crate::sorted::lemma_position(s2, l2);
        let k2 = crate::sorted::position_of(s2, n1);
        assert(crate::sorted::has_number(s2, n1));
        let k1 = crate::sorted::position_of(s1, n2);
        assert(crate::sorted::has_number(s1, n2));
        assert(n1 <= n2) by {
            if k2 < l2 {
                assert(s2[k2].0 < s2[l2].0);
            }
        }
        assert(n2 <= n1) by {
            if k1 < l1 {
                assert(s1[k1].0 < s1[l1].0);
            }
        }
        crate::sorted::lemma_remove(s1, l1);
        crate::sorted::lemma_remove(s2, l2);
        assert(s1.remove(l1) =~= s1.drop_last());
        assert(s2.remove(l2) =~= s2.drop_last());
        let d1 = s1.drop_last();
        let d2 = s2.drop_last();
        assert forall|j: int| 0 <= j < d1.len() implies slot_ok(pool, mi, (#[trigger] d1[j]).0, d1[j].1) by {
            assert(d1[j] == s1[j]);
        }
        assert forall|j: int| 0 <= j < d2.len() implies slot_ok(pool, mi, (#[trigger] d2[j]).0, d2[j].1) by {
            assert(d2[j] == s2[j]);
        }
        assert(as_map(d1).dom() =~= as_map(d2).dom());
        assert forall|k: u32| #[trigger] as_map(d1).dom().contains(k) implies same_slot(as_map(d1)[k], as_map(d2)[k], depth) by {
            assert(as_map(s1).dom().contains(k));
        }
        lemma_slots_encode(pool, mi, d1, d2, depth);
        assert(as_map(s1)[n1] == s1[l1].1);
        assert(as_map(s2)[n1] == s2[l2].1);
        assert(slot_ok(pool, mi, s1[l1].0, s1[l1].1));
        assert(slot_ok(pool, mi, s2[l2].0, s2[l2].1));
        lemma_slot_encode(pool, mi, n1, s1[l1].1, s2[l2].1, depth);
    }
}

/// Writing again what decoding a message's bytes gives writes the same
/// bytes: when each slot of `m` reads back as the same contents
/// (`slots_contents`) within the decoder's depth limit, any valid message
/// `d` of its type whose slots a merge of `m`'s bytes into an empty
/// message leaves (as `DynamicMessage::decode` states of its result)
/// writes exactly `m`'s bytes.
pub proof fn law_reencode(m: DynamicMessage, d: DynamicMessage)
    requires
        m.wf(),
        d.wf(),
        d.spec_desc() == m.spec_desc(),
        slots_contents(m.spec_pool(), m.spec_desc().spec_index() as int, m.spec_slots(), RECURSION_LIMIT as nat),
        records_merged(
            m.spec_pool(),
            m.spec_desc().spec_index() as int,
            Map::<u32, ValueOrUnknown>::empty(),
            spec_encode_message(m),
            RECURSION_LIMIT as nat,
            d.spec_map(),
        ),
    ensures
        spec_encode_message(d) == spec_encode_message(m),
{
    let pool = m.spec_pool();
    let mi = m.spec_desc().spec_index() as int;
    law_message_contents(m, RECURSION_LIMIT as nat, d.spec_map());
    assert(pool.wf());
    assert(0 <= mi < pool.messages@.len());
    lemma_slots_encode(pool, mi, d.spec_slots(), m.spec_slots(), RECURSION_LIMIT as nat);
    assert(spec_encode_message(d) == spec_encode_slots(pool, mi, d.spec_slots()));
    assert(spec_encode_message(m) == spec_encode_slots(pool, mi, m.spec_slots()));
}

} // verus!
