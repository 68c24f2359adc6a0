//! What a message writes can be read: the bytes of any valid message whose
//! messages nest within a depth limit, and whose unknown fields stand at
//! numbers of no field, take whole records, each of which the message's
//! type can read (`records_ok`). The decoder's contract fails only on
//! bytes that cannot be read, so decoding what a message writes succeeds.

use vstd::prelude::*;
use crate::decode::{
    entry_ok, entry_step_len, group_len, law_record_roundtrip, law_unknown_roundtrip, lemma_decode_key_bounds,
    lemma_decode_varint_bounds, lemma_key_roundtrip, lemma_len_of_record_merged, lemma_len_record,
    lemma_payload_roundtrip, lemma_scalar_roundtrip, lemma_unknown_fields_front, message_index_of, record_info,
    record_len, records_ok, spec_decode_key, spec_decode_varint, spec_unknown_len, spec_wire_payload,
    spec_wire_scalar, step_len, unknown_depth, unknown_fields_depth, unknown_wire_type, RECURSION_LIMIT,
};
use crate::descriptor::{DescriptorPoolInner, FieldInfo, KindIndex, MAP_ENTRY_KEY_NUMBER, MAP_ENTRY_VALUE_NUMBER};
use crate::encode::{
    key_as_value, spec_encode_key_field, spec_encode_list, spec_encode_map, spec_encode_message,
    spec_encode_present, spec_encode_slot, spec_encode_slots, spec_encode_value,
};
use crate::fields::ValueOrUnknown;
use crate::message::{slot_ok, DynamicMessage};
use crate::unknown::{field_wf, fields_wf, spec_encode_unknown_field, spec_encode_unknown_fields, UnknownField};
use crate::value::{is_default_for, key_matches_kind, scalar_matches_kind, spec_wire_type, valid_element, valid_value, MapKey, Value};
use crate::wire::{spec_key, valid_tag, WireType, MAX_TAG};

verus! {

/// A single value of a kind nests its messages at most `depth` deep: a
/// message of a message kind is one level, and its slots nest within the
/// depth left.
pub open spec fn element_nests(pool: DescriptorPoolInner, kind: KindIndex, v: Value, depth: nat) -> bool
    decreases depth, 0nat,
{
    kind.spec_is_message() ==> depth > 0 && v is Message && slots_nest(
        pool,
        message_index_of(kind),
        v->Message_0.spec_slots(),
        (depth - 1) as nat,
    )
}

/// A value of a field nests its messages at most `depth` deep: each
/// element of a list, each value of a map, or the single value.
pub open spec fn value_nests(pool: DescriptorPoolInner, info: FieldInfo, v: Value, depth: nat) -> bool
    decreases depth, 1nat,
{
    match v {
        Value::List(vs) => forall|i: int| 0 <= i < vs@.len() ==> element_nests(pool, info.kind, #[trigger] vs@[i], depth),
        Value::MapEntries(es) => forall|i: int|
            0 <= i < es@.len() ==> element_nests(
                pool,
                pool.map_entry_infos(info.kind).1.kind,
                (#[trigger] es@[i]).1,
                depth,
            ),
        _ => element_nests(pool, info.kind, v, depth),
    }
}

/// The slots of a message of type `mi` nest within `depth`: each value
/// nests its messages within `depth`, and unknown fields stand at numbers
/// of no field or extension and nest their groups within `depth`.
pub open spec fn slots_nest(pool: DescriptorPoolInner, mi: int, s: Seq<(u32, ValueOrUnknown)>, depth: nat) -> bool
    decreases depth, 2nat,
{
    forall|i: int|
        0 <= i < s.len() ==> match (#[trigger] s[i]).1 {
            ValueOrUnknown::Value(v) => match record_info(pool, mi, s[i].0) {
                Some(f) => value_nests(pool, f, v, depth),
                None => true,
            },
            ValueOrUnknown::Unknown(u) => record_info(pool, mi, s[i].0) is None && unknown_fields_depth(u.fields@)
                <= depth,
            ValueOrUnknown::Taken => true,
        }
}

/// The bytes `r` are whole records of message `mi`: followed by bytes
/// that can be read, they can be read, and followed by the rest of a
/// group they take their own bytes more.
spec fn reads_then(pool: DescriptorPoolInner, mi: int, r: Seq<u8>, t: Seq<u8>, depth: nat) -> bool {
    &&& records_ok(pool, mi, t, depth) ==> records_ok(pool, mi, r + t, depth)
    &&& forall|tag: u32|
        group_len(pool, mi, tag, t, depth) is Some ==> #[trigger] group_len(pool, mi, tag, r + t, depth) == Some(
            r.len() + group_len(pool, mi, tag, t, depth)->Some_0,
        )
}

/// The bytes `r` are whole records of a map entry.
spec fn entry_then(
    pool: DescriptorPoolInner,
    ki: FieldInfo,
    vi: FieldInfo,
    r: Seq<u8>,
    t: Seq<u8>,
    depth: nat,
) -> bool {
    entry_ok(pool, ki, vi, t, depth) ==> entry_ok(pool, ki, vi, r + t, depth)
}

/// No bytes are whole records.
proof fn lemma_then_empty(pool: DescriptorPoolInner, mi: int, t: Seq<u8>, depth: nat)
    ensures
        reads_then(pool, mi, Seq::empty(), t, depth),
{
    assert(Seq::<u8>::empty() + t =~= t);
}

/// Whole records followed by whole records are whole records.
proof fn lemma_then_concat(pool: DescriptorPoolInner, mi: int, a: Seq<u8>, b: Seq<u8>, t: Seq<u8>, depth: nat)
    requires
        reads_then(pool, mi, a, b + t, depth),
        reads_then(pool, mi, b, t, depth),
    ensures
        reads_then(pool, mi, a + b, t, depth),
{
    assert((a + b) + t =~= a + (b + t));
    assert forall|tag: u32| group_len(pool, mi, tag, t, depth) is Some implies #[trigger] group_len(
        pool,
        mi,
        tag,
        (a + b) + t,
        depth,
    ) == Some((a + b).len() + group_len(pool, mi, tag, t, depth)->Some_0) by {
        assert(group_len(pool, mi, tag, b + t, depth) == Some(b.len() + group_len(pool, mi, tag, t, depth)->Some_0));
        assert(group_len(pool, mi, tag, a + (b + t), depth) is Some);
    }
}

/// One record, whose key reads as (`n`, `wt`) taking `k` bytes and whose
/// rest takes what `step_len` gives, is a whole record.
proof fn lemma_record_then(
    pool: DescriptorPoolInner,
    mi: int,
    rec: Seq<u8>,
    t: Seq<u8>,
    depth: nat,
    n: u32,
    wt: WireType,
    k: nat,
)
    requires
        spec_decode_key(rec + t) == Some((n, wt, k)),
        1 <= k <= rec.len(),
        wt != WireType::EndGroup,
        step_len(pool, mi, n, wt, (rec + t).skip(k as int), depth) == Some((rec.len() - k) as nat),
    ensures
        reads_then(pool, mi, rec, t, depth),
{
    let s = rec + t;
    assert(s.skip((k + (rec.len() - k)) as int) =~= t);
    assert forall|tag: u32| group_len(pool, mi, tag, t, depth) is Some implies #[trigger] group_len(
        pool,
        mi,
        tag,
        rec + t,
        depth,
    ) == Some(rec.len() + group_len(pool, mi, tag, t, depth)->Some_0) by {
        assert(s.skip((k + (rec.len() - k)) as int) =~= t);
    }
}

/// The unknown fields `fs`, all numbered `n`, a number of no field or
/// extension of message `mi`, are whole records.
proof fn lemma_unknown_then(
    pool: DescriptorPoolInner,
    mi: int,
    n: u32,
    fs: Seq<UnknownField>,
    t: Seq<u8>,
    depth: nat,
)
    requires
        record_info(pool, mi, n) is None,
        fields_wf(fs),
        forall|i: int| 0 <= i < fs.len() ==> (#[trigger] fs[i]).number == n,
        unknown_fields_depth(fs) <= depth,
        spec_encode_unknown_fields(fs).len() <= usize::MAX,
    ensures
        reads_then(pool, mi, spec_encode_unknown_fields(fs), t, depth),
    decreases fs.len(),
{
    if fs.len() == 0 {
        assert(spec_encode_unknown_fields(fs) =~= Seq::<u8>::empty());
        lemma_then_empty(pool, mi, t, depth);
    } else {
        crate::decode::lemma_unknown_fields_front(fs);
        let f0 = fs[0];
        let more = fs.drop_first();
        let e0 = spec_encode_unknown_field(f0);
        let em = spec_encode_unknown_fields(more);
        assert forall|i: int| 0 <= i < more.len() implies (#[trigger] more[i]).number == n by {
            assert(more[i] == fs[i + 1]);
        }
        lemma_unknown_then(pool, mi, n, more, t, depth);
        law_unknown_roundtrip(f0, em + t, depth);
        let wt = unknown_wire_type(f0.value);
        let k = spec_key(f0.number as nat, wt).len();
        assert(e0 + (em + t) == (e0 + em) + t) by {
            assert(e0 + (em + t) =~= (e0 + em) + t);
        }
        lemma_decode_key_bounds(e0 + (em + t));
        lemma_record_then(pool, mi, e0, em + t, depth, n, wt, k);
        lemma_then_concat(pool, mi, e0, em, t, depth);
    }
}

/// The wire type of one element's record: a message's length-delimited
/// or group record, else the kind's.
pub open spec fn element_wt(info: FieldInfo) -> WireType {
    if info.kind.spec_is_message() {
        if info.is_group {
            WireType::StartGroup
        } else {
            WireType::LengthDelimited
        }
    } else {
        spec_wire_type(info.kind)
    }
}

/// What a valid pool says of the field or extension a number of message
/// `mi` names: it carries that number, a valid kind, packs only packable
/// kinds, and is a map only of a map-entry type.
pub(crate) proof fn lemma_info_facts(pool: DescriptorPoolInner, mi: int, n: u32)
    requires
        pool.wf(),
        0 <= mi < pool.messages@.len(),
        record_info(pool, mi, n) is Some,
    ensures
        ({
            let info = record_info(pool, mi, n)->Some_0;
            &&& info.number == n
            &&& valid_tag(n as nat)
            &&& pool.kind_ok(info.kind)
            &&& info.is_packed ==> info.kind.spec_is_packable()
            &&& !(info.is_list && info.is_map)
            &&& info.is_map ==> info.kind is Message && info.kind->Message_0 < pool.messages@.len()
                && pool.messages@[info.kind->Message_0 as int].map_entry
        }),
{
    assert(pool.message_ok(mi));
    let msg = pool.messages@[mi];
    match pool.field_index(mi, n) {
        Some(f) => {
            assert(msg.field_numbers.spec_map().dom().contains(n));
            assert(pool.field_ok(mi, f as int));
        },
        None => {
            let exts = msg.extensions@;
            crate::message::lemma_find_extension_member(pool, exts, n);
            let k = choose|k: int|
                0 <= k < exts.len() && exts[k] == pool.find_extension(exts, n)->Some_0
                    && pool.extensions@[exts[k] as int].number == n;
            assert(exts[k] < pool.extensions@.len());
            assert(pool.extension_ok(exts[k] as int));
        },
    }
}

/// The key and value fields of a map-entry type carry numbers 1 and 2,
/// valid kinds, and a key kind.
pub(crate) proof fn lemma_entry_facts(pool: DescriptorPoolInner, kind: KindIndex)
    requires
        pool.wf(),
        kind is Message,
        kind->Message_0 < pool.messages@.len(),
        pool.messages@[kind->Message_0 as int].map_entry,
    ensures
        ({
            let (ki, vi) = pool.map_entry_infos(kind);
            &&& ki.number == MAP_ENTRY_KEY_NUMBER
            &&& vi.number == MAP_ENTRY_VALUE_NUMBER
            &&& pool.kind_ok(vi.kind)
            &&& vi.default matches Some(d) ==> scalar_matches_kind(vi.kind, d)
        }),
{
    let e = kind->Message_0 as int;
    assert(pool.message_ok(e));
    let map = pool.messages@[e].field_numbers.spec_map();
    assert(map.dom().contains(MAP_ENTRY_VALUE_NUMBER));
    assert(pool.field_ok(e, map[MAP_ENTRY_VALUE_NUMBER] as int));
}

/// One element's record of a field that is no map and no packed list
/// (a single value, an element of an unpacked list, or a map's value):
/// its key reads back, and the rest takes what `record_len` gives.
proof fn lemma_element_len(pool: DescriptorPoolInner, info: FieldInfo, v: Value, t: Seq<u8>, depth: nat)
    requires
        pool.wf(),
        valid_tag(info.number as nat),
        pool.kind_ok(info.kind),
        !info.is_map,
        !(info.is_list && info.is_packed),
        valid_element(pool, info.kind, v),
        element_nests(pool, info.kind, v, depth),
        spec_encode_present(pool, info, v).len() <= usize::MAX,
    ensures
        ({
            let rec = spec_encode_present(pool, info, v);
            let wt = element_wt(info);
            let k = spec_key(info.number as nat, wt).len();
            &&& spec_decode_key(rec + t) == Some((info.number, wt, k))
            &&& 1 <= k <= rec.len()
            &&& record_len(pool, info, wt, (rec + t).skip(k as int), depth) == Some((rec.len() - k) as nat)
        }),
    decreases depth, 1nat, 0nat,
{
    broadcast use vstd::utf8::encode_utf8_valid_utf8;
    let n = info.number;
    let rec = spec_encode_present(pool, info, v);
    let s = rec + t;
    let wt = element_wt(info);
    if info.kind.spec_is_message() {
        lemma_message_element_len(pool, info, v, t, depth);
    } else if v is String || v is Bytes {
        let data = match v {
            Value::String(x) => crate::wire::spec_utf8(x@),
            Value::Bytes(b) => b@,
            _ => Seq::empty(),
        };
        assert(rec == crate::wire::spec_len_field(n as nat, data));
        crate::wire::lemma_field_lens(n as nat, 0, data, 0, 0);
        lemma_payload_roundtrip(n, info.kind, v, t);
        lemma_decode_key_bounds(s);
        let k = spec_key(n as nat, WireType::LengthDelimited).len();
        let (payload, len) = spec_wire_payload(WireType::LengthDelimited, s.skip(k as int))->Some_0;
        assert(s.skip((k + len) as int).len() == t.len());
    } else {
        assert(rec == crate::encode::spec_encode_scalar(n as nat, info.kind, v));
        lemma_scalar_roundtrip(n, info.kind, v, t);
        lemma_decode_key_bounds(s);
        let k = spec_key(n as nat, wt).len();
        crate::decode::lemma_read_bounds(info.kind, wt, s.skip(k as int));
        let (raw, len) = spec_wire_scalar(info.kind, wt, s.skip(k as int))->Some_0;
        assert(s.skip((k + len) as int).len() == t.len());
    }
}

/// The record of a message element: a length-delimited record whose
/// payload is the message's records, or a group record whose records
/// end at the group's end key.
#[verifier::spinoff_prover]
#[verifier::rlimit(40)]
proof fn lemma_message_element_len(pool: DescriptorPoolInner, info: FieldInfo, v: Value, t: Seq<u8>, depth: nat)
    requires
        pool.wf(),
        valid_tag(info.number as nat),
        pool.kind_ok(info.kind),
        !info.is_map,
        info.kind.spec_is_message(),
        valid_element(pool, info.kind, v),
        element_nests(pool, info.kind, v, depth),
        spec_encode_present(pool, info, v).len() <= usize::MAX,
    ensures
        ({
            let rec = spec_encode_present(pool, info, v);
            let wt = element_wt(info);
            let k = spec_key(info.number as nat, wt).len();
            &&& spec_decode_key(rec + t) == Some((info.number, wt, k))
            &&& 1 <= k <= rec.len()
            &&& record_len(pool, info, wt, (rec + t).skip(k as int), depth) == Some((rec.len() - k) as nat)
        }),
    decreases depth, 0nat, 0nat,
{
    let n = info.number;
    let rec = spec_encode_present(pool, info, v);
    let s = rec + t;
    let m = v->Message_0;
    let mi = message_index_of(info.kind);
    let slots = m.spec_slots();
    let data = spec_encode_message(m);
    assert(data == spec_encode_slots(pool, mi, slots));
    assert(0 <= mi < pool.messages@.len());
    assert(m.fields_valid());
    assert forall|j: int| 0 <= j < slots.len() implies slot_ok(pool, mi, (#[trigger] slots[j]).0, slots[j].1) by {
        assert(m.spec_pool() == pool);
    }
    crate::wire::lemma_field_lens(n as nat, 0, data, 0, 0);
    crate::wire::lemma_key_len(n as nat, WireType::LengthDelimited);
    crate::wire::lemma_key_len(n as nat, WireType::StartGroup);
    crate::wire::lemma_key_len(n as nat, WireType::EndGroup);
    if info.is_group {
        let start = spec_key(n as nat, WireType::StartGroup);
        let end = spec_key(n as nat, WireType::EndGroup);
        assert(rec == crate::wire::spec_group_field(n as nat, data));
        assert(s =~= start + (data + (end + t)));
        lemma_key_roundtrip(n, WireType::StartGroup, data + (end + t));
        lemma_key_roundtrip(n, WireType::EndGroup, t);
        lemma_decode_key_bounds(end + t);
        lemma_decode_key_bounds(s);
        assert(group_len(pool, mi, n, end + t, (depth - 1) as nat) == Some(end.len()));
        lemma_slots_then(pool, mi, slots, end + t, (depth - 1) as nat);
        assert(s.skip(start.len() as int) =~= data + (end + t));
        assert(group_len(pool, mi, n, data + (end + t), (depth - 1) as nat) == Some(data.len() + end.len()));
    } else {
        assert(rec == crate::wire::spec_len_field(n as nat, data));
        lemma_len_record(n, data, t);
        lemma_decode_key_bounds(s);
        lemma_slots_then(pool, mi, slots, Seq::empty(), (depth - 1) as nat);
        assert(data + Seq::<u8>::empty() =~= data);
        let k = spec_key(n as nat, WireType::LengthDelimited).len();
        let (payload, len) = spec_wire_payload(WireType::LengthDelimited, s.skip(k as int))->Some_0;
        assert(s.skip(k as int).skip(len as int).len() == t.len());
    }
}

/// The records a run of slots of message `mi` writes are whole records.
proof fn lemma_slots_then(pool: DescriptorPoolInner, mi: int, s: Seq<(u32, ValueOrUnknown)>, t: Seq<u8>, depth: nat)
    requires
        pool.wf(),
        0 <= mi < pool.messages@.len(),
        forall|j: int| 0 <= j < s.len() ==> slot_ok(pool, mi, (#[trigger] s[j]).0, s[j].1),
        slots_nest(pool, mi, s, depth),
        spec_encode_slots(pool, mi, s).len() <= usize::MAX,
    ensures
        reads_then(pool, mi, spec_encode_slots(pool, mi, s), t, depth),
    decreases depth, 6nat, s.len(),
{
    if s.len() == 0 {
        assert(spec_encode_slots(pool, mi, s) =~= Seq::<u8>::empty());
        lemma_then_empty(pool, mi, t, depth);
    } else {
        let init = s.drop_last();
        let last = s.last();
        let a = spec_encode_slots(pool, mi, init);
        let b = spec_encode_slot(pool, mi, last);
        assert(spec_encode_slots(pool, mi, s) == a + b);
        assert(slot_ok(pool, mi, s[s.len() - 1].0, s[s.len() - 1].1));
        lemma_slot_then(pool, mi, last, t, depth);
        assert forall|j: int| 0 <= j < init.len() implies slot_ok(pool, mi, (#[trigger] init[j]).0, init[j].1) by {
            assert(init[j] == s[j]);
        }
        assert forall|i: int| 0 <= i < init.len() implies match (#[trigger] init[i]).1 {
            ValueOrUnknown::Value(v) => match record_info(pool, mi, init[i].0) {
                Some(f) => value_nests(pool, f, v, depth),
                None => true,
            },
            ValueOrUnknown::Unknown(u) => record_info(pool, mi, init[i].0) is None && unknown_fields_depth(u.fields@)
                <= depth,
            ValueOrUnknown::Taken => true,
        } by {
            assert(init[i] == s[i]);
        }
        lemma_slots_then(pool, mi, init, b + t, depth);
        lemma_then_concat(pool, mi, a, b, t, depth);
    }
}

/// The records one slot of message `mi` writes are whole records.
#[verifier::spinoff_prover]
#[verifier::rlimit(40)]
proof fn lemma_slot_then(pool: DescriptorPoolInner, mi: int, slot: (u32, ValueOrUnknown), t: Seq<u8>, depth: nat)
    requires
        pool.wf(),
        0 <= mi < pool.messages@.len(),
        slot_ok(pool, mi, slot.0, slot.1),
        match slot.1 {
            ValueOrUnknown::Value(v) => match record_info(pool, mi, slot.0) {
                Some(f) => value_nests(pool, f, v, depth),
                None => true,
            },
            ValueOrUnknown::Unknown(u) => record_info(pool, mi, slot.0) is None && unknown_fields_depth(u.fields@)
                <= depth,
            ValueOrUnknown::Taken => true,
        },
        spec_encode_slot(pool, mi, slot).len() <= usize::MAX,
    ensures
        reads_then(pool, mi, spec_encode_slot(pool, mi, slot), t, depth),
    decreases depth, 5nat, 0nat,
{
    let n = slot.0;
    let r = spec_encode_slot(pool, mi, slot);
    match slot.1 {
        ValueOrUnknown::Taken => {
            assert(r =~= Seq::<u8>::empty());
            lemma_then_empty(pool, mi, t, depth);
        },
        ValueOrUnknown::Unknown(u) => {
            lemma_unknown_then(pool, mi, n, u.fields@, t, depth);
        },
        ValueOrUnknown::Value(v) => {
            let info = record_info(pool, mi, n)->Some_0;
            lemma_info_facts(pool, mi, n);
            assert(valid_value(pool, info, v));
            assert(r == spec_encode_value(pool, info, v));
            lemma_value_then(pool, mi, info, v, t, depth);
        },
    }
}

/// The records a value of a field or extension of message `mi` writes
/// are whole records.
#[verifier::spinoff_prover]
proof fn lemma_value_then(pool: DescriptorPoolInner, mi: int, info: FieldInfo, v: Value, t: Seq<u8>, depth: nat)
    requires
        pool.wf(),
        0 <= mi < pool.messages@.len(),
        record_info(pool, mi, info.number) == Some(info),
        valid_tag(info.number as nat),
        pool.kind_ok(info.kind),
        info.is_packed ==> info.kind.spec_is_packable(),
        !(info.is_list && info.is_map),
        info.is_map ==> info.kind is Message && info.kind->Message_0 < pool.messages@.len()
            && pool.messages@[info.kind->Message_0 as int].map_entry,
        valid_value(pool, info, v),
        value_nests(pool, info, v, depth),
        spec_encode_value(pool, info, v).len() <= usize::MAX,
    ensures
        reads_then(pool, mi, spec_encode_value(pool, info, v), t, depth),
    decreases depth, 4nat, 0nat,
{
    let n = info.number;
    let r = spec_encode_value(pool, info, v);
            if !info.supports_presence && is_default_for(pool, info, v) {
                assert(r =~= Seq::<u8>::empty());
                lemma_then_empty(pool, mi, t, depth);
            } else if info.is_map {
                lemma_entry_facts(pool, info.kind);
                lemma_map_then(pool, mi, info, v->MapEntries_0@, t, depth);
            } else if info.is_list && !info.is_packed {
                lemma_list_then(pool, mi, info, v->List_0@, t, depth);
            } else if info.is_list {
                assert(r == spec_encode_present(pool, info, v));
                law_record_roundtrip(pool, info, v, t, depth);
                let k = spec_key(n as nat, WireType::LengthDelimited).len();
                lemma_decode_key_bounds(r + t);
                lemma_len_of_record_merged(
                    pool,
                    info,
                    WireType::LengthDelimited,
                    (r + t).skip(k as int),
                    t,
                    None,
                    ValueOrUnknown::Value(v),
                    depth,
                );
                lemma_record_then(pool, mi, r, t, depth, n, WireType::LengthDelimited, k);
            } else {
                assert(r == spec_encode_present(pool, info, v));
                assert(valid_element(pool, info.kind, v));
                assert(!(v is List) && !(v is MapEntries));
                assert(element_nests(pool, info.kind, v, depth));
                lemma_element_len(pool, info, v, t, depth);
                lemma_record_then(pool, mi, r, t, depth, n, element_wt(info), spec_key(n as nat, element_wt(info)).len());
            }
}

/// The records the elements of an unpacked list write are whole records.
proof fn lemma_list_then(pool: DescriptorPoolInner, mi: int, info: FieldInfo, vs: Seq<Value>, t: Seq<u8>, depth: nat)
    requires
        pool.wf(),
        record_info(pool, mi, info.number) == Some(info),
        valid_tag(info.number as nat),
        pool.kind_ok(info.kind),
        info.is_list,
        !info.is_packed,
        !info.is_map,
        forall|i: int| 0 <= i < vs.len() ==> valid_element(pool, info.kind, #[trigger] vs[i]),
        forall|i: int| 0 <= i < vs.len() ==> element_nests(pool, info.kind, #[trigger] vs[i], depth),
        spec_encode_list(pool, info, vs).len() <= usize::MAX,
    ensures
        reads_then(pool, mi, spec_encode_list(pool, info, vs), t, depth),
    decreases depth, 3nat, vs.len(),
{
    if vs.len() == 0 {
        assert(spec_encode_list(pool, info, vs) =~= Seq::<u8>::empty());
        lemma_then_empty(pool, mi, t, depth);
    } else {
        let init = vs.drop_last();
        let last = vs.last();
        let a = spec_encode_list(pool, info, init);
        let b = spec_encode_value(pool, info, last);
        assert(valid_element(pool, info.kind, vs[vs.len() - 1]));
        assert(element_nests(pool, info.kind, vs[vs.len() - 1], depth));
        assert(b == spec_encode_present(pool, info, last));
        lemma_element_len(pool, info, last, t, depth);
        lemma_record_then(pool, mi, b, t, depth, info.number, element_wt(info), spec_key(
            info.number as nat,
            element_wt(info),
        ).len());
        assert forall|i: int| 0 <= i < init.len() implies valid_element(pool, info.kind, #[trigger] init[i]) by {
            assert(init[i] == vs[i]);
        }
        assert forall|i: int| 0 <= i < init.len() implies element_nests(pool, info.kind, #[trigger] init[i], depth) by {
            assert(init[i] == vs[i]);
        }
        lemma_list_then(pool, mi, info, init, b + t, depth);
        lemma_then_concat(pool, mi, a, b, t, depth);
    }
}

/// One record of a map entry, whose key reads as (`n`, `wt`) taking `k`
/// bytes and whose rest takes what `entry_step_len` gives, is a whole
/// record of the entry.
proof fn lemma_entry_record_then(
    pool: DescriptorPoolInner,
    ki: FieldInfo,
    vi: FieldInfo,
    rec: Seq<u8>,
    t: Seq<u8>,
    depth: nat,
    n: u32,
    wt: WireType,
    k: nat,
)
    requires
        spec_decode_key(rec + t) == Some((n, wt, k)),
        1 <= k <= rec.len(),
        entry_step_len(pool, ki, vi, n, wt, (rec + t).skip(k as int), depth) == Some((rec.len() - k) as nat),
    ensures
        entry_then(pool, ki, vi, rec, t, depth),
{
    assert((rec + t).skip((k + (rec.len() - k)) as int) =~= t);
}

/// The records of one map entry, its key's and then its value's, can be
/// read as a map entry.
proof fn lemma_entry_data_ok(pool: DescriptorPoolInner, info: FieldInfo, key: MapKey, val: Value, depth: nat)
    requires
        pool.wf(),
        info.is_map,
        info.kind is Message,
        info.kind->Message_0 < pool.messages@.len(),
        pool.messages@[info.kind->Message_0 as int].map_entry,
        key_matches_kind(pool.map_entry_infos(info.kind).0.kind, key),
        valid_value(pool, pool.map_entry_infos(info.kind).1, val),
        element_nests(pool, pool.map_entry_infos(info.kind).1.kind, val, depth),
        spec_encode_key_field(pool.map_entry_infos(info.kind).0, key).len() + spec_encode_value(
            pool,
            pool.map_entry_infos(info.kind).1,
            val,
        ).len() <= usize::MAX,
    ensures
        entry_ok(
            pool,
            pool.map_entry_infos(info.kind).0,
            pool.map_entry_infos(info.kind).1,
            spec_encode_key_field(pool.map_entry_infos(info.kind).0, key) + spec_encode_value(
                pool,
                pool.map_entry_infos(info.kind).1,
                val,
            ),
            depth,
        ),
    decreases depth, 2nat, 0nat,
{
    broadcast use vstd::utf8::encode_utf8_valid_utf8;
    let (ki, vi) = pool.map_entry_infos(info.kind);
    lemma_entry_facts(pool, info.kind);
    let kf = spec_encode_key_field(ki, key);
    let vf = spec_encode_value(pool, vi, val);
    let empty = Seq::<u8>::empty();
    assert(entry_ok(pool, ki, vi, empty, depth));
    if vf.len() == 0 {
        assert(vf + empty =~= empty);
    } else {
        assert(vf == spec_encode_present(pool, vi, val));
        lemma_element_len(pool, vi, val, empty, depth);
        lemma_entry_record_then(pool, ki, vi, vf, empty, depth, vi.number, element_wt(vi), spec_key(
            vi.number as nat,
            element_wt(vi),
        ).len());
    }
    assert(vf + empty =~= vf);
    assert(entry_ok(pool, ki, vi, vf, depth));
    if kf.len() == 0 {
        assert(kf + vf =~= vf);
    } else {
        let kv = key_as_value(key);
        assert(kf == crate::encode::spec_encode_scalar(ki.number as nat, ki.kind, kv));
        if key is String {
            let data = crate::wire::spec_utf8(kv->String_0@);
            crate::wire::lemma_field_lens(ki.number as nat, 0, data, 0, 0);
            lemma_payload_roundtrip(ki.number, ki.kind, kv, vf);
            lemma_decode_key_bounds(kf + vf);
            let k = spec_key(ki.number as nat, WireType::LengthDelimited).len();
            let (payload, len) = spec_wire_payload(WireType::LengthDelimited, (kf + vf).skip(k as int))->Some_0;
            assert((kf + vf).skip((k + len) as int).len() == vf.len());
            lemma_entry_record_then(pool, ki, vi, kf, vf, depth, ki.number, WireType::LengthDelimited, k);
        } else {
            lemma_scalar_roundtrip(ki.number, ki.kind, kv, vf);
            lemma_decode_key_bounds(kf + vf);
            let wt = spec_wire_type(ki.kind);
            let k = spec_key(ki.number as nat, wt).len();
            crate::decode::lemma_read_bounds(ki.kind, wt, (kf + vf).skip(k as int));
            let (raw, len) = spec_wire_scalar(ki.kind, wt, (kf + vf).skip(k as int))->Some_0;
            assert((kf + vf).skip((k + len) as int).len() == vf.len());
            lemma_entry_record_then(pool, ki, vi, kf, vf, depth, ki.number, wt, k);
        }
    }
}

/// The records the entries of a map write are whole records.
#[verifier::spinoff_prover]
#[verifier::rlimit(40)]
proof fn lemma_map_then(
    pool: DescriptorPoolInner,
    mi: int,
    info: FieldInfo,
    es: Seq<(MapKey, Value)>,
    t: Seq<u8>,
    depth: nat,
)
    requires
        pool.wf(),
        record_info(pool, mi, info.number) == Some(info),
        valid_tag(info.number as nat),
        info.is_map,
        !info.is_list,
        info.kind is Message,
        info.kind->Message_0 < pool.messages@.len(),
        pool.messages@[info.kind->Message_0 as int].map_entry,
        forall|i: int|
            0 <= i < es.len() ==> key_matches_kind(pool.map_entry_infos(info.kind).0.kind, (#[trigger] es[i]).0)
                && valid_value(pool, pool.map_entry_infos(info.kind).1, es[i].1),
        forall|i: int|
            0 <= i < es.len() ==> element_nests(pool, pool.map_entry_infos(info.kind).1.kind, (#[trigger] es[i]).1, depth),
        spec_encode_map(pool, info, es).len() <= usize::MAX,
    ensures
        reads_then(pool, mi, spec_encode_map(pool, info, es), t, depth),
    decreases depth, 3nat, es.len(),
{
    if es.len() == 0 {
        assert(spec_encode_map(pool, info, es) =~= Seq::<u8>::empty());
        lemma_then_empty(pool, mi, t, depth);
    } else {
        let (ki, vi) = pool.map_entry_infos(info.kind);
        let init = es.drop_last();
        let e = es.last();
        let n = info.number;
        let data = spec_encode_key_field(ki, e.0) + spec_encode_value(pool, vi, e.1);
        let a = spec_encode_map(pool, info, init);
        let b = crate::wire::spec_len_field(n as nat, data);
        assert(spec_encode_map(pool, info, es) == a + b);
        crate::wire::lemma_field_lens(n as nat, 0, data, 0, 0);
        crate::wire::lemma_key_len(n as nat, WireType::LengthDelimited);
        assert(key_matches_kind(ki.kind, es[es.len() - 1].0) && valid_value(pool, vi, es[es.len() - 1].1));
        assert(element_nests(pool, vi.kind, es[es.len() - 1].1, depth));
        lemma_entry_data_ok(pool, info, e.0, e.1, depth);
        lemma_len_record(n, data, t);
        let s = b + t;
        lemma_decode_key_bounds(s);
        let k = spec_key(n as nat, WireType::LengthDelimited).len();
        lemma_decode_varint_bounds(s.skip(k as int));
        let (payload, len) = spec_wire_payload(WireType::LengthDelimited, s.skip(k as int))->Some_0;
        assert(s.skip(k as int).skip(len as int).len() == t.len());
        assert(record_len(pool, info, WireType::LengthDelimited, s.skip(k as int), depth) == Some(len));
        lemma_record_then(pool, mi, b, t, depth, n, WireType::LengthDelimited, k);
        assert forall|i: int| 0 <= i < init.len() implies key_matches_kind(ki.kind, (#[trigger] init[i]).0)
            && valid_value(pool, vi, init[i].1) by {
            assert(init[i] == es[i]);
        }
        assert forall|i: int| 0 <= i < init.len() implies element_nests(pool, vi.kind, (#[trigger] init[i]).1, depth) by {
            assert(init[i] == es[i]);
        }
        lemma_map_then(pool, mi, info, init, b + t, depth);
        lemma_then_concat(pool, mi, a, b, t, depth);
    }
}

/// Decoding what a message writes succeeds: the bytes of a valid message
/// whose messages nest at most `depth` deep, and whose unknown fields
/// stand at numbers of no field or extension and nest their groups within
/// `depth`, can be read as records of its type (`records_ok`); bytes that
/// fit in memory are assumed. At the decoder's depth limit,
/// `DynamicMessage::decode` fails only on bytes that cannot be read, so it
/// answers these bytes with `Ok` (whatever the message holds: maps,
/// repeated fields packed or not, unknown fields).
pub proof fn law_encoded_message_reads(m: DynamicMessage, depth: nat)
    requires
        m.wf(),
        slots_nest(m.spec_pool(), m.spec_desc().spec_index() as int, m.spec_slots(), depth),
        spec_encode_message(m).len() <= usize::MAX,
    ensures
        records_ok(m.spec_pool(), m.spec_desc().spec_index() as int, spec_encode_message(m), depth),
{
    let pool = m.spec_pool();
    let mi = m.spec_desc().spec_index() as int;
    let slots = m.spec_slots();
    assert(spec_encode_message(m) == spec_encode_slots(pool, mi, slots));
    assert(pool.wf());
    assert(0 <= mi < pool.messages@.len());
    lemma_slots_then(pool, mi, slots, Seq::empty(), depth);
    assert(records_ok(pool, mi, Seq::<u8>::empty(), depth));
    assert(spec_encode_message(m) + Seq::<u8>::empty() =~= spec_encode_message(m));
}

/// The records a run of slots of message `mi` writes, followed by the end
/// key of group `tag` and any bytes, take their own bytes and the end
/// key's as the group's fields.
pub(crate) proof fn lemma_group_body_len(
    pool: DescriptorPoolInner,
    mi: int,
    s: Seq<(u32, ValueOrUnknown)>,
    tag: u32,
    t: Seq<u8>,
    depth: nat,
)
    requires
        pool.wf(),
        0 <= mi < pool.messages@.len(),
        valid_tag(tag as nat),
        forall|j: int| 0 <= j < s.len() ==> slot_ok(pool, mi, (#[trigger] s[j]).0, s[j].1),
        slots_nest(pool, mi, s, depth),
        spec_encode_slots(pool, mi, s).len() <= usize::MAX,
    ensures
        group_len(pool, mi, tag, spec_encode_slots(pool, mi, s) + (spec_key(tag as nat, WireType::EndGroup) + t), depth)
            == Some(spec_encode_slots(pool, mi, s).len() + spec_key(tag as nat, WireType::EndGroup).len()),
{
    let end = spec_key(tag as nat, WireType::EndGroup);
    lemma_key_roundtrip(tag, WireType::EndGroup, t);
    crate::wire::lemma_varint_len((tag * 8 + WireType::EndGroup.code()) as nat);
    lemma_decode_key_bounds(end + t);
    assert(group_len(pool, mi, tag, end + t, depth) == Some(end.len()));
    lemma_slots_then(pool, mi, s, end + t, depth);
}

} // verus!
