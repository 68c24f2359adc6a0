//! Fields whose numbers the message type does not define.

use vstd::prelude::*;
use crate::wire::{
    encode_key, encode_varint, encode_bytes, encoded_len_bytes, encoded_len_varint, key_len,
    lemma_field_lens, lemma_key_len_bound, put_u32_le, put_u64_le, spec_fixed32_field,
    spec_fixed64_field, spec_group_field, spec_key_len, spec_len_field, spec_varint_field,
    spec_varint_len, valid_tag, WireType,
};

verus! {

/// The value of an unknown field, by wire type.
#[derive(Debug, PartialEq)]
pub enum UnknownFieldValue {
    Varint(u64),
    SixtyFourBit(u64),
    LengthDelimited(Vec<u8>),
    Group(UnknownFieldSet),
    ThirtyTwoBit(u32),
}

/// An unknown field.
#[derive(Debug, PartialEq)]
pub struct UnknownField {
    pub number: u32,
    pub value: UnknownFieldValue,
}

/// The unknown fields of one number, in the order they were read.
#[derive(Debug, PartialEq)]
pub struct UnknownFieldSet {
    pub fields: Vec<UnknownField>,
}


impl UnknownField {
    /// The field's number.
    pub fn number(&self) -> (r: u32)
        ensures
            r == self.number,
    {
        self.number
    }
}

impl UnknownFieldSet {
    /// A set holding one field.
    pub fn from_one(field: UnknownField) -> (r: Self)
        ensures
            r.fields@ == seq![field],
    {
        let mut fields = Vec::new();
        fields.push(field);
        UnknownFieldSet { fields }
    }

    /// Appends a field.
    pub fn insert(&mut self, field: UnknownField)
        ensures
            final(self).fields@ == old(self).fields@.push(field),
    {
        self.fields.push(field);
    }

    /// The fields, in the order they were read.
    pub fn iter(&self) -> (r: &[UnknownField])
        ensures
            r@ == self.fields@,
    {
        self.fields.as_slice()
    }

    /// Every field of the set has number `n`, a valid field number, and
    /// every field is well formed.
    pub open spec fn wf_for(self, n: u32) -> bool {
        &&& valid_tag(n as nat)
        &&& forall|i: int| 0 <= i < self.fields@.len() ==> (#[trigger] self.fields@[i]).number == n
        &&& fields_wf(self.fields@)
    }
}

/// A field is well formed when its number is a valid field number, and
/// so, recursively, are the fields of a group.
pub open spec fn field_wf(f: UnknownField) -> bool
    decreases f, 1nat,
{
    &&& valid_tag(f.number as nat)
    &&& match f.value {
        UnknownFieldValue::Group(g) => fields_wf(g.fields@),
        _ => true,
    }
}

/// Every field of the run is well formed.
pub open spec fn fields_wf(fs: Seq<UnknownField>) -> bool
    decreases fs, 0nat,
{
    if fs.len() == 0 {
        true
    } else {
        fields_wf(fs.drop_last()) && field_wf(fs.last())
    }
}

/// The record of an unknown field: its key and value as they were read,
/// a group's fields between its start and end keys.
pub open spec fn spec_encode_unknown_field(f: UnknownField) -> Seq<u8>
    decreases f, 1nat,
{
    let n = f.number as nat;
    match f.value {
        UnknownFieldValue::Varint(v) => spec_varint_field(n, v as nat),
        UnknownFieldValue::SixtyFourBit(v) => spec_fixed64_field(n, v),
        UnknownFieldValue::LengthDelimited(b) => spec_len_field(n, b@),
        UnknownFieldValue::Group(g) => spec_group_field(n, spec_encode_unknown_fields(g.fields@)),
        UnknownFieldValue::ThirtyTwoBit(v) => spec_fixed32_field(n, v),
    }
}

/// The records of a run of unknown fields, in order.
pub open spec fn spec_encode_unknown_fields(fs: Seq<UnknownField>) -> Seq<u8>
    decreases fs, 0nat,
{
    if fs.len() == 0 {
        Seq::empty()
    } else {
        spec_encode_unknown_fields(fs.drop_last()) + spec_encode_unknown_field(fs.last())
    }
}

/// The records of a set of unknown fields, in the order they were read.
pub open spec fn spec_encode_unknown_set(s: UnknownFieldSet) -> Seq<u8> {
    spec_encode_unknown_fields(s.fields@)
}

proof fn lemma_fields_wf_prefix(fs: Seq<UnknownField>, i: int)
    requires
        fields_wf(fs),
        0 <= i <= fs.len(),
    ensures
        fields_wf(fs.take(i)),
        i < fs.len() ==> field_wf(fs[i]),
    decreases fs.len(),
{
    if i == fs.len() {
        assert(fs.take(i) == fs);
    } else {
        lemma_fields_wf_prefix(fs.drop_last(), i);
        assert(fs.drop_last().take(i) == fs.take(i));
        if i < fs.len() - 1 {
            assert(fs.drop_last()[i] == fs[i]);
        }
    }
}

impl UnknownField {
    /// The byte length of the field's record.
    pub fn encoded_len(&self) -> (r: usize)
        requires
            field_wf(*self),
            spec_encode_unknown_field(*self).len() <= usize::MAX,
        ensures
            r == spec_encode_unknown_field(*self).len(),
        decreases *self, 0nat,
    {
        let n = self.number;
        proof {
            lemma_key_len_bound(n as nat);
        }
        match &self.value {
            UnknownFieldValue::Varint(v) => {
                proof {
                    lemma_field_lens(n as nat, *v as nat, seq![], 0, 0);
                }
                key_len(n) + encoded_len_varint(*v)
            },
            UnknownFieldValue::SixtyFourBit(v) => {
                proof {
                    lemma_field_lens(n as nat, 0, seq![], 0, *v);
                }
                key_len(n) + 8
            },
            UnknownFieldValue::LengthDelimited(b) => {
                proof {
                    lemma_field_lens(n as nat, 0, b@, 0, 0);
                }
                encoded_len_bytes(n, b)
            },
            UnknownFieldValue::Group(g) => {
                proof {
                    lemma_field_lens(n as nat, 0, spec_encode_unknown_fields(g.fields@), 0, 0);
                }
                2 * key_len(n) + g.encoded_len()
            },
            UnknownFieldValue::ThirtyTwoBit(v) => {
                proof {
                    lemma_field_lens(n as nat, 0, seq![], *v, 0);
                }
                key_len(n) + 4
            },
        }
    }

    /// Appends the field's record.
    pub fn encode_raw(&self, buf: &mut Vec<u8>)
        requires
            field_wf(*self),
        ensures
            final(buf)@ == old(buf)@ + spec_encode_unknown_field(*self),
        decreases *self, 0nat,
    {
        let n = self.number;
        match &self.value {
            UnknownFieldValue::Varint(v) => {
                encode_key(n, WireType::Varint, buf);
                encode_varint(*v, buf);
            },
            UnknownFieldValue::SixtyFourBit(v) => {
                encode_key(n, WireType::SixtyFourBit, buf);
                put_u64_le(buf, *v);
            },
            UnknownFieldValue::LengthDelimited(b) => {
                encode_bytes(n, b, buf);
            },
            UnknownFieldValue::Group(g) => {
                encode_key(n, WireType::StartGroup, buf);
                g.encode_raw(buf);
                encode_key(n, WireType::EndGroup, buf);
            },
            UnknownFieldValue::ThirtyTwoBit(v) => {
                encode_key(n, WireType::ThirtyTwoBit, buf);
                put_u32_le(buf, *v);
            },
        }
    }
}

impl UnknownFieldSet {
    /// The byte length of the records of the set.
    pub fn encoded_len(&self) -> (r: usize)
        requires
            fields_wf(self.fields@),
            spec_encode_unknown_set(*self).len() <= usize::MAX,
        ensures
            r == spec_encode_unknown_set(*self).len(),
        decreases *self, 1nat,
    {
        let mut len: usize = 0;
        let mut i: usize = 0;
        while i < self.fields.len()
            invariant
                i <= self.fields@.len(),
                fields_wf(self.fields@),
                spec_encode_unknown_fields(self.fields@).len() <= usize::MAX,
                len == spec_encode_unknown_fields(self.fields@.take(i as int)).len(),
            decreases self.fields@.len() - i,
        {
            proof {
                lemma_fields_wf_prefix(self.fields@, i as int);
                assert(self.fields@.take(i + 1).drop_last() == self.fields@.take(i as int));
                assert(self.fields@.take(i + 1).last() == self.fields@[i as int]);
                lemma_unknown_prefix_len(self.fields@, i + 1);
            }
            let l = self.fields[i].encoded_len();
            len = len + l;
            i = i + 1;
        }
        proof {
            assert(self.fields@.take(i as int) == self.fields@);
        }
        len
    }

    /// Appends the records of the set, in order.
    pub fn encode_raw(&self, buf: &mut Vec<u8>)
        requires
            fields_wf(self.fields@),
        ensures
            final(buf)@ == old(buf)@ + spec_encode_unknown_set(*self),
        decreases *self, 1nat,
    {
        let ghost start = buf@;
        let mut i: usize = 0;
        while i < self.fields.len()
            invariant
                i <= self.fields@.len(),
                fields_wf(self.fields@),
                buf@ == start + spec_encode_unknown_fields(self.fields@.take(i as int)),
            decreases self.fields@.len() - i,
        {
            proof {
                lemma_fields_wf_prefix(self.fields@, i as int);
                assert(self.fields@.take(i + 1).drop_last() == self.fields@.take(i as int));
                assert(self.fields@.take(i + 1).last() == self.fields@[i as int]);
            }
            self.fields[i].encode_raw(buf);
            proof {
                assert(buf@ == start + spec_encode_unknown_fields(self.fields@.take(i + 1)));
            }
            i = i + 1;
        }
        proof {
            assert(self.fields@.take(i as int) == self.fields@);
        }
    }
}

/// The records of a prefix of a run are no longer than those of the run.
proof fn lemma_unknown_prefix_len(fs: Seq<UnknownField>, i: int)
    requires
        0 <= i <= fs.len(),
    ensures
        spec_encode_unknown_fields(fs.take(i)).len() <= spec_encode_unknown_fields(fs).len(),
    decreases fs.len() - i,
{
    if i < fs.len() {
        lemma_unknown_prefix_len(fs, i + 1);
        assert(fs.take(i + 1).drop_last() == fs.take(i));
    } else {
        assert(fs.take(i) == fs);
    }
}

} // verus!
