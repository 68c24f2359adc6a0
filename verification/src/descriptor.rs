//! Descriptors: the resolved definitions of messages, fields, extensions
//! and enums, held in a pool and addressed by index.

use vstd::prelude::*;
use std::sync::Arc;
use crate::value::{scalar_matches_kind, Value};
use crate::wire::valid_tag;
use vstd::utf8::{is_char_boundary, is_char_boundary_iff_not_is_continuation_byte, is_char_boundary_start_end_of_seq};
use vstd::string::{StrSliceExecFns, StringSliceAdditionalSpecFns};
use crate::sorted::{as_map, lemma_absent, lemma_insert, lemma_position, lemma_update, search_by_number, sorted_by_number};

verus! {

broadcast use vstd::utf8::encode_utf8_valid_utf8;

/// The first field number of the reserved range `19_000..20_000`.
pub const RESERVED_FIELD_NUMBERS_START: u32 = 19_000;

/// The number of the key field of a map entry message.
pub const MAP_ENTRY_KEY_NUMBER: u32 = 1;

/// The number of the value field of a map entry message.
pub const MAP_ENTRY_VALUE_NUMBER: u32 = 2;

/// Cardinality determines whether a field is optional, required, or repeated.
#[derive(Debug, Clone, Copy, PartialEq, Eq, PartialOrd, Ord, Hash, Structural)]
pub enum Cardinality {
    /// The field appears zero or one times.
    Optional,
    /// The field appears exactly one time. This cardinality is invalid with Proto3.
    Required,
    /// The field appears zero or more times.
    Repeated,
}

/// The syntax of a proto file.
#[derive(Copy, Clone, Debug, PartialEq, Eq, Hash, Structural)]
pub enum Syntax {
    /// The `proto2` syntax.
    Proto2,
    /// The `proto3` syntax.
    Proto3,
}

/// The type of a field, with message, enum and group types given by their
/// index in the pool.
#[derive(Copy, Clone, Debug, PartialEq, Eq, Structural)]
pub enum KindIndex {
    Double,
    Float,
    Int32,
    Int64,
    Uint32,
    Uint64,
    Sint32,
    Sint64,
    Fixed32,
    Fixed64,
    Sfixed32,
    Sfixed64,
    Bool,
    String,
    Bytes,
    Message(u32),
    Enum(u32),
    Group(u32),
}

impl KindIndex {
    /// Scalar numeric kinds (and enums) may be packed; strings, bytes,
    /// messages and groups may not.
    pub open spec fn spec_is_packable(self) -> bool {
        !(self is String || self is Bytes || self is Message || self is Group)
    }

    pub open spec fn spec_is_message(self) -> bool {
        self is Message || self is Group
    }

    /// Whether a map key may have this kind.
    pub open spec fn spec_is_map_key(self) -> bool {
        match self {
            KindIndex::Int32 | KindIndex::Int64 | KindIndex::Uint32 | KindIndex::Uint64
            | KindIndex::Sint32 | KindIndex::Sint64 | KindIndex::Fixed32 | KindIndex::Fixed64
            | KindIndex::Sfixed32 | KindIndex::Sfixed64 | KindIndex::Bool | KindIndex::String => true,
            _ => false,
        }
    }

    /// The protobuf name of the kind (messages and groups are both `message`).
    pub open spec fn spec_name(self) -> &'static str {
        match self {
            KindIndex::Double => "double",
            KindIndex::Float => "float",
            KindIndex::Int32 => "int32",
            KindIndex::Int64 => "int64",
            KindIndex::Uint32 => "uint32",
            KindIndex::Uint64 => "uint64",
            KindIndex::Sint32 => "sint32",
            KindIndex::Sint64 => "sint64",
            KindIndex::Fixed32 => "fixed32",
            KindIndex::Fixed64 => "fixed64",
            KindIndex::Sfixed32 => "sfixed32",
            KindIndex::Sfixed64 => "sfixed64",
            KindIndex::Bool => "bool",
            KindIndex::String => "string",
            KindIndex::Bytes => "bytes",
            KindIndex::Message(_) | KindIndex::Group(_) => "message",
            KindIndex::Enum(_) => "enum",
        }
    }

    pub fn is_packable(&self) -> (r: bool)
        ensures
            r == self.spec_is_packable(),
    {
        match self {
            KindIndex::Double
            | KindIndex::Float
            | KindIndex::Int32
            | KindIndex::Int64
            | KindIndex::Uint32
            | KindIndex::Uint64
            | KindIndex::Sint32
            | KindIndex::Sint64
            | KindIndex::Fixed32
            | KindIndex::Fixed64
            | KindIndex::Sfixed32
            | KindIndex::Sfixed64
            | KindIndex::Bool
            | KindIndex::Enum(_) => true,
            KindIndex::String | KindIndex::Bytes | KindIndex::Message(_) | KindIndex::Group(_) => {
                false
            },
        }
    }

    pub fn is_message(&self) -> (r: bool)
        ensures
            r == self.spec_is_message(),
    {
        matches!(self, KindIndex::Message(_) | KindIndex::Group(_))
    }

    /// The protobuf name of the kind, as its debug text.
    pub fn name(&self) -> (r: &'static str)
        ensures
            r == self.spec_name(),
    {
        match self {
            KindIndex::Double => "double",
            KindIndex::Float => "float",
            KindIndex::Int32 => "int32",
            KindIndex::Int64 => "int64",
            KindIndex::Uint32 => "uint32",
            KindIndex::Uint64 => "uint64",
            KindIndex::Sint32 => "sint32",
            KindIndex::Sint64 => "sint64",
            KindIndex::Fixed32 => "fixed32",
            KindIndex::Fixed64 => "fixed64",
            KindIndex::Sfixed32 => "sfixed32",
            KindIndex::Sfixed64 => "sfixed64",
            KindIndex::Bool => "bool",
            KindIndex::String => "string",
            KindIndex::Bytes => "bytes",
            KindIndex::Message(_) | KindIndex::Group(_) => "message",
            KindIndex::Enum(_) => "enum",
        }
    }
}

/// What a fully qualified name in a pool refers to.
#[derive(Copy, Clone, Debug, PartialEq, Eq, Structural)]
pub enum DefinitionKind {
    Package,
    Message(u32),
    Field(u32),
    Oneof(u32),
    Service(u32),
    Method(u32),
    Enum(u32),
    EnumValue(u32),
    Extension(u32),
}

impl DefinitionKind {
    /// Packages, messages, services and enums may contain other definitions.
    pub open spec fn spec_is_parent(self) -> bool {
        self is Package || self is Message || self is Service || self is Enum
    }

    pub fn is_parent(&self) -> (r: bool)
        ensures
            r == self.spec_is_parent(),
    {
        match self {
            DefinitionKind::Package => true,
            DefinitionKind::Message(_) => true,
            DefinitionKind::Field(_) => false,
            DefinitionKind::Oneof(_) => false,
            DefinitionKind::Service(_) => true,
            DefinitionKind::Method(_) => false,
            DefinitionKind::Enum(_) => true,
            DefinitionKind::EnumValue(_) => false,
            DefinitionKind::Extension(_) => false,
        }
    }
}

/// A definition registered under a name in a pool.
#[derive(Clone, Copy, Debug, PartialEq, Eq)]
pub struct Definition {
    pub file: u32,
    pub kind: DefinitionKind,
}

/// Number -> field-index lookup for one message: (number, index) pairs kept
/// sorted by number, searched by bisection, iterated in ascending number
/// order.
#[derive(Debug, PartialEq)]
pub struct FieldNumberIndex {
    entries: Vec<(u32, u32)>,
}

impl FieldNumberIndex {
    pub closed spec fn spec_entries(&self) -> Seq<(u32, u32)> {
        self.entries@
    }

    /// The index stored for each number.
    pub open spec fn spec_map(&self) -> Map<u32, u32> {
        as_map(self.spec_entries())
    }

    pub open spec fn wf(&self) -> bool {
        sorted_by_number(self.spec_entries())
    }

    /// An empty index with room for `fields` entries.
    pub fn with_capacity(fields: usize) -> (r: Self)
        ensures
            r.wf(),
            r.spec_entries() == Seq::<(u32, u32)>::empty(),
            r.spec_map() == Map::<u32, u32>::empty(),
    {
        let r = FieldNumberIndex { entries: Vec::with_capacity(fields) };
        assert(r.spec_map() =~= Map::<u32, u32>::empty());
        r
    }

    /// Maps `number` to `index`, returning the index it replaced.
    pub fn insert(&mut self, number: u32, index: u32) -> (r: Option<u32>)
        requires
            old(self).wf(),
        ensures
            final(self).wf(),
            final(self).spec_map() == old(self).spec_map().insert(number, index),
            final(self).spec_entries().len() == old(self).spec_entries().len() + (if old(
                self,
            ).spec_map().dom().contains(number) {
                0int
            } else {
                1int
            }),
            r == (if old(self).spec_map().dom().contains(number) {
                Some(old(self).spec_map()[number])
            } else {
                None
            }),
    {
        let ghost old_entries = self.entries@;
        match search_by_number(self.entries.as_slice(), number) {
            Ok(pos) => {
                let previous = self.entries[pos].1;
                self.entries.set(pos, (number, index));
                proof {
                    lemma_position(old_entries, pos as int);
                    lemma_update(old_entries, pos as int, index);
                }
                Some(previous)
            },
            Err(pos) => {
                self.entries.insert(pos, (number, index));
                proof {
                    lemma_insert(old_entries, pos as int, number, index);
                }
                None
            },
        }
    }

    /// The index stored for `number`.
    pub fn get(&self, number: u32) -> (r: Option<u32>)
        requires
            self.wf(),
        ensures
            r == (if self.spec_map().dom().contains(number) {
                Some(self.spec_map()[number])
            } else {
                None
            }),
    {
        match search_by_number(self.entries.as_slice(), number) {
            Ok(pos) => {
                proof {
                    lemma_position(self.entries@, pos as int);
                }
                Some(self.entries[pos].1)
            },
            Err(pos) => {
                proof {
                    lemma_absent(self.entries@, pos as int, number);
                }
                None
            },
        }
    }

    /// The (number, index) pairs, in ascending number order.
    pub(crate) fn entries(&self) -> (r: &[(u32, u32)])
        ensures
            r@ == self.spec_entries(),
    {
        self.entries.as_slice()
    }

    /// Whether the pairs ascend strictly by number.
    pub(crate) fn is_sorted(&self) -> (r: bool)
        ensures
            r == self.wf(),
    {
        let mut i: usize = 1;
        if self.entries.len() == 0 {
            return true;
        }
        while i < self.entries.len()
            invariant
                1 <= i <= self.entries@.len(),
                forall|a: int, b: int| 0 <= a < b < i ==> self.entries@[a].0 < self.entries@[b].0,
            decreases self.entries@.len() - i,
        {
            if self.entries[i - 1].0 >= self.entries[i].0 {
                return false;
            }
            proof {
                assert forall|a: int, b: int| 0 <= a < b < i + 1 implies self.entries@[a].0 < self.entries@[b].0 by {
                    if b == i && a < i - 1 {
                        assert(self.entries@[a].0 < self.entries@[i - 1].0);
                    }
                }
            }
            i = i + 1;
        }
        true
    }

    /// The stored indices, in ascending field-number order.
    pub fn iter_indices(&self) -> (r: Vec<u32>)
        ensures
            r@.len() == self.spec_entries().len(),
            forall|i: int| 0 <= i < r@.len() ==> r@[i] == self.spec_entries()[i].1,
    {
        let mut r: Vec<u32> = Vec::with_capacity(self.entries.len());
        let mut i: usize = 0;
        while i < self.entries.len()
            invariant
                i <= self.entries@.len(),
                r@.len() == i,
                forall|k: int| 0 <= k < i ==> r@[k] == self.entries@[k].1,
            decreases self.entries@.len() - i,
        {
            r.push(self.entries[i].1);
            i = i + 1;
        }
        r
    }
}


/// Looking a number up after mapping it to an index gives that index;
/// every other number looks up as before.
pub proof fn law_index_get_after_insert(index: FieldNumberIndex, number: u32, field: u32, other: u32)
    requires
        index.wf(),
    ensures
        ({
            let after = index.spec_map().insert(number, field);
            &&& after.dom().contains(number)
            &&& after[number] == field
            &&& other != number ==> after.dom().contains(other) == index.spec_map().dom().contains(other)
            &&& other != number && after.dom().contains(other) ==> after[other] == index.spec_map()[other]
        }),
{
}

/// `usize::try_into::<u32>` of a descriptor position (its `expect` panics
/// past `u32::MAX`, so the position must fit).
pub fn to_index(i: usize) -> (r: u32)
    requires
        i <= u32::MAX,
    ensures
        r == i,
{
    i as u32
}



/// The name and location of a definition: `full_name` ends with the
/// definition's own name, which starts at byte `name_index`.
#[derive(Debug, PartialEq)]
pub struct Identity {
    pub(crate) file: u32,
    pub(crate) path: Vec<i32>,
    pub(crate) full_name: String,
    pub(crate) name_index: usize,
}

/// The UTF-8 bytes of a string's characters.
pub open spec fn str_bytes(s: Seq<char>) -> Seq<u8> {
    vstd::utf8::encode_utf8(s)
}

impl Identity {
    #[verifier::type_invariant]
    spec fn inv(self) -> bool {
        &&& self.name_index <= str_bytes(self.full_name@).len()
        &&& is_char_boundary(str_bytes(self.full_name@), self.name_index as int)
    }

    pub open(crate) spec fn spec_full_name(self) -> Seq<char> {
        self.full_name@
    }

    /// The bytes of the definition's own name: the tail of the full name.
    pub open(crate) spec fn spec_name_bytes(self) -> Seq<u8> {
        str_bytes(self.full_name@).subrange(self.name_index as int, str_bytes(self.full_name@).len() as int)
    }

    /// `full_name` must end with `name`, preceded by a `.` unless the two
    /// are equal.
    pub fn new(file: u32, path: &[i32], full_name: &str, name: &str) -> (r: Identity)
        requires
            full_name.spec_bytes().len() <= usize::MAX,
            name.spec_bytes().len() <= full_name.spec_bytes().len(),
            full_name.spec_bytes().subrange(
                full_name.spec_bytes().len() - name.spec_bytes().len(),
                full_name.spec_bytes().len() as int,
            ) == name.spec_bytes(),
            name.spec_bytes().len() == full_name.spec_bytes().len() || full_name.spec_bytes()[
                full_name.spec_bytes().len() - name.spec_bytes().len() - 1] == 46u8,
        ensures
            r.spec_full_name() == full_name@,
            r.spec_name_bytes() == name.spec_bytes(),
    {
        let name_index = full_name.len() - name.len();
        let ghost fb = full_name.spec_bytes();
        let ghost nb = name.spec_bytes();
        proof {
            if name_index as int == fb.len() {
                is_char_boundary_start_end_of_seq(fb);
            } else if name_index > 0 {
                assert(nb.len() > 0);
                assert(fb[name_index as int] == nb[0]);
                is_char_boundary_iff_not_is_continuation_byte(nb, 0);
                is_char_boundary_iff_not_is_continuation_byte(fb, name_index as int);
            }
        }
        Identity {
            file,
            path: vstd::slice::slice_to_vec(path),
            full_name: full_name.to_owned(),
            name_index,
        }
    }

    pub fn full_name(&self) -> (r: &str)
        ensures
            r@ == self.spec_full_name(),
    {
        self.full_name.as_str()
    }

    pub fn name(&self) -> (r: &str)
        ensures
            r.spec_bytes() == self.spec_name_bytes(),
    {
        proof {
            use_type_invariant(self);
        }
        let (_, name) = self.full_name.as_str().split_at(self.name_index);
        name
    }
}

/// What the wire codecs need to know of a field or extension.
pub struct FieldInfo {
    pub number: u32,
    pub kind: KindIndex,
    pub supports_presence: bool,
    pub is_list: bool,
    pub is_map: bool,
    pub is_group: bool,
    pub is_packed: bool,
    pub default: Option<Value>,
}

/// A resolved message field.
#[derive(Debug, PartialEq)]
pub struct FieldDescriptorInner {
    pub id: Identity,
    pub number: u32,
    pub json_name: String,
    pub kind: KindIndex,
    pub oneof: Option<u32>,
    pub is_packed: bool,
    pub supports_presence: bool,
    pub cardinality: Cardinality,
    pub default: Option<Value>,
}

/// A resolved oneof: the indices of its member fields.
#[derive(Debug, PartialEq)]
pub struct OneofDescriptorInner {
    pub id: Identity,
    pub fields: Vec<u32>,
}

/// A resolved message type.
#[derive(Debug, PartialEq)]
pub struct MessageDescriptorInner {
    pub id: Identity,
    pub parent: Option<u32>,
    /// The extensions of this message type.
    pub extensions: Vec<u32>,
    pub fields: Vec<FieldDescriptorInner>,
    pub field_numbers: FieldNumberIndex,
    pub oneofs: Vec<OneofDescriptorInner>,
    /// Whether this is a synthetic map-entry message.
    pub map_entry: bool,
}

/// A resolved extension field.
#[derive(Debug, PartialEq)]
pub struct ExtensionDescriptorInner {
    pub id: Identity,
    pub parent: Option<u32>,
    pub number: u32,
    pub json_name: String,
    pub extendee: u32,
    pub kind: KindIndex,
    pub is_packed: bool,
    pub cardinality: Cardinality,
    pub default: Option<Value>,
}

/// A resolved enum value.
#[derive(Debug, PartialEq)]
pub struct EnumValueDescriptorInner {
    pub id: Identity,
    pub number: i32,
}

/// A resolved enum type; its first value is its default.
#[derive(Debug, PartialEq)]
pub struct EnumDescriptorInner {
    pub id: Identity,
    pub parent: Option<u32>,
    pub values: Vec<EnumValueDescriptorInner>,
}

/// The definitions of a pool, addressed by index.
#[derive(Debug, PartialEq)]
pub struct DescriptorPoolInner {
    pub names: Vec<(String, Definition)>,
    pub messages: Vec<MessageDescriptorInner>,
    pub enums: Vec<EnumDescriptorInner>,
    pub extensions: Vec<ExtensionDescriptorInner>,
}

impl DescriptorPoolInner {
    /// Message, group and enum kinds name definitions of the pool; an enum
    /// has a first (default) value.
    pub open(crate) spec fn kind_ok(&self, kind: KindIndex) -> bool {
        match kind {
            KindIndex::Message(m) | KindIndex::Group(m) => m < self.messages@.len(),
            KindIndex::Enum(e) => e < self.enums@.len() && self.enums@[e as int].values@.len() > 0,
            _ => true,
        }
    }

    /// A repeated field of a map-entry message type is a map.
    pub open(crate) spec fn is_map_kind(&self, cardinality: Cardinality, kind: KindIndex) -> bool {
        cardinality is Repeated && match kind {
            KindIndex::Message(m) => m < self.messages@.len() && self.messages@[m as int].map_entry,
            _ => false,
        }
    }

    /// The wire view of field `f` of message `m`.
    pub open(crate) spec fn field_info(&self, m: int, f: int) -> FieldInfo {
        let fd = self.messages@[m].fields@[f];
        let is_map = self.is_map_kind(fd.cardinality, fd.kind);
        FieldInfo {
            number: fd.number,
            kind: fd.kind,
            supports_presence: fd.supports_presence,
            is_list: fd.cardinality is Repeated && !is_map,
            is_map,
            is_group: fd.kind is Group,
            is_packed: fd.is_packed,
            default: fd.default,
        }
    }

    /// The wire view of a map-entry field: a single value, never a
    /// container or group.
    pub open(crate) spec fn entry_field_info(&self, m: int, f: int) -> FieldInfo {
        let fd = self.messages@[m].fields@[f];
        FieldInfo {
            number: fd.number,
            kind: fd.kind,
            supports_presence: fd.supports_presence,
            is_list: false,
            is_map: false,
            is_group: false,
            is_packed: fd.is_packed,
            default: fd.default,
        }
    }

    /// The wire view of extension `e`.
    pub open(crate) spec fn ext_info(&self, e: int) -> FieldInfo {
        let ed = self.extensions@[e];
        let is_map = self.is_map_kind(ed.cardinality, ed.kind);
        FieldInfo {
            number: ed.number,
            kind: ed.kind,
            supports_presence: !(ed.cardinality is Repeated),
            is_list: ed.cardinality is Repeated && !is_map,
            is_map,
            is_group: ed.kind is Group,
            is_packed: ed.is_packed,
            default: ed.default,
        }
    }

    /// The field index of number `n` in message `m`.
    pub open(crate) spec fn field_index(&self, m: int, n: u32) -> Option<u32> {
        let map = self.messages@[m].field_numbers.spec_map();
        if map.dom().contains(n) { Some(map[n]) } else { None }
    }

    /// The key and value views of the map-entry message of a map kind.
    pub open(crate) spec fn map_entry_infos(&self, kind: KindIndex) -> (FieldInfo, FieldInfo) {
        let e = kind->Message_0 as int;
        let map = self.messages@[e].field_numbers.spec_map();
        (
            self.entry_field_info(e, map[MAP_ENTRY_KEY_NUMBER] as int),
            self.entry_field_info(e, map[MAP_ENTRY_VALUE_NUMBER] as int),
        )
    }

    /// The numbers of the members of oneof `o` of message `m`.
    pub open(crate) spec fn oneof_numbers(&self, m: int, o: int) -> Seq<u32> {
        let msg = self.messages@[m];
        msg.oneofs@[o].fields@.map_values(|f: u32| msg.fields@[f as int].number)
    }

    /// The first extension among `exts` whose number is `n`.
    pub open(crate) spec fn find_extension(&self, exts: Seq<u32>, n: u32) -> Option<u32>
        decreases exts.len(),
    {
        if exts.len() == 0 {
            None
        } else if self.extensions@[exts[0] as int].number == n {
            Some(exts[0])
        } else {
            self.find_extension(exts.drop_first(), n)
        }
    }

    /// The extension of message `m` numbered `n`.
    pub open(crate) spec fn extension_of(&self, m: int, n: u32) -> Option<u32> {
        self.find_extension(self.messages@[m].extensions@, n)
    }

    pub open(crate) spec fn field_ok(&self, m: int, f: int) -> bool {
        let msg = self.messages@[m];
        let fd = msg.fields@[f];
        &&& valid_tag(fd.number as nat)
        &&& self.kind_ok(fd.kind)
        &&& (fd.oneof matches Some(o) ==> o < msg.oneofs@.len())
        &&& (fd.is_packed ==> fd.kind.spec_is_packable())
        &&& (fd.default matches Some(d) ==> scalar_matches_kind(fd.kind, d))
    }

    pub open(crate) spec fn message_ok(&self, m: int) -> bool {
        let msg = self.messages@[m];
        let map = msg.field_numbers.spec_map();
        &&& msg.field_numbers.wf()
        &&& msg.fields@.len() <= u32::MAX
        &&& forall|n: u32| #[trigger] map.dom().contains(n) ==> map[n] < msg.fields@.len()
            && msg.fields@[map[n] as int].number == n
        &&& forall|f: int| 0 <= f < msg.fields@.len() ==> #[trigger] map.dom().contains(
            msg.fields@[f].number,
        ) && map[msg.fields@[f].number] == f
        &&& forall|f: int| 0 <= f < msg.fields@.len() ==> #[trigger] self.field_ok(m, f)
        &&& forall|o: int, k: int|
            0 <= o < msg.oneofs@.len() && 0 <= k < msg.oneofs@[o].fields@.len() ==> #[trigger] msg.oneofs@[o].fields@[k]
                < msg.fields@.len()
        &&& forall|k: int| 0 <= k < msg.extensions@.len() ==> #[trigger] msg.extensions@[k]
            < self.extensions@.len() && self.extensions@[msg.extensions@[k] as int].extendee == m
            && !map.dom().contains(self.extensions@[msg.extensions@[k] as int].number)
        &&& msg.map_entry ==> {
            &&& map.dom().contains(MAP_ENTRY_KEY_NUMBER)
            &&& map.dom().contains(MAP_ENTRY_VALUE_NUMBER)
            &&& msg.fields@[map[MAP_ENTRY_KEY_NUMBER] as int].kind.spec_is_map_key()
        }
    }

    pub open(crate) spec fn extension_ok(&self, e: int) -> bool {
        let ed = self.extensions@[e];
        &&& valid_tag(ed.number as nat)
        &&& ed.extendee < self.messages@.len()
        &&& self.kind_ok(ed.kind)
        &&& (ed.is_packed ==> ed.kind.spec_is_packable())
        &&& (ed.default matches Some(d) ==> scalar_matches_kind(ed.kind, d))
    }

    pub open(crate) spec fn definition_ok(&self, d: Definition) -> bool {
        match d.kind {
            DefinitionKind::Message(m) => m < self.messages@.len(),
            DefinitionKind::Extension(e) => e < self.extensions@.len(),
            DefinitionKind::Enum(e) => e < self.enums@.len(),
            _ => true,
        }
    }

    /// No two definitions share a name.
    pub open(crate) spec fn names_distinct(&self) -> bool {
        forall|i: int, j: int|
            0 <= i < j < self.names@.len() ==> str_bytes(self.names@[i].0@) != str_bytes(
                self.names@[j].0@,
            )
    }

    /// Every index a definition holds names a definition of the pool, and
    /// no two definitions share a name.
    pub open(crate) spec fn wf(&self) -> bool {
        &&& self.messages@.len() <= u32::MAX
        &&& self.enums@.len() <= u32::MAX
        &&& self.extensions@.len() <= u32::MAX
        &&& forall|m: int| 0 <= m < self.messages@.len() ==> #[trigger] self.message_ok(m)
        &&& forall|e: int| 0 <= e < self.extensions@.len() ==> #[trigger] self.extension_ok(e)
        &&& forall|i: int| 0 <= i < self.names@.len() ==> #[trigger] self.definition_ok(
            self.names@[i].1,
        )
        &&& self.names_distinct()
    }
}

/// A declared default of the field's own kind is valid: giving a field of
/// a valid pool a default value whose representation matches the field's
/// kind, and changing nothing else, leaves the pool valid.
pub proof fn law_declared_default_accepted(
    p: DescriptorPoolInner,
    q: DescriptorPoolInner,
    m: int,
    f: int,
    d: Value,
)
    requires
        p.wf(),
        0 <= m < p.messages@.len(),
        0 <= f < p.messages@[m].fields@.len(),
        scalar_matches_kind(p.messages@[m].fields@[f].kind, d),
        q.names == p.names,
        q.enums == p.enums,
        q.extensions == p.extensions,
        q.messages@.len() == p.messages@.len(),
        forall|i: int| 0 <= i < p.messages@.len() && i != m ==> #[trigger] q.messages@[i] == p.messages@[i],
        q.messages@[m].id == p.messages@[m].id,
        q.messages@[m].parent == p.messages@[m].parent,
        q.messages@[m].extensions == p.messages@[m].extensions,
        q.messages@[m].field_numbers == p.messages@[m].field_numbers,
        q.messages@[m].oneofs == p.messages@[m].oneofs,
        q.messages@[m].map_entry == p.messages@[m].map_entry,
        q.messages@[m].fields@.len() == p.messages@[m].fields@.len(),
        forall|g: int|
            0 <= g < p.messages@[m].fields@.len() && g != f ==> #[trigger] q.messages@[m].fields@[g]
                == p.messages@[m].fields@[g],
        q.messages@[m].fields@[f].id == p.messages@[m].fields@[f].id,
        q.messages@[m].fields@[f].number == p.messages@[m].fields@[f].number,
        q.messages@[m].fields@[f].json_name == p.messages@[m].fields@[f].json_name,
        q.messages@[m].fields@[f].kind == p.messages@[m].fields@[f].kind,
        q.messages@[m].fields@[f].oneof == p.messages@[m].fields@[f].oneof,
        q.messages@[m].fields@[f].is_packed == p.messages@[m].fields@[f].is_packed,
        q.messages@[m].fields@[f].supports_presence == p.messages@[m].fields@[f].supports_presence,
        q.messages@[m].fields@[f].cardinality == p.messages@[m].fields@[f].cardinality,
        q.messages@[m].fields@[f].default == Some(d),
    ensures
        q.wf(),
{
    assert forall|i: int| 0 <= i < q.messages@.len() implies #[trigger] q.message_ok(i) by {
        assert(p.message_ok(i));
        if i == m {
            let pm = p.messages@[m];
            let qm = q.messages@[m];
            assert forall|g: int| 0 <= g < qm.fields@.len() implies #[trigger] q.field_ok(m, g) by {
                assert(p.field_ok(m, g));
                if g != f {
                    assert(qm.fields@[g] == pm.fields@[g]);
                }
            }
            assert forall|n: u32| #[trigger] qm.field_numbers.spec_map().dom().contains(n) implies qm.field_numbers.spec_map()[n]
                < qm.fields@.len() && qm.fields@[qm.field_numbers.spec_map()[n] as int].number == n by {
                let g = pm.field_numbers.spec_map()[n] as int;
                if g != f {
                    assert(qm.fields@[g] == pm.fields@[g]);
                }
            }
            assert forall|g: int| 0 <= g < qm.fields@.len() implies #[trigger] qm.field_numbers.spec_map().dom().contains(
                qm.fields@[g].number,
            ) && qm.field_numbers.spec_map()[qm.fields@[g].number] == g by {
                if g != f {
                    assert(qm.fields@[g] == pm.fields@[g]);
                }
                assert(pm.field_numbers.spec_map().dom().contains(pm.fields@[g].number));
            }
            if qm.map_entry {
                let k = pm.field_numbers.spec_map()[MAP_ENTRY_KEY_NUMBER] as int;
                if k != f {
                    assert(qm.fields@[k] == pm.fields@[k]);
                }
            }
        } else {
            assert(q.messages@[i] == p.messages@[i]);
            assert forall|g: int| 0 <= g < q.messages@[i].fields@.len() implies #[trigger] q.field_ok(i, g) by {
                assert(p.field_ok(i, g));
            }
        }
    }
    assert forall|e: int| 0 <= e < q.extensions@.len() implies #[trigger] q.extension_ok(e) by {
        assert(p.extension_ok(e));
    }
    assert forall|i: int| 0 <= i < q.names@.len() implies #[trigger] q.definition_ok(q.names@[i].1) by {
        assert(p.definition_ok(p.names@[i].1));
    }
}

/// A declared default of the extension's own kind is valid: giving an
/// extension of a valid pool a default value whose representation matches
/// the extension's kind, and changing nothing else, leaves the pool valid.
pub proof fn law_declared_extension_default_accepted(
    p: DescriptorPoolInner,
    q: DescriptorPoolInner,
    e: int,
    d: Value,
)
    requires
        p.wf(),
        0 <= e < p.extensions@.len(),
        scalar_matches_kind(p.extensions@[e].kind, d),
        q.names == p.names,
        q.enums == p.enums,
        q.messages == p.messages,
        q.extensions@.len() == p.extensions@.len(),
        forall|i: int| 0 <= i < p.extensions@.len() && i != e ==> #[trigger] q.extensions@[i] == p.extensions@[i],
        q.extensions@[e].id == p.extensions@[e].id,
        q.extensions@[e].parent == p.extensions@[e].parent,
        q.extensions@[e].number == p.extensions@[e].number,
        q.extensions@[e].json_name == p.extensions@[e].json_name,
        q.extensions@[e].extendee == p.extensions@[e].extendee,
        q.extensions@[e].kind == p.extensions@[e].kind,
        q.extensions@[e].is_packed == p.extensions@[e].is_packed,
        q.extensions@[e].cardinality == p.extensions@[e].cardinality,
        q.extensions@[e].default == Some(d),
    ensures
        q.wf(),
{
    assert forall|i: int| 0 <= i < q.extensions@.len() implies #[trigger] q.extension_ok(i) by {
        assert(p.extension_ok(i));
    }
    assert forall|i: int| 0 <= i < q.messages@.len() implies #[trigger] q.message_ok(i) by {
        assert(p.message_ok(i));
        let qm = q.messages@[i];
        assert forall|g: int| 0 <= g < qm.fields@.len() implies #[trigger] q.field_ok(i, g) by {
            assert(p.field_ok(i, g));
        }
        assert forall|k: int| 0 <= k < qm.extensions@.len() implies #[trigger] qm.extensions@[k] < q.extensions@.len()
            && q.extensions@[qm.extensions@[k] as int].extendee == i && !qm.field_numbers.spec_map().dom().contains(
            q.extensions@[qm.extensions@[k] as int].number,
        ) by {
            let x = qm.extensions@[k] as int;
            if x != e {
                assert(q.extensions@[x] == p.extensions@[x]);
            }
        }
    }
    assert forall|i: int| 0 <= i < q.names@.len() implies #[trigger] q.definition_ok(q.names@[i].1) by {
        assert(p.definition_ok(p.names@[i].1));
    }
}

/// The numbers of `s` other than `n`, in order.
pub open spec fn without(s: Seq<u32>, n: u32) -> Seq<u32> {
    s.filter(|x: u32| x != n)
}

/// Arc::clone: another pointer to the same allocation.
#[verifier::external_body]
fn clone_pool_arc(inner: &Arc<DescriptorPoolInner>) -> (r: Arc<DescriptorPoolInner>)
    ensures
        r == *inner,
{
    Arc::clone(inner)
}

/// A collection of related descriptors, shared by reference counting.
#[derive(Debug, PartialEq)]
pub struct DescriptorPool {
    pub(crate) inner: Arc<DescriptorPoolInner>,
}

impl Clone for DescriptorPool {
    fn clone(&self) -> (r: Self)
        ensures
            r == *self,
    {
        DescriptorPool { inner: clone_pool_arc(&self.inner) }
    }
}

impl DescriptorPool {
    pub open(crate) spec fn spec_inner(&self) -> DescriptorPoolInner {
        *self.inner
    }

    pub open(crate) spec fn wf(&self) -> bool {
        self.spec_inner().wf()
    }

    /// The number of the first value of enum `e`.
    pub(crate) fn enum_default_number(&self, e: u32) -> (r: i32)
        requires
            self.wf(),
            self.spec_inner().kind_ok(KindIndex::Enum(e)),
        ensures
            r == self.spec_inner().enums@[e as int].values@[0].number,
    {
        self.inner.enums[e as usize].values[0].number
    }
}

/// The position of the first field in `fields` whose name is `name`.
pub open spec fn find_field_named(fields: Seq<FieldDescriptorInner>, name: Seq<u8>) -> Option<nat>
    decreases fields.len(),
{
    if fields.len() == 0 {
        None
    } else if fields[0].id.spec_name_bytes() == name {
        Some(0)
    } else {
        match find_field_named(fields.drop_first(), name) {
            Some(k) => Some(k + 1),
            None => None,
        }
    }
}

/// A field lookup by name is exact: it finds the first field whose own
/// name is the name looked up, and nothing when no field has that name.
pub proof fn law_find_field_named_exact(fields: Seq<FieldDescriptorInner>, name: Seq<u8>)
    ensures
        match find_field_named(fields, name) {
            Some(k) => k < fields.len() && fields[k as int].id.spec_name_bytes() == name && forall|j: int|
                0 <= j < k ==> (#[trigger] fields[j]).id.spec_name_bytes() != name,
            None => forall|j: int| 0 <= j < fields.len() ==> (#[trigger] fields[j]).id.spec_name_bytes() != name,
        },
    decreases fields.len(),
{
    if fields.len() > 0 && fields[0].id.spec_name_bytes() != name {
        let t = fields.drop_first();
        law_find_field_named_exact(t, name);
        assert forall|j: int| 1 <= j < fields.len() implies #[trigger] fields[j] == t[j - 1] by {}
    }
}

/// An extension lookup by number is exact: it finds the first of the
/// listed extensions whose number is the number looked up, and nothing
/// when none of them has that number.
pub proof fn law_find_extension_exact(pool: DescriptorPoolInner, exts: Seq<u32>, n: u32)
    ensures
        match pool.find_extension(exts, n) {
            Some(x) => exists|i: int|
                #![trigger exts[i]]
                0 <= i < exts.len() && exts[i] == x && pool.extensions@[x as int].number == n && forall|j: int|
                    0 <= j < i ==> pool.extensions@[#[trigger] exts[j] as int].number != n,
            None => forall|j: int| 0 <= j < exts.len() ==> pool.extensions@[#[trigger] exts[j] as int].number != n,
        },
    decreases exts.len(),
{
    if exts.len() > 0 {
        let t = exts.drop_first();
        law_find_extension_exact(pool, t, n);
        assert forall|j: int| 1 <= j < exts.len() implies #[trigger] exts[j] == t[j - 1] by {}
        if pool.extensions@[exts[0] as int].number != n {
            match pool.find_extension(t, n) {
                Some(x) => {
                    let i = choose|i: int|
                        #![trigger t[i]]
                        0 <= i < t.len() && t[i] == x && pool.extensions@[x as int].number == n && forall|j: int|
                            0 <= j < i ==> pool.extensions@[#[trigger] t[j] as int].number != n;
                    assert(exts[i + 1] == t[i]);
                    assert forall|j: int| 0 <= j < i + 1 implies pool.extensions@[#[trigger] exts[j] as int].number
                        != n by {
                        if j > 0 {
                            assert(exts[j] == t[j - 1]);
                        }
                    }
                },
                None => {},
            }
        } else {
            assert(exts[0] == pool.find_extension(exts, n)->Some_0);
        }
    }
}

/// A message type of a pool.
#[derive(Debug, PartialEq)]
pub struct MessageDescriptor {
    pub(crate) pool: DescriptorPool,
    pub(crate) index: u32,
}

impl Clone for MessageDescriptor {
    fn clone(&self) -> (r: Self)
        ensures
            r == *self,
    {
        MessageDescriptor { pool: self.pool.clone(), index: self.index }
    }
}

impl MessageDescriptor {
    pub open(crate) spec fn spec_pool(&self) -> DescriptorPool {
        self.pool
    }

    pub open(crate) spec fn spec_index(&self) -> u32 {
        self.index
    }

    /// The handle names a message of a well-formed pool.
    pub open(crate) spec fn wf(&self) -> bool {
        self.pool.wf() && self.index < self.pool.spec_inner().messages@.len()
    }

    pub open(crate) spec fn spec_inner(&self) -> MessageDescriptorInner {
        self.pool.spec_inner().messages@[self.index as int]
    }
}


impl MessageDescriptor {
    /// The pool the message type belongs to.
    pub fn parent_pool(&self) -> (r: &DescriptorPool)
        ensures
            *r == self.spec_pool(),
    {
        &self.pool
    }

    /// The index of the message type in its pool.
    pub fn index(&self) -> (r: u32)
        ensures
            r == self.spec_index(),
    {
        self.index
    }

    pub fn full_name(&self) -> (r: &str)
        requires
            self.wf(),
        ensures
            r@ == self.spec_inner().id.spec_full_name(),
    {
        self.pool.inner.messages[self.index as usize].id.full_name()
    }

    pub fn name(&self) -> (r: &str)
        requires
            self.wf(),
        ensures
            r.spec_bytes() == self.spec_inner().id.spec_name_bytes(),
    {
        self.pool.inner.messages[self.index as usize].id.name()
    }

    /// Whether this is a synthetic map-entry message type.
    pub fn is_map_entry(&self) -> (r: bool)
        requires
            self.wf(),
        ensures
            r == self.spec_inner().map_entry,
    {
        self.pool.inner.messages[self.index as usize].map_entry_flag()
    }

    /// The index of the field numbered `number`.
    pub fn field_index_by_number(&self, number: u32) -> (r: Option<u32>)
        requires
            self.wf(),
        ensures
            r == self.spec_pool().spec_inner().field_index(self.spec_index() as int, number),
            r matches Some(f) ==> f < self.spec_inner().fields@.len(),
    {
        proof {
            assert(self.pool.spec_inner().message_ok(self.index as int));
        }
        let r = self.pool.inner.messages[self.index as usize].field_numbers.get(number);
        proof {
            if let Some(f) = r {
                assert(self.spec_inner().field_numbers.spec_map().dom().contains(number));
            }
        }
        r
    }

    /// The field numbered `number`.
    pub fn get_field(&self, number: u32) -> (r: Option<FieldDescriptor>)
        requires
            self.wf(),
        ensures
            match r {
                Some(f) => f.spec_message() == *self && Some(f.spec_index())
                    == self.spec_pool().spec_inner().field_index(self.spec_index() as int, number)
                    && f.wf(),
                None => self.spec_pool().spec_inner().field_index(self.spec_index() as int, number) is None,
            },
    {
        match self.field_index_by_number(number) {
            Some(index) => Some(FieldDescriptor { message: self.clone(), index }),
            None => None,
        }
    }

    /// The extension of this message type numbered `number`.
    pub fn get_extension(&self, number: u32) -> (r: Option<ExtensionDescriptor>)
        requires
            self.wf(),
        ensures
            match r {
                Some(e) => e.spec_pool() == self.spec_pool() && Some(e.spec_index())
                    == self.spec_pool().spec_inner().extension_of(self.spec_index() as int, number)
                    && e.wf(),
                None => self.spec_pool().spec_inner().extension_of(self.spec_index() as int, number) is None,
            },
    {
        let pool = &self.pool.inner;
        let exts = &pool.extensions;
        let list = &pool.messages[self.index as usize].extensions;
        proof {
            assert(pool.message_ok(self.index as int));
            assert(list@.subrange(0, list@.len() as int) == list@);
        }
        let mut i: usize = 0;
        while i < list.len()
            invariant
                self.wf(),
                pool == self.pool.spec_inner(),
                list == self.spec_inner().extensions,
                exts == pool.extensions,
                i <= list@.len(),
                pool.extension_of(self.index as int, number) == pool.find_extension(
                    list@.subrange(i as int, list@.len() as int),
                    number,
                ),
            decreases list@.len() - i,
        {
            proof {
                assert(pool.message_ok(self.index as int));
                assert(list@.subrange(i as int, list@.len() as int).drop_first() == list@.subrange(
                    i + 1,
                    list@.len() as int,
                ));
            }
            let e = list[i];
            if exts[e as usize].number == number {
                return Some(ExtensionDescriptor { pool: self.pool.clone(), index: e });
            }
            i = i + 1;
        }
        None
    }

    /// The fields of the message type, in ascending number order.
    pub fn fields(&self) -> (r: Vec<FieldDescriptor>)
        requires
            self.wf(),
        ensures
            r@.len() == self.spec_inner().field_numbers.spec_entries().len(),
            forall|k: int| 0 <= k < r@.len() ==> {
                &&& (#[trigger] r@[k]).spec_message() == *self
                &&& r@[k].spec_index() == self.spec_inner().field_numbers.spec_entries()[k].1
                &&& r@[k].wf()
            },
            forall|i: int, j: int| 0 <= i < j < r@.len() ==> (#[trigger] r@[i]).spec_inner().number
                < (#[trigger] r@[j]).spec_inner().number,
    {
        let message = &self.pool.inner.messages[self.index as usize];
        let indices = message.field_numbers.iter_indices();
        let ghost entries = message.field_numbers.spec_entries();
        proof {
            assert(self.pool.spec_inner().message_ok(self.index as int));
            assert forall|i: int| 0 <= i < entries.len() implies #[trigger] entries[i].1 < message.fields@.len() by {
                lemma_position(entries, i);
                assert(message.field_numbers.spec_map().dom().contains(entries[i].0));
            }
        }
        let mut r: Vec<FieldDescriptor> = Vec::with_capacity(indices.len());
        let mut k: usize = 0;
        while k < indices.len()
            invariant
                self.wf(),
                *message == self.spec_inner(),
                entries == message.field_numbers.spec_entries(),
                indices@.len() == entries.len(),
                forall|i: int| 0 <= i < indices@.len() ==> indices@[i] == entries[i].1,
                forall|i: int| 0 <= i < entries.len() ==> #[trigger] entries[i].1 < message.fields@.len(),
                k <= indices@.len(),
                r@.len() == k,
                forall|i: int| 0 <= i < k ==> {
                    &&& (#[trigger] r@[i]).spec_message() == *self
                    &&& r@[i].spec_index() == entries[i].1
                    &&& r@[i].wf()
                },
            decreases indices@.len() - k,
        {
            r.push(FieldDescriptor { message: self.clone(), index: indices[k] });
            k = k + 1;
        }
        proof {
            assert forall|i: int| 0 <= i < entries.len() implies #[trigger] message.fields@[entries[i].1 as int].number
                == entries[i].0 by {
                lemma_position(entries, i);
                assert(message.field_numbers.spec_map().dom().contains(entries[i].0));
            }
            assert forall|i: int, j: int| 0 <= i < j < r@.len() implies (#[trigger] r@[i]).spec_inner().number
                < (#[trigger] r@[j]).spec_inner().number by {
                assert(message.fields@[entries[i].1 as int].number == entries[i].0);
                assert(message.fields@[entries[j].1 as int].number == entries[j].0);
            }
        }
        r
    }

    /// The fields of the message type, in the order they are declared.
    pub fn fields_in_index_order(&self) -> (r: Vec<FieldDescriptor>)
        requires
            self.wf(),
        ensures
            r@.len() == self.spec_inner().fields@.len(),
            forall|k: int| 0 <= k < r@.len() ==> {
                &&& (#[trigger] r@[k]).spec_message() == *self
                &&& r@[k].spec_index() == k
                &&& r@[k].wf()
            },
    {
        let message = &self.pool.inner.messages[self.index as usize];
        proof {
            assert(self.pool.spec_inner().message_ok(self.index as int));
        }
        let n = message.fields.len();
        let mut r: Vec<FieldDescriptor> = Vec::with_capacity(n);
        let mut k: usize = 0;
        while k < n
            invariant
                self.wf(),
                *message == self.spec_inner(),
                n == message.fields@.len(),
                n <= u32::MAX,
                k <= n,
                r@.len() == k,
                forall|i: int| 0 <= i < k ==> {
                    &&& (#[trigger] r@[i]).spec_message() == *self
                    &&& r@[i].spec_index() == i
                    &&& r@[i].wf()
                },
            decreases n - k,
        {
            r.push(FieldDescriptor { message: self.clone(), index: to_index(k) });
            k = k + 1;
        }
        r
    }

    /// The wire view of field `index`.
    pub(crate) fn view_for_index(&self, index: u32) -> (r: RawFieldView<'_>)
        requires
            self.wf(),
            index < self.spec_inner().fields@.len(),
        ensures
            r.spec_info() == self.pool.spec_inner().field_info(self.index as int, index as int),
            *r.pool == self.pool,
            r.message == self.index,
            r.oneof == self.spec_inner().fields@[index as int].oneof,
            r.wf(),
    {
        let pool = &self.pool.inner;
        let message = &pool.messages[self.index as usize];
        let field = &message.fields[index as usize];
        proof {
            assert(pool.message_ok(self.index as int));
            assert(pool.field_ok(self.index as int, index as int));
        }
        let is_map = match field.cardinality {
            Cardinality::Repeated => match field.kind {
                KindIndex::Message(m) => pool.messages[m as usize].map_entry,
                _ => false,
            },
            _ => false,
        };
        let is_list = matches!(field.cardinality, Cardinality::Repeated) && !is_map;
        let is_group = matches!(field.kind, KindIndex::Group(_));
        RawFieldView {
            number: field.number,
            kind: field.kind,
            supports_presence: field.supports_presence,
            is_packed: field.is_packed,
            default: field.default.as_ref(),
            oneof: field.oneof,
            pool: &self.pool,
            message: self.index,
            is_list,
            is_map,
            is_group,
        }
    }

    /// The wire view of the field numbered `number`.
    pub(crate) fn field_view(&self, number: u32) -> (r: Option<RawFieldView<'_>>)
        requires
            self.wf(),
        ensures
            match r {
                Some(v) => {
                    &&& self.pool.spec_inner().field_index(self.index as int, number) matches Some(
                        f,
                    )
                    &&& v.spec_info() == self.pool.spec_inner().field_info(self.index as int, f as int)
                    &&& *v.pool == self.pool
                    &&& v.message == self.index
                    &&& v.oneof == self.spec_inner().fields@[f as int].oneof
                    &&& v.wf()
                },
                None => self.pool.spec_inner().field_index(self.index as int, number) is None,
            },
    {
        match self.field_index_by_number(number) {
            Some(index) => Some(self.view_for_index(index)),
            None => None,
        }
    }
}

impl MessageDescriptorInner {
    pub fn map_entry_flag(&self) -> (r: bool)
        ensures
            r == self.map_entry,
    {
        self.map_entry
    }

    /// The field numbered `number`.
    pub fn field_by_number(&self, number: u32) -> (r: Option<&FieldDescriptorInner>)
        requires
            self.field_numbers.wf(),
            forall|n: u32| #[trigger] self.field_numbers.spec_map().dom().contains(n) ==> self.field_numbers.spec_map()[n]
                < self.fields@.len(),
        ensures
            match r {
                Some(f) => self.field_numbers.spec_map().dom().contains(number) && *f == self.fields@[self.field_numbers.spec_map()[number] as int],
                None => !self.field_numbers.spec_map().dom().contains(number),
            },
    {
        match self.field_numbers.get(number) {
            Some(index) => Some(&self.fields[index as usize]),
            None => None,
        }
    }
}

/// A field of a message type.
#[derive(Debug, PartialEq)]
pub struct FieldDescriptor {
    pub(crate) message: MessageDescriptor,
    pub(crate) index: u32,
}

impl Clone for FieldDescriptor {
    fn clone(&self) -> (r: Self)
        ensures
            r == *self,
    {
        FieldDescriptor { message: self.message.clone(), index: self.index }
    }
}

impl FieldDescriptor {
    pub open(crate) spec fn spec_message(&self) -> MessageDescriptor {
        self.message
    }

    pub open(crate) spec fn spec_index(&self) -> u32 {
        self.index
    }

    pub open(crate) spec fn wf(&self) -> bool {
        self.message.wf() && self.index < self.message.spec_inner().fields@.len()
    }

    pub open(crate) spec fn spec_inner(&self) -> FieldDescriptorInner {
        self.message.spec_inner().fields@[self.index as int]
    }

    pub open(crate) spec fn spec_info(&self) -> FieldInfo {
        self.message.pool.spec_inner().field_info(self.message.index as int, self.index as int)
    }

    /// The message type the field belongs to.
    pub fn parent_message(&self) -> (r: &MessageDescriptor)
        ensures
            *r == self.spec_message(),
    {
        &self.message
    }

    pub fn number(&self) -> (r: u32)
        requires
            self.wf(),
        ensures
            r == self.spec_inner().number,
    {
        self.message.pool.inner.messages[self.message.index as usize].fields[self.index as usize].number
    }

    pub fn full_name(&self) -> (r: &str)
        requires
            self.wf(),
        ensures
            r@ == self.spec_inner().id.spec_full_name(),
    {
        self.message.pool.inner.messages[self.message.index as usize].fields[self.index as usize].id.full_name()
    }

    pub fn name(&self) -> (r: &str)
        requires
            self.wf(),
        ensures
            r.spec_bytes() == self.spec_inner().id.spec_name_bytes(),
    {
        self.message.pool.inner.messages[self.message.index as usize].fields[self.index as usize].id.name()
    }

    /// The wire view of the field.
    pub(crate) fn view(&self) -> (r: RawFieldView<'_>)
        requires
            self.wf(),
        ensures
            r.spec_info() == self.spec_info(),
            *r.pool == self.message.pool,
            r.message == self.message.index,
            r.oneof == self.spec_inner().oneof,
            r.wf(),
    {
        self.message.view_for_index(self.index)
    }
}

/// An extension field of a pool.
#[derive(Debug, PartialEq)]
pub struct ExtensionDescriptor {
    pub(crate) pool: DescriptorPool,
    pub(crate) index: u32,
}

impl Clone for ExtensionDescriptor {
    fn clone(&self) -> (r: Self)
        ensures
            r == *self,
    {
        ExtensionDescriptor { pool: self.pool.clone(), index: self.index }
    }
}

impl ExtensionDescriptor {
    pub open(crate) spec fn spec_pool(&self) -> DescriptorPool {
        self.pool
    }

    pub open(crate) spec fn spec_index(&self) -> u32 {
        self.index
    }

    pub open(crate) spec fn wf(&self) -> bool {
        self.pool.wf() && self.index < self.pool.spec_inner().extensions@.len()
    }

    pub open(crate) spec fn spec_inner(&self) -> ExtensionDescriptorInner {
        self.pool.spec_inner().extensions@[self.index as int]
    }

    pub open(crate) spec fn spec_info(&self) -> FieldInfo {
        self.pool.spec_inner().ext_info(self.index as int)
    }

    pub fn number(&self) -> (r: u32)
        requires
            self.wf(),
        ensures
            r == self.spec_inner().number,
    {
        self.pool.inner.extensions[self.index as usize].number
    }

    pub fn full_name(&self) -> (r: &str)
        requires
            self.wf(),
        ensures
            r@ == self.spec_inner().id.spec_full_name(),
    {
        self.pool.inner.extensions[self.index as usize].id.full_name()
    }

    /// The message type this extension extends.
    pub fn containing_message(&self) -> (r: MessageDescriptor)
        requires
            self.wf(),
        ensures
            r.spec_pool() == self.spec_pool(),
            r.spec_index() == self.spec_inner().extendee,
            r.wf(),
    {
        proof {
            assert(self.pool.spec_inner().extension_ok(self.index as int));
        }
        MessageDescriptor { pool: self.pool.clone(), index: self.pool.inner.extensions[self.index as usize].extendee }
    }

    pub fn kind_index_inner(&self) -> (r: KindIndex)
        requires
            self.wf(),
        ensures
            r == self.spec_inner().kind,
    {
        self.pool.inner.extensions[self.index as usize].kind
    }

    /// An extension tracks presence unless it is repeated.
    pub fn supports_presence(&self) -> (r: bool)
        requires
            self.wf(),
        ensures
            r == self.spec_info().supports_presence,
    {
        !matches!(self.pool.inner.extensions[self.index as usize].cardinality, Cardinality::Repeated)
    }

    /// The wire view of the extension.
    pub(crate) fn view(&self) -> (r: RawFieldView<'_>)
        requires
            self.wf(),
        ensures
            r.spec_info() == self.spec_info(),
            *r.pool == self.pool,
            r.oneof is None,
            r.wf(),
    {
        let pool = &self.pool.inner;
        let ext = &pool.extensions[self.index as usize];
        proof {
            assert(pool.extension_ok(self.index as int));
        }
        let is_map = match ext.cardinality {
            Cardinality::Repeated => match ext.kind {
                KindIndex::Message(m) => pool.messages[m as usize].map_entry,
                _ => false,
            },
            _ => false,
        };
        let is_list = matches!(ext.cardinality, Cardinality::Repeated) && !is_map;
        let is_group = matches!(ext.kind, KindIndex::Group(_));
        RawFieldView {
            number: ext.number,
            kind: ext.kind,
            supports_presence: !matches!(ext.cardinality, Cardinality::Repeated),
            is_packed: ext.is_packed,
            default: ext.default.as_ref(),
            oneof: None,
            pool: &self.pool,
            message: ext.extendee,
            is_list,
            is_map,
            is_group,
        }
    }
}

/// A borrowed, handle-free view of a resolved field or extension: what
/// the wire codecs read, plus pool access to resolve map entries and
/// oneof siblings.
#[derive(Clone, Copy)]
pub(crate) struct RawFieldView<'a> {
    pub(crate) number: u32,
    pub(crate) kind: KindIndex,
    pub(crate) supports_presence: bool,
    pub(crate) is_packed: bool,
    pub(crate) default: Option<&'a Value>,
    pub(crate) oneof: Option<u32>,
    pub(crate) pool: &'a DescriptorPool,
    /// The message type holding the field (for extensions, the extendee).
    pub(crate) message: u32,
    pub(crate) is_list: bool,
    pub(crate) is_map: bool,
    pub(crate) is_group: bool,
}

impl<'a> RawFieldView<'a> {
    pub open(crate) spec fn spec_info(&self) -> FieldInfo {
        FieldInfo {
            number: self.number,
            kind: self.kind,
            supports_presence: self.supports_presence,
            is_list: self.is_list,
            is_map: self.is_map,
            is_group: self.is_group,
            is_packed: self.is_packed,
            default: match self.default {
                Some(d) => Some(*d),
                None => None,
            },
        }
    }

    pub open(crate) spec fn spec_pool(&self) -> DescriptorPoolInner {
        self.pool.spec_inner()
    }

    /// What the codecs rely on: a valid number and kind, a packable kind
    /// when packed, a default of the field's kind, a map-entry message
    /// type for maps.
    pub open(crate) spec fn wf(&self) -> bool {
        let pool = self.pool.spec_inner();
        &&& self.pool.wf()
        &&& valid_tag(self.number as nat)
        &&& pool.kind_ok(self.kind)
        &&& (self.is_packed ==> self.kind.spec_is_packable())
        &&& (self.default matches Some(d) ==> scalar_matches_kind(self.kind, *d))
        &&& (self.is_map ==> self.kind is Message && pool.messages@[self.kind->Message_0 as int].map_entry)
        &&& self.message < pool.messages@.len()
        &&& (self.oneof matches Some(o) ==> o < pool.messages@[self.message as int].oneofs@.len())
    }

    pub(crate) fn number(&self) -> (r: u32)
        ensures
            r == self.number,
    {
        self.number
    }

    pub(crate) fn kind_index(&self) -> (r: KindIndex)
        ensures
            r == self.kind,
    {
        self.kind
    }

    pub(crate) fn is_packed(&self) -> (r: bool)
        ensures
            r == self.is_packed,
    {
        self.is_packed
    }

    pub(crate) fn supports_presence(&self) -> (r: bool)
        ensures
            r == self.supports_presence,
    {
        self.supports_presence
    }

    /// The declared default, when the field declares one.
    pub(crate) fn declared_default(&self) -> (r: Option<&'a Value>)
        ensures
            r == self.default,
    {
        self.default
    }

    /// The first-declared number of an enum-kind field.
    pub(crate) fn enum_default(&self) -> (r: Option<i32>)
        requires
            self.wf(),
        ensures
            r == (match self.kind {
                KindIndex::Enum(_) => Some(crate::value::enum_default_number(self.spec_pool(), self.kind)),
                _ => None,
            }),
    {
        match self.kind {
            KindIndex::Enum(e) => Some(self.pool.enum_default_number(e)),
            _ => None,
        }
    }

    /// A message handle for a message- or group-kind field.
    pub(crate) fn message_descriptor(&self) -> (r: Option<MessageDescriptor>)
        requires
            self.wf(),
        ensures
            match self.kind {
                KindIndex::Message(m) | KindIndex::Group(m) => r == Some(MessageDescriptor { pool: *self.pool, index: m }),
                _ => r is None,
            },
            r matches Some(d) ==> d.wf(),
    {
        match self.kind {
            KindIndex::Message(message) | KindIndex::Group(message) => Some(
                MessageDescriptor { pool: self.pool.clone(), index: message },
            ),
            _ => None,
        }
    }

    /// The numbers of the other members of the field's oneof, if it has one.
    pub(crate) fn oneof_sibling_numbers(&self, self_number: u32) -> (r: Option<Vec<u32>>)
        requires
            self.wf(),
        ensures
            match self.oneof {
                Some(o) => (r matches Some(v) && v@ == without(
                    self.spec_pool().oneof_numbers(self.message as int, o as int),
                    self_number,
                )),
                None => r is None,
            },
    {
        match self.oneof {
            Some(oneof) => {
                let pool = &self.pool.inner;
                let message = &pool.messages[self.message as usize];
                proof {
                    assert(pool.message_ok(self.message as int));
                }
                let members = &message.oneofs[oneof as usize].fields;
                let ghost all = pool.oneof_numbers(self.message as int, oneof as int);
                let mut r: Vec<u32> = Vec::new();
                let mut i: usize = 0;
                while i < members.len()
                    invariant
                        pool.message_ok(self.message as int),
                        *message == pool.messages@[self.message as int],
                        oneof < message.oneofs@.len(),
                        *members == message.oneofs@[oneof as int].fields,
                        all == pool.oneof_numbers(self.message as int, oneof as int),
                        i <= members@.len(),
                        r@ == without(all.take(i as int), self_number),
                    decreases members@.len() - i,
                {
                    let number = message.fields[members[i] as usize].number;
                    proof {
                        assert(all.take(i + 1).drop_last() == all.take(i as int));
                        reveal_with_fuel(Seq::filter, 1);
                    }
                    if number != self_number {
                        r.push(number);
                    }
                    i = i + 1;
                }
                proof {
                    assert(all.take(members@.len() as int) == all);
                }
                Some(r)
            },
            None => None,
        }
    }

    /// The key and value fields of a map field's entry message type.
    pub(crate) fn map_entry_fields(&self) -> (r: Option<(RawFieldView<'a>, RawFieldView<'a>)>)
        requires
            self.wf(),
        ensures
            self.is_map ==> (r matches Some(kv) && (kv.0.spec_info(), kv.1.spec_info())
                == self.spec_pool().map_entry_infos(self.kind) && kv.0.wf() && kv.1.wf()
                && kv.0.pool == self.pool && kv.1.pool == self.pool && kv.0.spec_info().kind.spec_is_map_key()),
            !self.is_map ==> r is None,
    {
        let index = match self.kind {
            KindIndex::Message(message) if self.is_map => message,
            _ => return None,
        };
        let pool: &'a DescriptorPool = self.pool;
        let entry = &pool.inner.messages[index as usize];
        proof {
            assert(pool.spec_inner().message_ok(index as int));
        }
        let key_index = entry.field_numbers.get(MAP_ENTRY_KEY_NUMBER).unwrap();
        let value_index = entry.field_numbers.get(MAP_ENTRY_VALUE_NUMBER).unwrap();
        let key = &entry.fields[key_index as usize];
        let value = &entry.fields[value_index as usize];
        proof {
            assert(pool.spec_inner().field_ok(index as int, key_index as int));
            assert(pool.spec_inner().field_ok(index as int, value_index as int));
        }
        Some(
            (
                RawFieldView::entry_view(key, pool, index),
                RawFieldView::entry_view(value, pool, index),
            ),
        )
    }

    /// A single-value view of a map-entry field.
    fn entry_view(inner: &'a FieldDescriptorInner, pool: &'a DescriptorPool, message: u32) -> (r:
        RawFieldView<'a>)
        ensures
            r.number == inner.number,
            r.kind == inner.kind,
            r.supports_presence == inner.supports_presence,
            r.is_packed == inner.is_packed,
            (match r.default {
                Some(d) => Some(*d),
                None => None,
            }) == inner.default,
            r.oneof is None,
            r.pool == pool,
            r.message == message,
            !r.is_list && !r.is_map && !r.is_group,
    {
        RawFieldView {
            number: inner.number,
            kind: inner.kind,
            supports_presence: inner.supports_presence,
            is_packed: inner.is_packed,
            default: inner.default.as_ref(),
            oneof: None,
            pool,
            message,
            is_list: false,
            is_map: false,
            is_group: false,
        }
    }
}

} // verus!
