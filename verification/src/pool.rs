//! Building a pool from its definitions, checking every index they hold,
//! and finding definitions by name.

use vstd::prelude::*;
use std::sync::Arc;
use crate::descriptor::{
    find_field_named, str_bytes, Definition, DefinitionKind, DescriptorPool, DescriptorPoolInner,
    ExtensionDescriptor, FieldDescriptor, KindIndex, MessageDescriptor, MAP_ENTRY_KEY_NUMBER, MAP_ENTRY_VALUE_NUMBER,
};
use crate::sorted::{has_number, lemma_position};
use crate::value::{scalar_matches_kind, Value};
use crate::wire::{valid_tag, MAX_TAG};
use vstd::string::StringSliceAdditionalSpecFns;

verus! {

fn valid_tag_exec(n: u32) -> (r: bool)
    ensures
        r == valid_tag(n as nat),
{
    1 <= n && n <= MAX_TAG
}

fn kind_ok_exec(inner: &DescriptorPoolInner, kind: KindIndex) -> (r: bool)
    ensures
        r == inner.kind_ok(kind),
{
    match kind {
        KindIndex::Message(m) | KindIndex::Group(m) => (m as usize) < inner.messages.len(),
        KindIndex::Enum(e) => (e as usize) < inner.enums.len() && inner.enums[e as usize].values.len() > 0,
        _ => true,
    }
}

fn scalar_matches_kind_exec(kind: KindIndex, v: &Value) -> (r: bool)
    ensures
        r == scalar_matches_kind(kind, *v),
{
    match v {
        Value::Bool(_) => matches!(kind, KindIndex::Bool),
        Value::I32(_) => matches!(kind, KindIndex::Int32 | KindIndex::Sint32 | KindIndex::Sfixed32),
        Value::I64(_) => matches!(kind, KindIndex::Int64 | KindIndex::Sint64 | KindIndex::Sfixed64),
        Value::U32(_) => matches!(kind, KindIndex::Uint32 | KindIndex::Fixed32),
        Value::U64(_) => matches!(kind, KindIndex::Uint64 | KindIndex::Fixed64),
        Value::F32(_) => matches!(kind, KindIndex::Float),
        Value::F64(_) => matches!(kind, KindIndex::Double),
        Value::String(_) => matches!(kind, KindIndex::String),
        Value::Bytes(_) => matches!(kind, KindIndex::Bytes),
        Value::EnumNumber(_) => matches!(kind, KindIndex::Enum(_)),
        _ => false,
    }
}

fn is_map_key_kind(kind: KindIndex) -> (r: bool)
    ensures
        r == kind.spec_is_map_key(),
{
    match kind {
        KindIndex::Int32 | KindIndex::Int64 | KindIndex::Uint32 | KindIndex::Uint64
        | KindIndex::Sint32 | KindIndex::Sint64 | KindIndex::Fixed32 | KindIndex::Fixed64
        | KindIndex::Sfixed32 | KindIndex::Sfixed64 | KindIndex::Bool | KindIndex::String => true,
        _ => false,
    }
}

/// Whether field `f` of message `m` is well formed.
fn check_field(inner: &DescriptorPoolInner, m: usize, f: usize) -> (r: bool)
    requires
        m < inner.messages@.len(),
        f < inner.messages@[m as int].fields@.len(),
    ensures
        r == inner.field_ok(m as int, f as int),
{
    let msg = &inner.messages[m];
    let fd = &msg.fields[f];
    let oneof_ok = match fd.oneof {
        Some(o) => (o as usize) < msg.oneofs.len(),
        None => true,
    };
    let default_ok = match &fd.default {
        Some(d) => scalar_matches_kind_exec(fd.kind, d),
        None => true,
    };
    valid_tag_exec(fd.number) && kind_ok_exec(inner, fd.kind) && oneof_ok && (!fd.is_packed
        || fd.kind.is_packable()) && default_ok
}

/// Whether message `m` is well formed: its number index and its fields
/// agree, its fields, oneofs and extensions are well formed, and a map
/// entry has a key and a value field.
#[verifier::loop_isolation(false)]
fn check_message(inner: &DescriptorPoolInner, m: usize) -> (r: bool)
    requires
        m < inner.messages@.len(),
    ensures
        r == inner.message_ok(m as int),
{
    let msg = &inner.messages[m];
    let index = &msg.field_numbers;
    let ghost map = index.spec_map();
    let n_fields = msg.fields.len();
    if !index.is_sorted() {
        return false;
    }
    if n_fields > 4_294_967_295usize {
        return false;
    }
    let entries = index.entries();
    let mut k: usize = 0;
    while k < entries.len()
        invariant
            *msg == inner.messages@[m as int],
            entries@ == index.spec_entries(),
            index.wf(),
            n_fields == msg.fields@.len(),
            k <= entries@.len(),
            forall|j: int|
                0 <= j < k ==> (#[trigger] entries@[j]).1 < n_fields && msg.fields@[entries@[j].1 as int].number
                    == entries@[j].0,
        decreases entries@.len() - k,
    {
        let (n, idx) = entries[k];
        if !((idx as usize) < n_fields && msg.fields[idx as usize].number == n) {
            proof {
                lemma_position(entries@, k as int);
                assert(map.dom().contains(n));
            }
            return false;
        }
        k = k + 1;
    }
    proof {
        assert forall|n: u32| #[trigger] map.dom().contains(n) implies map[n] < msg.fields@.len()
            && msg.fields@[map[n] as int].number == n by {
            assert(has_number(entries@, n));
            let j = choose|j: int| 0 <= j < entries@.len() && entries@[j].0 == n;
            lemma_position(entries@, j);
        }
    }
    let mut f: usize = 0;
    while f < n_fields
        invariant
            *msg == inner.messages@[m as int],
            index.wf(),
            n_fields == msg.fields@.len(),
            f <= n_fields,
            forall|g: int|
                0 <= g < f ==> #[trigger] map.dom().contains(msg.fields@[g].number) && map[msg.fields@[g].number] == g,
        decreases n_fields - f,
    {
        match index.get(msg.fields[f].number) {
            Some(g) => {
                if g as usize != f {
                    return false;
                }
            },
            None => {
                return false;
            },
        }
        f = f + 1;
    }
    let mut f: usize = 0;
    while f < n_fields
        invariant
            m < inner.messages@.len(),
            *msg == inner.messages@[m as int],
            n_fields == msg.fields@.len(),
            f <= n_fields,
            forall|g: int| 0 <= g < f ==> #[trigger] inner.field_ok(m as int, g),
        decreases n_fields - f,
    {
        if !check_field(inner, m, f) {
            proof {
                assert(!inner.field_ok(m as int, f as int));
            }
            return false;
        }
        f = f + 1;
    }
    let mut o: usize = 0;
    while o < msg.oneofs.len()
        invariant
            *msg == inner.messages@[m as int],
            n_fields == msg.fields@.len(),
            o <= msg.oneofs@.len(),
            forall|a: int, b: int|
                0 <= a < o && 0 <= b < msg.oneofs@[a].fields@.len() ==> #[trigger] msg.oneofs@[a].fields@[b]
                    < n_fields,
        decreases msg.oneofs@.len() - o,
    {
        let members = &msg.oneofs[o].fields;
        let mut b: usize = 0;
        while b < members.len()
            invariant
                *msg == inner.messages@[m as int],
                n_fields == msg.fields@.len(),
                o < msg.oneofs@.len(),
                *members == msg.oneofs@[o as int].fields,
                b <= members@.len(),
                forall|a: int, c: int|
                    0 <= a < o && 0 <= c < msg.oneofs@[a].fields@.len() ==> #[trigger] msg.oneofs@[a].fields@[c]
                        < n_fields,
                forall|c: int| 0 <= c < b ==> #[trigger] members@[c] < n_fields,
            decreases members@.len() - b,
        {
            if members[b] as usize >= n_fields {
                proof {
                    assert(!(msg.oneofs@[o as int].fields@[b as int] < n_fields));
                }
                return false;
            }
            b = b + 1;
        }
        o = o + 1;
    }
    let mut k: usize = 0;
    while k < msg.extensions.len()
        invariant
            *msg == inner.messages@[m as int],
            index.wf(),
            k <= msg.extensions@.len(),
            forall|j: int|
                0 <= j < k ==> #[trigger] msg.extensions@[j] < inner.extensions@.len()
                    && inner.extensions@[msg.extensions@[j] as int].extendee == m
                    && !map.dom().contains(inner.extensions@[msg.extensions@[j] as int].number),
        decreases msg.extensions@.len() - k,
    {
        let e = msg.extensions[k] as usize;
        proof {
            assert(msg.extensions@[k as int] == e);
        }
        if e >= inner.extensions.len() {
            return false;
        }
        if inner.extensions[e].extendee as usize != m {
            return false;
        }
        if index.get(inner.extensions[e].number).is_some() {
            return false;
        }
        k = k + 1;
    }
    if msg.map_entry {
        match (index.get(MAP_ENTRY_KEY_NUMBER), index.get(MAP_ENTRY_VALUE_NUMBER)) {
            (Some(key), Some(_)) => is_map_key_kind(msg.fields[key as usize].kind),
            _ => false,
        }
    } else {
        true
    }
}

/// Whether extension `e` is well formed.
fn check_extension(inner: &DescriptorPoolInner, e: usize) -> (r: bool)
    requires
        e < inner.extensions@.len(),
    ensures
        r == inner.extension_ok(e as int),
{
    let ed = &inner.extensions[e];
    let default_ok = match &ed.default {
        Some(d) => scalar_matches_kind_exec(ed.kind, d),
        None => true,
    };
    valid_tag_exec(ed.number) && (ed.extendee as usize) < inner.messages.len() && kind_ok_exec(
        inner,
        ed.kind,
    ) && (!ed.is_packed || ed.kind.is_packable()) && default_ok
}

/// Whether two byte sequences are equal, the second read from `offset`.
fn bytes_equal_from(a: &[u8], b: &[u8], offset: usize) -> (r: bool)
    requires
        offset <= b@.len(),
    ensures
        r == (a@ == b@.subrange(offset as int, b@.len() as int)),
{
    let blen = b.len();
    if a.len() != blen - offset {
        return false;
    }
    let mut i: usize = 0;
    while i < a.len()
        invariant
            blen == b@.len(),
            a@.len() == b@.len() - offset,
            offset <= b@.len(),
            i <= a@.len(),
            forall|k: int| 0 <= k < i ==> a@[k] == b@[offset + k],
        decreases a@.len() - i,
    {
        if a[i] != b[offset + i] {
            return false;
        }
        i = i + 1;
    }
    assert(a@ =~= b@.subrange(offset as int, b@.len() as int));
    true
}

impl DescriptorPoolInner {
    /// Whether every index the definitions hold names a definition of the
    /// pool, and no two definitions share a name.
    #[verifier::loop_isolation(false)]
    pub fn check(&self) -> (r: bool)
        ensures
            r == self.wf(),
    {
        if self.messages.len() > 4_294_967_295usize || self.enums.len() > 4_294_967_295usize
            || self.extensions.len() > 4_294_967_295usize {
            return false;
        }
        let mut m: usize = 0;
        while m < self.messages.len()
            invariant
                m <= self.messages@.len(),
                forall|j: int| 0 <= j < m ==> #[trigger] self.message_ok(j),
            decreases self.messages@.len() - m,
        {
            if !check_message(self, m) {
                return false;
            }
            m = m + 1;
        }
        let mut e: usize = 0;
        while e < self.extensions.len()
            invariant
                e <= self.extensions@.len(),
                forall|j: int| 0 <= j < e ==> #[trigger] self.extension_ok(j),
            decreases self.extensions@.len() - e,
        {
            if !check_extension(self, e) {
                return false;
            }
            e = e + 1;
        }
        let mut i: usize = 0;
        while i < self.names.len()
            invariant
                i <= self.names@.len(),
                forall|j: int| 0 <= j < i ==> #[trigger] self.definition_ok(self.names@[j].1),
            decreases self.names@.len() - i,
        {
            let ok = match self.names[i].1.kind {
                DefinitionKind::Message(m) => (m as usize) < self.messages.len(),
                DefinitionKind::Extension(e) => (e as usize) < self.extensions.len(),
                DefinitionKind::Enum(e) => (e as usize) < self.enums.len(),
                _ => true,
            };
            if !ok {
                proof {
                    assert(!self.definition_ok(self.names@[i as int].1));
                }
                return false;
            }
            i = i + 1;
        }
        let mut i: usize = 0;
        while i < self.names.len()
            invariant
                i <= self.names@.len(),
                forall|a: int, b: int|
                    0 <= a < i && a < b < self.names@.len() ==> str_bytes(#[trigger] self.names@[a].0@)
                        != str_bytes(#[trigger] self.names@[b].0@),
            decreases self.names@.len() - i,
        {
            let mut j: usize = i + 1;
            while j < self.names.len()
                invariant
                    i < self.names@.len(),
                    i + 1 <= j <= self.names@.len(),
                    forall|a: int, b: int|
                        0 <= a < i && a < b < self.names@.len() ==> str_bytes(#[trigger] self.names@[a].0@)
                            != str_bytes(#[trigger] self.names@[b].0@),
                    forall|b: int| i < b < j ==> str_bytes(self.names@[i as int].0@) != str_bytes(
                        #[trigger] self.names@[b].0@,
                    ),
                decreases self.names@.len() - j,
            {
                let a = self.names[i].0.as_str().as_bytes();
                let b = self.names[j].0.as_str().as_bytes();
                if bytes_equal_from(a, b, 0) {
                    proof {
                        assert(b@.subrange(0, b@.len() as int) == b@);
                        assert(str_bytes(self.names@[i as int].0@) == str_bytes(self.names@[j as int].0@));
                        assert(!self.names_distinct());
                    }
                    return false;
                }
                proof {
                    assert(b@.subrange(0, b@.len() as int) == b@);
                }
                j = j + 1;
            }
            i = i + 1;
        }
        true
    }
}

/// The name a lookup searches for: a leading `.` is dropped.
pub open spec fn lookup_key(name: Seq<u8>) -> Seq<u8> {
    if name.len() > 0 && name[0] == 46u8 {
        name.drop_first()
    } else {
        name
    }
}

/// A name looks up the same with or without one leading `.`: the key of
/// `.n` is `n`, as is the key of `n` itself when it has no leading `.`;
/// only one `.` is dropped (`..a` looks up `.a`).
pub proof fn law_lookup_leading_dot(name: Seq<u8>)
    ensures
        lookup_key(seq![46u8] + name) == name,
        (name.len() == 0 || name[0] != 46u8) ==> lookup_key(name) == name,
{
    assert((seq![46u8] + name).drop_first() =~= name);
}

/// The definition registered under the name whose bytes are `key`.
pub open(crate) spec fn find_name(names: Seq<(String, Definition)>, key: Seq<u8>) -> Option<Definition>
    decreases names.len(),
{
    if names.len() == 0 {
        None
    } else if str_bytes(names[0].0@) == key {
        Some(names[0].1)
    } else {
        find_name(names.drop_first(), key)
    }
}

/// A name lookup is exact: it finds the definition of the first entry
/// whose name's bytes are the key itself, and nothing when no entry's name
/// is the key.
pub proof fn law_find_name_exact(names: Seq<(String, Definition)>, key: Seq<u8>)
    ensures
        match find_name(names, key) {
            Some(d) => exists|i: int|
                #![trigger names[i]]
                0 <= i < names.len() && str_bytes(names[i].0@) == key && names[i].1 == d && forall|j: int|
                    0 <= j < i ==> str_bytes(#[trigger] names[j].0@) != key,
            None => forall|i: int| 0 <= i < names.len() ==> str_bytes(#[trigger] names[i].0@) != key,
        },
    decreases names.len(),
{
    if names.len() > 0 {
        let t = names.drop_first();
        law_find_name_exact(t, key);
        assert forall|i: int| 0 <= i < t.len() implies #[trigger] t[i] == names[i + 1] by {}
        if str_bytes(names[0].0@) == key {
            assert(names[0].1 == find_name(names, key)->Some_0);
        } else {
            match find_name(t, key) {
                Some(d) => {
                    let i = choose|i: int|
                        #![trigger t[i]]
                        0 <= i < t.len() && str_bytes(t[i].0@) == key && t[i].1 == d && forall|j: int|
                            0 <= j < i ==> str_bytes(#[trigger] t[j].0@) != key;
                    assert(names[i + 1] == t[i]);
                    assert forall|j: int| 0 <= j < i + 1 implies str_bytes(#[trigger] names[j].0@) != key by {
                        if j > 0 {
                            assert(names[j] == t[j - 1]);
                        }
                    }
                },
                None => {
                    assert forall|i: int| 0 <= i < names.len() implies str_bytes(#[trigger] names[i].0@) != key by {
                        if i > 0 {
                            assert(names[i] == t[i - 1]);
                        }
                    }
                },
            }
        }
    }
}

impl DescriptorPoolInner {
    /// The definition registered under `name` (a leading `.` is ignored):
    /// the definition of the first entry whose name is the name looked up,
    /// exactly.
    pub fn get_by_name(&self, name: &str) -> (r: Option<&Definition>)
        ensures
            match r {
                Some(d) => find_name(self.names@, lookup_key(name.spec_bytes())) == Some(*d),
                None => find_name(self.names@, lookup_key(name.spec_bytes())) is None,
            },
            r matches Some(d) ==> exists|i: int|
                #![trigger self.names@[i]]
                0 <= i < self.names@.len() && str_bytes(self.names@[i].0@) == lookup_key(name.spec_bytes())
                    && self.names@[i].1 == *d,
            r is None ==> forall|i: int|
                0 <= i < self.names@.len() ==> str_bytes(#[trigger] self.names@[i].0@) != lookup_key(
                    name.spec_bytes(),
                ),
    {
        let bytes = name.as_bytes();
        let offset: usize = if bytes.len() > 0 && bytes[0] == 46u8 {
            1
        } else {
            0
        };
        let ghost key = lookup_key(name.spec_bytes());
        proof {
            assert(key == bytes@.subrange(offset as int, bytes@.len() as int));
            assert(self.names@.subrange(0, self.names@.len() as int) == self.names@);
        }
        let mut i: usize = 0;
        while i < self.names.len()
            invariant
                i <= self.names@.len(),
                offset <= bytes@.len(),
                key == bytes@.subrange(offset as int, bytes@.len() as int),
                key == lookup_key(name.spec_bytes()),
                find_name(self.names@, key) == find_name(
                    self.names@.subrange(i as int, self.names@.len() as int),
                    key,
                ),
            decreases self.names@.len() - i,
        {
            proof {
                assert(self.names@.subrange(i as int, self.names@.len() as int).drop_first()
                    == self.names@.subrange(i + 1, self.names@.len() as int));
            }
            let entry = self.names[i].0.as_str();
            let entry_bytes = entry.as_bytes();
            if bytes_equal_from(entry_bytes, bytes, offset) {
                proof {
                    let rest = self.names@.subrange(i as int, self.names@.len() as int);
                    assert(rest[0] == self.names@[i as int]);
                    assert(entry@ == self.names@[i as int].0@);
                    assert(str_bytes(self.names@[i as int].0@) == key);
                    assert(find_name(rest, key) == Some(rest[0].1));
                    law_find_name_exact(self.names@, key);
                }
                return Some(&self.names[i].1);
            }
            i = i + 1;
        }
        proof {
            assert(self.names@.subrange(i as int, self.names@.len() as int).len() == 0);
            law_find_name_exact(self.names@, key);
        }
        None
    }
}

impl DescriptorPool {
    /// A pool of the given definitions, if every index they hold names a
    /// definition of the pool and no two definitions share a name.
    pub fn from_inner(inner: DescriptorPoolInner) -> (r: Option<DescriptorPool>)
        ensures
            r is Some <==> inner.wf(),
            r matches Some(p) ==> p.spec_inner() == inner && p.wf(),
    {
        if inner.check() {
            Some(DescriptorPool { inner: Arc::new(inner) })
        } else {
            None
        }
    }

    /// The message type named `name` (a leading `.` is ignored).
    pub fn get_message_by_name(&self, name: &str) -> (r: Option<MessageDescriptor>)
        requires
            self.wf(),
        ensures
            match find_name(self.spec_inner().names@, lookup_key(name.spec_bytes())) {
                Some(d) => match d.kind {
                    DefinitionKind::Message(m) => r matches Some(md) && md.spec_pool() == *self
                        && md.spec_index() == m && md.wf(),
                    _ => r is None,
                },
                None => r is None,
            },
    {
        match self.inner.get_by_name(name) {
            Some(d) => match d.kind {
                DefinitionKind::Message(m) => {
                    proof {
                        let names = self.spec_inner().names@;
                        lemma_find_name_member(names, lookup_key(name.spec_bytes()));
                        let i = choose|i: int| 0 <= i < names.len() && names[i].1 == find_name(names, lookup_key(name.spec_bytes()))->Some_0;
                        assert(self.spec_inner().definition_ok(names[i].1));
                    }
                    Some(MessageDescriptor { pool: self.clone(), index: m })
                },
                _ => None,
            },
            None => None,
        }
    }

    /// The extension named `name` (a leading `.` is ignored).
    pub fn get_extension_by_name(&self, name: &str) -> (r: Option<ExtensionDescriptor>)
        requires
            self.wf(),
        ensures
            match find_name(self.spec_inner().names@, lookup_key(name.spec_bytes())) {
                Some(d) => match d.kind {
                    DefinitionKind::Extension(e) => r matches Some(ed) && ed.spec_pool() == *self
                        && ed.spec_index() == e && ed.wf(),
                    _ => r is None,
                },
                None => r is None,
            },
    {
        match self.inner.get_by_name(name) {
            Some(d) => match d.kind {
                DefinitionKind::Extension(e) => {
                    proof {
                        let names = self.spec_inner().names@;
                        lemma_find_name_member(names, lookup_key(name.spec_bytes()));
                        let i = choose|i: int| 0 <= i < names.len() && names[i].1 == find_name(names, lookup_key(name.spec_bytes()))->Some_0;
                        assert(self.spec_inner().definition_ok(names[i].1));
                    }
                    Some(ExtensionDescriptor { pool: self.clone(), index: e })
                },
                _ => None,
            },
            None => None,
        }
    }
}

/// A definition a name lookup finds is one of the pool's definitions.
proof fn lemma_find_name_member(names: Seq<(String, Definition)>, key: Seq<u8>)
    requires
        find_name(names, key) is Some,
    ensures
        exists|i: int| 0 <= i < names.len() && names[i].1 == find_name(names, key)->Some_0,
    decreases names.len(),
{
    if str_bytes(names[0].0@) != key {
        lemma_find_name_member(names.drop_first(), key);
        let i = choose|i: int| 0 <= i < names.drop_first().len() && names.drop_first()[i].1 == find_name(names.drop_first(), key)->Some_0;
        assert(names[i + 1] == names.drop_first()[i]);
    } else {
        assert(names[0].1 == find_name(names, key)->Some_0);
    }
}


impl MessageDescriptor {
    /// The first field of the message type named `name`.
    pub fn get_field_by_name(&self, name: &str) -> (r: Option<FieldDescriptor>)
        requires
            self.wf(),
        ensures
            match find_field_named(self.spec_inner().fields@, name.spec_bytes()) {
                Some(f) => r matches Some(d) && d.spec_message() == *self && d.spec_index() == f && d.wf(),
                None => r is None,
            },
    {
        let message = &self.pool.inner.messages[self.index as usize];
        let bytes = name.as_bytes();
        let ghost key = name.spec_bytes();
        let ghost fields = message.fields@;
        proof {
            assert(self.pool.spec_inner().message_ok(self.index as int));
            assert(bytes@.subrange(0, bytes@.len() as int) == bytes@);
            assert(fields.subrange(0, fields.len() as int) == fields);
        }
        let mut i: usize = 0;
        while i < message.fields.len()
            invariant
                self.wf(),
                *message == self.spec_inner(),
                fields == message.fields@,
                fields.len() <= u32::MAX,
                bytes@ == key,
                key == name.spec_bytes(),
                i <= fields.len(),
                find_field_named(fields, key) == match find_field_named(
                    fields.subrange(i as int, fields.len() as int),
                    key,
                ) {
                    Some(k) => Some((k + i) as nat),
                    None => None,
                },
            decreases fields.len() - i,
        {
            let ghost rest = fields.subrange(i as int, fields.len() as int);
            proof {
                assert(rest.drop_first() == fields.subrange(i + 1, fields.len() as int));
                assert(rest[0] == fields[i as int]);
                assert(bytes@.subrange(0, bytes@.len() as int) == bytes@);
            }
            let field_name = message.fields[i].id.name().as_bytes();
            if bytes_equal_from(field_name, bytes, 0) {
                return Some(FieldDescriptor { message: self.clone(), index: i as u32 });
            }
            i = i + 1;
        }
        None
    }
}

} // verus!
