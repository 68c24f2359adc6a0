//! The parts of the `descriptor.proto` definitions that locating a nested
//! definition by its source path reads, and that lookup.

use vstd::prelude::*;

verus! {

/// Field number of `FileDescriptorProto.message_type`.
pub const FILE_MESSAGE_TYPE: i32 = 4;

/// Field number of `FileDescriptorProto.enum_type`.
pub const FILE_ENUM_TYPE: i32 = 5;

/// Field number of `DescriptorProto.nested_type`.
pub const MESSAGE_NESTED_TYPE: i32 = 3;

/// Field number of `DescriptorProto.enum_type`.
pub const MESSAGE_ENUM_TYPE: i32 = 4;

/// An enum definition.
#[derive(Debug, PartialEq)]
pub struct EnumDescriptorProto {
    pub name: String,
}

/// A message definition, with the definitions nested in it.
#[derive(Debug, PartialEq)]
pub struct DescriptorProto {
    pub name: String,
    pub nested_type: Vec<DescriptorProto>,
    pub enum_type: Vec<EnumDescriptorProto>,
}

/// The top-level definitions of a file.
#[derive(Debug, PartialEq)]
pub struct FileDescriptorProto {
    pub name: String,
    pub message_type: Vec<DescriptorProto>,
    pub enum_type: Vec<EnumDescriptorProto>,
}

/// Follows a source path pair by pair from the file: a `message_type`
/// pair selects a top-level message, a `nested_type` pair a message nested
/// in the one selected so far. `None` when a pair is incomplete, has
/// another tag, indexes out of range, or nests with no message selected;
/// else the message selected at the end, if any.
pub open spec fn message_walk(file: FileDescriptorProto, path: Seq<i32>) -> Option<Option<DescriptorProto>>
    decreases path.len(),
{
    if path.len() == 0 {
        Some(None)
    } else if path.len() == 1 {
        None
    } else {
        let tag = path[path.len() - 2];
        let i = path[path.len() - 1] as int;
        match message_walk(file, path.take(path.len() - 2)) {
            None => None,
            Some(current) => if tag == FILE_MESSAGE_TYPE {
                if 0 <= i < file.message_type@.len() {
                    Some(Some(file.message_type@[i]))
                } else {
                    None
                }
            } else if tag == MESSAGE_NESTED_TYPE {
                match current {
                    Some(m) => if 0 <= i < m.nested_type@.len() {
                        Some(Some(m.nested_type@[i]))
                    } else {
                        None
                    },
                    None => None,
                }
            } else {
                None
            },
        }
    }
}

/// The enum a source path names: a file's `enum_type` pair, or a message
/// path followed by that message's `enum_type` pair.
pub open spec fn enum_at(file: FileDescriptorProto, path: Seq<i32>) -> Option<EnumDescriptorProto> {
    let n = path.len();
    let i = path[n - 1] as int;
    if n == 2 {
        if path[0] == FILE_ENUM_TYPE && 0 <= i < file.enum_type@.len() {
            Some(file.enum_type@[i])
        } else {
            None
        }
    } else if n > 2 && path[n - 2] == MESSAGE_ENUM_TYPE {
        match message_walk(file, path.take(n - 2)) {
            Some(Some(m)) => if 0 <= i < m.enum_type@.len() {
                Some(m.enum_type@[i])
            } else {
                None
            },
            _ => None,
        }
    } else {
        None
    }
}

/// A walk that succeeds succeeds on every even prefix of its path.
proof fn lemma_walk_prefix(file: FileDescriptorProto, path: Seq<i32>, k: int)
    requires
        message_walk(file, path) is Some,
        0 <= k <= path.len(),
        (path.len() - k) % 2 == 0,
    ensures
        message_walk(file, path.take(k)) is Some,
    decreases path.len(),
{
    if k < path.len() {
        let shorter = path.take(path.len() - 2);
        lemma_walk_prefix(file, shorter, k);
        assert(shorter.take(k) == path.take(k));
    } else {
        assert(path.take(k) == path);
    }
}

/// A successful walk has a path of even length.
proof fn lemma_walk_even(file: FileDescriptorProto, path: Seq<i32>)
    requires
        message_walk(file, path) is Some,
    ensures
        path.len() % 2 == 0,
    decreases path.len(),
{
    if path.len() >= 2 {
        lemma_walk_even(file, path.take(path.len() - 2));
    }
}

/// The message definition a source path names (its `message_type` and
/// `nested_type` pairs followed from the file).
pub fn find_message_proto<'a>(file: &'a FileDescriptorProto, path: &[i32]) -> (r: &'a DescriptorProto)
    requires
        message_walk(*file, path@) matches Some(Some(_)),
    ensures
        message_walk(*file, path@) == Some(Some(*r)),
{
    proof {
        lemma_walk_even(*file, path@);
        assert(path@.take(0) == Seq::<i32>::empty());
    }
    let mut message: Option<&'a DescriptorProto> = None;
    let mut k: usize = 0;
    while k < path.len()
        invariant
            message_walk(*file, path@) matches Some(Some(_)),
            path@.len() % 2 == 0,
            k % 2 == 0,
            k <= path@.len(),
            match message {
                Some(m) => message_walk(*file, path@.take(k as int)) == Some(Some(*m)),
                None => message_walk(*file, path@.take(k as int)) == Some(None::<DescriptorProto>),
            },
        decreases path@.len() - k,
    {
        let ghost next = path@.take(k + 2);
        proof {
            lemma_walk_prefix(*file, path@, k + 2);
            assert(next.take(next.len() - 2) == path@.take(k as int));
            assert(next[next.len() - 2] == path@[k as int]);
            assert(next[next.len() - 1] == path@[k + 1]);
        }
        let tag = path[k];
        let i = path[k + 1];
        if tag == FILE_MESSAGE_TYPE {
            message = Some(&file.message_type[i as usize]);
        } else {
            match message {
                Some(m) => {
                    message = Some(&m.nested_type[i as usize]);
                },
                None => {
                    proof {
                        assert(false);
                    }
                },
            }
        }
        k = k + 2;
    }
    proof {
        assert(path@.take(k as int) == path@);
    }
    match message {
        Some(m) => m,
        None => {
            proof {
                assert(false);
            }
            unreached()
        },
    }
}

/// The enum definition a source path names.
pub fn find_enum_proto<'a>(file: &'a FileDescriptorProto, path: &[i32]) -> (r: &'a EnumDescriptorProto)
    requires
        path@.len() >= 2,
        enum_at(*file, path@) is Some,
    ensures
        enum_at(*file, path@) == Some(*r),
{
    let n = path.len();
    if n == 2 {
        &file.enum_type[path[1] as usize]
    } else {
        let (prefix, _) = path.split_at(n - 2);
        proof {
            assert(prefix@ == path@.take(n - 2));
        }
        let message = find_message_proto(file, prefix);
        &message.enum_type[path[n - 1] as usize]
    }
}

} // verus!
