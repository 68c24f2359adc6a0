use prost_reflect::{
    Cardinality, Definition, DefinitionKind, DescriptorPool, DescriptorPoolInner, DynamicMessage,
    EnumDescriptorInner, EnumValueDescriptorInner, FieldDescriptorInner, FieldNumberIndex,
    Identity, KindIndex, MapKey, MessageDescriptor, MessageDescriptorInner, OneofDescriptorInner,
    UnknownFieldValue, Value,
};
use prost_reflect::decode::WireError;

fn varint(mut n: u64, out: &mut Vec<u8>) {
    loop {
        let mut b = (n & 0x7f) as u8;
        n >>= 7;
        if n != 0 {
            b |= 0x80;
        }
        out.push(b);
        if n == 0 {
            break;
        }
    }
}

fn key(tag: u64, wire_type: u64, out: &mut Vec<u8>) {
    varint(tag << 3 | wire_type, out);
}

struct FieldSpec {
    name: &'static str,
    number: u32,
    kind: KindIndex,
    cardinality: Cardinality,
    presence: bool,
    packed: bool,
    oneof: Option<u32>,
}

fn field(name: &'static str, number: u32, kind: KindIndex) -> FieldSpec {
    FieldSpec {
        name,
        number,
        kind,
        cardinality: Cardinality::Optional,
        presence: false,
        packed: false,
        oneof: None,
    }
}

fn message_inner(
    index: i32,
    full_name: &str,
    name: &str,
    specs: Vec<FieldSpec>,
    oneofs: Vec<(&str, Vec<u32>)>,
    map_entry: bool,
) -> MessageDescriptorInner {
    let mut fields = Vec::new();
    let mut numbers = FieldNumberIndex::with_capacity(specs.len());
    for (i, spec) in specs.iter().enumerate() {
        fields.push(FieldDescriptorInner {
            id: Identity::new(
                0,
                &[4, index, 2, i as i32],
                &format!("{full_name}.{}", spec.name),
                spec.name,
            ),
            number: spec.number,
            json_name: spec.name.to_owned(),
            kind: spec.kind,
            oneof: spec.oneof,
            is_packed: spec.packed,
            supports_presence: spec.presence,
            cardinality: spec.cardinality,
            default: None,
        });
        numbers.insert(spec.number, i as u32);
    }
    MessageDescriptorInner {
        id: Identity::new(0, &[4, index], full_name, name),
        parent: None,
        extensions: Vec::new(),
        fields,
        field_numbers: numbers,
        oneofs: oneofs
            .into_iter()
            .map(|(oneof_name, members)| OneofDescriptorInner {
                id: Identity::new(0, &[4, index, 8, 0], &format!("{full_name}.{oneof_name}"), oneof_name),
                fields: members,
            })
            .collect(),
        map_entry,
    }
}

/// `test.Shapes` (declared out of number order, with a oneof, a packed
/// list, a nested message, an enum and a map), `test.Leaf`, the map's
/// entry type and the enum `test.Color`.
fn pool() -> DescriptorPool {
    let shapes = message_inner(
        0,
        "test.Shapes",
        "Shapes",
        vec![
            field("c", 3, KindIndex::Int32),
            FieldSpec { presence: true, oneof: Some(0), ..field("a", 1, KindIndex::Int32) },
            FieldSpec { presence: true, oneof: Some(0), ..field("b", 2, KindIndex::String) },
            FieldSpec {
                cardinality: Cardinality::Repeated,
                packed: true,
                ..field("nums", 4, KindIndex::Int32)
            },
            FieldSpec { presence: true, ..field("child", 5, KindIndex::Message(1)) },
            field("color", 6, KindIndex::Enum(0)),
            FieldSpec {
                cardinality: Cardinality::Repeated,
                ..field("labels", 7, KindIndex::Message(2))
            },
        ],
        vec![("choice", vec![1, 2])],
        false,
    );
    let leaf = message_inner(1, "test.Leaf", "Leaf", vec![field("x", 1, KindIndex::Sint32)], Vec::new(), false);
    let entry = message_inner(
        2,
        "test.Shapes.LabelsEntry",
        "LabelsEntry",
        vec![field("key", 1, KindIndex::String), field("value", 2, KindIndex::Int32)],
        Vec::new(),
        true,
    );
    let color = EnumDescriptorInner {
        id: Identity::new(0, &[5, 0], "test.Color", "Color"),
        parent: None,
        values: vec![
            EnumValueDescriptorInner { id: Identity::new(0, &[5, 0, 2, 0], "test.GREEN", "GREEN"), number: 7 },
            EnumValueDescriptorInner { id: Identity::new(0, &[5, 0, 2, 1], "test.BLUE", "BLUE"), number: 2 },
        ],
    };
    let inner = DescriptorPoolInner {
        names: vec![
            ("test.Shapes".to_owned(), Definition { file: 0, kind: DefinitionKind::Message(0) }),
            ("test.Leaf".to_owned(), Definition { file: 0, kind: DefinitionKind::Message(1) }),
            (
                "test.Shapes.LabelsEntry".to_owned(),
                Definition { file: 0, kind: DefinitionKind::Message(2) },
            ),
            ("test.Color".to_owned(), Definition { file: 0, kind: DefinitionKind::Enum(0) }),
        ],
        messages: vec![shapes, leaf, entry],
        enums: vec![color],
        extensions: Vec::new(),
    };
    DescriptorPool::from_inner(inner).expect("well-formed pool")
}

fn msg(pool: &DescriptorPool, name: &str) -> MessageDescriptor {
    pool.get_message_by_name(name).expect(name)
}

fn shapes() -> (DescriptorPool, MessageDescriptor) {
    let pool = pool();
    let shapes = msg(&pool, "test.Shapes");
    (pool, shapes)
}

#[test]
fn get_after_set_returns_the_value() {
    let (_pool, desc) = shapes();
    let c = desc.get_field_by_name("c").expect("c");
    let mut message = DynamicMessage::new(desc);
    assert!(!message.has_field(&c));
    message.set_field(&c, Value::I32(5));
    assert!(message.has_field(&c));
    assert_eq!(message.get_field(&c).as_value(), &Value::I32(5));
}

#[test]
fn last_set_wins() {
    let (_pool, desc) = shapes();
    let c = desc.get_field_by_name("c").expect("c");
    let mut message = DynamicMessage::new(desc);
    message.set_field(&c, Value::I32(1));
    message.set_field(&c, Value::I32(2));
    assert_eq!(message.get_field(&c).as_value(), &Value::I32(2));
}

#[test]
fn setting_a_oneof_member_clears_its_siblings() {
    let (_pool, desc) = shapes();
    let a = desc.get_field_by_name("a").expect("a");
    let b = desc.get_field_by_name("b").expect("b");
    let c = desc.get_field_by_name("c").expect("c");
    let mut message = DynamicMessage::new(desc);
    message.set_field(&c, Value::I32(9));
    message.set_field(&a, Value::I32(1));
    message.set_field(&b, Value::String("x".to_owned()));
    assert!(!message.has_field(&a));
    assert!(message.has_field(&b));
    assert_eq!(message.get_field(&b).as_value(), &Value::String("x".to_owned()));
    // a field outside the oneof is untouched
    assert_eq!(message.get_field(&c).as_value(), &Value::I32(9));
    // a oneof member set to its default still counts as set
    message.set_field(&a, Value::I32(0));
    assert!(message.has_field(&a));
    assert!(!message.has_field(&b));
}

#[test]
fn get_mut_clears_siblings_and_starts_from_default() {
    let (_pool, desc) = shapes();
    let a = desc.get_field_by_name("a").expect("a");
    let b = desc.get_field_by_name("b").expect("b");
    let mut message = DynamicMessage::new(desc);
    message.set_field(&b, Value::String("y".to_owned()));
    {
        let value = message.get_field_mut(&a);
        assert_eq!(value, &Value::I32(0));
        *value = Value::I32(11);
    }
    assert!(!message.has_field(&b));
    assert_eq!(message.get_field(&a).as_value(), &Value::I32(11));
}

#[test]
fn clear_then_default() {
    let (_pool, desc) = shapes();
    let c = desc.get_field_by_name("c").expect("c");
    let color = desc.get_field_by_name("color").expect("color");
    let mut message = DynamicMessage::new(desc);
    message.set_field(&c, Value::I32(9));
    message.clear_field(&c);
    assert!(!message.has_field(&c));
    assert_eq!(message.get_field(&c).as_value(), &Value::I32(0));
    // an enum defaults to its first declared value
    assert_eq!(message.get_field(&color).as_value(), &Value::EnumNumber(7));
}

#[test]
fn take_after_set() {
    let (_pool, desc) = shapes();
    let c = desc.get_field_by_name("c").expect("c");
    let mut message = DynamicMessage::new(desc);
    message.set_field(&c, Value::I32(4));
    assert_eq!(message.take_field(&c), Some(Value::I32(4)));
    assert!(!message.has_field(&c));
    // a field without presence at its default is not set
    message.set_field(&c, Value::I32(0));
    assert_eq!(message.take_field(&c), None);
}

#[test]
fn field_lookup_by_name() {
    let (_pool, desc) = shapes();
    let message = DynamicMessage::new(desc);
    assert_eq!(
        message.get_field_by_name("b").as_ref().map(|v| v.as_value()),
        Some(&Value::String(String::new()))
    );
    assert!(message.get_field_by_name("nope").is_none());
}

#[test]
fn fields_come_in_number_or_declaration_order() {
    let (_pool, desc) = shapes();
    let by_number: Vec<u32> = desc.fields().iter().map(|f| f.number()).collect();
    assert_eq!(by_number, vec![1, 2, 3, 4, 5, 6, 7]);
    let declared: Vec<String> = desc.fields_in_index_order().iter().map(|f| f.name().to_owned()).collect();
    assert_eq!(declared, vec!["c", "a", "b", "nums", "child", "color", "labels"]);

    let nums = desc.get_field_by_name("nums").expect("nums");
    let c = desc.get_field_by_name("c").expect("c");
    let a = desc.get_field_by_name("a").expect("a");
    let mut message = DynamicMessage::new(desc);
    message.set_field(&nums, Value::List(vec![Value::I32(1)]));
    message.set_field(&c, Value::I32(3));
    message.set_field(&a, Value::I32(2));
    let set: Vec<u32> = message.fields().iter().map(|(f, _)| f.number()).collect();
    assert_eq!(set, vec![1, 3, 4]);

    let taken = message.take_fields();
    assert_eq!(taken.len(), 3);
    assert_eq!(taken[1].1, Value::I32(3));
    assert_eq!(message.fields().len(), 0);
}

#[test]
fn field_number_index_insert_then_get() {
    let mut index = FieldNumberIndex::with_capacity(3);
    assert_eq!(index.insert(5, 0), None);
    assert_eq!(index.insert(2, 1), None);
    assert_eq!(index.insert(9, 2), None);
    assert_eq!(index.insert(5, 3), Some(0));
    assert_eq!(index.get(5), Some(3));
    assert_eq!(index.get(2), Some(1));
    assert_eq!(index.get(6), None);
    assert_eq!(index.iter_indices(), vec![1, 3, 2]);
}

#[test]
fn encoded_len_matches_written_bytes() {
    let (pool, desc) = shapes();
    let nums = desc.get_field_by_name("nums").expect("nums");
    let b = desc.get_field_by_name("b").expect("b");
    let child = desc.get_field_by_name("child").expect("child");
    let leaf = msg(&pool, "test.Leaf");
    let x = leaf.get_field_by_name("x").expect("x");
    let mut inner = DynamicMessage::new(leaf);
    inner.set_field(&x, Value::I32(-3));
    let mut message = DynamicMessage::new(desc);
    message.set_field(&nums, Value::List(vec![Value::I32(1), Value::I32(300), Value::I32(-1)]));
    message.set_field(&b, Value::String("hello".to_owned()));
    message.set_field(&child, Value::Message(inner));
    let bytes = message.encode_to_vec();
    assert_eq!(message.encoded_len(), bytes.len());
}

#[test]
fn sint32_is_zigzag_encoded() {
    let pool = pool();
    let leaf = msg(&pool, "test.Leaf");
    let x = leaf.get_field_by_name("x").expect("x");
    let mut message = DynamicMessage::new(leaf.clone());
    message.set_field(&x, Value::I32(-1));
    assert_eq!(message.encode_to_vec(), vec![0x08, 0x01]);
    message.set_field(&x, Value::I32(-64));
    assert_eq!(message.encode_to_vec(), vec![0x08, 0x7f]);
    message.set_field(&x, Value::I32(64));
    assert_eq!(message.encode_to_vec(), vec![0x08, 0x80, 0x01]);
    let decoded = DynamicMessage::decode(leaf, &[0x08, 0x7f]).expect("decode");
    assert_eq!(decoded.get_field(&x).as_value(), &Value::I32(-64));
}

#[test]
fn nested_message_golden_and_roundtrip() {
    let (pool, desc) = shapes();
    let child = desc.get_field_by_name("child").expect("child");
    let leaf = msg(&pool, "test.Leaf");
    let x = leaf.get_field_by_name("x").expect("x");
    let mut inner = DynamicMessage::new(leaf);
    inner.set_field(&x, Value::I32(3));
    let mut message = DynamicMessage::new(desc.clone());
    message.set_field(&child, Value::Message(inner));
    let bytes = message.encode_to_vec();
    assert_eq!(bytes, vec![0x2a, 0x02, 0x08, 0x06]);
    let decoded = DynamicMessage::decode(desc, &bytes).expect("decode");
    assert_eq!(decoded, message);
}

#[test]
fn whole_message_reads_back() {
    let (pool, desc) = shapes();
    let leaf = msg(&pool, "test.Leaf");
    let x = leaf.get_field_by_name("x").expect("x");
    let mut inner = DynamicMessage::new(leaf);
    inner.set_field(&x, Value::I32(-5));
    let mut message = DynamicMessage::new(desc.clone());
    message.set_field(&desc.get_field_by_name("c").expect("c"), Value::I32(300));
    message.set_field(&desc.get_field_by_name("b").expect("b"), Value::String("hi".to_owned()));
    message.set_field(
        &desc.get_field_by_name("nums").expect("nums"),
        Value::List(vec![Value::I32(1), Value::I32(-1)]),
    );
    message.set_field(&desc.get_field_by_name("child").expect("child"), Value::Message(inner));
    message.set_field(&desc.get_field_by_name("color").expect("color"), Value::EnumNumber(2));
    let bytes = message.encode_to_vec();
    let decoded = DynamicMessage::decode(desc, &bytes).expect("decode");
    assert_eq!(decoded, message);
}

#[test]
fn numeric_message_decodes_to_itself() {
    let (_pool, desc) = shapes();
    let mut message = DynamicMessage::new(desc.clone());
    message.set_field(&desc.get_field_by_name("a").expect("a"), Value::I32(-7));
    message.set_field(&desc.get_field_by_name("c").expect("c"), Value::I32(i32::MIN));
    message.set_field(&desc.get_field_by_name("color").expect("color"), Value::EnumNumber(2));
    let bytes = message.encode_to_vec();
    let decoded = DynamicMessage::decode(desc, &bytes).expect("decode");
    assert_eq!(decoded.encode_to_vec(), bytes);
    assert_eq!(decoded, message);
}

#[test]
fn default_without_presence_is_not_written() {
    let (_pool, desc) = shapes();
    let c = desc.get_field_by_name("c").expect("c");
    let mut message = DynamicMessage::new(desc.clone());
    message.set_field(&c, Value::I32(0));
    let bytes = message.encode_to_vec();
    assert!(bytes.is_empty());
    let decoded = DynamicMessage::decode(desc, &bytes).expect("decode");
    assert!(!decoded.has_field(&c));
    assert_ne!(decoded, message);
}

#[test]
fn packed_and_unpacked_list_records_both_decode() {
    let (_pool, desc) = shapes();
    let nums = desc.get_field_by_name("nums").expect("nums");
    let mut bytes = Vec::new();
    key(4, 2, &mut bytes);
    let mut payload = Vec::new();
    varint(1, &mut payload);
    varint(2, &mut payload);
    varint(300, &mut payload);
    varint(payload.len() as u64, &mut bytes);
    bytes.extend_from_slice(&payload);
    key(4, 0, &mut bytes);
    varint(7, &mut bytes);
    let message = DynamicMessage::decode(desc, &bytes).expect("decode");
    assert_eq!(
        message.get_field(&nums).as_value(),
        &Value::List(vec![Value::I32(1), Value::I32(2), Value::I32(300), Value::I32(7)])
    );
    // written back packed
    let mut expected = Vec::new();
    key(4, 2, &mut expected);
    let mut payload = Vec::new();
    for v in [1u64, 2, 300, 7] {
        varint(v, &mut payload);
    }
    varint(payload.len() as u64, &mut expected);
    expected.extend_from_slice(&payload);
    assert_eq!(message.encode_to_vec(), expected);
}

#[test]
fn map_entries_roundtrip() {
    let (_pool, desc) = shapes();
    let labels = desc.get_field_by_name("labels").expect("labels");
    let mut message = DynamicMessage::new(desc.clone());
    message.set_field(
        &labels,
        Value::MapEntries(vec![(MapKey::String("k".to_owned()), Value::I32(1))]),
    );
    let bytes = message.encode_to_vec();
    assert_eq!(bytes, vec![0x3a, 0x05, 0x0a, 0x01, b'k', 0x10, 0x01]);
    let decoded = DynamicMessage::decode(desc, &bytes).expect("decode");
    assert_eq!(
        decoded.get_field(&labels).as_value(),
        &Value::MapEntries(vec![(MapKey::String("k".to_owned()), Value::I32(1))])
    );
}

#[test]
fn unknown_group_roundtrip() {
    let (_pool, desc) = shapes();
    let mut bytes = Vec::new();
    key(100, 3, &mut bytes);
    key(1, 0, &mut bytes);
    varint(5, &mut bytes);
    key(100, 4, &mut bytes);
    let message = DynamicMessage::decode(desc, &bytes).expect("decode");
    let unknowns = message.unknown_fields();
    assert_eq!(unknowns.len(), 1);
    assert_eq!(unknowns[0].number(), 100);
    match &unknowns[0].value {
        UnknownFieldValue::Group(set) => {
            assert_eq!(set.iter().len(), 1);
            assert_eq!(set.iter()[0].value, UnknownFieldValue::Varint(5));
        }
        other => panic!("expected a group, got {other:?}"),
    }
    assert_eq!(unknowns[0].encoded_len(), bytes.len());
    assert_eq!(message.encode_to_vec(), bytes);
}

#[test]
fn empty_input_decodes_to_empty_message() {
    let (_pool, desc) = shapes();
    let message = DynamicMessage::decode(desc, &[]).expect("decode");
    assert_eq!(message.fields().len(), 0);
    assert_eq!(message.unknown_fields().len(), 0);
    assert_eq!(message.encode_to_vec(), Vec::<u8>::new());
}

#[test]
fn decode_error_truncated_varint() {
    let (_pool, desc) = shapes();
    // field 3 varint whose value never ends
    let r = DynamicMessage::decode(desc, &[0x18, 0x80]);
    assert!(matches!(r, Err(WireError::Wire(_))));
}

#[test]
fn decode_error_scalar_with_wrong_wire_type() {
    let (_pool, desc) = shapes();
    // field 3 (int32) sent as a fixed32 record
    let r = DynamicMessage::decode(desc, &[0x1d, 1, 0, 0, 0]);
    assert!(matches!(r, Err(WireError::Wire(_))));
}

#[test]
fn decode_error_message_with_wrong_wire_type() {
    let (_pool, desc) = shapes();
    // field 5 (message) sent as a varint
    let r = DynamicMessage::decode(desc, &[0x28, 0x01]);
    assert!(matches!(r, Err(WireError::UnexpectedWireType)));
}

#[test]
fn decode_error_message_longer_than_input() {
    let (_pool, desc) = shapes();
    // field 5 (message) claims 9 bytes, 1 follows
    let r = DynamicMessage::decode(desc, &[0x2a, 0x09, 0x08]);
    assert!(matches!(r, Err(WireError::BufferUnderflow)));
}

#[test]
fn decode_error_stray_end_group() {
    let (_pool, desc) = shapes();
    let mut bytes = Vec::new();
    key(100, 4, &mut bytes);
    let r = DynamicMessage::decode(desc, &bytes);
    assert!(matches!(r, Err(WireError::UnexpectedEndGroupTag)));
}

#[test]
fn decode_error_groups_nested_too_deep() {
    let (_pool, desc) = shapes();
    let mut bytes = Vec::new();
    for _ in 0..101 {
        key(100, 3, &mut bytes);
    }
    for _ in 0..101 {
        key(100, 4, &mut bytes);
    }
    let r = DynamicMessage::decode(desc, &bytes);
    assert!(matches!(r, Err(WireError::RecursionLimitReached)));
}

#[test]
fn pool_with_a_dangling_index_is_refused() {
    let mut shapes = message_inner(0, "test.Bad", "Bad", vec![field("m", 1, KindIndex::Message(4))], Vec::new(), false);
    shapes.map_entry = false;
    let inner = DescriptorPoolInner {
        names: vec![("test.Bad".to_owned(), Definition { file: 0, kind: DefinitionKind::Message(0) })],
        messages: vec![shapes],
        enums: Vec::new(),
        extensions: Vec::new(),
    };
    assert!(DescriptorPool::from_inner(inner).is_none());
}

#[test]
fn pool_with_a_field_number_out_of_range_is_refused() {
    let shapes = message_inner(0, "test.Bad", "Bad", vec![field("m", 0, KindIndex::Int32)], Vec::new(), false);
    let inner = DescriptorPoolInner {
        names: vec![("test.Bad".to_owned(), Definition { file: 0, kind: DefinitionKind::Message(0) })],
        messages: vec![shapes],
        enums: Vec::new(),
        extensions: Vec::new(),
    };
    assert!(DescriptorPool::from_inner(inner).is_none());
}

#[test]
fn names_resolve_with_or_without_leading_dot() {
    let pool = pool();
    assert_eq!(msg(&pool, ".test.Leaf").full_name(), "test.Leaf");
    assert_eq!(msg(&pool, "test.Leaf").name(), "Leaf");
    assert!(pool.get_message_by_name("test.Color").is_none());
    assert!(pool.get_message_by_name("test.Missing").is_none());
}

#[test]
fn decoding_what_a_message_writes_gives_it_back() {
    let (pool, desc) = shapes();
    let c = desc.get_field_by_name("c").expect("c");
    let b = desc.get_field_by_name("b").expect("b");
    let child = desc.get_field_by_name("child").expect("child");
    let labels = desc.get_field_by_name("labels").expect("labels");
    // an unknown field, read from bytes, stays in the message
    let mut bytes = Vec::new();
    key(100, 0, &mut bytes);
    varint(9, &mut bytes);
    let mut message = DynamicMessage::decode(desc.clone(), &bytes).expect("decode");
    message.set_field(&c, Value::I32(-3));
    message.set_field(&b, Value::String("hi".to_owned()));
    let leaf_desc = msg(&pool, "test.Leaf");
    let x = leaf_desc.get_field_by_name("x").expect("x");
    let mut leaf = DynamicMessage::new(leaf_desc);
    leaf.set_field(&x, Value::I32(-7));
    message.set_field(&child, Value::Message(leaf));
    let entries = || {
        vec![
            (MapKey::String("z".to_owned()), Value::I32(0)),
            (MapKey::String("".to_owned()), Value::I32(5)),
            (MapKey::String("a".to_owned()), Value::I32(-1)),
        ]
    };
    message.set_field(&labels, Value::MapEntries(entries()));
    let encoded = message.encode_to_vec();
    let decoded = DynamicMessage::decode(desc, &encoded).expect("decode");
    assert_eq!(decoded.get_field(&c).as_value(), &Value::I32(-3));
    assert_eq!(decoded.get_field(&b).as_value(), &Value::String("hi".to_owned()));
    assert_eq!(decoded.get_field(&labels).as_value(), &Value::MapEntries(entries()));
    match decoded.get_field(&child).as_value() {
        Value::Message(m) => assert_eq!(m.get_field(&x).as_value(), &Value::I32(-7)),
        other => panic!("expected a message, got {other:?}"),
    }
    let unknowns = decoded.unknown_fields();
    assert_eq!(unknowns.len(), 1);
    assert_eq!(unknowns[0].number(), 100);
    assert_eq!(unknowns[0].value, UnknownFieldValue::Varint(9));
    assert_eq!(decoded.encode_to_vec(), encoded);
}

/// `test.Bag`: unpacked repeated strings and repeated messages of
/// `test.Leaf`.
fn bag_pool() -> DescriptorPool {
    let bag = message_inner(
        0,
        "test.Bag",
        "Bag",
        vec![
            FieldSpec { cardinality: Cardinality::Repeated, ..field("names", 1, KindIndex::String) },
            FieldSpec { cardinality: Cardinality::Repeated, ..field("leaves", 2, KindIndex::Message(1)) },
        ],
        Vec::new(),
        false,
    );
    let leaf = message_inner(1, "test.Leaf", "Leaf", vec![field("x", 1, KindIndex::Sint32)], Vec::new(), false);
    let inner = DescriptorPoolInner {
        names: vec![
            ("test.Bag".to_owned(), Definition { file: 0, kind: DefinitionKind::Message(0) }),
            ("test.Leaf".to_owned(), Definition { file: 0, kind: DefinitionKind::Message(1) }),
        ],
        messages: vec![bag, leaf],
        enums: Vec::new(),
        extensions: Vec::new(),
    };
    DescriptorPool::from_inner(inner).expect("well-formed pool")
}

#[test]
fn unpacked_lists_read_back_in_order() {
    let pool = bag_pool();
    let bag = msg(&pool, "test.Bag");
    let leaf_desc = msg(&pool, "test.Leaf");
    let names = bag.get_field_by_name("names").expect("names");
    let leaves = bag.get_field_by_name("leaves").expect("leaves");
    let x = leaf_desc.get_field_by_name("x").expect("x");
    let mut message = DynamicMessage::new(bag.clone());
    message.set_field(
        &names,
        Value::List(vec![Value::String("b".to_owned()), Value::String("".to_owned()), Value::String("a".to_owned())]),
    );
    let mut first = DynamicMessage::new(leaf_desc.clone());
    first.set_field(&x, Value::I32(2));
    let second = DynamicMessage::new(leaf_desc.clone());
    message.set_field(&leaves, Value::List(vec![Value::Message(first), Value::Message(second)]));
    let encoded = message.encode_to_vec();
    // one record per element, in order: "b", "", "a", then the two leaves
    assert_eq!(
        encoded,
        vec![0x0a, 0x01, b'b', 0x0a, 0x00, 0x0a, 0x01, b'a', 0x12, 0x02, 0x08, 0x04, 0x12, 0x00]
    );
    let decoded = DynamicMessage::decode(bag, &encoded).expect("decode");
    assert_eq!(
        decoded.get_field(&names).as_value(),
        &Value::List(vec![Value::String("b".to_owned()), Value::String("".to_owned()), Value::String("a".to_owned())])
    );
    match decoded.get_field(&leaves).as_value() {
        Value::List(items) => {
            assert_eq!(items.len(), 2);
            match (&items[0], &items[1]) {
                (Value::Message(a), Value::Message(b)) => {
                    assert_eq!(a.get_field(&x).as_value(), &Value::I32(2));
                    assert!(!b.has_field(&x));
                }
                other => panic!("expected two messages, got {other:?}"),
            }
        }
        other => panic!("expected a list, got {other:?}"),
    }
    assert_eq!(decoded.encode_to_vec(), encoded);
}
