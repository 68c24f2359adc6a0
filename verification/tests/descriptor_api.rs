use prost_reflect::{
    Cardinality, Definition, DefinitionKind, DescriptorPool, DescriptorPoolInner, DynamicMessage,
    ExtensionDescriptorInner, FieldDescriptorInner, FieldNumberIndex, Identity, KindIndex, MapKey,
    MessageDescriptor, MessageDescriptorInner, Value,
};

fn message_inner(full_name: &str, name: &str, extensions: Vec<u32>) -> MessageDescriptorInner {
    MessageDescriptorInner {
        id: Identity::new(0, &[4, 0], full_name, name),
        parent: None,
        extensions,
        fields: Vec::new(),
        field_numbers: FieldNumberIndex::with_capacity(0),
        oneofs: Vec::new(),
        map_entry: false,
    }
}

fn extension_inner(
    full_name: &str,
    name: &str,
    number: u32,
    extendee: u32,
    kind: KindIndex,
    cardinality: Cardinality,
    is_packed: bool,
) -> ExtensionDescriptorInner {
    ExtensionDescriptorInner {
        id: Identity::new(0, &[7, 0], full_name, name),
        parent: None,
        number,
        json_name: name.to_owned(),
        extendee,
        kind,
        is_packed,
        cardinality,
        default: None,
    }
}

/// The option messages and the custom options that extend them.
fn pool() -> DescriptorPool {
    let inner = DescriptorPoolInner {
        names: vec![
            (
                "google.protobuf.FileOptions".to_owned(),
                Definition { file: 0, kind: DefinitionKind::Message(0) },
            ),
            (
                "google.protobuf.OneofOptions".to_owned(),
                Definition { file: 0, kind: DefinitionKind::Message(1) },
            ),
            (
                "custom.options.file".to_owned(),
                Definition { file: 1, kind: DefinitionKind::Extension(0) },
            ),
            (
                "custom.options.oneof".to_owned(),
                Definition { file: 1, kind: DefinitionKind::Extension(1) },
            ),
        ],
        messages: vec![
            message_inner("google.protobuf.FileOptions", "FileOptions", vec![0]),
            message_inner("google.protobuf.OneofOptions", "OneofOptions", vec![1]),
        ],
        enums: Vec::new(),
        extensions: vec![
            extension_inner(
                "custom.options.file",
                "file",
                1001,
                0,
                KindIndex::Int32,
                Cardinality::Optional,
                false,
            ),
            extension_inner(
                "custom.options.oneof",
                "oneof",
                1001,
                1,
                KindIndex::Float,
                Cardinality::Repeated,
                true,
            ),
        ],
    };
    DescriptorPool::from_inner(inner).expect("well-formed pool")
}

/// Minimal protobuf varint encoder for hand-built golden extension bytes.
fn varint(mut n: u64, out: &mut Vec<u8>) {
    loop {
        let mut b = (n & 0x7f) as u8;
        n >>= 7;
        if n != 0 {
            b |= 0x80;
        }
        out.push(b);
        if n == 0 {
            break;
        }
    }
}

#[test]
fn extension_wire_bytes_match_handcrafted_golden() {
    let pool = pool();
    let file_options = pool
        .get_message_by_name("google.protobuf.FileOptions")
        .expect("google.protobuf.FileOptions");
    let ext = pool
        .get_extension_by_name("custom.options.file")
        .expect("custom.options.file");

    let mut message = DynamicMessage::new(file_options.clone());
    message.set_extension(&ext, Value::I32(42));

    // field 1001, wire type 0 (varint): tag = 1001 << 3 | 0 = 8008
    let mut expected = Vec::new();
    varint(8008, &mut expected);
    varint(42, &mut expected);
    assert_eq!(message.encode_to_vec(), expected, "scalar ext wire bytes");

    // list extension: repeated float on OneofOptions, field 1001, wire type 2
    let list_ext = pool
        .get_extension_by_name("custom.options.oneof")
        .expect("custom.options.oneof");
    assert_eq!(
        list_ext.containing_message().full_name(),
        "google.protobuf.OneofOptions"
    );
    let oneof_options = pool
        .get_message_by_name("google.protobuf.OneofOptions")
        .expect("google.protobuf.OneofOptions");
    let mut m2 = DynamicMessage::new(oneof_options);
    m2.set_extension(
        &list_ext,
        Value::List(vec![Value::F32(1.0f32.to_bits()), Value::F32(2.0f32.to_bits())]),
    );
    let mut expected = Vec::new();
    varint(8008 | 2, &mut expected); // 1001 << 3 | 2
    varint(8, &mut expected); // 2 floats * 4 bytes
    expected.extend_from_slice(&1.0f32.to_le_bytes());
    expected.extend_from_slice(&2.0f32.to_le_bytes());
    assert_eq!(m2.encode_to_vec(), expected, "list ext wire bytes");
}

#[test]
fn mapkey_accessor_matrix() {
    let key = MapKey::I32(-3);
    assert_eq!(key.as_i32(), Some(-3));
    assert_eq!(key.as_i64(), None, "strict: I32 key is not I64");
    assert_eq!(key.as_u32(), None);
    assert_eq!(key.as_str(), None);
    let mut k = key;
    *k.as_i32_mut().expect("mut") = 4;
    assert_eq!(k.as_i32(), Some(4));

    let key = MapKey::String("s".into());
    assert_eq!(key.as_str(), Some("s"));
    assert_eq!(key.as_i64(), None);
    let mut k = key;
    k.as_string_mut().expect("mut").push('t');
    assert_eq!(k.as_str(), Some("st"));

    let key = MapKey::Bool(true);
    assert_eq!(key.as_bool(), Some(true));
    assert_eq!(key.as_u32(), None);
    let mut k = key;
    *k.as_bool_mut().expect("mut") = false;
    assert_eq!(k.as_bool(), Some(false));
    assert!(k.as_string_mut().is_none());

    let key = MapKey::U32(7);
    assert_eq!(key.as_u32(), Some(7));
    assert_eq!(key.as_i64(), None);
    let mut k = key;
    *k.as_u32_mut().expect("mut") = 8;
    assert_eq!(k.as_u32(), Some(8));
    assert!(k.as_i64_mut().is_none());

    let key = MapKey::U64(7);
    assert_eq!(key.as_u64(), Some(7));
    assert_eq!(key.as_i64(), None, "strict: U64 key is not I64");
    let mut k = key;
    *k.as_u64_mut().expect("mut") = 9;
    assert_eq!(k.as_u64(), Some(9));
    assert!(k.as_i32_mut().is_none());

    let key = MapKey::I64(-7);
    assert_eq!(key.as_i64(), Some(-7));
    assert_eq!(key.as_u64(), None);
    let mut k = key;
    *k.as_i64_mut().expect("mut") = 8;
    assert_eq!(k.as_i64(), Some(8));
}

fn msg(pool: &DescriptorPool, name: &str) -> MessageDescriptor {
    pool.get_message_by_name(name).expect(name)
}

#[test]
fn dynamic_message_extension_operations() {
    let pool = pool();
    let file_options = msg(&pool, "google.protobuf.FileOptions");
    let ext = pool
        .get_extension_by_name("custom.options.file")
        .expect("custom.options.file");

    let mut message = DynamicMessage::new(file_options);
    assert!(!message.has_extension(&ext));
    assert_eq!(
        message.get_extension(&ext).as_value(),
        &Value::I32(0),
        "unset default"
    );

    message.set_extension(&ext, Value::I32(42));
    assert!(message.has_extension(&ext));
    assert_eq!(message.get_extension(&ext).as_value(), &Value::I32(42));
    *message.get_extension_mut(&ext) = Value::I32(7);
    assert_eq!(message.take_extension(&ext), Some(Value::I32(7)));
    assert!(!message.has_extension(&ext));

    message.set_extension(&ext, Value::I32(1));
    message.clear_extension(&ext);
    assert!(!message.has_extension(&ext));
    assert_eq!(message.extensions().len(), 0);

    // a second extension on its proper container message, list-typed
    let oneof_options = msg(&pool, "google.protobuf.OneofOptions");
    let list_ext = pool
        .get_extension_by_name("custom.options.oneof")
        .expect("custom.options.oneof");
    let mut m2 = DynamicMessage::new(oneof_options);
    m2.set_extension(
        &list_ext,
        Value::List(vec![Value::F32(1.0f32.to_bits()), Value::F32(2.0f32.to_bits())]),
    );
    assert!(m2.has_extension(&list_ext));
    assert_eq!(m2.extensions().len(), 1);
    let taken: Vec<_> = m2.take_extensions();
    assert_eq!(taken.len(), 1);
    assert_eq!(taken[0].0.full_name(), "custom.options.oneof");
}

fn scalar_field(message: &str, name: &str, number: u32, kind: KindIndex) -> FieldDescriptorInner {
    FieldDescriptorInner {
        id: Identity::new(0, &[4, 0, 2, number as i32 - 1], &format!("{message}.{name}"), name),
        number,
        json_name: name.to_owned(),
        kind,
        oneof: None,
        is_packed: false,
        supports_presence: false,
        cardinality: Cardinality::Optional,
        default: None,
    }
}

/// `test.Scalars`: one proto3 field of each scalar kind, numbered 1 to 15.
fn scalars_pool() -> DescriptorPool {
    let kinds = [
        ("double", KindIndex::Double),
        ("float", KindIndex::Float),
        ("int32", KindIndex::Int32),
        ("int64", KindIndex::Int64),
        ("uint32", KindIndex::Uint32),
        ("uint64", KindIndex::Uint64),
        ("sint32", KindIndex::Sint32),
        ("sint64", KindIndex::Sint64),
        ("fixed32", KindIndex::Fixed32),
        ("fixed64", KindIndex::Fixed64),
        ("sfixed32", KindIndex::Sfixed32),
        ("sfixed64", KindIndex::Sfixed64),
        ("bool", KindIndex::Bool),
        ("string", KindIndex::String),
        ("bytes", KindIndex::Bytes),
    ];
    let mut fields = Vec::new();
    let mut numbers = FieldNumberIndex::with_capacity(kinds.len());
    for (i, (name, kind)) in kinds.iter().enumerate() {
        let number = i as u32 + 1;
        fields.push(scalar_field("test.Scalars", name, number, *kind));
        numbers.insert(number, i as u32);
    }
    let inner = DescriptorPoolInner {
        names: vec![(
            "test.Scalars".to_owned(),
            Definition { file: 0, kind: DefinitionKind::Message(0) },
        )],
        messages: vec![MessageDescriptorInner {
            id: Identity::new(0, &[4, 0], "test.Scalars", "Scalars"),
            parent: None,
            extensions: Vec::new(),
            fields,
            field_numbers: numbers,
            oneofs: Vec::new(),
            map_entry: false,
        }],
        enums: Vec::new(),
        extensions: Vec::new(),
    };
    DescriptorPool::from_inner(inner).expect("well-formed pool")
}

#[test]
fn unknown_field_surface() {
    let pool = scalars_pool();
    let scalars = msg(&pool, "test.Scalars");
    // payload: known field 3 (int32, varint 7) plus unknown fields
    // 200 (varint 99), 201 (fixed64), 202 (length-delimited "abc")
    let mut payload = Vec::new();
    varint(3 << 3 | 0, &mut payload);
    varint(7, &mut payload);
    varint(200 << 3 | 0, &mut payload);
    varint(99, &mut payload);
    varint(201 << 3 | 1, &mut payload);
    payload.extend_from_slice(&42u64.to_le_bytes());
    varint(202 << 3 | 2, &mut payload);
    varint(3, &mut payload);
    payload.extend_from_slice(b"abc");

    let mut message = DynamicMessage::decode(scalars, payload.as_slice()).expect("decode");
    assert_eq!(
        message.get_field_by_name("int32").as_ref().map(|v| v.as_value()),
        Some(&Value::I32(7))
    );
    let unknowns: Vec<_> = message.unknown_fields();
    assert_eq!(unknowns.len(), 3, "three unknown fields");
    let numbers: Vec<u32> = unknowns.iter().map(|u| u.number()).collect();
    assert_eq!(numbers, vec![200, 201, 202], "ascending number order");
    // 200<<3 needs a 2-byte tag: varint = 2+1 bytes
    assert_eq!(unknowns[0].encoded_len(), 3, "varint 99");
    assert_eq!(unknowns[1].encoded_len(), 10, "fixed64: 2-byte tag + 8");
    assert_eq!(unknowns[2].encoded_len(), 6, "len-delimited: 2+1+3");

    // byte-identical roundtrip incl. unknown fields
    assert_eq!(message.encode_to_vec(), payload, "unknowns preserved");

    // take clears them
    assert_eq!(message.take_unknown_fields().len(), 3);
    assert_eq!(message.unknown_fields().len(), 0);
}

#[test]
fn every_scalar_kind_reads_back() {
    let pool = scalars_pool();
    let scalars = msg(&pool, "test.Scalars");
    let values = vec![
        ("double", Value::F64((-2.5f64).to_bits())),
        ("float", Value::F32(1.5f32.to_bits())),
        ("int32", Value::I32(-7)),
        ("int64", Value::I64(-1 << 40)),
        ("uint32", Value::U32(u32::MAX)),
        ("uint64", Value::U64(u64::MAX)),
        ("sint32", Value::I32(i32::MIN)),
        ("sint64", Value::I64(i64::MIN)),
        ("fixed32", Value::U32(0xdead_beef)),
        ("fixed64", Value::U64(0x0123_4567_89ab_cdef)),
        ("sfixed32", Value::I32(-2)),
        ("sfixed64", Value::I64(-3)),
        ("bool", Value::Bool(true)),
        ("string", Value::String("héllo".to_owned())),
        ("bytes", Value::Bytes(vec![0, 255, 7])),
    ];
    let mut message = DynamicMessage::new(scalars.clone());
    for (name, value) in &values {
        let field = scalars.get_field_by_name(name).expect(name);
        let copy = match value {
            Value::String(s) => Value::String(s.clone()),
            Value::Bytes(b) => Value::Bytes(b.clone()),
            Value::F64(x) => Value::F64(*x),
            Value::F32(x) => Value::F32(*x),
            Value::I32(x) => Value::I32(*x),
            Value::I64(x) => Value::I64(*x),
            Value::U32(x) => Value::U32(*x),
            Value::U64(x) => Value::U64(*x),
            Value::Bool(x) => Value::Bool(*x),
            _ => unreachable!(),
        };
        message.set_field(&field, copy);
    }
    let bytes = message.encode_to_vec();
    assert_eq!(message.encoded_len(), bytes.len());
    let decoded = DynamicMessage::decode(scalars.clone(), &bytes).expect("decode");
    for (name, value) in &values {
        assert_eq!(
            decoded.get_field_by_name(name).as_ref().map(|v| v.as_value()),
            Some(value),
            "{name}"
        );
    }
    assert_eq!(decoded, message);
}

#[test]
fn int32_negative_is_a_ten_byte_varint() {
    let pool = scalars_pool();
    let scalars = msg(&pool, "test.Scalars");
    let int32 = scalars.get_field_by_name("int32").expect("int32");
    let mut message = DynamicMessage::new(scalars);
    message.set_field(&int32, Value::I32(-1));
    let mut expected = vec![0x18];
    expected.extend_from_slice(&[0xff; 9]);
    expected.push(0x01);
    assert_eq!(message.encode_to_vec(), expected);
}
