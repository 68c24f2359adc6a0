use prost_reflect::types::{
    find_enum_proto, find_message_proto, DescriptorProto, EnumDescriptorProto, FileDescriptorProto,
};

fn enum_proto(name: &str) -> EnumDescriptorProto {
    EnumDescriptorProto { name: name.to_owned() }
}

fn message_proto(
    name: &str,
    nested_type: Vec<DescriptorProto>,
    enum_type: Vec<EnumDescriptorProto>,
) -> DescriptorProto {
    DescriptorProto { name: name.to_owned(), nested_type, enum_type }
}

/// `Outer { Inner { Deep; enum DeepKind } ; enum OuterKind }`, `Second`,
/// and a top-level `enum Top`.
fn file() -> FileDescriptorProto {
    FileDescriptorProto {
        name: "shapes.proto".to_owned(),
        message_type: vec![
            message_proto(
                "Outer",
                vec![message_proto(
                    "Inner",
                    vec![message_proto("Deep", Vec::new(), Vec::new())],
                    vec![enum_proto("DeepKind")],
                )],
                vec![enum_proto("OuterKind")],
            ),
            message_proto("Second", Vec::new(), Vec::new()),
        ],
        enum_type: vec![enum_proto("Top")],
    }
}

#[test]
fn top_level_message_by_path() {
    let file = file();
    assert_eq!(find_message_proto(&file, &[4, 0]).name, "Outer");
    assert_eq!(find_message_proto(&file, &[4, 1]).name, "Second");
}

#[test]
fn nested_message_by_path() {
    let file = file();
    assert_eq!(find_message_proto(&file, &[4, 0, 3, 0]).name, "Inner");
    assert_eq!(find_message_proto(&file, &[4, 0, 3, 0, 3, 0]).name, "Deep");
}

#[test]
fn a_later_message_type_pair_starts_over_from_the_file() {
    let file = file();
    assert_eq!(find_message_proto(&file, &[4, 0, 3, 0, 4, 1]).name, "Second");
}

#[test]
fn enums_by_path() {
    let file = file();
    assert_eq!(find_enum_proto(&file, &[5, 0]).name, "Top");
    assert_eq!(find_enum_proto(&file, &[4, 0, 4, 0]).name, "OuterKind");
    assert_eq!(find_enum_proto(&file, &[4, 0, 3, 0, 4, 0]).name, "DeepKind");
}
