//! A verified dynamic protobuf message library: descriptors, a dynamic
//! field set, and the protobuf wire encoding and decoding of dynamic
//! messages, built on the `prost` encoding primitives.

pub mod wire;
pub mod sorted;
pub mod descriptor;
pub mod value;
pub mod unknown;
pub mod fields;
pub mod message;
pub mod encode;
pub mod decode;
pub mod pool;
pub mod corpus;
pub mod types;
pub mod roundtrip;
pub mod readable;

pub use descriptor::{
    Cardinality, Definition, DefinitionKind, DescriptorPool, DescriptorPoolInner,
    EnumDescriptorInner, EnumValueDescriptorInner, ExtensionDescriptor, ExtensionDescriptorInner,
    FieldDescriptor, FieldDescriptorInner, FieldNumberIndex, Identity, KindIndex, MessageDescriptor,
    MessageDescriptorInner, OneofDescriptorInner, Syntax,
};
pub use message::DynamicMessage;
pub use corpus::{
    health_request_bytes, health_response_bytes, otel_metrics_bytes, prometheus_remote_write_bytes,
    raft_message_bytes,
};
pub use value::{MapKey, Value};
pub use unknown::{UnknownField, UnknownFieldSet, UnknownFieldValue};
