//! A schema-driven codec for the packets of a stateful, bidirectional binary
//! protocol, with machine-checked contracts.
//!
//! A protocol is a table of packet definitions: a name, a number, the state
//! and the direction in which the packet travels, and the layout of its
//! fields. [`Protocol::new`] compiles such a table; the compiled protocol
//! turns a raw packet into a packet by its key, reads and writes the body of
//! every packet, and describes itself.
//!
//! The modules, leaves first:
//!
//! - [`wire`]: what it means to write a value to a sink and to read one
//!   from a buffer, and the laws that a wire type obeys; bytes and 32-bit
//!   integers.
//! - [`varint`]: integers in a variable number of bytes.
//! - [`counted`]: sequences of any wire type behind a counter.
//! - [`flags`]: a byte of flags, by mask and by name.
//! - [`enums`]: closed sets of named values, each bound to a literal.
//! - [`value`], [`field`]: the values and the types of fields whose shape a
//!   schema fixes at run time.
//! - [`protocol`]: the dispatch key, the raw packet, the packet interface,
//!   the failures of dispatch, and the description of a protocol.
//! - [`schema`]: the compiler of packet tables, the codec of packet bodies
//!   and dispatch by key.
//! - [`random`]: made-up values for tests.
//! - [`text`]: numbers as text, for names and messages.
//!
//! Every contract is stated over a mathematical model: the bytes of a wire
//! format are a `Seq<u8>`, the outcome of a read is a [`wire::Parsed`], and
//! each type has a view that the contracts speak of.

pub mod counted;
pub mod enums;
pub mod field;
pub mod flags;
pub mod protocol;
pub mod random;
pub mod schema;
pub mod text;
pub mod value;
pub mod varint;
pub mod wire;

pub use counted::{CountedArray, Counter};
pub use enums::{EnumCodec, EnumEntry, EnumTableErr, EnumValue, Repr};
pub use field::FieldType;
pub use flags::ByteFlags;
pub use protocol::{
    Id, Packet, PacketDirection, PacketErr, PacketIdentifier, ProtocolPacketField,
    ProtocolPacketSpec, ProtocolSpec, RawPacket, State, TestRandom,
};
pub use schema::{Body, FieldDef, PacketDef, PacketValue, Protocol, ProtocolErr};
pub use value::Value;
pub use varint::VarInt;
pub use wire::{
    BytesSerializer, Deserialize, DeserializeErr, DeserializeResult, Deserialized, ProtocolType,
    RawSink, Serialize, SerializeErr, SerializeResult, Serializer, SinkSerializer,
};
