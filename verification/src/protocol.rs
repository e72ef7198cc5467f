//! The packet envelope: the key that a packet is dispatched by, the raw
//! packet before dispatch, what a packet type has to offer, and the
//! description of a protocol for tooling.

use crate::text::{decimal, decimal_string};
use crate::varint::VarInt;
use crate::wire::{
    DeserializeErr, Malformed, ProtocolType, Serialize, SerializeResult, Serializer,
};
use std::fmt::Debug;
use vstd::prelude::*;
use vstd::string::*;

verus! {

/// A protocol, described for tooling.
#[derive(Debug, Clone, PartialEq, Eq)]
pub struct ProtocolSpec {
    pub name: String,
    pub packets: Vec<ProtocolPacketSpec>,
}

/// One packet of a protocol, described for tooling.
#[derive(Debug, Clone, PartialEq, Eq)]
pub struct ProtocolPacketSpec {
    pub state: String,
    pub direction: String,
    pub id: i32,
    pub name: String,
    pub body_struct: String,
    pub fields: Vec<ProtocolPacketField>,
}

/// One field of a packet, described for tooling.
#[derive(Debug, Clone, PartialEq, Eq)]
pub struct ProtocolPacketField {
    pub name: String,
    pub kind: String,
}

/// The mathematical form of a [`ProtocolPacketField`].
pub struct FieldOutline {
    pub name: Seq<char>,
    pub kind: Seq<char>,
}

/// The mathematical form of a [`ProtocolPacketSpec`].
pub struct PacketOutline {
    pub state: Seq<char>,
    pub direction: Seq<char>,
    pub id: i32,
    pub name: Seq<char>,
    pub body_struct: Seq<char>,
    pub fields: Seq<FieldOutline>,
}

/// The mathematical form of a [`ProtocolSpec`].
pub struct ProtocolOutline {
    pub name: Seq<char>,
    pub packets: Seq<PacketOutline>,
}

impl View for ProtocolPacketField {
    type V = FieldOutline;

    open spec fn view(&self) -> FieldOutline {
        FieldOutline { name: self.name@, kind: self.kind@ }
    }
}

impl View for ProtocolPacketSpec {
    type V = PacketOutline;

    open spec fn view(&self) -> PacketOutline {
        PacketOutline {
            state: self.state@,
            direction: self.direction@,
            id: self.id,
            name: self.name@,
            body_struct: self.body_struct@,
            fields: self.fields@.map_values(|f: ProtocolPacketField| f@),
        }
    }
}

impl View for ProtocolSpec {
    type V = ProtocolOutline;

    open spec fn view(&self) -> ProtocolOutline {
        ProtocolOutline {
            name: self.name@,
            packets: self.packets@.map_values(|p: ProtocolPacketSpec| p@),
        }
    }
}

/// The stage that a connection is in.
#[derive(Debug, Clone, Copy, PartialEq, Eq, Structural)]
pub enum State {
    Handshaking,
    Status,
    Login,
    Play,
}

/// The way that a packet travels.
#[derive(Debug, Clone, Copy, PartialEq, Eq, Structural)]
pub enum PacketDirection {
    Clientbound,
    Serverbound,
}

impl State {
    pub open spec fn spec_name(self) -> Seq<char> {
        match self {
            State::Handshaking => "Handshaking"@,
            State::Status => "Status"@,
            State::Login => "Login"@,
            State::Play => "Play"@,
        }
    }

    /// The name of the state.
    pub fn name(&self) -> (r: &'static str)
        ensures
            r@ == self.spec_name(),
    {
        match self {
            State::Handshaking => "Handshaking",
            State::Status => "Status",
            State::Login => "Login",
            State::Play => "Play",
        }
    }
}

impl PacketDirection {
    pub open spec fn spec_name(self) -> Seq<char> {
        match self {
            PacketDirection::Clientbound => "Clientbound"@,
            PacketDirection::Serverbound => "Serverbound"@,
        }
    }

    /// The name of the direction.
    pub fn name(&self) -> (r: &'static str)
        ensures
            r@ == self.spec_name(),
    {
        match self {
            PacketDirection::Clientbound => "Clientbound",
            PacketDirection::Serverbound => "Serverbound",
        }
    }
}

/// The key that a packet is dispatched by. Only the number travels; the
/// state and the direction are known to both ends.
#[derive(Debug, Clone, Copy, PartialEq, Eq, Structural)]
pub struct Id {
    pub id: i32,
    pub state: State,
    pub direction: PacketDirection,
}

impl View for Id {
    type V = Id;

    open spec fn view(&self) -> Id {
        *self
    }
}

impl Serialize for Id {
    open spec fn wire(v: Id) -> Seq<u8> {
        VarInt::wire(v.id)
    }

    fn mc_serialize<S: Serializer>(&self, to: &mut S) -> (r: SerializeResult) {
        VarInt(self.id).mc_serialize(to)
    }
}

impl vstd::std_specs::convert::FromSpecImpl<(i32, State, PacketDirection)> for Id {
    open spec fn obeys_from_spec() -> bool {
        true
    }

    open spec fn from_spec(tuple: (i32, State, PacketDirection)) -> Id {
        Id { id: tuple.0, state: tuple.1, direction: tuple.2 }
    }
}

impl From<(i32, State, PacketDirection)> for Id {
    fn from(tuple: (i32, State, PacketDirection)) -> (r: Id) {
        let (id, state, direction) = tuple;
        Id { id, state, direction }
    }
}

/// What a dispatch key has to offer.
pub trait PacketIdentifier: Clone + Debug + PartialEq + Serialize {

}

impl<T: Clone + Debug + PartialEq + Serialize> PacketIdentifier for T {

}

/// A packet as it comes off the transport: its key, and the bytes of its
/// body.
#[derive(Debug, Clone, PartialEq)]
pub struct RawPacket<'a, I> {
    pub id: I,
    pub data: &'a [u8],
}

/// Why a raw packet could not be turned into a packet.
#[derive(Debug, Clone, PartialEq)]
pub enum PacketErr {
    /// The protocol declares no packet under the key; the key's number.
    UnknownId(i32),
    /// A packet is declared under the key, and its body could not be read.
    DeserializeFailed(DeserializeErr),
}

/// The mathematical form of a [`PacketErr`].
pub enum PacketFault {
    UnknownId(i32),
    DeserializeFailed(Malformed),
}

impl View for PacketErr {
    type V = PacketFault;

    open spec fn view(&self) -> PacketFault {
        match self {
            PacketErr::UnknownId(id) => PacketFault::UnknownId(*id),
            PacketErr::DeserializeFailed(e) => PacketFault::DeserializeFailed(e@),
        }
    }
}

/// The text that reports a failed read.
pub open spec fn malformed_message(e: Malformed) -> Seq<char> {
    match e {
        Malformed::Eof => "Eof"@,
        Malformed::VarNumTooLong => "VarNumTooLong"@,
        Malformed::CannotUnderstandValue(text) => "CannotUnderstandValue("@ + text + ")"@,
    }
}

/// The text that reports a failed dispatch.
pub open spec fn fault_message(e: PacketFault) -> Seq<char> {
    match e {
        PacketFault::UnknownId(id) => "unknown packet id "@ + decimal(id as int),
        PacketFault::DeserializeFailed(inner) => "failed to deserialize packet: "@
            + malformed_message(inner),
    }
}

/// The text that reports a failed read.
pub fn describe_malformed(e: &DeserializeErr) -> (r: String)
    ensures
        r@ == malformed_message(e@),
{
    match e {
        DeserializeErr::Eof => String::from_str("Eof"),
        DeserializeErr::VarNumTooLong => String::from_str("VarNumTooLong"),
        DeserializeErr::CannotUnderstandValue(text) => {
            let mut out = String::from_str("CannotUnderstandValue(");
            out.append(text.as_str());
            out.append(")");
            out
        },
    }
}

impl PacketErr {
    /// The text that reports the failure, with what the inner failure says
    /// of itself.
    pub fn message(&self) -> (r: String)
        ensures
            r@ == fault_message(self@),
    {
        match self {
            PacketErr::UnknownId(id) => {
                let mut out = String::from_str("unknown packet id ");
                out.append(decimal_string(*id).as_str());
                out
            },
            PacketErr::DeserializeFailed(inner) => {
                let mut out = String::from_str("failed to deserialize packet: ");
                out.append(describe_malformed(inner).as_str());
                out
            },
        }
    }
}

/// A packet type of a protocol: each packet knows its key, and a raw
/// packet is turned into a packet by its key. Both are read against the
/// protocol's table.
pub trait Packet<I: PacketIdentifier>: Serialize + Sized {
    /// The table of the protocol.
    type Table;

    /// The packet is one that the table declares.
    spec fn known(table: &Self::Table, packet: Self::V) -> bool;

    /// The key that the table declares the packet under.
    spec fn key(table: &Self::Table, packet: Self::V) -> I;

    /// What dispatching `data` under the key `id` comes to.
    spec fn dispatch(table: &Self::Table, id: I, data: Seq<u8>) -> Result<Self::V, PacketFault>;

    fn id(&self, table: &Self::Table) -> (r: I)
        requires
            Self::known(table, self@),
        ensures
            r == Self::key(table, self@),
    ;

    fn mc_deserialize(table: &Self::Table, raw: RawPacket<'_, I>) -> (r: Result<Self, PacketErr>)
        ensures
            match r {
                Ok(packet) => Self::dispatch(table, raw.id, raw.data@) == Ok::<
                    Self::V,
                    PacketFault,
                >(packet@),
                Err(e) => Self::dispatch(table, raw.id, raw.data@) == Err::<Self::V, PacketFault>(
                    e@,
                ),
            },
    ;
}

/// A wire type that can make up a value of itself, for tests. What it
/// makes up can travel.
pub trait TestRandom: ProtocolType {
    fn test_gen_random() -> (r: Self)
        ensures
            Self::legal(r@),
    ;
}

} // verus!
