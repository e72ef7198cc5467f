use mcproto::{
    Body, BytesSerializer, DeserializeErr, FieldDef, FieldType, Id, Packet, PacketDef,
    PacketDirection, PacketErr, PacketValue, Protocol, ProtocolErr, RawPacket, Serialize, State,
    Value,
};

fn ping_pong() -> Protocol {
    let ping = PacketDef {
        name: "Ping".to_string(),
        id: 0,
        state: State::Play,
        direction: PacketDirection::Serverbound,
        body_struct: "PingSpec".to_string(),
        fields: vec![FieldDef {
            name: "payload".to_string(),
            kind: "u8".to_string(),
            ty: FieldType::Byte,
        }],
    };
    let pong = PacketDef {
        name: "Pong".to_string(),
        id: 1,
        state: State::Play,
        direction: PacketDirection::Clientbound,
        body_struct: "PongSpec".to_string(),
        fields: vec![],
    };
    Protocol::new("PingPong".to_string(), vec![ping, pong]).unwrap()
}

fn bytes_of<T: Serialize>(value: &T) -> Vec<u8> {
    let mut sink = BytesSerializer::new();
    value.mc_serialize(&mut sink).unwrap();
    sink.into_bytes()
}

#[test]
fn ping_is_written_as_its_payload() {
    let ping = PacketValue { variant: 0, body: Body { fields: vec![Value::Byte(7)] } };
    assert_eq!(bytes_of(&ping), vec![0x07]);
}

#[test]
fn ping_is_read_under_its_key() {
    let protocol = ping_pong();
    let data = [0x07u8];
    let id = Id { id: 0, state: State::Play, direction: PacketDirection::Serverbound };
    let packet = protocol.decode(RawPacket { id, data: &data }).unwrap();
    assert_eq!(packet, PacketValue { variant: 0, body: Body { fields: vec![Value::Byte(7)] } });
    assert_eq!(protocol.id_of(&packet), id);
    let body = protocol.packet(0).unwrap().decode_body(&data).unwrap();
    assert_eq!(body.value, Body { fields: vec![Value::Byte(7)] });
    assert!(body.data.is_empty());
}

#[test]
fn unknown_key_is_reported_with_its_number() {
    let protocol = ping_pong();
    let data = [0x07u8];
    let id = Id { id: 2, state: State::Play, direction: PacketDirection::Serverbound };
    let r = protocol.decode(RawPacket { id, data: &data });
    assert_eq!(r, Err(PacketErr::UnknownId(2)));
}

#[test]
fn key_needs_state_and_direction_too() {
    let protocol = ping_pong();
    let data = [0x07u8];
    let id = Id { id: 0, state: State::Play, direction: PacketDirection::Clientbound };
    assert_eq!(protocol.decode(RawPacket { id, data: &data }), Err(PacketErr::UnknownId(0)));
    let id = Id { id: 0, state: State::Login, direction: PacketDirection::Serverbound };
    assert_eq!(protocol.decode(RawPacket { id, data: &data }), Err(PacketErr::UnknownId(0)));
}

#[test]
fn pong_has_no_bytes_and_reads_from_anything() {
    let protocol = ping_pong();
    let pong = PacketValue { variant: 1, body: Body { fields: vec![] } };
    assert_eq!(bytes_of(&pong), Vec::<u8>::new());
    let id = Id { id: 1, state: State::Play, direction: PacketDirection::Clientbound };
    let empty: [u8; 0] = [];
    assert_eq!(protocol.decode(RawPacket { id, data: &empty }), Ok(pong.clone()));
    let data = [1u8, 2, 3];
    assert_eq!(protocol.decode(RawPacket { id, data: &data }), Ok(pong));
    let body = protocol.packet(1).unwrap().decode_body(&data).unwrap();
    assert_eq!(body.data, &data[..]);
}

#[test]
fn failed_body_keeps_the_reason() {
    let protocol = ping_pong();
    let empty: [u8; 0] = [];
    let id = Id { id: 0, state: State::Play, direction: PacketDirection::Serverbound };
    let r = protocol.decode(RawPacket { id, data: &empty });
    assert_eq!(r, Err(PacketErr::DeserializeFailed(DeserializeErr::Eof)));
}

#[test]
fn packet_trait_dispatches_like_the_protocol() {
    let protocol = ping_pong();
    let data = [0x2au8];
    let id = Id::from((0, State::Play, PacketDirection::Serverbound));
    let packet = <PacketValue as Packet<Id>>::mc_deserialize(&protocol, RawPacket { id, data: &data })
        .unwrap();
    assert_eq!(packet.body.fields, vec![Value::Byte(0x2a)]);
    assert_eq!(packet.id(&protocol), id);
    assert!(protocol.knows(&packet));
    assert!(!protocol.knows(&PacketValue { variant: 2, body: Body { fields: vec![] } }));
}

#[test]
fn key_travels_as_its_number_only() {
    let id = Id { id: 300, state: State::Login, direction: PacketDirection::Clientbound };
    assert_eq!(bytes_of(&id), vec![0xac, 0x02]);
    let other = Id { id: 300, state: State::Play, direction: PacketDirection::Serverbound };
    assert_eq!(bytes_of(&other), vec![0xac, 0x02]);
}

#[test]
fn duplicate_key_is_refused() {
    let def = |name: &str, id: i32, direction: PacketDirection| PacketDef {
        name: name.to_string(),
        id,
        state: State::Play,
        direction,
        body_struct: format!("{}Spec", name),
        fields: vec![],
    };
    let r = Protocol::new(
        "Twice".to_string(),
        vec![
            def("A", 0, PacketDirection::Serverbound),
            def("B", 0, PacketDirection::Clientbound),
            def("C", 1, PacketDirection::Serverbound),
            def("D", 0, PacketDirection::Clientbound),
            def("E", 0, PacketDirection::Serverbound),
        ],
    );
    assert_eq!(r.err(), Some(ProtocolErr::DuplicateKey(3)));
}

#[test]
fn protocol_describes_itself_in_order() {
    let protocol = ping_pong();
    let spec = protocol.describe();
    assert_eq!(spec.name, "PingPong");
    assert_eq!(spec.packets.len(), 2);
    let ping = &spec.packets[0];
    assert_eq!(ping.state, "Play");
    assert_eq!(ping.direction, "Serverbound");
    assert_eq!(ping.id, 0);
    assert_eq!(ping.name, "Ping");
    assert_eq!(ping.body_struct, "PingSpec");
    assert_eq!(ping.fields.len(), 1);
    assert_eq!(ping.fields[0].name, "payload");
    assert_eq!(ping.fields[0].kind, "u8");
    let pong = &spec.packets[1];
    assert_eq!(pong.direction, "Clientbound");
    assert_eq!(pong.id, 1);
    assert_eq!(pong.name, "Pong");
    assert!(pong.fields.is_empty());
    assert_eq!(protocol.name(), "PingPong");
    assert_eq!(protocol.len(), 2);
    assert!(protocol.packet(2).is_none());
}

#[test]
fn failures_are_reported_in_words() {
    assert_eq!(PacketErr::UnknownId(2).message(), "unknown packet id 2");
    assert_eq!(PacketErr::UnknownId(-17).message(), "unknown packet id -17");
    assert_eq!(
        PacketErr::DeserializeFailed(DeserializeErr::Eof).message(),
        "failed to deserialize packet: Eof"
    );
    assert_eq!(
        PacketErr::DeserializeFailed(DeserializeErr::CannotUnderstandValue(
            "invalid Hand 5".to_string()
        ))
        .message(),
        "failed to deserialize packet: CannotUnderstandValue(invalid Hand 5)"
    );
}
