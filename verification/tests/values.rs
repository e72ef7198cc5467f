use mcproto::value::{counter_from_count, counter_to_count};
use mcproto::{
    Body, BytesSerializer, ByteFlags, DeserializeErr, EnumCodec, EnumEntry, EnumValue, FieldDef,
    FieldType, Id, PacketDef, PacketDirection, PacketErr, PacketValue, Protocol, RawPacket, Repr,
    Serialize, State, Value, VarInt,
};

fn wire_of<T: Serialize>(value: &T) -> Vec<u8> {
    let mut sink = BytesSerializer::new();
    value.mc_serialize(&mut sink).unwrap();
    sink.into_bytes()
}

fn game_mode() -> EnumCodec {
    EnumCodec::new(
        "GameMode".to_string(),
        Repr::Byte,
        vec![
            EnumEntry { literal: 0, name: "Survival".to_string() },
            EnumEntry { literal: 1, name: "Creative".to_string() },
            EnumEntry { literal: 3, name: "Spectator".to_string() },
        ],
    )
    .unwrap()
}

fn field(name: &str, kind: &str, ty: FieldType) -> FieldDef {
    FieldDef { name: name.to_string(), kind: kind.to_string(), ty }
}

fn join_game() -> PacketDef {
    PacketDef {
        name: "JoinGame".to_string(),
        id: 0x26,
        state: State::Play,
        direction: PacketDirection::Clientbound,
        body_struct: "JoinGameSpec".to_string(),
        fields: vec![
            field("entity_id", "i32", FieldType::Int),
            field("game_mode", "GameMode", FieldType::Enum(game_mode())),
            field("view_distance", "VarInt", FieldType::VarInt),
            field("abilities", "Abilities", FieldType::Flags),
            field(
                "worlds",
                "CountedArray<CountedArray<u8>>",
                FieldType::Array(
                    Repr::VarInt,
                    Box::new(FieldType::Array(Repr::Byte, Box::new(FieldType::Byte))),
                ),
            ),
        ],
    }
}

fn join_game_body() -> Body {
    Body {
        fields: vec![
            Value::Int(-2),
            Value::Enum(EnumValue { repr: Repr::Byte, literal: 3 }),
            Value::VarInt(VarInt(300)),
            Value::Flags(ByteFlags(0x05)),
            Value::Array(
                Repr::VarInt,
                vec![
                    Value::Array(Repr::Byte, vec![Value::Byte(9), Value::Byte(8)]),
                    Value::Array(Repr::Byte, vec![]),
                ],
            ),
        ],
    }
}

fn join_game_bytes() -> Vec<u8> {
    vec![0xff, 0xff, 0xff, 0xfe, 0x03, 0xac, 0x02, 0x05, 0x02, 0x02, 0x09, 0x08, 0x00]
}

#[test]
fn body_is_its_fields_in_order_and_nothing_else() {
    assert_eq!(wire_of(&join_game_body()), join_game_bytes());
}

#[test]
fn body_is_read_field_by_field() {
    let mut bytes = join_game_bytes();
    bytes.extend_from_slice(&[0xaa, 0xbb]);
    let d = join_game().decode_body(&bytes).unwrap();
    assert_eq!(d.value, join_game_body());
    assert_eq!(d.data, &[0xaau8, 0xbb][..]);
}

#[test]
fn body_round_trips_with_nothing_left() {
    let def = join_game();
    let bytes = wire_of(&join_game_body());
    let d = def.decode_body(&bytes).unwrap();
    assert_eq!(d.value, join_game_body());
    assert!(d.data.is_empty());
}

#[test]
fn body_cut_short_is_out_of_data() {
    let def = join_game();
    let bytes = join_game_bytes();
    for n in 0..bytes.len() {
        assert_eq!(def.decode_body(&bytes[..n]).err(), Some(DeserializeErr::Eof));
    }
}

#[test]
fn first_failing_field_fails_the_body() {
    let def = join_game();
    let mut bytes = join_game_bytes();
    bytes[4] = 0x02;
    bytes.truncate(6);
    assert_eq!(
        def.decode_body(&bytes).err(),
        Some(DeserializeErr::CannotUnderstandValue("invalid GameMode 2".to_string()))
    );
}

#[test]
fn each_type_reads_its_own_value() {
    assert_eq!(FieldType::Byte.decode(&[7, 1]).unwrap().value, Value::Byte(7));
    assert_eq!(FieldType::Int.decode(&[0, 0, 1, 0]).unwrap().value, Value::Int(256));
    assert_eq!(FieldType::VarInt.decode(&[0x80, 0x01]).unwrap().value, Value::VarInt(VarInt(128)));
    assert_eq!(FieldType::Flags.decode(&[0xf0]).unwrap().value, Value::Flags(ByteFlags(0xf0)));
    assert_eq!(
        FieldType::Enum(game_mode()).decode(&[1]).unwrap().value,
        Value::Enum(EnumValue { repr: Repr::Byte, literal: 1 })
    );
    let bytes = FieldType::Array(Repr::Int, Box::new(FieldType::VarInt));
    let d = bytes.decode(&[0, 0, 0, 2, 0x01, 0xff, 0x01, 0x33]).unwrap();
    assert_eq!(d.value, Value::Array(Repr::Int, vec![Value::VarInt(VarInt(1)), Value::VarInt(VarInt(255))]));
    assert_eq!(d.data, &[0x33u8][..]);
}

#[test]
fn sequence_value_keeps_its_length() {
    for n in [0usize, 1, 31, 255, 256, 700] {
        let items: Vec<Value> = (0..n).map(|i| Value::Byte((i % 256) as u8)).collect();
        let value = Value::Array(Repr::VarInt, items.clone());
        let bytes = wire_of(&value);
        let ty = FieldType::Array(Repr::VarInt, Box::new(FieldType::Byte));
        let d = ty.decode(&bytes).unwrap();
        match &d.value {
            Value::Array(_, read) => assert_eq!(read.len(), n),
            _ => panic!("not a sequence"),
        }
        assert_eq!(d.value, value);
        assert!(d.data.is_empty());
        if n > 0 {
            let r = ty.decode(&bytes[..bytes.len() - 1]);
            assert_eq!(r.err(), Some(DeserializeErr::Eof));
        }
    }
}

#[test]
fn counters_of_each_wire_type() {
    assert_eq!(counter_from_count(Repr::Byte, 300), 44);
    assert_eq!(counter_from_count(Repr::VarInt, 300), 300);
    assert_eq!(counter_from_count(Repr::Int, 0xffff_ffff), -1);
    assert_eq!(counter_to_count(Repr::Byte, 255), 255);
    assert_eq!(counter_to_count(Repr::VarInt, 300), 300);
    assert_eq!(counter_to_count(Repr::Int, -1), usize::MAX);
}

#[test]
fn value_copies_are_equal() {
    let body = join_game_body();
    let copy = body.clone();
    assert_eq!(copy, body);
    for v in &body.fields {
        assert_eq!(&v.clone(), v);
    }
}

#[test]
fn made_up_bodies_come_back() {
    let def = join_game();
    for _ in 0..30 {
        let body = def.test_gen_random();
        assert_eq!(body.fields.len(), 5);
        let bytes = wire_of(&body);
        let d = def.decode_body(&bytes).unwrap();
        assert_eq!(d.value, body);
        assert!(d.data.is_empty());
    }
}

#[test]
fn packets_of_a_larger_protocol_find_their_definitions() {
    let keep_alive = |direction: PacketDirection, id: i32| PacketDef {
        name: "KeepAlive".to_string(),
        id,
        state: State::Play,
        direction,
        body_struct: "KeepAliveSpec".to_string(),
        fields: vec![field("id", "i32", FieldType::Int)],
    };
    let handshake = PacketDef {
        name: "Handshake".to_string(),
        id: 0,
        state: State::Handshaking,
        direction: PacketDirection::Serverbound,
        body_struct: "HandshakeSpec".to_string(),
        fields: vec![field("version", "VarInt", FieldType::VarInt)],
    };
    let protocol = Protocol::new(
        "Game".to_string(),
        vec![
            handshake,
            join_game(),
            keep_alive(PacketDirection::Clientbound, 0x21),
            keep_alive(PacketDirection::Serverbound, 0x0f),
        ],
    )
    .unwrap();
    for variant in 0..protocol.len() {
        let def = protocol.packet(variant).unwrap();
        let packet = PacketValue { variant, body: def.test_gen_random() };
        let id = protocol.id_of(&packet);
        assert_eq!(id, def.key());
        assert_eq!(protocol.position(id), Some(variant));
        let bytes = wire_of(&packet);
        let read = protocol.decode(RawPacket { id, data: &bytes }).unwrap();
        assert_eq!(read, packet);
    }
    let absent = Id { id: 0x21, state: State::Play, direction: PacketDirection::Serverbound };
    assert_eq!(protocol.position(absent), None);
    assert_eq!(
        protocol.decode(RawPacket { id: absent, data: &[0, 0, 0, 0] }),
        Err(PacketErr::UnknownId(0x21))
    );
    let spec = protocol.describe();
    assert_eq!(spec.packets[1].fields[4].kind, "CountedArray<CountedArray<u8>>");
    assert_eq!(spec.packets[0].state, "Handshaking");
    assert_eq!(spec.packets[3].direction, "Serverbound");
}

#[test]
fn definition_admits_the_bodies_of_its_shape_only() {
    let def = join_game();
    assert!(def.admits(&join_game_body()));
    let mut short = join_game_body();
    short.fields.pop();
    assert!(!def.admits(&short));
    let mut wrong_type = join_game_body();
    wrong_type.fields[0] = Value::Byte(1);
    assert!(!def.admits(&wrong_type));
    let mut undeclared = join_game_body();
    undeclared.fields[1] = Value::Enum(EnumValue { repr: Repr::Byte, literal: 2 });
    assert!(!def.admits(&undeclared));
    let mut other_repr = join_game_body();
    other_repr.fields[1] = Value::Enum(EnumValue { repr: Repr::VarInt, literal: 3 });
    assert!(!def.admits(&other_repr));
    let mut other_counter = join_game_body();
    other_counter.fields[4] = Value::Array(Repr::Byte, vec![]);
    assert!(!def.admits(&other_counter));
    let mut deep = join_game_body();
    deep.fields[4] = Value::Array(
        Repr::VarInt,
        vec![Value::Array(Repr::Byte, vec![Value::Int(1)])],
    );
    assert!(!def.admits(&deep));
    for _ in 0..20 {
        assert!(def.admits(&def.test_gen_random()));
    }
}

#[test]
fn sequence_longer_than_its_counter_carries_is_not_admitted() {
    let ty = FieldType::Array(Repr::Byte, Box::new(FieldType::Byte));
    assert!(ty.admits(&Value::Array(Repr::Byte, vec![Value::Byte(0); 255])));
    assert!(!ty.admits(&Value::Array(Repr::Byte, vec![Value::Byte(0); 256])));
    let ty = FieldType::Array(Repr::VarInt, Box::new(FieldType::Byte));
    assert!(ty.admits(&Value::Array(Repr::VarInt, vec![Value::Byte(0); 256])));
}

#[test]
fn protocol_admits_the_packets_of_its_definitions() {
    let protocol = Protocol::new("Game".to_string(), vec![join_game()]).unwrap();
    assert!(protocol.admits(&PacketValue { variant: 0, body: join_game_body() }));
    assert!(!protocol.admits(&PacketValue { variant: 1, body: join_game_body() }));
    assert!(!protocol.admits(&PacketValue { variant: 0, body: Body { fields: vec![] } }));
    assert!(game_mode().owns(EnumValue { repr: Repr::Byte, literal: 1 }));
    assert!(!game_mode().owns(EnumValue { repr: Repr::Byte, literal: 2 }));
    assert!(!game_mode().owns(EnumValue { repr: Repr::Int, literal: 1 }));
}
