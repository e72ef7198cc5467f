use mcproto::enums::{read_literal, write_literal};
use mcproto::{
    BytesSerializer, DeserializeErr, EnumCodec, EnumEntry, EnumTableErr, EnumValue, Repr,
    Serialize,
};

fn entry(literal: i32, name: &str) -> EnumEntry {
    EnumEntry { literal, name: name.to_string() }
}

fn hand() -> EnumCodec {
    EnumCodec::new(
        "Hand".to_string(),
        Repr::Byte,
        vec![entry(0x00, "MainHand"), entry(0x01, "OffHand")],
    )
    .unwrap()
}

fn next_state() -> EnumCodec {
    EnumCodec::new(
        "NextState".to_string(),
        Repr::VarInt,
        vec![entry(2, "Login"), entry(1, "Status"), entry(300, "Transfer")],
    )
    .unwrap()
}

fn difficulty() -> EnumCodec {
    EnumCodec::new(
        "Difficulty".to_string(),
        Repr::Int,
        vec![entry(-1, "Unset"), entry(0, "Peaceful"), entry(3, "Hard")],
    )
    .unwrap()
}

fn wire_of(v: EnumValue) -> Vec<u8> {
    let mut sink = BytesSerializer::new();
    v.mc_serialize(&mut sink).unwrap();
    sink.into_bytes()
}

#[test]
fn every_declared_variant_is_read_back() {
    for codec in [hand(), next_state(), difficulty()] {
        for i in 0..codec.len() {
            let v = codec.pick(i);
            let mut bytes = wire_of(v);
            bytes.push(0xee);
            let d = codec.decode(&bytes).unwrap();
            assert_eq!(d.value, v);
            assert_eq!(d.data, &[0xeeu8][..]);
            assert_eq!(codec.lookup(v.to_literal()), Some(v));
        }
    }
}

#[test]
fn variants_travel_as_their_literals() {
    assert_eq!(wire_of(hand().lookup(1).unwrap()), vec![0x01]);
    assert_eq!(wire_of(next_state().lookup(300).unwrap()), vec![0xac, 0x02]);
    assert_eq!(wire_of(difficulty().lookup(-1).unwrap()), vec![0xff, 0xff, 0xff, 0xff]);
    assert_eq!(wire_of(difficulty().lookup(3).unwrap()), vec![0, 0, 0, 3]);
}

#[test]
fn undeclared_literal_is_not_understood() {
    let r = hand().decode(&[0x02, 0x00]);
    assert_eq!(r.err(), Some(DeserializeErr::CannotUnderstandValue("invalid Hand 2".to_string())));
    let r = next_state().decode(&[0x03]);
    assert_eq!(
        r.err(),
        Some(DeserializeErr::CannotUnderstandValue("invalid NextState 3".to_string()))
    );
    let r = difficulty().decode(&[0xff, 0xff, 0xff, 0xfe]);
    assert_eq!(
        r.err(),
        Some(DeserializeErr::CannotUnderstandValue("invalid Difficulty -2".to_string()))
    );
}

#[test]
fn variant_cut_short_is_out_of_data() {
    assert_eq!(hand().decode(&[]).err(), Some(DeserializeErr::Eof));
    assert_eq!(next_state().decode(&[0xac]).err(), Some(DeserializeErr::Eof));
    assert_eq!(difficulty().decode(&[0, 0, 0]).err(), Some(DeserializeErr::Eof));
}

#[test]
fn lookup_knows_the_declared_literals_only() {
    let codec = next_state();
    assert_eq!(codec.lookup(2), Some(EnumValue { repr: Repr::VarInt, literal: 2 }));
    assert_eq!(codec.lookup(1), Some(EnumValue { repr: Repr::VarInt, literal: 1 }));
    assert_eq!(codec.lookup(0), None);
    assert_eq!(codec.lookup(3), None);
    assert_eq!(codec.lookup(-1), None);
}

#[test]
fn variants_have_their_declared_names() {
    let codec = next_state();
    assert_eq!(codec.name(codec.lookup(2).unwrap()), Some("Login"));
    assert_eq!(codec.name(codec.lookup(1).unwrap()), Some("Status"));
    assert_eq!(codec.name(EnumValue { repr: Repr::VarInt, literal: 7 }), None);
    assert_eq!(codec.name(EnumValue { repr: Repr::Byte, literal: 2 }), None);
    assert_eq!(codec.type_label(), "NextState");
    assert_eq!(codec.repr(), Repr::VarInt);
    assert_eq!(codec.len(), 3);
}

#[test]
fn variants_are_shown_with_their_literals() {
    let codec = hand();
    assert_eq!(codec.display(codec.lookup(1).unwrap()), Some("OffHand(0x01)".to_string()));
    let codec = next_state();
    assert_eq!(
        codec.display(codec.lookup(300).unwrap()),
        Some("Transfer(VarInt(300))".to_string())
    );
    let codec = difficulty();
    assert_eq!(codec.display(codec.lookup(-1).unwrap()), Some("Unset(0xffffffff)".to_string()));
    assert_eq!(codec.display(codec.lookup(3).unwrap()), Some("Hard(0x03)".to_string()));
    assert_eq!(codec.display(EnumValue { repr: Repr::Int, literal: 9 }), None);
}

#[test]
fn pick_goes_round_the_table() {
    let codec = next_state();
    assert_eq!(codec.pick(0).literal, 2);
    assert_eq!(codec.pick(1).literal, 1);
    assert_eq!(codec.pick(2).literal, 300);
    assert_eq!(codec.pick(3).literal, 2);
    assert_eq!(codec.pick(usize::MAX).literal, codec.pick(usize::MAX % 3).literal);
}

#[test]
fn made_up_variant_is_a_declared_one() {
    let codec = next_state();
    for _ in 0..50 {
        let v = codec.test_gen_random();
        assert_eq!(codec.lookup(v.literal), Some(v));
    }
}

#[test]
fn empty_table_is_refused() {
    let r = EnumCodec::new("Nothing".to_string(), Repr::Byte, vec![]);
    assert_eq!(r.err(), Some(EnumTableErr::NoVariants));
}

#[test]
fn literal_outside_a_byte_is_refused() {
    let r = EnumCodec::new(
        "Wide".to_string(),
        Repr::Byte,
        vec![entry(255, "Last"), entry(256, "Beyond")],
    );
    assert_eq!(r.err(), Some(EnumTableErr::LiteralOutOfRange(1)));
    let r = EnumCodec::new("Low".to_string(), Repr::Byte, vec![entry(-1, "Below")]);
    assert_eq!(r.err(), Some(EnumTableErr::LiteralOutOfRange(0)));
    let r = EnumCodec::new("Fine".to_string(), Repr::Int, vec![entry(-1, "Below")]);
    assert!(r.is_ok());
}

#[test]
fn literal_declared_twice_is_refused() {
    let r = EnumCodec::new(
        "Twice".to_string(),
        Repr::VarInt,
        vec![entry(1, "A"), entry(2, "B"), entry(1, "C"), entry(2, "D")],
    );
    assert_eq!(r.err(), Some(EnumTableErr::DuplicateLiteral(2)));
    let r = EnumCodec::new(
        "First".to_string(),
        Repr::Byte,
        vec![entry(1, "A"), entry(1, "B"), entry(300, "C")],
    );
    assert_eq!(r.err(), Some(EnumTableErr::DuplicateLiteral(1)));
}

#[test]
fn literals_travel_in_their_wire_type() {
    for (repr, literal, bytes) in [
        (Repr::Byte, 0x2a, vec![0x2au8]),
        (Repr::Byte, 0x12a, vec![0x2a]),
        (Repr::VarInt, 128, vec![0x80, 0x01]),
        (Repr::Int, 128, vec![0, 0, 0, 0x80]),
    ] {
        let mut sink = BytesSerializer::new();
        write_literal(repr, literal, &mut sink).unwrap();
        assert_eq!(sink.into_bytes(), bytes);
    }
    assert_eq!(read_literal(Repr::Byte, &[0xff]).unwrap().value, 255);
    assert_eq!(read_literal(Repr::VarInt, &[0xff, 0x01]).unwrap().value, 255);
    assert_eq!(read_literal(Repr::Int, &[0xff, 0xff, 0xff, 0x01]).unwrap().value, -255);
}
