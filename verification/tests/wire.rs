use mcproto::text::{decimal_string, hex_string};
use mcproto::varint::{read_varnum, write_varnum};
use mcproto::wire::{to_signed, to_unsigned};
use mcproto::{
    BytesSerializer, Deserialize, DeserializeErr, RawSink, Serialize, SerializeErr,
    SerializeResult, Serializer, SinkSerializer, VarInt,
};

struct FullSink {
    room: usize,
    taken: Vec<u8>,
}

impl RawSink for FullSink {
    fn accept(&mut self, data: &[u8]) -> SerializeResult {
        if data.len() > self.room {
            return Err(SerializeErr::SinkFailed);
        }
        self.room -= data.len();
        self.taken.extend_from_slice(data);
        Ok(())
    }
}

fn sink_with_room(room: usize) -> SinkSerializer<FullSink> {
    SinkSerializer::new(FullSink { room, taken: Vec::new() })
}

fn wire_of<T: Serialize>(value: &T) -> Vec<u8> {
    let mut sink = BytesSerializer::new();
    value.mc_serialize(&mut sink).unwrap();
    sink.into_bytes()
}

#[test]
fn byte_travels_as_itself() {
    assert_eq!(wire_of(&0x7fu8), vec![0x7f]);
    let data = [0x7fu8, 0x01];
    let d = u8::mc_deserialize(&data).unwrap();
    assert_eq!(d.value, 0x7f);
    assert_eq!(d.data, &[0x01u8][..]);
    let empty: [u8; 0] = [];
    assert_eq!(u8::mc_deserialize(&empty).err(), Some(DeserializeErr::Eof));
}

#[test]
fn int_travels_most_significant_byte_first() {
    assert_eq!(wire_of(&0x0102_0304i32), vec![1, 2, 3, 4]);
    assert_eq!(wire_of(&0i32), vec![0, 0, 0, 0]);
    assert_eq!(wire_of(&-1i32), vec![0xff, 0xff, 0xff, 0xff]);
    assert_eq!(wire_of(&-2i32), vec![0xff, 0xff, 0xff, 0xfe]);
    assert_eq!(wire_of(&i32::MIN), vec![0x80, 0, 0, 0]);
    assert_eq!(wire_of(&i32::MAX), vec![0x7f, 0xff, 0xff, 0xff]);
}

#[test]
fn int_is_read_back() {
    let data = [0xffu8, 0xff, 0xff, 0xfe, 0x09];
    let d = i32::mc_deserialize(&data).unwrap();
    assert_eq!(d.value, -2);
    assert_eq!(d.data, &[0x09u8][..]);
    for v in [0i32, 1, -1, 256, 65536, 0x0102_0304, i32::MIN, i32::MAX] {
        let bytes = wire_of(&v);
        let d = i32::mc_deserialize(&bytes).unwrap();
        assert_eq!(d.value, v);
        assert!(d.data.is_empty());
    }
}

#[test]
fn short_int_is_out_of_data() {
    for n in 0..4usize {
        let data = [1u8, 2, 3, 4];
        assert_eq!(i32::mc_deserialize(&data[..n]).err(), Some(DeserializeErr::Eof));
    }
}

#[test]
fn signed_and_unsigned_share_their_bits() {
    assert_eq!(to_unsigned(0), 0);
    assert_eq!(to_unsigned(-1), 0xffff_ffff);
    assert_eq!(to_unsigned(i32::MIN), 0x8000_0000);
    assert_eq!(to_signed(0xffff_ffff), -1);
    assert_eq!(to_signed(0x7fff_ffff), i32::MAX);
    assert_eq!(to_signed(0x8000_0000), i32::MIN);
}

#[test]
fn varint_takes_seven_bits_to_a_byte() {
    assert_eq!(wire_of(&VarInt(0)), vec![0x00]);
    assert_eq!(wire_of(&VarInt(1)), vec![0x01]);
    assert_eq!(wire_of(&VarInt(127)), vec![0x7f]);
    assert_eq!(wire_of(&VarInt(128)), vec![0x80, 0x01]);
    assert_eq!(wire_of(&VarInt(255)), vec![0xff, 0x01]);
    assert_eq!(wire_of(&VarInt(300)), vec![0xac, 0x02]);
    assert_eq!(wire_of(&VarInt(25565)), vec![0xdd, 0xc7, 0x01]);
    assert_eq!(wire_of(&VarInt(2097151)), vec![0xff, 0xff, 0x7f]);
    assert_eq!(wire_of(&VarInt(i32::MAX)), vec![0xff, 0xff, 0xff, 0xff, 0x07]);
    assert_eq!(wire_of(&VarInt(-1)), vec![0xff, 0xff, 0xff, 0xff, 0x0f]);
    assert_eq!(wire_of(&VarInt(i32::MIN)), vec![0x80, 0x80, 0x80, 0x80, 0x08]);
}

#[test]
fn varint_is_read_back() {
    for v in [0, 1, 127, 128, 255, 300, 25565, 2097151, i32::MAX, -1, -300, i32::MIN] {
        let mut bytes = wire_of(&VarInt(v));
        bytes.push(0x55);
        let d = VarInt::mc_deserialize(&bytes).unwrap();
        assert_eq!(d.value, VarInt(v));
        assert_eq!(d.data, &[0x55u8][..]);
    }
}

#[test]
fn varint_with_spare_groups_is_still_a_number() {
    let data = [0x80u8, 0x00, 0x07];
    let d = VarInt::mc_deserialize(&data).unwrap();
    assert_eq!(d.value, VarInt(0));
    assert_eq!(d.data, &[0x07u8][..]);
}

#[test]
fn varint_cut_short_is_out_of_data() {
    let empty: [u8; 0] = [];
    assert_eq!(VarInt::mc_deserialize(&empty).err(), Some(DeserializeErr::Eof));
    assert_eq!(VarInt::mc_deserialize(&[0x80]).err(), Some(DeserializeErr::Eof));
    assert_eq!(VarInt::mc_deserialize(&[0xff, 0xff, 0xff, 0xff]).err(), Some(DeserializeErr::Eof));
}

#[test]
fn varint_of_more_than_five_bytes_is_too_long() {
    let data = [0x80u8, 0x80, 0x80, 0x80, 0x80, 0x01];
    assert_eq!(VarInt::mc_deserialize(&data).err(), Some(DeserializeErr::VarNumTooLong));
    let data = [0xffu8, 0xff, 0xff, 0xff, 0xff];
    assert_eq!(VarInt::mc_deserialize(&data).err(), Some(DeserializeErr::VarNumTooLong));
}

#[test]
fn varnum_budget_bounds_the_bytes_read() {
    let data = [0x80u8, 0x01];
    assert_eq!(read_varnum(&data, 2).unwrap().0, 128);
    assert_eq!(read_varnum(&data, 1).err(), Some(DeserializeErr::VarNumTooLong));
    assert_eq!(read_varnum(&data, 0).err(), Some(DeserializeErr::VarNumTooLong));
    let data = [0xffu8, 0xff, 0xff, 0xff, 0x7f];
    assert_eq!(read_varnum(&data, 5).unwrap().0, 0x7_ffff_ffff);
    let mut sink = BytesSerializer::new();
    write_varnum(0xffff_ffff, &mut sink).unwrap();
    assert_eq!(sink.into_bytes(), vec![0xff, 0xff, 0xff, 0xff, 0x0f]);
}

#[test]
fn writing_appends_to_what_the_sink_holds() {
    let mut sink = BytesSerializer::new();
    sink.serialize_bytes(&[9, 8]).unwrap();
    sink.serialize_byte(7).unwrap();
    VarInt(300).mc_serialize(&mut sink).unwrap();
    1i32.mc_serialize(&mut sink).unwrap();
    assert_eq!(sink.into_bytes(), vec![9, 8, 7, 0xac, 0x02, 0, 0, 0, 1]);
}

#[test]
fn writing_fails_where_the_sink_does() {
    let mut sink = sink_with_room(1);
    assert_eq!(VarInt(300).mc_serialize(&mut sink), Err(SerializeErr::SinkFailed));
    let mut sink = sink_with_room(3);
    assert_eq!(1i32.mc_serialize(&mut sink), Err(SerializeErr::SinkFailed));
    let mut sink = sink_with_room(4);
    assert_eq!(1i32.mc_serialize(&mut sink), Ok(()));
    assert_eq!(sink.into_inner().taken, vec![0, 0, 0, 1]);
    let mut sink = sink_with_room(2);
    assert_eq!(sink.serialize_byte(1), Ok(()));
    assert_eq!(sink.serialize_bytes(&[2, 3]), Err(SerializeErr::SinkFailed));
    assert_eq!(sink.serialize_bytes(&[2]), Ok(()));
    assert_eq!(sink.into_inner().taken, vec![1, 2]);
}

#[test]
fn numbers_are_shown_in_decimal() {
    assert_eq!(decimal_string(0), "0");
    assert_eq!(decimal_string(7), "7");
    assert_eq!(decimal_string(10), "10");
    assert_eq!(decimal_string(-1), "-1");
    assert_eq!(decimal_string(1234567890), "1234567890");
    assert_eq!(decimal_string(i32::MAX), "2147483647");
    assert_eq!(decimal_string(i32::MIN), "-2147483648");
}

#[test]
fn numbers_are_shown_in_hexadecimal_of_two_digits_or_more() {
    assert_eq!(hex_string(0), "00");
    assert_eq!(hex_string(0x0a), "0a");
    assert_eq!(hex_string(0x10), "10");
    assert_eq!(hex_string(0xff), "ff");
    assert_eq!(hex_string(0x100), "100");
    assert_eq!(hex_string(0xdead_beef), "deadbeef");
    assert_eq!(hex_string(u32::MAX), "ffffffff");
}

#[test]
fn answer_of_the_raw_sink_is_passed_on() {
    let mut sink = sink_with_room(8);
    assert_eq!(sink.settle(&[1, 2], Ok(())), Ok(()));
    assert_eq!(sink.settle(&[3], Err(SerializeErr::SinkFailed)), Err(SerializeErr::SinkFailed));
    let raw = sink.into_inner();
    assert_eq!(raw.room, 8);
    assert!(raw.taken.is_empty());
}

#[test]
fn refused_bytes_do_not_reach_the_raw_sink_twice() {
    let mut sink = sink_with_room(2);
    assert_eq!(sink.serialize_bytes(&[1, 2, 3]), Err(SerializeErr::SinkFailed));
    assert_eq!(sink.serialize_byte(9), Ok(()));
    assert_eq!(sink.serialize_byte(8), Ok(()));
    assert_eq!(sink.serialize_byte(7), Err(SerializeErr::SinkFailed));
    assert_eq!(sink.into_inner().taken, vec![9, 8]);
}
