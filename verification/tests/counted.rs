use mcproto::random::{byte_from, int_from, length_from, RANDOM_LENGTH_LIMIT};
use mcproto::{
    BytesSerializer, ByteFlags, CountedArray, Counter, Deserialize, DeserializeErr, Serialize,
    TestRandom, VarInt,
};

fn wire_of<T: Serialize>(value: &T) -> Vec<u8> {
    let mut sink = BytesSerializer::new();
    value.mc_serialize(&mut sink).unwrap();
    sink.into_bytes()
}

#[test]
fn sequence_travels_behind_its_count() {
    let seq = CountedArray::<VarInt, u8>::new(vec![1, 2, 3]);
    assert_eq!(wire_of(&seq), vec![3, 1, 2, 3]);
    let seq = CountedArray::<u8, i32>::from(vec![1, -1]);
    assert_eq!(wire_of(&seq), vec![2, 0, 0, 0, 1, 0xff, 0xff, 0xff, 0xff]);
    let seq = CountedArray::<VarInt, VarInt>::new(vec![]);
    assert_eq!(wire_of(&seq), vec![0]);
}

#[test]
fn sequence_comes_back_in_its_length() {
    for n in [0usize, 1, 2, 127, 128, 255, 256, 1000] {
        let data: Vec<u8> = (0..n).map(|i| (i % 251) as u8).collect();
        let seq = CountedArray::<VarInt, u8>::new(data.clone());
        let mut bytes = wire_of(&seq);
        bytes.push(0x99);
        let d = CountedArray::<VarInt, u8>::mc_deserialize(&bytes).unwrap();
        assert_eq!(d.value.data.len(), n);
        assert_eq!(d.value.data, data);
        assert_eq!(d.data, &[0x99u8][..]);
        assert_eq!(d.value.into_vec(), data);
    }
}

#[test]
fn sequence_cut_short_is_out_of_data() {
    let seq = CountedArray::<VarInt, i32>::new(vec![10, 20, 30]);
    let bytes = wire_of(&seq);
    assert_eq!(bytes.len(), 13);
    for n in 0..bytes.len() {
        let r = CountedArray::<VarInt, i32>::mc_deserialize(&bytes[..n]);
        assert_eq!(r.err(), Some(DeserializeErr::Eof));
    }
    assert!(CountedArray::<VarInt, i32>::mc_deserialize(&bytes).is_ok());
}

#[test]
fn failing_element_fails_the_sequence() {
    let bytes = [2u8, 0x01, 0x80, 0x80, 0x80, 0x80, 0x80, 0x01];
    let r = CountedArray::<u8, VarInt>::mc_deserialize(&bytes);
    assert_eq!(r.err(), Some(DeserializeErr::VarNumTooLong));
}

#[test]
fn byte_counter_carries_lengths_up_to_255() {
    let seq = CountedArray::<u8, u8>::new(vec![7; 255]);
    let bytes = wire_of(&seq);
    assert_eq!(bytes[0], 255);
    let d = CountedArray::<u8, u8>::mc_deserialize(&bytes).unwrap();
    assert_eq!(d.value.data.len(), 255);
    let seq = CountedArray::<u8, u8>::new(vec![7; 300]);
    let bytes = wire_of(&seq);
    assert_eq!(bytes.len(), 301);
    assert_eq!(bytes[0], 44);
    let d = CountedArray::<u8, u8>::mc_deserialize(&bytes).unwrap();
    assert_eq!(d.value.data.len(), 44);
    assert_eq!(d.data.len(), 256);
}

#[test]
fn counters_convert_to_and_from_counts() {
    assert_eq!(<u8 as Counter>::from_count(0), 0);
    assert_eq!(<u8 as Counter>::from_count(255), 255);
    assert_eq!(<u8 as Counter>::from_count(256), 0);
    assert_eq!(200u8.to_count(), 200);
    assert_eq!(<VarInt as Counter>::from_count(0), VarInt(0));
    assert_eq!(<VarInt as Counter>::from_count(0x7fff_ffff), VarInt(i32::MAX));
    assert_eq!(<VarInt as Counter>::from_count(0x8000_0000), VarInt(i32::MIN));
    assert_eq!(<VarInt as Counter>::from_count(0xffff_ffff), VarInt(-1));
    assert_eq!(VarInt(5).to_count(), 5);
    assert_eq!(VarInt(i32::MAX).to_count(), 0x7fff_ffff);
    assert_eq!(VarInt(-1).to_count(), usize::MAX);
    assert_eq!(VarInt(i32::MIN).to_count(), usize::MAX - 0x7fff_ffff);
}

#[test]
fn negative_count_runs_out_of_data() {
    let mut bytes = wire_of(&VarInt(-1));
    bytes.extend_from_slice(&[1, 2, 3]);
    let r = CountedArray::<VarInt, u8>::mc_deserialize(&bytes);
    assert_eq!(r.err(), Some(DeserializeErr::Eof));
}

#[test]
fn sequences_nest() {
    let inner = |v: Vec<i32>| CountedArray::<VarInt, i32>::new(v);
    let seq = CountedArray::<u8, CountedArray<VarInt, i32>>::new(vec![
        inner(vec![1]),
        inner(vec![]),
        inner(vec![2, 3]),
    ]);
    let bytes = wire_of(&seq);
    assert_eq!(bytes, vec![3, 1, 0, 0, 0, 1, 0, 2, 0, 0, 0, 2, 0, 0, 0, 3]);
    let d = CountedArray::<u8, CountedArray<VarInt, i32>>::mc_deserialize(&bytes).unwrap();
    assert_eq!(d.value, seq);
    assert!(d.data.is_empty());
    let copy = seq.clone();
    assert_eq!(copy, seq);
}

#[test]
fn sequences_of_flags_travel() {
    let seq = CountedArray::<VarInt, ByteFlags>::new(vec![ByteFlags(0x81), ByteFlags(0)]);
    let bytes = wire_of(&seq);
    assert_eq!(bytes, vec![2, 0x81, 0]);
    let d = CountedArray::<VarInt, ByteFlags>::mc_deserialize(&bytes).unwrap();
    assert_eq!(d.value, seq);
}

#[test]
fn made_up_sequences_are_short_and_come_back() {
    for _ in 0..50 {
        let seq = CountedArray::<VarInt, i32>::test_gen_random();
        assert!(seq.data.len() < RANDOM_LENGTH_LIMIT);
        let bytes = wire_of(&seq);
        let d = CountedArray::<VarInt, i32>::mc_deserialize(&bytes).unwrap();
        assert_eq!(d.value, seq);
        assert!(d.data.is_empty());
    }
    let nested = CountedArray::<u8, CountedArray<VarInt, VarInt>>::test_gen_random();
    let bytes = wire_of(&nested);
    let d = CountedArray::<u8, CountedArray<VarInt, VarInt>>::mc_deserialize(&bytes).unwrap();
    assert_eq!(d.value, nested);
}

#[test]
fn drawn_numbers_are_cut_to_size() {
    assert_eq!(byte_from(0), 0);
    assert_eq!(byte_from(0x1ff), 0xff);
    assert_eq!(byte_from(256), 0);
    assert_eq!(int_from(0), 0);
    assert_eq!(int_from(0x7fff_ffff), i32::MAX);
    assert_eq!(int_from(0xffff_ffff), -1);
    assert_eq!(int_from(0x8000_0000), i32::MIN);
    assert_eq!(length_from(0), 0);
    assert_eq!(length_from(31), 31);
    assert_eq!(length_from(32), 0);
    assert_eq!(length_from(100), 4);
    assert_eq!(RANDOM_LENGTH_LIMIT, 32);
    let _ = u8::test_gen_random();
    let _ = i32::test_gen_random();
    let _ = VarInt::test_gen_random();
}
