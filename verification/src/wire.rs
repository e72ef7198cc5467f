//! The wire codec contract: what it means to write a value to a sink of
//! bytes and to read one back from a buffer.

use vstd::prelude::*;
use vstd::slice::slice_subrange;

verus! {

/// Why a value could not be written.
#[derive(Debug, Clone, Copy, PartialEq, Eq, Structural)]
pub enum SerializeErr {
    /// The sink did not take the bytes.
    SinkFailed,
}

pub type SerializeResult = Result<(), SerializeErr>;

/// Why a buffer could not be read as a value.
#[derive(Debug, Clone, PartialEq, Eq)]
pub enum DeserializeErr {
    /// The buffer ended before the value did.
    Eof,
    /// A variable-length number went on past its longest legal encoding.
    VarNumTooLong,
    /// The bytes were read, but stand for no value of the type.
    CannotUnderstandValue(String),
}

/// The mathematical form of a [`DeserializeErr`].
pub enum Malformed {
    Eof,
    VarNumTooLong,
    CannotUnderstandValue(Seq<char>),
}

impl View for DeserializeErr {
    type V = Malformed;

    open spec fn view(&self) -> Malformed {
        match self {
            DeserializeErr::Eof => Malformed::Eof,
            DeserializeErr::VarNumTooLong => Malformed::VarNumTooLong,
            DeserializeErr::CannotUnderstandValue(text) => Malformed::CannotUnderstandValue(text@),
        }
    }
}

/// A value that was read, and the bytes that follow it in the buffer.
#[derive(Debug, Clone, PartialEq)]
pub struct Deserialized<'a, T> {
    pub value: T,
    pub data: &'a [u8],
}

pub type DeserializeResult<'a, T> = Result<Deserialized<'a, T>, DeserializeErr>;

/// What reading a buffer comes to: the value's model and the bytes left
/// over, or the reason for the failure.
pub type Parsed<V> = Result<(V, Seq<u8>), Malformed>;

/// `r` is the executable form of the outcome `expected`.
pub open spec fn reads<T: View>(r: DeserializeResult<'_, T>, expected: Parsed<T::V>) -> bool {
    match r {
        Ok(d) => expected == Ok::<(T::V, Seq<u8>), Malformed>((d.value@, d.data@)),
        Err(e) => expected == Err::<(T::V, Seq<u8>), Malformed>(e@),
    }
}

/// What stands at the front of `b` stands at the front of everything
/// that `b` stands at the front of.
pub proof fn lemma_prefix_chain(a: Seq<u8>, b: Seq<u8>, c: Seq<u8>)
    requires
        a.is_prefix_of(b),
        b.is_prefix_of(c),
    ensures
        a.is_prefix_of(c),
{
    assert(a =~= c.subrange(0, a.len() as int));
}

/// A sequence stands at the front of itself with more behind it.
pub proof fn lemma_prefix_of_longer(a: Seq<u8>, more: Seq<u8>)
    ensures
        a.is_prefix_of(a + more),
        a.is_prefix_of(a),
{
    assert(a =~= (a + more).subrange(0, a.len() as int));
    assert(a =~= a.subrange(0, a.len() as int));
}

/// A sink of bytes.
pub trait Serializer: Sized {
    /// Everything the sink has taken so far.
    spec fn written(&self) -> Seq<u8>;

    /// Whether the sink takes whatever it is given. One that does keeps
    /// doing so.
    spec fn reliable(&self) -> bool;

    /// Hands the bytes to the sink. Whether or not it takes them, it
    /// keeps what it took before.
    fn serialize_bytes(&mut self, data: &[u8]) -> (r: SerializeResult)
        ensures
            r is Ok ==> final(self).written() == old(self).written() + data@,
            old(self).reliable() ==> r is Ok && final(self).reliable(),
            old(self).written().is_prefix_of(final(self).written()),
    ;

    fn serialize_byte(&mut self, byte: u8) -> (r: SerializeResult)
        ensures
            r is Ok ==> final(self).written() == old(self).written().push(byte),
            old(self).reliable() ==> r is Ok && final(self).reliable(),
            old(self).written().is_prefix_of(final(self).written()),
    ;
}

/// A sink in memory. It never fails.
pub struct BytesSerializer {
    pub data: Vec<u8>,
}

impl BytesSerializer {
    pub fn new() -> (r: Self)
        ensures
            r.data@ == Seq::<u8>::empty(),
    {
        BytesSerializer { data: Vec::new() }
    }

    pub fn into_bytes(self) -> (r: Vec<u8>)
        ensures
            r@ == self.written(),
    {
        self.data
    }
}

impl Serializer for BytesSerializer {
    open spec fn written(&self) -> Seq<u8> {
        self.data@
    }

    open spec fn reliable(&self) -> bool {
        true
    }

    fn serialize_bytes(&mut self, data: &[u8]) -> (r: SerializeResult) {
        self.data.extend_from_slice(data);
        proof {
            lemma_prefix_of_longer(old(self).data@, data@);
        }
        Ok(())
    }

    fn serialize_byte(&mut self, byte: u8) -> (r: SerializeResult) {
        self.data.push(byte);
        proof {
            lemma_prefix_of_longer(old(self).data@, seq![byte]);
            assert(old(self).data@.push(byte) =~= old(self).data@ + seq![byte]);
        }
        Ok(())
    }
}

/// Something that takes bytes and may refuse them: a file, a socket, a
/// buffer of fixed size. Nothing is known of it but what it answers.
pub trait RawSink {
    fn accept(&mut self, data: &[u8]) -> SerializeResult;
}

/// A sink on top of a [`RawSink`]. It keeps account of what the raw sink
/// took, and fails as soon as the raw sink refuses.
pub struct SinkSerializer<W> {
    pub sink: W,
    pub taken: Ghost<Seq<u8>>,
}

impl<W: RawSink> SinkSerializer<W> {
    pub fn new(sink: W) -> (r: Self)
        ensures
            r.written() == Seq::<u8>::empty(),
    {
        SinkSerializer { sink, taken: Ghost(Seq::empty()) }
    }

    /// Gives the raw sink back.
    pub fn into_inner(self) -> (r: W)
        ensures
            r == self.sink,
    {
        self.sink
    }

    /// Takes down what the raw sink answered when it was handed `data`:
    /// bytes that it took are added to the account, bytes that it refused
    /// are not, and its answer is passed on.
    pub fn settle(&mut self, data: &[u8], answer: SerializeResult) -> (r: SerializeResult)
        ensures
            r == answer,
            final(self).sink == old(self).sink,
            final(self).written() == if answer is Ok {
                old(self).written() + data@
            } else {
                old(self).written()
            },
    {
        if answer.is_ok() {
            proof {
                self.taken@ = self.taken@ + data@;
            }
        }
        answer
    }
}

impl<W: RawSink> Serializer for SinkSerializer<W> {
    open spec fn written(&self) -> Seq<u8> {
        self.taken@
    }

    open spec fn reliable(&self) -> bool {
        false
    }

    /// Hands `data` to the raw sink, once and as it is. The raw sink
    /// decides; bytes that it refused are not taken into the account.
    fn serialize_bytes(&mut self, data: &[u8]) -> (r: SerializeResult)
        ensures
            r is Err ==> final(self).written() == old(self).written(),
    {
        proof {
            lemma_prefix_of_longer(self.taken@, data@);
        }
        let answer = self.sink.accept(data);
        self.settle(data, answer)
    }

    /// Hands the one byte to the raw sink, as [`Self::serialize_bytes`]
    /// does.
    fn serialize_byte(&mut self, byte: u8) -> (r: SerializeResult)
        ensures
            r is Err ==> final(self).written() == old(self).written(),
    {
        let one: [u8; 1] = [byte];
        let r = self.serialize_bytes(one.as_slice());
        proof {
            assert(one@ =~= seq![byte]);
            assert(old(self).written() + one@ =~= old(self).written().push(byte));
        }
        r
    }
}

/// A value that has a wire format.
pub trait Serialize: View {
    /// The bytes that stand for the value.
    spec fn wire(v: Self::V) -> Seq<u8>;

    /// Appends the value's wire format to the sink. Fails only where the
    /// sink does, and then the sink still holds what it held before.
    fn mc_serialize<S: Serializer>(&self, to: &mut S) -> (r: SerializeResult)
        ensures
            r is Ok ==> final(to).written() == old(to).written() + Self::wire(self@),
            old(to).reliable() ==> r is Ok && final(to).reliable(),
            old(to).written().is_prefix_of(final(to).written()),
    ;
}

/// A value that can be read from the front of a buffer.
pub trait Deserialize: Sized + View {
    /// What reading `data` comes to.
    spec fn parse(data: Seq<u8>) -> Parsed<Self::V>;

    fn mc_deserialize(data: &[u8]) -> (r: DeserializeResult<'_, Self>)
        ensures
            reads(r, Self::parse(data@)),
    ;
}

/// A type that can be written and read back: reading what was written gives
/// the value again, and nothing else of the buffer is touched.
pub trait ProtocolType: Serialize + Deserialize {
    /// The values that the wire format can carry.
    spec fn legal(v: Self::V) -> bool;

    /// Reading the wire format of a legal value, whatever follows it, gives
    /// the value and leaves what follows.
    proof fn round_trip(v: Self::V, rest: Seq<u8>)
        requires
            Self::legal(v),
        ensures
            Self::parse(Self::wire(v) + rest) == Ok::<(Self::V, Seq<u8>), Malformed>((v, rest)),
    ;

    /// A wire format that was cut short is reported as such.
    proof fn cut_short(v: Self::V, n: int)
        requires
            Self::legal(v),
            0 <= n < Self::wire(v).len(),
        ensures
            Self::parse(Self::wire(v).take(n)) == Err::<(Self::V, Seq<u8>), Malformed>(
                Malformed::Eof,
            ),
    ;

    /// What a read leaves over is the end of the buffer it was given.
    proof fn leaves_suffix(data: Seq<u8>)
        ensures
            Self::parse(data) matches Ok((v, rest)) ==> is_suffix(rest, data),
    ;
}

/// `rest` is what remains of `data` after some bytes at its front.
pub open spec fn is_suffix(rest: Seq<u8>, data: Seq<u8>) -> bool {
    rest.len() <= data.len() && rest == data.skip(data.len() - rest.len())
}

pub proof fn lemma_suffix_of_suffix(a: Seq<u8>, b: Seq<u8>, c: Seq<u8>)
    requires
        is_suffix(a, b),
        is_suffix(b, c),
    ensures
        is_suffix(a, c),
{
    assert(a =~= c.skip(c.len() - a.len()));
}

impl Serialize for u8 {
    open spec fn wire(v: u8) -> Seq<u8> {
        seq![v]
    }

    fn mc_serialize<S: Serializer>(&self, to: &mut S) -> (r: SerializeResult) {
        let r = to.serialize_byte(*self);
        proof {
            assert(old(to).written().push(*self) =~= old(to).written() + seq![*self]);
        }
        r
    }
}

impl Deserialize for u8 {
    open spec fn parse(data: Seq<u8>) -> Parsed<u8> {
        if data.len() == 0 {
            Err(Malformed::Eof)
        } else {
            Ok((data[0], data.skip(1)))
        }
    }

    fn mc_deserialize(data: &[u8]) -> (r: DeserializeResult<'_, Self>) {
        if data.len() == 0 {
            Err(DeserializeErr::Eof)
        } else {
            Ok(Deserialized { value: data[0], data: slice_subrange(data, 1, data.len()) })
        }
    }
}

impl ProtocolType for u8 {
    open spec fn legal(v: u8) -> bool {
        true
    }

    proof fn round_trip(v: u8, rest: Seq<u8>) {
        assert((seq![v] + rest).skip(1) =~= rest);
    }

    proof fn cut_short(v: u8, n: int) {
    }

    proof fn leaves_suffix(data: Seq<u8>) {
    }
}

/// The number whose 32 bits are those of `v`.
pub open spec fn unsigned(v: i32) -> int {
    if v >= 0 {
        v as int
    } else {
        v + 0x1_0000_0000
    }
}

/// The inverse of [`unsigned`], on numbers below 2^32.
pub open spec fn signed(u: int) -> i32 {
    if u < 0x8000_0000 {
        u as i32
    } else {
        (u - 0x1_0000_0000) as i32
    }
}

pub fn to_unsigned(v: i32) -> (u: u32)
    ensures
        u == unsigned(v),
{
    if v >= 0 {
        v as u32
    } else {
        (v as i64 + 0x1_0000_0000i64) as u32
    }
}

pub fn to_signed(u: u32) -> (v: i32)
    ensures
        v == signed(u as int),
        unsigned(v) == u,
{
    if u < 0x8000_0000u32 {
        u as i32
    } else {
        (u as i64 - 0x1_0000_0000i64) as i32
    }
}

/// The four bytes of a number below 2^32, the most significant first.
pub open spec fn big_endian(u: int) -> Seq<u8> {
    seq![
        (u / 0x100_0000) as u8,
        (u / 0x1_0000 % 0x100) as u8,
        (u / 0x100 % 0x100) as u8,
        (u % 0x100) as u8,
    ]
}

/// The number that four bytes stand for, the most significant first.
pub open spec fn from_big_endian(b: Seq<u8>) -> int {
    b[0] * 0x100_0000 + b[1] * 0x1_0000 + b[2] * 0x100 + b[3]
}

/// Four bytes stand for the number that they were made from.
pub proof fn lemma_big_endian_inverse(u: int)
    requires
        0 <= u < 0x1_0000_0000,
    ensures
        from_big_endian(big_endian(u)) == u,
{
    let b0 = u / 0x100_0000;
    let r0 = u % 0x100_0000;
    let b1 = r0 / 0x1_0000;
    let r1 = r0 % 0x1_0000;
    let b2 = r1 / 0x100;
    let b3 = r1 % 0x100;
    assert(u == b0 * 0x100_0000 + b1 * 0x1_0000 + b2 * 0x100 + b3);
    assert(u / 0x1_0000 == b0 * 0x100 + b1);
    assert(u / 0x100 == b0 * 0x1_0000 + b1 * 0x100 + b2);
    assert(u / 0x1_0000 % 0x100 == b1);
    assert(u / 0x100 % 0x100 == b2);
    assert(u % 0x100 == b3);
    let bytes = big_endian(u);
    assert(bytes[0] == b0 && bytes[1] == b1 && bytes[2] == b2 && bytes[3] == b3);
}

impl Serialize for i32 {
    open spec fn wire(v: i32) -> Seq<u8> {
        big_endian(unsigned(v))
    }

    fn mc_serialize<S: Serializer>(&self, to: &mut S) -> (r: SerializeResult) {
        let u: u32 = to_unsigned(*self);
        let bytes: [u8; 4] = [
            (u / 0x100_0000) as u8,
            (u / 0x1_0000 % 0x100) as u8,
            (u / 0x100 % 0x100) as u8,
            (u % 0x100) as u8,
        ];
        let r = to.serialize_bytes(bytes.as_slice());
        proof {
            assert(bytes@ =~= big_endian(unsigned(*self)));
        }
        r
    }
}

impl Deserialize for i32 {
    open spec fn parse(data: Seq<u8>) -> Parsed<i32> {
        if data.len() < 4 {
            Err(Malformed::Eof)
        } else {
            Ok((signed(from_big_endian(data)), data.skip(4)))
        }
    }

    fn mc_deserialize(data: &[u8]) -> (r: DeserializeResult<'_, Self>) {
        if data.len() < 4 {
            Err(DeserializeErr::Eof)
        } else {
            let u: u32 = (data[0] as u32) * 0x100_0000 + (data[1] as u32) * 0x1_0000 + (
            data[2] as u32) * 0x100 + (data[3] as u32);
            Ok(Deserialized { value: to_signed(u), data: slice_subrange(data, 4, data.len()) })
        }
    }
}

impl ProtocolType for i32 {
    open spec fn legal(v: i32) -> bool {
        true
    }

    proof fn round_trip(v: i32, rest: Seq<u8>) {
        let bytes = big_endian(unsigned(v));
        let data = bytes + rest;
        assert(data.skip(4) =~= rest);
        assert(data[0] == bytes[0] && data[1] == bytes[1] && data[2] == bytes[2] && data[3]
            == bytes[3]);
        lemma_big_endian_inverse(unsigned(v));
    }

    proof fn cut_short(v: i32, n: int) {
    }

    proof fn leaves_suffix(data: Seq<u8>) {
    }
}

} // verus!
