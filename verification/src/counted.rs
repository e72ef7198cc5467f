//! Sequences that travel behind a count of their elements.

use crate::varint::VarInt;
use crate::wire::{
    is_suffix, lemma_prefix_chain, lemma_suffix_of_suffix, signed, to_signed, Deserialize,
    DeserializeResult,
    Deserialized,
    Malformed, Parsed, ProtocolType, Serialize, SerializeResult, Serializer,
};
use std::marker::PhantomData;
use vstd::prelude::*;

verus! {

/// A wire type that can carry the length of a sequence.
pub trait Counter: ProtocolType {
    /// The number of elements that a counter announces.
    spec fn count_of(c: Self::V) -> nat;

    /// The counter written for a sequence of `n` elements.
    spec fn of_count(n: nat) -> Self::V;

    /// The longest sequence whose length the counter carries unchanged.
    spec fn max_count() -> nat;

    fn to_count(&self) -> (n: usize)
        ensures
            n == Self::count_of(self@),
    ;

    fn from_count(n: usize) -> (c: Self)
        ensures
            c@ == Self::of_count(n as nat),
    ;

    /// Lengths up to [`Self::max_count`] survive the way into a counter
    /// and back.
    proof fn count_survives(n: nat)
        requires
            n <= Self::max_count(),
        ensures
            Self::legal(Self::of_count(n)),
            Self::count_of(Self::of_count(n)) == n,
    ;

    /// A counter carries at least the lengths that one byte can hold.
    proof fn carries_a_byte()
        ensures
            Self::max_count() >= 0xff,
    ;
}

impl Counter for u8 {
    open spec fn count_of(c: u8) -> nat {
        c as nat
    }

    open spec fn of_count(n: nat) -> u8 {
        (n % 0x100) as u8
    }

    open spec fn max_count() -> nat {
        0xff
    }

    fn to_count(&self) -> (n: usize) {
        *self as usize
    }

    fn from_count(n: usize) -> (c: Self) {
        (n % 0x100) as u8
    }

    proof fn count_survives(n: nat) {
    }

    proof fn carries_a_byte() {
    }
}

impl Counter for VarInt {
    /// A negative counter announces what its bits say when read without a
    /// sign, in the width of `usize`.
    open spec fn count_of(c: i32) -> nat {
        if c >= 0 {
            c as nat
        } else {
            (usize::MAX + 1 + c) as nat
        }
    }

    open spec fn of_count(n: nat) -> i32 {
        signed(n as int % 0x1_0000_0000)
    }

    open spec fn max_count() -> nat {
        0x7fff_ffff
    }

    fn to_count(&self) -> (n: usize) {
        if self.0 >= 0 {
            self.0 as usize
        } else {
            usize::MAX - ((-(self.0 + 1)) as usize)
        }
    }

    fn from_count(n: usize) -> (c: Self) {
        let low: u64 = (n as u64) % 0x1_0000_0000u64;
        VarInt(to_signed(low as u32))
    }

    proof fn count_survives(n: nat) {
    }

    proof fn carries_a_byte() {
    }
}

/// A sequence of `T` behind a counter of type `C`.
#[derive(Debug, PartialEq)]
pub struct CountedArray<C, T> {
    pub data: Vec<T>,
    pub counter: PhantomData<C>,
}

impl<C, T: Clone> Clone for CountedArray<C, T> {
    fn clone(&self) -> (r: Self)
        ensures
            r.data.len() == self.data.len(),
            forall|i: int|
                0 <= i < self.data.len() ==> cloned::<T>(
                    #[trigger] self.data[i],
                    r.data[i],
                ),
    {
        CountedArray { data: self.data.clone(), counter: PhantomData }
    }
}

impl<C, T: View> View for CountedArray<C, T> {
    type V = Seq<T::V>;

    open spec fn view(&self) -> Seq<T::V> {
        self.data@.map_values(|t: T| t@)
    }
}

/// The wire formats of `items`, one after the other.
pub open spec fn wire_all<T: Serialize>(items: Seq<T::V>) -> Seq<u8>
    decreases items.len(),
{
    if items.len() == 0 {
        Seq::<u8>::empty()
    } else {
        T::wire(items[0]) + wire_all::<T>(items.skip(1))
    }
}

/// Reads `n` values of `T`, each from what the one before it left.
pub open spec fn parse_n<T: Deserialize>(data: Seq<u8>, n: nat) -> Parsed<Seq<T::V>>
    decreases n,
{
    if n == 0 {
        Ok((Seq::<T::V>::empty(), data))
    } else {
        match T::parse(data) {
            Ok((first, rest)) => match parse_n::<T>(rest, (n - 1) as nat) {
                Ok((others, left)) => Ok((seq![first] + others, left)),
                Err(e) => Err(e),
            },
            Err(e) => Err(e),
        }
    }
}

pub proof fn lemma_wire_all_push<T: Serialize>(items: Seq<T::V>, last: T::V)
    ensures
        wire_all::<T>(items.push(last)) == wire_all::<T>(items) + T::wire(last),
    decreases items.len(),
{
    let all = items.push(last);
    if items.len() == 0 {
        assert(all.skip(1) =~= Seq::<T::V>::empty());
        assert(wire_all::<T>(all) =~= T::wire(last) + wire_all::<T>(all.skip(1)));
        assert(wire_all::<T>(all) =~= wire_all::<T>(items) + T::wire(last));
    } else {
        assert(all.skip(1) =~= items.skip(1).push(last));
        lemma_wire_all_push::<T>(items.skip(1), last);
        assert(wire_all::<T>(all) =~= wire_all::<T>(items) + T::wire(last));
    }
}

impl<C, T> CountedArray<C, T> {
    pub fn new(data: Vec<T>) -> (r: Self)
        ensures
            r.data == data,
    {
        CountedArray { data, counter: PhantomData }
    }

    pub fn into_vec(self) -> (r: Vec<T>)
        ensures
            r == self.data,
    {
        self.data
    }
}

impl<C, T> vstd::std_specs::convert::FromSpecImpl<Vec<T>> for CountedArray<C, T> {
    open spec fn obeys_from_spec() -> bool {
        true
    }

    open spec fn from_spec(data: Vec<T>) -> Self {
        CountedArray { data, counter: PhantomData }
    }
}

impl<C, T> From<Vec<T>> for CountedArray<C, T> {
    fn from(data: Vec<T>) -> (r: Self) {
        CountedArray { data, counter: PhantomData }
    }
}

impl<C: Counter, T: Serialize> Serialize for CountedArray<C, T> {
    open spec fn wire(v: Seq<T::V>) -> Seq<u8> {
        C::wire(C::of_count(v.len())) + wire_all::<T>(v)
    }

    fn mc_serialize<S: Serializer>(&self, to: &mut S) -> (r: SerializeResult) {
        let count = C::from_count(self.data.len());
        match count.mc_serialize(to) {
            Ok(()) => {},
            Err(e) => {
                return Err(e);
            },
        }
        let ghost head = old(to).written() + C::wire(count@);
        let mut i: usize = 0;
        while i < self.data.len()
            invariant
                i <= self.data.len(),
                to.written() == head + wire_all::<T>(self@.take(i as int)),
                old(to).reliable() ==> to.reliable(),
                old(to).written().is_prefix_of(to.written()),
            decreases self.data.len() - i,
        {
            let ghost before = to.written();
            let r = self.data[i].mc_serialize(to);
            proof {
                lemma_prefix_chain(old(to).written(), before, to.written());
            }
            match r {
                Ok(()) => {},
                Err(e) => {
                    return Err(e);
                },
            }
            proof {
                assert(self@.take(i + 1) =~= self@.take(i as int).push(self.data[i as int]@));
                lemma_wire_all_push::<T>(self@.take(i as int), self.data[i as int]@);
                assert(to.written() =~= head + wire_all::<T>(self@.take(i + 1)));
            }
            i += 1;
        }
        proof {
            assert(self@.take(i as int) =~= self@);
            assert(to.written() =~= old(to).written() + Self::wire(self@));
        }
        Ok(())
    }
}

impl<C: Counter, T: Deserialize> Deserialize for CountedArray<C, T> {
    open spec fn parse(data: Seq<u8>) -> Parsed<Seq<T::V>> {
        match C::parse(data) {
            Ok((count, rest)) => parse_n::<T>(rest, C::count_of(count)),
            Err(e) => Err(e),
        }
    }

    fn mc_deserialize(data: &[u8]) -> (r: DeserializeResult<'_, Self>) {
        let (count, mut cur) = match C::mc_deserialize(data) {
            Ok(d) => (d.value.to_count(), d.data),
            Err(e) => {
                return Err(e);
            },
        };
        let ghost whole = Self::parse(data@);
        let mut out: Vec<T> = Vec::new();
        let mut i: usize = 0;
        assert(out@.map_values(|t: T| t@) =~= Seq::<T::V>::empty());
        while i < count
            invariant
                i <= count,
                out.len() == i,
                whole == Self::parse(data@),
                whole == match parse_n::<T>(cur@, (count - i) as nat) {
                    Ok((others, left)) => Ok::<(Seq<T::V>, Seq<u8>), Malformed>(
                        (out@.map_values(|t: T| t@) + others, left),
                    ),
                    Err(e) => Err::<(Seq<T::V>, Seq<u8>), Malformed>(e),
                },
            decreases count - i,
        {
            let ghost so_far = out@.map_values(|t: T| t@);
            match T::mc_deserialize(cur) {
                Ok(d) => {
                    proof {
                        let next = out@.push(d.value).map_values(|t: T| t@);
                        assert(next =~= so_far + seq![d.value@]);
                        match parse_n::<T>(d.data@, (count - i - 1) as nat) {
                            Ok((others, left)) => {
                                assert(so_far + (seq![d.value@] + others) =~= next + others);
                            },
                            Err(_) => {},
                        }
                    }
                    cur = d.data;
                    out.push(d.value);
                },
                Err(e) => {
                    return Err(e);
                },
            }
            i += 1;
        }
        proof {
            assert(out@.map_values(|t: T| t@) + Seq::<T::V>::empty() =~= out@.map_values(
                |t: T| t@,
            ));
        }
        Ok(Deserialized { value: CountedArray { data: out, counter: PhantomData }, data: cur })
    }
}

/// Every one of `items` can travel.
pub open spec fn all_legal<T: ProtocolType>(items: Seq<T::V>) -> bool {
    forall|i: int| 0 <= i < items.len() ==> T::legal(#[trigger] items[i])
}

pub proof fn lemma_parse_n_round_trip<T: ProtocolType>(items: Seq<T::V>, rest: Seq<u8>)
    requires
        all_legal::<T>(items),
    ensures
        parse_n::<T>(wire_all::<T>(items) + rest, items.len()) == Ok::<
            (Seq<T::V>, Seq<u8>),
            Malformed,
        >((items, rest)),
    decreases items.len(),
{
    if items.len() == 0 {
        assert(wire_all::<T>(items) + rest =~= rest);
        assert(items =~= Seq::<T::V>::empty());
    } else {
        let tail = items.skip(1);
        let after = wire_all::<T>(tail) + rest;
        assert(wire_all::<T>(items) + rest =~= T::wire(items[0]) + after);
        T::round_trip(items[0], after);
        assert forall|i: int| 0 <= i < tail.len() implies T::legal(#[trigger] tail[i]) by {
            assert(tail[i] == items[i + 1]);
        }
        lemma_parse_n_round_trip::<T>(tail, rest);
        assert(seq![items[0]] + tail =~= items);
    }
}

pub proof fn lemma_parse_n_cut_short<T: ProtocolType>(items: Seq<T::V>, n: int)
    requires
        all_legal::<T>(items),
        0 <= n < wire_all::<T>(items).len(),
    ensures
        parse_n::<T>(wire_all::<T>(items).take(n), items.len()) == Err::<
            (Seq<T::V>, Seq<u8>),
            Malformed,
        >(Malformed::Eof),
    decreases items.len(),
{
    if items.len() == 0 {
    } else {
        let first = T::wire(items[0]);
        let tail = items.skip(1);
        let after = wire_all::<T>(tail);
        let cut = wire_all::<T>(items).take(n);
        if n < first.len() {
            assert(cut =~= first.take(n));
            T::cut_short(items[0], n);
        } else {
            let m = n - first.len();
            assert(cut =~= first + after.take(m));
            T::round_trip(items[0], after.take(m));
            assert forall|i: int| 0 <= i < tail.len() implies T::legal(#[trigger] tail[i]) by {
                assert(tail[i] == items[i + 1]);
            }
            lemma_parse_n_cut_short::<T>(tail, m);
        }
    }
}

pub proof fn lemma_parse_n_leaves_suffix<T: ProtocolType>(data: Seq<u8>, n: nat)
    ensures
        parse_n::<T>(data, n) matches Ok((items, rest)) ==> items.len() == n && is_suffix(
            rest,
            data,
        ),
    decreases n,
{
    if n == 0 {
        assert(data =~= data.skip(0));
    } else {
        T::leaves_suffix(data);
        match T::parse(data) {
            Ok((first, rest)) => {
                lemma_parse_n_leaves_suffix::<T>(rest, (n - 1) as nat);
                match parse_n::<T>(rest, (n - 1) as nat) {
                    Ok((others, left)) => {
                        lemma_suffix_of_suffix(left, rest, data);
                    },
                    Err(_) => {},
                }
            },
            Err(_) => {},
        }
    }
}

impl<C: Counter, T: ProtocolType> ProtocolType for CountedArray<C, T> {
    /// A sequence travels when its length fits the counter and each of its
    /// elements travels.
    open spec fn legal(v: Seq<T::V>) -> bool {
        v.len() <= C::max_count() && all_legal::<T>(v)
    }

    proof fn round_trip(v: Seq<T::V>, rest: Seq<u8>) {
        let count = C::of_count(v.len());
        C::count_survives(v.len());
        assert(Self::wire(v) + rest =~= C::wire(count) + (wire_all::<T>(v) + rest));
        C::round_trip(count, wire_all::<T>(v) + rest);
        lemma_parse_n_round_trip::<T>(v, rest);
    }

    proof fn cut_short(v: Seq<T::V>, n: int) {
        let count = C::of_count(v.len());
        let head = C::wire(count);
        C::count_survives(v.len());
        if n < head.len() {
            assert(Self::wire(v).take(n) =~= head.take(n));
            C::cut_short(count, n);
        } else {
            let m = n - head.len();
            assert(Self::wire(v).take(n) =~= head + wire_all::<T>(v).take(m));
            C::round_trip(count, wire_all::<T>(v).take(m));
            lemma_parse_n_cut_short::<T>(v, m);
        }
    }

    proof fn leaves_suffix(data: Seq<u8>) {
        C::leaves_suffix(data);
        match C::parse(data) {
            Ok((count, rest)) => {
                lemma_parse_n_leaves_suffix::<T>(rest, C::count_of(count));
                match parse_n::<T>(rest, C::count_of(count)) {
                    Ok((items, left)) => {
                        lemma_suffix_of_suffix(left, rest, data);
                    },
                    Err(_) => {},
                }
            },
            Err(_) => {},
        }
    }
}

/// A sequence whose length fits the counter is read back in its full
/// length, whatever follows it; and when its wire format stops anywhere
/// before its end, the read reports that the data ran out.
pub proof fn lemma_length_fidelity<C: Counter, T: ProtocolType>(
    v: Seq<T::V>,
    rest: Seq<u8>,
    n: int,
)
    requires
        v.len() <= C::max_count(),
        all_legal::<T>(v),
        0 <= n < CountedArray::<C, T>::wire(v).len(),
    ensures
        CountedArray::<C, T>::parse(CountedArray::<C, T>::wire(v) + rest) matches Ok((items, left))
            && items.len() == v.len() && left == rest,
        CountedArray::<C, T>::parse(CountedArray::<C, T>::wire(v).take(n)) == Err::<
            (Seq<T::V>, Seq<u8>),
            Malformed,
        >(Malformed::Eof),
{
    CountedArray::<C, T>::round_trip(v, rest);
    CountedArray::<C, T>::cut_short(v, n);
}

} // verus!
