//! Integers in a variable number of bytes: seven bits to a byte, the least
//! significant group first, the top bit of a byte set while more follow.

use crate::wire::{
    is_suffix, lemma_prefix_chain, signed, to_signed, to_unsigned, unsigned, Deserialize,
    DeserializeErr,
    DeserializeResult, Deserialized, Malformed, Parsed, ProtocolType, Serialize, SerializeResult,
    Serializer,
};
use vstd::prelude::*;
use vstd::slice::slice_subrange;

verus! {

/// A 32-bit integer that travels in one to five bytes.
#[derive(Debug, Clone, Copy, PartialEq, Eq, Structural)]
pub struct VarInt(pub i32);

impl View for VarInt {
    type V = i32;

    open spec fn view(&self) -> i32 {
        self.0
    }
}

/// The most bytes that a 32-bit number takes.
pub const VARINT_MAX_BYTES: u8 = 5;

/// The groups of seven bits of `u`, lowest first.
pub open spec fn varnum_wire(u: int) -> Seq<u8>
    decreases u,
{
    if u < 0x80 {
        seq![u as u8]
    } else {
        seq![(u % 0x80 + 0x80) as u8] + varnum_wire(u / 0x80)
    }
}

/// Reads groups of seven bits until one comes without the top bit, within
/// `budget` bytes.
pub open spec fn varnum_parse(data: Seq<u8>, budget: nat) -> Result<(int, Seq<u8>), Malformed>
    decreases budget,
{
    if budget == 0 {
        Err(Malformed::VarNumTooLong)
    } else if data.len() == 0 {
        Err(Malformed::Eof)
    } else if data[0] < 0x80 {
        Ok((data[0] as int, data.skip(1)))
    } else {
        match varnum_parse(data.skip(1), (budget - 1) as nat) {
            Ok((high, rest)) => Ok((data[0] - 0x80 + 0x80 * high, rest)),
            Err(e) => Err(e),
        }
    }
}

/// One more than the largest number that `budget` bytes can hold.
pub open spec fn varnum_limit(budget: nat) -> int
    decreases budget,
{
    if budget == 0 {
        1
    } else {
        0x80 * varnum_limit((budget - 1) as nat)
    }
}

proof fn lemma_limit_positive(budget: nat)
    ensures
        varnum_limit(budget) >= 1,
    decreases budget,
{
    if budget > 0 {
        lemma_limit_positive((budget - 1) as nat);
    }
}

pub proof fn lemma_varnum_round_trip(u: int, rest: Seq<u8>, budget: nat)
    requires
        0 <= u < varnum_limit(budget),
        budget >= 1,
    ensures
        varnum_parse(varnum_wire(u) + rest, budget) == Ok::<(int, Seq<u8>), Malformed>((u, rest)),
    decreases budget,
{
    let data = varnum_wire(u) + rest;
    if u < 0x80 {
        assert(data[0] == u);
        assert(data.skip(1) =~= rest);
    } else {
        let below = (budget - 1) as nat;
        assert(varnum_limit(budget) == 0x80 * varnum_limit(below));
        assert(varnum_limit(1) == 0x80) by {
            reveal_with_fuel(varnum_limit, 2);
        }
        assert(data[0] == u % 0x80 + 0x80);
        assert(data.skip(1) =~= varnum_wire(u / 0x80) + rest);
        lemma_varnum_round_trip(u / 0x80, rest, below);
    }
}

pub proof fn lemma_varnum_cut_short(u: int, n: int, budget: nat)
    requires
        0 <= u < varnum_limit(budget),
        budget >= 1,
        0 <= n < varnum_wire(u).len(),
    ensures
        varnum_parse(varnum_wire(u).take(n), budget) == Err::<(int, Seq<u8>), Malformed>(
            Malformed::Eof,
        ),
    decreases budget,
{
    let data = varnum_wire(u).take(n);
    if n == 0 {
    } else if u < 0x80 {
    } else {
        let below = (budget - 1) as nat;
        assert(varnum_limit(budget) == 0x80 * varnum_limit(below));
        assert(varnum_limit(1) == 0x80) by {
            reveal_with_fuel(varnum_limit, 2);
        }
        assert(data[0] == u % 0x80 + 0x80);
        assert(data.skip(1) =~= varnum_wire(u / 0x80).take(n - 1));
        lemma_varnum_cut_short(u / 0x80, n - 1, below);
    }
}

pub proof fn lemma_varnum_parse_bounds(data: Seq<u8>, budget: nat)
    ensures
        varnum_parse(data, budget) matches Ok((u, rest)) ==> 0 <= u < varnum_limit(budget)
            && is_suffix(rest, data) && rest.len() < data.len(),
    decreases budget,
{
    if budget == 0 || data.len() == 0 {
    } else {
        let below = (budget - 1) as nat;
        assert(varnum_limit(budget) == 0x80 * varnum_limit(below));
        lemma_limit_positive(below);
        if data[0] >= 0x80 {
            lemma_varnum_parse_bounds(data.skip(1), below);
            match varnum_parse(data.skip(1), below) {
                Ok((high, rest)) => {
                    assert(rest =~= data.skip(data.len() - rest.len()));
                },
                Err(_) => {},
            }
        }
    }
}

/// Writes a number below 2^32 in groups of seven bits.
pub fn write_varnum<S: Serializer>(u: u32, to: &mut S) -> (r: SerializeResult)
    ensures
        r is Ok ==> final(to).written() == old(to).written() + varnum_wire(u as int),
        old(to).reliable() ==> r is Ok && final(to).reliable(),
        old(to).written().is_prefix_of(final(to).written()),
    decreases u,
{
    if u < 0x80 {
        let r = to.serialize_byte(u as u8);
        proof {
            assert(old(to).written().push(u as u8) =~= old(to).written() + varnum_wire(u as int));
        }
        r
    } else {
        let low: u8 = (u % 0x80 + 0x80) as u8;
        match to.serialize_byte(low) {
            Ok(()) => {},
            Err(e) => {
                return Err(e);
            },
        }
        let ghost mid = to.written();
        let r = write_varnum(u / 0x80, to);
        proof {
            assert(mid + varnum_wire((u / 0x80) as int) =~= old(to).written() + varnum_wire(
                u as int,
            ));
            lemma_prefix_chain(old(to).written(), mid, to.written());
        }
        r
    }
}

/// Reads a number of at most `budget` groups of seven bits from the front
/// of `data`.
pub fn read_varnum(data: &[u8], budget: u8) -> (r: Result<(u64, &[u8]), DeserializeErr>)
    requires
        budget <= VARINT_MAX_BYTES,
    ensures
        match r {
            Ok((u, rest)) => varnum_parse(data@, budget as nat) == Ok::<
                (int, Seq<u8>),
                Malformed,
            >((u as int, rest@)),
            Err(e) => varnum_parse(data@, budget as nat) == Err::<(int, Seq<u8>), Malformed>(e@),
        },
    decreases budget,
{
    proof {
        lemma_varnum_parse_bounds(data@, budget as nat);
        lemma_limit_of_five();
    }
    if budget == 0 {
        Err(DeserializeErr::VarNumTooLong)
    } else if data.len() == 0 {
        Err(DeserializeErr::Eof)
    } else {
        let first: u8 = data[0];
        let tail = slice_subrange(data, 1, data.len());
        if first < 0x80 {
            Ok((first as u64, tail))
        } else {
            proof {
                lemma_varnum_parse_bounds(tail@, (budget - 1) as nat);
            }
            match read_varnum(tail, budget - 1) {
                Ok((high, rest)) => Ok(((first - 0x80) as u64 + 0x80 * high, rest)),
                Err(e) => Err(e),
            }
        }
    }
}

proof fn lemma_limit_of_five()
    ensures
        varnum_limit(0) == 1,
        varnum_limit(1) == 0x80,
        varnum_limit(2) == 0x4000,
        varnum_limit(3) == 0x20_0000,
        varnum_limit(4) == 0x1000_0000,
        varnum_limit(5) == 0x8_0000_0000,
{
    reveal_with_fuel(varnum_limit, 6);
}

impl Serialize for VarInt {
    open spec fn wire(v: i32) -> Seq<u8> {
        varnum_wire(unsigned(v))
    }

    fn mc_serialize<S: Serializer>(&self, to: &mut S) -> (r: SerializeResult) {
        write_varnum(to_unsigned(self.0), to)
    }
}

impl Deserialize for VarInt {
    open spec fn parse(data: Seq<u8>) -> Parsed<i32> {
        match varnum_parse(data, VARINT_MAX_BYTES as nat) {
            Ok((u, rest)) => Ok((signed(u % 0x1_0000_0000), rest)),
            Err(e) => Err(e),
        }
    }

    fn mc_deserialize(data: &[u8]) -> (r: DeserializeResult<'_, Self>) {
        proof {
            lemma_varnum_parse_bounds(data@, VARINT_MAX_BYTES as nat);
        }
        match read_varnum(data, VARINT_MAX_BYTES) {
            Ok((u, rest)) => {
                let low: u32 = (u % 0x1_0000_0000) as u32;
                Ok(Deserialized { value: VarInt(to_signed(low)), data: rest })
            },
            Err(e) => Err(e),
        }
    }
}

impl ProtocolType for VarInt {
    open spec fn legal(v: i32) -> bool {
        true
    }

    proof fn round_trip(v: i32, rest: Seq<u8>) {
        lemma_limit_of_five();
        lemma_varnum_round_trip(unsigned(v), rest, VARINT_MAX_BYTES as nat);
    }

    proof fn cut_short(v: i32, n: int) {
        lemma_limit_of_five();
        lemma_varnum_cut_short(unsigned(v), n, VARINT_MAX_BYTES as nat);
    }

    proof fn leaves_suffix(data: Seq<u8>) {
        lemma_varnum_parse_bounds(data, VARINT_MAX_BYTES as nat);
    }
}

} // verus!
