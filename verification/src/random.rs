//! Made-up values for tests: every wire type can produce one of its own.

use crate::counted::{CountedArray, Counter};
use crate::enums::{EnumCodec, EnumValue};
use crate::field::{admits, FieldType};
use crate::flags::{
    flag_of, lemma_bits_apart, lemma_flag_reads_as_set, lemma_flags_independent, one_bit,
    ByteFlags, FlagTable,
};
use crate::protocol::TestRandom;
use crate::schema::{body_admits, Body, PacketDef};
use crate::value::{lemma_models, Value};
use crate::varint::VarInt;
use crate::wire::{signed, to_signed};
use std::marker::PhantomData;
use vstd::prelude::*;

verus! {

/// The longest sequence that is made up, and one more.
pub const RANDOM_LENGTH_LIMIT: usize = 32;

/// Calls `rand::random::<usize>()`, which draws a number from the
/// generator of the thread. Nothing is claimed of the number.
#[verifier::external_body]
fn random_usize() -> usize {
    rand::random::<usize>()
}

/// Calls `rand::random::<bool>()`, which draws `true` or `false` from the
/// generator of the thread. Nothing is claimed of the outcome.
#[verifier::external_body]
fn random_bool() -> bool {
    rand::random::<bool>()
}

/// The byte that a drawn number stands for: its lowest eight bits.
pub fn byte_from(drawn: usize) -> (r: u8)
    ensures
        r == drawn % 0x100,
{
    (drawn % 0x100) as u8
}

/// The integer that a drawn number stands for: its lowest 32 bits, read
/// with a sign.
pub fn int_from(drawn: usize) -> (r: i32)
    ensures
        r == signed(drawn as int % 0x1_0000_0000),
{
    let low: u64 = (drawn as u64) % 0x1_0000_0000u64;
    to_signed(low as u32)
}

/// The length that a drawn number stands for.
pub fn length_from(drawn: usize) -> (r: usize)
    ensures
        r == drawn % RANDOM_LENGTH_LIMIT,
        r < RANDOM_LENGTH_LIMIT,
{
    drawn % RANDOM_LENGTH_LIMIT
}

/// The mask of the flag at position `i` of a byte, the lowest bit first.
pub open spec fn position_mask(i: int) -> u8 {
    if i == 0 {
        0x01
    } else if i == 1 {
        0x02
    } else if i == 2 {
        0x04
    } else if i == 3 {
        0x08
    } else if i == 4 {
        0x10
    } else if i == 5 {
        0x20
    } else if i == 6 {
        0x40
    } else {
        0x80
    }
}

/// The flags that eight drawn booleans stand for: the flag at position `i`
/// is the `i`-th of them.
pub fn flags_from(draws: [bool; 8]) -> (r: ByteFlags)
    ensures
        forall|i: int| 0 <= i < 8 ==> flag_of(r.0, position_mask(i)) == draws[i],
{
    let masks: [u8; 8] = [0x01, 0x02, 0x04, 0x08, 0x10, 0x20, 0x40, 0x80];
    let mut out = ByteFlags::default();
    let mut bit: usize = 0;
    while bit < 8
        invariant
            bit <= 8,
            forall|k: int| 0 <= k < 8 ==> masks[k] == position_mask(k),
            forall|k: int| 0 <= k < bit ==> flag_of(out.0, position_mask(k)) == draws[k],
        decreases 8 - bit,
    {
        let ghost before = out.0;
        out.set(masks[bit], draws[bit]);
        proof {
            assert forall|k: int| 0 <= k < bit + 1 implies flag_of(out.0, position_mask(k))
                == draws[k] by {
                if k == bit {
                    lemma_flag_reads_as_set(before, position_mask(k), draws[k]);
                } else {
                    lemma_bits_apart(position_mask(bit as int), position_mask(k));
                    lemma_flags_independent(
                        before,
                        position_mask(bit as int),
                        draws[bit as int],
                        position_mask(k),
                    );
                }
            }
        }
        bit += 1;
    }
    out
}

impl TestRandom for u8 {
    fn test_gen_random() -> Self {
        byte_from(random_usize())
    }
}

impl TestRandom for i32 {
    fn test_gen_random() -> Self {
        int_from(random_usize())
    }
}

impl TestRandom for VarInt {
    fn test_gen_random() -> Self {
        VarInt(int_from(random_usize()))
    }
}

impl TestRandom for ByteFlags {
    /// Each of the eight flags is drawn by itself.
    fn test_gen_random() -> Self {
        let draws: [bool; 8] = [
            random_bool(),
            random_bool(),
            random_bool(),
            random_bool(),
            random_bool(),
            random_bool(),
            random_bool(),
            random_bool(),
        ];
        flags_from(draws)
    }
}

impl<C: Counter, T: TestRandom> TestRandom for CountedArray<C, T> {
    /// A sequence of fewer than [`RANDOM_LENGTH_LIMIT`] made-up elements.
    fn test_gen_random() -> (r: Self)
        ensures
            r.data.len() < RANDOM_LENGTH_LIMIT,
    {
        let count = length_from(random_usize());
        let mut out: Vec<T> = Vec::new();
        let mut i: usize = 0;
        while i < count
            invariant
                i <= count,
                out.len() == i,
                forall|k: int| 0 <= k < i ==> T::legal((#[trigger] out[k])@),
            decreases count - i,
        {
            out.push(T::test_gen_random());
            i += 1;
        }
        proof {
            C::carries_a_byte();
        }
        CountedArray { data: out, counter: PhantomData }
    }
}

impl FlagTable {
    /// Made-up flags: each declared flag is drawn by itself, and no other
    /// bit is set.
    pub fn test_gen_random(&self) -> (r: ByteFlags)
        ensures
            forall|mask: u8| one_bit(mask) && flag_of(r.0, mask) ==> self@.owns_bit(mask),
    {
        let mut out = ByteFlags::default();
        let n = self.len();
        let mut i: usize = 0;
        proof {
            assert forall|mask: u8| !flag_of(0u8, mask) by {
                assert(0u8 & mask == 0) by (bit_vector);
            }
        }
        while i < n
            invariant
                i <= n,
                n == self@.entries.len(),
                self@.ok(),
                forall|mask: u8|
                    one_bit(mask) && flag_of(out.0, mask) ==> exists|k: int|
                        0 <= k < i && (#[trigger] self@.entries[k]).0 == mask,
            decreases n - i,
        {
            let ghost before = out.0;
            let mask_i = match self.mask_at(i) {
                Some(mask) => mask,
                None => 0,
            };
            let value = random_bool();
            out.set(mask_i, value);
            proof {
                assert forall|mask: u8| one_bit(mask) && flag_of(out.0, mask) implies exists|
                    k: int,
                |
                    0 <= k < i + 1 && (#[trigger] self@.entries[k]).0 == mask by {
                    if mask == mask_i {
                        assert(self@.entries[i as int].0 == mask);
                    } else {
                        lemma_bits_apart(mask_i, mask);
                        lemma_flags_independent(before, mask_i, value, mask);
                        let k = choose|k: int|
                            0 <= k < i && (#[trigger] self@.entries[k]).0 == mask;
                        assert(self@.entries[k].0 == mask);
                    }
                }
            }
            i += 1;
        }
        out
    }
}

impl EnumCodec {
    /// One of the declared variants.
    pub fn test_gen_random(&self) -> (r: EnumValue)
        ensures
            self@.owns(r),
    {
        self.pick(random_usize())
    }
}

impl FieldType {
    /// A made-up value of the type, one that can travel.
    #[verifier::loop_isolation(false)]
    pub fn test_gen_random(&self) -> (r: Value)
        ensures
            admits(self@, r@),
        decreases self,
    {
        match self {
            FieldType::Byte => Value::Byte(u8::test_gen_random()),
            FieldType::Int => Value::Int(i32::test_gen_random()),
            FieldType::VarInt => Value::VarInt(VarInt::test_gen_random()),
            FieldType::Enum(codec) => Value::Enum(codec.test_gen_random()),
            FieldType::Flags => Value::Flags(ByteFlags::test_gen_random()),
            FieldType::Array(repr, element) => {
                let count = length_from(random_usize());
                let mut out: Vec<Value> = Vec::new();
                let mut i: usize = 0;
                while i < count
                    invariant
                        i <= count,
                        out.len() == i,
                        forall|k: int| 0 <= k < i ==> admits((**element)@, (#[trigger] out[k])@),
                    decreases count - i,
                {
                    out.push(element.test_gen_random());
                    i += 1;
                }
                proof {
                    lemma_models(out@);
                }
                Value::Array(*repr, out)
            },
        }
    }
}

impl PacketDef {
    /// A made-up body of the packet: a value of its type for each field.
    pub fn test_gen_random(&self) -> (r: Body)
        ensures
            body_admits(self@.fields, r@),
    {
        let mut out: Vec<Value> = Vec::new();
        let mut i: usize = 0;
        while i < self.fields.len()
            invariant
                i <= self.fields.len(),
                out.len() == i,
                forall|k: int| 0 <= k < i ==> admits(self.fields[k]@.ty, (#[trigger] out[k])@),
            decreases self.fields.len() - i,
        {
            out.push(self.fields[i].ty.test_gen_random());
            i += 1;
        }
        proof {
            lemma_models(out@);
        }
        Body { fields: out }
    }
}

} // verus!
