//! Values whose shape is fixed by a schema at run time, and their wire
//! format.

use crate::counted::Counter;
use crate::enums::{literal_wire, write_literal, EnumValue, Repr};
use crate::flags::ByteFlags;
use crate::varint::VarInt;
use crate::wire::{
    lemma_prefix_chain, lemma_prefix_of_longer, to_unsigned, unsigned, Serialize,
    SerializeResult, Serializer,
};
use vstd::prelude::*;

verus! {

/// One field of a packet body.
#[derive(Debug, PartialEq)]
pub enum Value {
    Byte(u8),
    Int(i32),
    VarInt(VarInt),
    Enum(EnumValue),
    Flags(ByteFlags),
    /// A sequence behind a counter of the given wire type.
    Array(Repr, Vec<Value>),
}

/// The mathematical form of a [`Value`].
pub enum ValueModel {
    Byte(u8),
    Int(i32),
    VarInt(i32),
    Enum(EnumValue),
    Flags(u8),
    Array(Repr, Seq<ValueModel>),
}

/// The models of the first `n` of `items`.
pub open spec fn models_upto(items: Seq<Value>, n: nat) -> Seq<ValueModel>
    decreases items, n,
{
    if n == 0 || n > items.len() {
        Seq::<ValueModel>::empty()
    } else {
        models_upto(items, (n - 1) as nat).push(items[n - 1]@)
    }
}

/// The models of `items`.
pub open spec fn models(items: Seq<Value>) -> Seq<ValueModel> {
    models_upto(items, items.len())
}

impl View for Value {
    type V = ValueModel;

    open spec fn view(&self) -> ValueModel
        decreases self,
    {
        match self {
            Value::Byte(b) => ValueModel::Byte(*b),
            Value::Int(i) => ValueModel::Int(*i),
            Value::VarInt(v) => ValueModel::VarInt(v.0),
            Value::Enum(e) => ValueModel::Enum(*e),
            Value::Flags(f) => ValueModel::Flags(f.0),
            Value::Array(repr, items) => ValueModel::Array(*repr, models_upto(items@, items@.len())),
        }
    }
}

pub proof fn lemma_models_upto(items: Seq<Value>, n: nat)
    requires
        n <= items.len(),
    ensures
        models_upto(items, n).len() == n,
        forall|i: int| 0 <= i < n ==> (#[trigger] models_upto(items, n)[i]) == items[i]@,
    decreases n,
{
    if n > 0 {
        lemma_models_upto(items, (n - 1) as nat);
        assert(models_upto(items, n) == models_upto(items, (n - 1) as nat).push(items[n - 1]@));
    }
}

/// The model of a sequence has the model of each item in the item's place.
pub proof fn lemma_models(items: Seq<Value>)
    ensures
        models(items).len() == items.len(),
        forall|i: int| 0 <= i < items.len() ==> (#[trigger] models(items)[i]) == items[i]@,
{
    lemma_models_upto(items, items.len());
}

impl Clone for Value {
    #[verifier::loop_isolation(false)]
    fn clone(&self) -> (r: Self)
        ensures
            r@ == self@,
        decreases self,
    {
        match self {
            Value::Byte(b) => Value::Byte(*b),
            Value::Int(i) => Value::Int(*i),
            Value::VarInt(v) => Value::VarInt(*v),
            Value::Enum(e) => Value::Enum(*e),
            Value::Flags(f) => Value::Flags(*f),
            Value::Array(repr, items) => {
                let mut out: Vec<Value> = Vec::new();
                let mut i: usize = 0;
                while i < items.len()
                    invariant
                        i <= items.len(),
                        out.len() == i,
                        forall|k: int| 0 <= k < i ==> (#[trigger] out[k])@ == items[k]@,
                    decreases items.len() - i,
                {
                    out.push(items[i].clone());
                    i += 1;
                }
                proof {
                    lemma_models(items@);
                    lemma_models(out@);
                    assert(models(out@) =~= models(items@));
                }
                Value::Array(*repr, out)
            },
        }
    }
}

/// The counter that announces `n` elements.
pub open spec fn counter_of(repr: Repr, n: nat) -> i32 {
    match repr {
        Repr::Byte => <u8 as Counter>::of_count(n) as i32,
        _ => <VarInt as Counter>::of_count(n),
    }
}

/// The number of elements that a counter announces. Of a counter that
/// travels in a byte, its lowest eight bits count.
pub open spec fn count_of(repr: Repr, counter: i32) -> nat {
    match repr {
        Repr::Byte => (unsigned(counter) % 0x100) as nat,
        _ => <VarInt as Counter>::count_of(counter),
    }
}

/// The longest sequence whose length a counter of this wire type carries
/// unchanged.
pub open spec fn max_count(repr: Repr) -> nat {
    match repr {
        Repr::Byte => <u8 as Counter>::max_count(),
        _ => <VarInt as Counter>::max_count(),
    }
}

/// The wire format of a value.
pub open spec fn value_wire(v: ValueModel) -> Seq<u8>
    decreases v, 0nat,
{
    match v {
        ValueModel::Byte(b) => u8::wire(b),
        ValueModel::Int(i) => i32::wire(i),
        ValueModel::VarInt(i) => VarInt::wire(i),
        ValueModel::Enum(e) => EnumValue::wire(e),
        ValueModel::Flags(f) => ByteFlags::wire(f),
        ValueModel::Array(repr, items) => literal_wire(repr, counter_of(repr, items.len()))
            + values_wire_upto(items, items.len()),
    }
}

/// The wire formats of the first `n` of `items`, one after the other.
pub open spec fn values_wire_upto(items: Seq<ValueModel>, n: nat) -> Seq<u8>
    decreases items, n,
{
    if n == 0 || n > items.len() {
        Seq::<u8>::empty()
    } else {
        values_wire_upto(items, (n - 1) as nat) + value_wire(items[n - 1])
    }
}

/// The wire formats of `items`, one after the other.
pub open spec fn values_wire(items: Seq<ValueModel>) -> Seq<u8> {
    values_wire_upto(items, items.len())
}

pub fn max_count_of(repr: Repr) -> (r: usize)
    ensures
        r == max_count(repr),
{
    match repr {
        Repr::Byte => 0xff,
        _ => 0x7fff_ffff,
    }
}

pub fn counter_from_count(repr: Repr, n: usize) -> (r: i32)
    ensures
        r == counter_of(repr, n as nat),
{
    match repr {
        Repr::Byte => <u8 as Counter>::from_count(n) as i32,
        _ => <VarInt as Counter>::from_count(n).0,
    }
}

pub fn counter_to_count(repr: Repr, counter: i32) -> (r: usize)
    ensures
        r == count_of(repr, counter),
{
    match repr {
        Repr::Byte => (to_unsigned(counter) % 0x100) as usize,
        _ => VarInt(counter).to_count(),
    }
}

/// Writes the items one after the other.
pub fn write_values<S: Serializer>(items: &Vec<Value>, to: &mut S) -> (r: SerializeResult)
    ensures
        r is Ok ==> final(to).written() == old(to).written() + values_wire(models(items@)),
        old(to).reliable() ==> r is Ok && final(to).reliable(),
        old(to).written().is_prefix_of(final(to).written()),
    decreases items, 0nat,
{
    let ghost all = models(items@);
    proof {
        lemma_models(items@);
        lemma_prefix_of_longer(to.written(), Seq::<u8>::empty());
    }
    let mut i: usize = 0;
    while i < items.len()
        invariant
            i <= items.len(),
            all == models(items@),
            all.len() == items.len(),
            forall|k: int| 0 <= k < items.len() ==> (#[trigger] all[k]) == items[k]@,
            to.written() == old(to).written() + values_wire_upto(all, i as nat),
            old(to).reliable() ==> to.reliable(),
            old(to).written().is_prefix_of(to.written()),
        decreases items.len() - i,
    {
        let ghost before = to.written();
        let r = items[i].mc_serialize(to);
        proof {
            lemma_prefix_chain(old(to).written(), before, to.written());
        }
        match r {
            Ok(()) => {},
            Err(e) => {
                return Err(e);
            },
        }
        proof {
            assert(to.written() =~= old(to).written() + values_wire_upto(all, (i + 1) as nat));
        }
        i += 1;
    }
    Ok(())
}

impl Serialize for Value {
    open spec fn wire(v: ValueModel) -> Seq<u8> {
        value_wire(v)
    }

    fn mc_serialize<S: Serializer>(&self, to: &mut S) -> (r: SerializeResult)
        decreases self, 1nat,
    {
        match self {
            Value::Byte(b) => b.mc_serialize(to),
            Value::Int(i) => i.mc_serialize(to),
            Value::VarInt(v) => v.mc_serialize(to),
            Value::Enum(e) => e.mc_serialize(to),
            Value::Flags(f) => f.mc_serialize(to),
            Value::Array(repr, items) => {
                match write_literal(*repr, counter_from_count(*repr, items.len()), to) {
                    Ok(()) => {},
                    Err(e) => {
                        return Err(e);
                    },
                }
                let ghost mid = to.written();
                let r = write_values(items, to);
                proof {
                    lemma_prefix_chain(old(to).written(), mid, to.written());
                    lemma_models(items@);
                    let all = models(items@);
                    assert(mid + values_wire(all) =~= old(to).written() + value_wire(self@));
                }
                r
            },
        }
    }
}

} // verus!
