//! The types that a schema can give to a field, and how a value of each is
//! read.

use crate::counted::Counter;
use crate::enums::{
    lemma_enum_cut_short, lemma_enum_leaves_suffix, lemma_literal_cut_short,
    lemma_literal_leaves_suffix, lemma_literal_round_trip, lemma_owned_round_trip,
    literal_fits, literal_parse, literal_wire, read_literal, EnumCodec, EnumModel, Repr,
};
use crate::flags::ByteFlags;
use crate::value::{
    count_of, counter_of, counter_to_count, lemma_models, max_count, max_count_of, models,
    value_wire, values_wire, values_wire_upto, Value, ValueModel,
};
use crate::varint::VarInt;
use crate::wire::{
    is_suffix, lemma_suffix_of_suffix, reads, Deserialize, DeserializeResult, Deserialized,
    Malformed, Parsed, ProtocolType, Serialize,
};
use vstd::prelude::*;

verus! {

/// The type of a field.
#[derive(Debug)]
pub enum FieldType {
    /// One byte.
    Byte,
    /// Four bytes, the most significant first.
    Int,
    /// A variable-length integer.
    VarInt,
    /// One of a closed set of named values.
    Enum(EnumCodec),
    /// A byte of flags.
    Flags,
    /// A sequence of one type of element, behind a counter of the given
    /// wire type.
    Array(Repr, Box<FieldType>),
}

/// The mathematical form of a [`FieldType`].
pub enum TypeModel {
    Byte,
    Int,
    VarInt,
    Enum(EnumModel),
    Flags,
    Array(Repr, Box<TypeModel>),
}

impl View for FieldType {
    type V = TypeModel;

    open spec fn view(&self) -> TypeModel
        decreases self,
    {
        match self {
            FieldType::Byte => TypeModel::Byte,
            FieldType::Int => TypeModel::Int,
            FieldType::VarInt => TypeModel::VarInt,
            FieldType::Enum(codec) => TypeModel::Enum(codec@),
            FieldType::Flags => TypeModel::Flags,
            FieldType::Array(repr, element) => TypeModel::Array(*repr, Box::new((**element)@)),
        }
    }
}

/// What reading a value of type `ty` from `data` comes to.
pub open spec fn parse_value(ty: TypeModel, data: Seq<u8>) -> Parsed<ValueModel>
    decreases ty, 0nat,
{
    match ty {
        TypeModel::Byte => match u8::parse(data) {
            Ok((b, rest)) => Ok((ValueModel::Byte(b), rest)),
            Err(e) => Err(e),
        },
        TypeModel::Int => match i32::parse(data) {
            Ok((i, rest)) => Ok((ValueModel::Int(i), rest)),
            Err(e) => Err(e),
        },
        TypeModel::VarInt => match VarInt::parse(data) {
            Ok((i, rest)) => Ok((ValueModel::VarInt(i), rest)),
            Err(e) => Err(e),
        },
        TypeModel::Enum(m) => match m.parse(data) {
            Ok((e, rest)) => Ok((ValueModel::Enum(e), rest)),
            Err(e) => Err(e),
        },
        TypeModel::Flags => match ByteFlags::parse(data) {
            Ok((f, rest)) => Ok((ValueModel::Flags(f), rest)),
            Err(e) => Err(e),
        },
        TypeModel::Array(repr, element) => match literal_parse(repr, data) {
            Ok((counter, rest)) => match parse_values(*element, rest, count_of(repr, counter)) {
                Ok((items, left)) => Ok((ValueModel::Array(repr, items), left)),
                Err(e) => Err(e),
            },
            Err(e) => Err(e),
        },
    }
}

/// Reads `n` values of type `ty`, each from what the one before it left.
pub open spec fn parse_values(ty: TypeModel, data: Seq<u8>, n: nat) -> Parsed<Seq<ValueModel>>
    decreases ty, n,
{
    if n == 0 {
        Ok((Seq::<ValueModel>::empty(), data))
    } else {
        match parse_value(ty, data) {
            Ok((first, rest)) => match parse_values(ty, rest, (n - 1) as nat) {
                Ok((others, left)) => Ok((seq![first] + others, left)),
                Err(e) => Err(e),
            },
            Err(e) => Err(e),
        }
    }
}

impl FieldType {
    /// Whether `v` is a value of this type that can travel: of the type's
    /// shape, every enumerated value a declared one, every sequence no
    /// longer than its counter carries.
    #[verifier::loop_isolation(false)]
    pub fn admits(&self, v: &Value) -> (r: bool)
        ensures
            r == admits(self@, v@),
        decreases self,
    {
        match self {
            FieldType::Byte => match v {
                Value::Byte(_) => true,
                _ => false,
            },
            FieldType::Int => match v {
                Value::Int(_) => true,
                _ => false,
            },
            FieldType::VarInt => match v {
                Value::VarInt(_) => true,
                _ => false,
            },
            FieldType::Flags => match v {
                Value::Flags(_) => true,
                _ => false,
            },
            FieldType::Enum(codec) => match v {
                Value::Enum(e) => codec.owns(*e),
                _ => false,
            },
            FieldType::Array(repr, element) => match v {
                Value::Array(counter, items) => {
                    proof {
                        lemma_models(items@);
                    }
                    if !(*counter == *repr) || items.len() > max_count_of(*repr) {
                        return false;
                    }
                    let mut i: usize = 0;
                    while i < items.len()
                        invariant
                            i <= items.len(),
                            forall|k: int|
                                0 <= k < i ==> admits((**element)@, (#[trigger] items[k])@),
                        decreases items.len() - i,
                    {
                        if !element.admits(&items[i]) {
                            proof {
                                assert(models(items@)[i as int] == items[i as int]@);
                            }
                            return false;
                        }
                        i += 1;
                    }
                    true
                },
                _ => false,
            },
        }
    }

    /// Reads one value of this type from the front of `data`.
    #[verifier::loop_isolation(false)]
    pub fn decode<'a>(&self, data: &'a [u8]) -> (r: DeserializeResult<'a, Value>)
        ensures
            reads(r, parse_value(self@, data@)),
        decreases self,
    {
        match self {
            FieldType::Byte => match u8::mc_deserialize(data) {
                Ok(d) => Ok(Deserialized { value: Value::Byte(d.value), data: d.data }),
                Err(e) => Err(e),
            },
            FieldType::Int => match i32::mc_deserialize(data) {
                Ok(d) => Ok(Deserialized { value: Value::Int(d.value), data: d.data }),
                Err(e) => Err(e),
            },
            FieldType::VarInt => match VarInt::mc_deserialize(data) {
                Ok(d) => Ok(Deserialized { value: Value::VarInt(d.value), data: d.data }),
                Err(e) => Err(e),
            },
            FieldType::Enum(codec) => match codec.decode(data) {
                Ok(d) => Ok(Deserialized { value: Value::Enum(d.value), data: d.data }),
                Err(e) => Err(e),
            },
            FieldType::Flags => match ByteFlags::mc_deserialize(data) {
                Ok(d) => Ok(Deserialized { value: Value::Flags(d.value), data: d.data }),
                Err(e) => Err(e),
            },
            FieldType::Array(repr, element) => {
                let (count, start) = match read_literal(*repr, data) {
                    Ok(d) => (counter_to_count(*repr, d.value), d.data),
                    Err(e) => {
                        return Err(e);
                    },
                };
                let ghost ty = (**element)@;
                let ghost whole = parse_values(ty, start@, count as nat);
                let mut cur = start;
                let mut out: Vec<Value> = Vec::new();
                let mut i: usize = 0;
                proof {
                    lemma_models(out@);
                    assert(models(out@) =~= Seq::<ValueModel>::empty());
                    match whole {
                        Ok((items, left)) => {
                            assert(Seq::<ValueModel>::empty() + items =~= items);
                        },
                        Err(_) => {},
                    }
                }
                while i < count
                    invariant
                        i <= count,
                        out.len() == i,
                        whole == match parse_values(ty, cur@, (count - i) as nat) {
                            Ok((others, left)) => Ok::<(Seq<ValueModel>, Seq<u8>), Malformed>(
                                (models(out@) + others, left),
                            ),
                            Err(e) => Err::<(Seq<ValueModel>, Seq<u8>), Malformed>(e),
                        },
                    decreases count - i,
                {
                    let ghost so_far = models(out@);
                    match element.decode(cur) {
                        Ok(d) => {
                            proof {
                                let grown = out@.push(d.value);
                                lemma_models(out@);
                                lemma_models(grown);
                                assert(models(grown) =~= so_far + seq![d.value@]);
                                match parse_values(ty, d.data@, (count - i - 1) as nat) {
                                    Ok((others, left)) => {
                                        assert(so_far + (seq![d.value@] + others) =~= models(grown)
                                            + others);
                                    },
                                    Err(_) => {},
                                }
                            }
                            cur = d.data;
                            out.push(d.value);
                        },
                        Err(e) => {
                            return Err(e);
                        },
                    }
                    i += 1;
                }
                proof {
                    assert(models(out@) + Seq::<ValueModel>::empty() =~= models(out@));
                }
                Ok(Deserialized { value: Value::Array(*repr, out), data: cur })
            },
        }
    }
}

/// `v` is a value of type `ty` that can travel.
pub open spec fn admits(ty: TypeModel, v: ValueModel) -> bool
    decreases ty,
{
    match ty {
        TypeModel::Byte => v is Byte,
        TypeModel::Int => v is Int,
        TypeModel::VarInt => v is VarInt,
        TypeModel::Enum(m) => v matches ValueModel::Enum(e) && m.owns(e),
        TypeModel::Flags => v is Flags,
        TypeModel::Array(repr, element) => {
            &&& v matches ValueModel::Array(counter, items)
            &&& counter == repr
            &&& items.len() <= max_count(repr)
            &&& forall|i: int| 0 <= i < items.len() ==> admits(*element, #[trigger] items[i])
        },
    }
}

/// Every one of `items` is a value of type `ty` that can travel.
pub open spec fn admits_all(ty: TypeModel, items: Seq<ValueModel>) -> bool {
    forall|i: int| 0 <= i < items.len() ==> admits(ty, #[trigger] items[i])
}

/// The wire format of a sequence starts with that of its first item.
pub proof fn lemma_values_wire_front(items: Seq<ValueModel>, n: nat)
    requires
        1 <= n <= items.len(),
    ensures
        values_wire_upto(items, n) == value_wire(items[0]) + values_wire_upto(
            items.skip(1),
            (n - 1) as nat,
        ),
    decreases n,
{
    let tail = items.skip(1);
    if n == 1 {
        assert(values_wire_upto(items, 0) =~= Seq::<u8>::empty());
        assert(values_wire_upto(items, 1) =~= values_wire_upto(items, 0) + value_wire(items[0]));
        assert(values_wire_upto(tail, 0) =~= Seq::<u8>::empty());
        assert(values_wire_upto(items, 1) =~= value_wire(items[0]) + values_wire_upto(tail, 0));
    } else {
        lemma_values_wire_front(items, (n - 1) as nat);
        assert(tail[n - 2] == items[n - 1]);
        assert(values_wire_upto(items, n) == values_wire_upto(items, (n - 1) as nat) + value_wire(
            items[n - 1],
        ));
        assert(values_wire_upto(tail, (n - 1) as nat) == values_wire_upto(tail, (n - 2) as nat)
            + value_wire(tail[n - 2]));
        assert(values_wire_upto(items, n) =~= value_wire(items[0]) + values_wire_upto(
            tail,
            (n - 1) as nat,
        ));
    }
}

proof fn lemma_counter_survives(repr: Repr, n: nat)
    requires
        n <= max_count(repr),
    ensures
        literal_fits(repr, counter_of(repr, n)),
        count_of(repr, counter_of(repr, n)) == n,
{
    match repr {
        Repr::Byte => <u8 as Counter>::count_survives(n),
        _ => <VarInt as Counter>::count_survives(n),
    }
}

/// A value of its type is read back as it was written, whatever follows
/// it.
pub proof fn lemma_value_round_trip(ty: TypeModel, v: ValueModel, rest: Seq<u8>)
    requires
        admits(ty, v),
    ensures
        parse_value(ty, value_wire(v) + rest) == Ok::<(ValueModel, Seq<u8>), Malformed>(
            (v, rest),
        ),
    decreases ty, 0nat,
{
    match ty {
        TypeModel::Byte => u8::round_trip(v->Byte_0, rest),
        TypeModel::Int => i32::round_trip(v->Int_0, rest),
        TypeModel::VarInt => VarInt::round_trip(v->VarInt_0, rest),
        TypeModel::Flags => ByteFlags::round_trip(v->Flags_0, rest),
        TypeModel::Enum(m) => lemma_owned_round_trip(m, v->Enum_0, rest),
        TypeModel::Array(repr, element) => {
            let items = v->Array_1;
            let counter = counter_of(repr, items.len());
            let body = values_wire(items);
            lemma_counter_survives(repr, items.len());
            assert(value_wire(v) + rest =~= literal_wire(repr, counter) + (body + rest));
            lemma_literal_round_trip(repr, counter, body + rest);
            lemma_values_round_trip(*element, items, rest);
        },
    }
}

/// A sequence of values of one type is read back as it was written.
pub proof fn lemma_values_round_trip(ty: TypeModel, items: Seq<ValueModel>, rest: Seq<u8>)
    requires
        admits_all(ty, items),
    ensures
        parse_values(ty, values_wire(items) + rest, items.len()) == Ok::<
            (Seq<ValueModel>, Seq<u8>),
            Malformed,
        >((items, rest)),
    decreases ty, items.len() + 1,
{
    if items.len() == 0 {
        assert(values_wire(items) + rest =~= rest);
        assert(items =~= Seq::<ValueModel>::empty());
    } else {
        let tail = items.skip(1);
        let after = values_wire(tail) + rest;
        lemma_values_wire_front(items, items.len());
        assert(values_wire(items) + rest =~= value_wire(items[0]) + after);
        lemma_value_round_trip(ty, items[0], after);
        assert forall|i: int| 0 <= i < tail.len() implies admits(ty, #[trigger] tail[i]) by {
            assert(tail[i] == items[i + 1]);
        }
        lemma_values_round_trip(ty, tail, rest);
        assert(seq![items[0]] + tail =~= items);
    }
}

/// A value whose wire format was cut short is reported as such.
pub proof fn lemma_value_cut_short(ty: TypeModel, v: ValueModel, n: int)
    requires
        admits(ty, v),
        0 <= n < value_wire(v).len(),
    ensures
        parse_value(ty, value_wire(v).take(n)) == Err::<(ValueModel, Seq<u8>), Malformed>(
            Malformed::Eof,
        ),
    decreases ty, 0nat,
{
    match ty {
        TypeModel::Byte => u8::cut_short(v->Byte_0, n),
        TypeModel::Int => i32::cut_short(v->Int_0, n),
        TypeModel::VarInt => VarInt::cut_short(v->VarInt_0, n),
        TypeModel::Flags => ByteFlags::cut_short(v->Flags_0, n),
        TypeModel::Enum(m) => lemma_enum_cut_short(m, v->Enum_0, n),
        TypeModel::Array(repr, element) => {
            let items = v->Array_1;
            let counter = counter_of(repr, items.len());
            let head = literal_wire(repr, counter);
            let body = values_wire(items);
            lemma_counter_survives(repr, items.len());
            if n < head.len() {
                assert(value_wire(v).take(n) =~= head.take(n));
                lemma_literal_cut_short(repr, counter, n);
            } else {
                let m = n - head.len();
                assert(value_wire(v).take(n) =~= head + body.take(m));
                lemma_literal_round_trip(repr, counter, body.take(m));
                lemma_values_cut_short(*element, items, m);
            }
        },
    }
}

/// A sequence whose wire format was cut short is reported as such.
pub proof fn lemma_values_cut_short(ty: TypeModel, items: Seq<ValueModel>, n: int)
    requires
        admits_all(ty, items),
        0 <= n < values_wire(items).len(),
    ensures
        parse_values(ty, values_wire(items).take(n), items.len()) == Err::<
            (Seq<ValueModel>, Seq<u8>),
            Malformed,
        >(Malformed::Eof),
    decreases ty, items.len() + 1,
{
    if items.len() == 0 {
    } else {
        let first = value_wire(items[0]);
        let tail = items.skip(1);
        let after = values_wire(tail);
        lemma_values_wire_front(items, items.len());
        let cut = values_wire(items).take(n);
        if n < first.len() {
            assert(cut =~= first.take(n));
            lemma_value_cut_short(ty, items[0], n);
        } else {
            let m = n - first.len();
            assert(cut =~= first + after.take(m));
            lemma_value_round_trip(ty, items[0], after.take(m));
            assert forall|i: int| 0 <= i < tail.len() implies admits(ty, #[trigger] tail[i]) by {
                assert(tail[i] == items[i + 1]);
            }
            lemma_values_cut_short(ty, tail, m);
        }
    }
}

/// What reading a value leaves over is the end of the buffer.
pub proof fn lemma_value_leaves_suffix(ty: TypeModel, data: Seq<u8>)
    ensures
        parse_value(ty, data) matches Ok((v, rest)) ==> is_suffix(rest, data),
    decreases ty, 0nat,
{
    match ty {
        TypeModel::Byte => u8::leaves_suffix(data),
        TypeModel::Int => i32::leaves_suffix(data),
        TypeModel::VarInt => VarInt::leaves_suffix(data),
        TypeModel::Flags => ByteFlags::leaves_suffix(data),
        TypeModel::Enum(m) => lemma_enum_leaves_suffix(m, data),
        TypeModel::Array(repr, element) => {
            lemma_literal_leaves_suffix(repr, data);
            match literal_parse(repr, data) {
                Ok((counter, rest)) => {
                    lemma_values_leave_suffix(*element, rest, count_of(repr, counter));
                    match parse_values(*element, rest, count_of(repr, counter)) {
                        Ok((items, left)) => lemma_suffix_of_suffix(left, rest, data),
                        Err(_) => {},
                    }
                },
                Err(_) => {},
            }
        },
    }
}

/// Reading `n` values gives `n` values, and leaves over the end of the
/// buffer.
pub proof fn lemma_values_leave_suffix(ty: TypeModel, data: Seq<u8>, n: nat)
    ensures
        parse_values(ty, data, n) matches Ok((items, rest)) ==> items.len() == n && is_suffix(
            rest,
            data,
        ),
    decreases ty, n + 1,
{
    if n == 0 {
        assert(data =~= data.skip(0));
    } else {
        lemma_value_leaves_suffix(ty, data);
        match parse_value(ty, data) {
            Ok((first, rest)) => {
                lemma_values_leave_suffix(ty, rest, (n - 1) as nat);
                match parse_values(ty, rest, (n - 1) as nat) {
                    Ok((others, left)) => lemma_suffix_of_suffix(left, rest, data),
                    Err(_) => {},
                }
            },
            Err(_) => {},
        }
    }
}

} // verus!
