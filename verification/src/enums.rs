//! Closed sets of named values, each bound to one literal of an underlying
//! wire type.

use crate::text::{decimal, decimal_string, hex, hex_string};
use crate::varint::VarInt;
use crate::wire::{
    is_suffix, reads, to_unsigned, unsigned, Deserialize, DeserializeErr, DeserializeResult,
    Deserialized, Malformed, Parsed, ProtocolType, Serialize, SerializeResult, Serializer,
};
use vstd::prelude::*;
use vstd::string::*;

verus! {

/// The wire type that carries a literal.
#[derive(Debug, Clone, Copy, PartialEq, Eq, Structural)]
pub enum Repr {
    /// One byte.
    Byte,
    /// A variable-length integer.
    VarInt,
    /// Four bytes, the most significant first.
    Int,
}

/// Whether `literal` is a value of the wire type.
pub open spec fn literal_fits(repr: Repr, literal: i32) -> bool {
    repr is Byte ==> 0 <= literal <= 0xff
}

/// The wire format of a literal. A byte carries the lowest eight bits.
pub open spec fn literal_wire(repr: Repr, literal: i32) -> Seq<u8> {
    match repr {
        Repr::Byte => u8::wire((unsigned(literal) % 0x100) as u8),
        Repr::VarInt => VarInt::wire(literal),
        Repr::Int => i32::wire(literal),
    }
}

/// What reading a literal from `data` comes to.
pub open spec fn literal_parse(repr: Repr, data: Seq<u8>) -> Parsed<i32> {
    match repr {
        Repr::Byte => match u8::parse(data) {
            Ok((byte, rest)) => Ok((byte as i32, rest)),
            Err(e) => Err(e),
        },
        Repr::VarInt => VarInt::parse(data),
        Repr::Int => i32::parse(data),
    }
}

pub fn write_literal<S: Serializer>(repr: Repr, literal: i32, to: &mut S) -> (r: SerializeResult)
    ensures
        r is Ok ==> final(to).written() == old(to).written() + literal_wire(repr, literal),
        old(to).reliable() ==> r is Ok && final(to).reliable(),
        old(to).written().is_prefix_of(final(to).written()),
{
    match repr {
        Repr::Byte => {
            let low: u8 = (to_unsigned(literal) % 0x100) as u8;
            low.mc_serialize(to)
        },
        Repr::VarInt => VarInt(literal).mc_serialize(to),
        Repr::Int => literal.mc_serialize(to),
    }
}

pub fn read_literal(repr: Repr, data: &[u8]) -> (r: DeserializeResult<'_, i32>)
    ensures
        reads(r, literal_parse(repr, data@)),
{
    match repr {
        Repr::Byte => match u8::mc_deserialize(data) {
            Ok(d) => Ok(Deserialized { value: d.value as i32, data: d.data }),
            Err(e) => Err(e),
        },
        Repr::VarInt => match VarInt::mc_deserialize(data) {
            Ok(d) => Ok(Deserialized { value: d.value.0, data: d.data }),
            Err(e) => Err(e),
        },
        Repr::Int => i32::mc_deserialize(data),
    }
}

/// A literal that fits its wire type is read back as it was written.
pub proof fn lemma_literal_round_trip(repr: Repr, literal: i32, rest: Seq<u8>)
    requires
        literal_fits(repr, literal),
    ensures
        literal_parse(repr, literal_wire(repr, literal) + rest) == Ok::<
            (i32, Seq<u8>),
            Malformed,
        >((literal, rest)),
{
    match repr {
        Repr::Byte => u8::round_trip(literal as u8, rest),
        Repr::VarInt => VarInt::round_trip(literal, rest),
        Repr::Int => i32::round_trip(literal, rest),
    }
}

/// A literal whose wire format was cut short is reported as such.
pub proof fn lemma_literal_cut_short(repr: Repr, literal: i32, n: int)
    requires
        0 <= n < literal_wire(repr, literal).len(),
    ensures
        literal_parse(repr, literal_wire(repr, literal).take(n)) == Err::<
            (i32, Seq<u8>),
            Malformed,
        >(Malformed::Eof),
{
    match repr {
        Repr::Byte => u8::cut_short((unsigned(literal) % 0x100) as u8, n),
        Repr::VarInt => VarInt::cut_short(literal, n),
        Repr::Int => i32::cut_short(literal, n),
    }
}

/// Whatever literal is read fits its wire type, and what is left over is
/// the end of the buffer.
pub proof fn lemma_literal_leaves_suffix(repr: Repr, data: Seq<u8>)
    ensures
        literal_parse(repr, data) matches Ok((literal, rest)) ==> literal_fits(repr, literal)
            && is_suffix(rest, data),
{
    match repr {
        Repr::Byte => u8::leaves_suffix(data),
        Repr::VarInt => VarInt::leaves_suffix(data),
        Repr::Int => i32::leaves_suffix(data),
    }
}

/// One variant of an enumerated wire value: the literal that stands for
/// it on the wire, under the wire type that carries it.
#[derive(Debug, Clone, Copy, PartialEq, Eq, Structural)]
pub struct EnumValue {
    pub repr: Repr,
    pub literal: i32,
}

impl View for EnumValue {
    type V = EnumValue;

    open spec fn view(&self) -> EnumValue {
        *self
    }
}

impl EnumValue {
    /// The literal bound to the variant.
    pub fn to_literal(&self) -> (r: i32)
        ensures
            r == self.literal,
    {
        self.literal
    }
}

impl Serialize for EnumValue {
    open spec fn wire(v: EnumValue) -> Seq<u8> {
        literal_wire(v.repr, v.literal)
    }

    fn mc_serialize<S: Serializer>(&self, to: &mut S) -> (r: SerializeResult) {
        write_literal(self.repr, self.literal, to)
    }
}

/// One line of the table that declares an enumerated wire value.
#[derive(Debug, Clone, PartialEq, Eq)]
pub struct EnumEntry {
    pub literal: i32,
    pub name: String,
}

/// Why a table of variants was refused. Each names the first entry at
/// fault.
#[derive(Debug, Clone, Copy, PartialEq, Eq, Structural)]
pub enum EnumTableErr {
    /// The table declares nothing.
    NoVariants,
    /// The literal of the entry at this index is no value of the wire type.
    LiteralOutOfRange(usize),
    /// The literal of the entry at this index was declared before it.
    DuplicateLiteral(usize),
}

/// The text that reports a literal outside the declared set.
pub open spec fn invalid_message(type_label: Seq<char>, literal: i32) -> Seq<char> {
    "invalid "@ + type_label + " "@ + decimal(literal as int)
}

/// The mathematical form of an [`EnumCodec`].
pub struct EnumModel {
    pub type_label: Seq<char>,
    pub repr: Repr,
    /// The declared literals with their names, in the order of declaration.
    pub entries: Seq<(i32, Seq<char>)>,
}

impl EnumModel {
    /// Entry `i` carries a literal of the wire type that no entry before it
    /// carries.
    pub open spec fn entry_ok(self, i: int) -> bool {
        &&& literal_fits(self.repr, self.entries[i].0)
        &&& forall|j: int| 0 <= j < i ==> (#[trigger] self.entries[j]).0 != self.entries[i].0
    }

    /// The table binds each literal to one variant and each variant to one
    /// literal.
    pub open spec fn ok(self) -> bool {
        &&& self.entries.len() > 0
        &&& forall|i: int| 0 <= i < self.entries.len() ==> self.entry_ok(i)
    }

    /// Entry `i` is bound to `literal`.
    pub open spec fn binds(self, i: int, literal: i32) -> bool {
        0 <= i < self.entries.len() && self.entries[i].0 == literal
    }

    pub open spec fn declares(self, literal: i32) -> bool {
        exists|i: int| self.binds(i, literal)
    }

    /// The entry bound to a declared literal.
    pub open spec fn index_of(self, literal: i32) -> int {
        choose|i: int| self.binds(i, literal)
    }

    /// The variant that entry `i` declares.
    pub open spec fn variant(self, i: int) -> EnumValue {
        EnumValue { repr: self.repr, literal: self.entries[i].0 }
    }

    /// The variant belongs to this set: it travels in the set's wire type,
    /// as a literal of that type, and the literal is a declared one.
    pub open spec fn owns(self, v: EnumValue) -> bool {
        v.repr == self.repr && literal_fits(self.repr, v.literal) && self.declares(v.literal)
    }

    /// What reading a variant from `data` comes to: a literal is read, and
    /// it has to be a declared one.
    pub open spec fn parse(self, data: Seq<u8>) -> Parsed<EnumValue> {
        match literal_parse(self.repr, data) {
            Ok((literal, rest)) => if self.declares(literal) {
                Ok((EnumValue { repr: self.repr, literal }, rest))
            } else {
                Err(Malformed::CannotUnderstandValue(invalid_message(self.type_label, literal)))
            },
            Err(e) => Err(e),
        }
    }

    /// The text that shows a variant: its name, and its literal in brackets.
    pub open spec fn display(self, literal: i32) -> Seq<char> {
        let name = self.entries[self.index_of(literal)].1;
        match self.repr {
            Repr::VarInt => name + "(VarInt("@ + decimal(literal as int) + "))"@,
            _ => name + "(0x"@ + hex(unsigned(literal) as nat) + ")"@,
        }
    }
}

/// In a table that is in order, one entry at most is bound to a literal.
pub proof fn lemma_one_entry_per_literal(m: EnumModel, i: int, literal: i32)
    requires
        m.ok(),
        m.binds(i, literal),
    ensures
        m.declares(literal),
        m.index_of(literal) == i,
        literal_fits(m.repr, literal),
{
    assert(m.entry_ok(i));
    let k = m.index_of(literal);
    assert(m.binds(k, literal));
    if k < i {
        assert(m.entry_ok(i));
        assert(m.entries[k].0 != m.entries[i].0);
    }
    if i < k {
        assert(m.entry_ok(k));
        assert(m.entries[i].0 != m.entries[k].0);
    }
}

/// Every declared variant is read back as it was written, whatever follows
/// it.
pub proof fn lemma_enum_round_trip(m: EnumModel, i: int, rest: Seq<u8>)
    requires
        m.ok(),
        0 <= i < m.entries.len(),
    ensures
        m.parse(EnumValue::wire(m.variant(i)) + rest) == Ok::<(EnumValue, Seq<u8>), Malformed>(
            (m.variant(i), rest),
        ),
{
    let literal = m.entries[i].0;
    assert(m.entry_ok(i));
    assert(m.binds(i, literal));
    lemma_literal_round_trip(m.repr, literal, rest);
}

/// Every variant of the set is read back as it was written, whatever
/// follows it.
pub proof fn lemma_owned_round_trip(m: EnumModel, v: EnumValue, rest: Seq<u8>)
    requires
        m.owns(v),
    ensures
        m.parse(EnumValue::wire(v) + rest) == Ok::<(EnumValue, Seq<u8>), Malformed>((v, rest)),
{
    lemma_literal_round_trip(m.repr, v.literal, rest);
}

/// A variant whose wire format was cut short is reported as such.
pub proof fn lemma_enum_cut_short(m: EnumModel, v: EnumValue, n: int)
    requires
        v.repr == m.repr,
        0 <= n < EnumValue::wire(v).len(),
    ensures
        m.parse(EnumValue::wire(v).take(n)) == Err::<(EnumValue, Seq<u8>), Malformed>(
            Malformed::Eof,
        ),
{
    lemma_literal_cut_short(m.repr, v.literal, n);
}

/// What reading a variant leaves over is the end of the buffer.
pub proof fn lemma_enum_leaves_suffix(m: EnumModel, data: Seq<u8>)
    ensures
        m.parse(data) matches Ok((v, rest)) ==> m.owns(v) && is_suffix(rest, data),
{
    lemma_literal_leaves_suffix(m.repr, data);
}

/// A literal outside the declared set is refused, by name.
pub proof fn lemma_enum_rejects_undeclared(m: EnumModel, literal: i32, rest: Seq<u8>)
    requires
        literal_fits(m.repr, literal),
        !m.declares(literal),
    ensures
        m.parse(literal_wire(m.repr, literal) + rest) == Err::<(EnumValue, Seq<u8>), Malformed>(
            Malformed::CannotUnderstandValue(invalid_message(m.type_label, literal)),
        ),
{
    lemma_literal_round_trip(m.repr, literal, rest);
}

/// The compiled form of a table of variants.
#[derive(Debug)]
pub struct EnumCodec {
    type_label: String,
    repr: Repr,
    entries: Vec<EnumEntry>,
}

impl View for EnumCodec {
    type V = EnumModel;

    closed spec fn view(&self) -> EnumModel {
        EnumModel {
            type_label: self.type_label@,
            repr: self.repr,
            entries: entries_model(self.entries@),
        }
    }
}

/// The literals and names of a table.
pub open spec fn entries_model(entries: Seq<EnumEntry>) -> Seq<(i32, Seq<char>)> {
    entries.map_values(|e: EnumEntry| (e.literal, e.name@))
}

impl EnumCodec {
    #[verifier::type_invariant]
    closed spec fn inv(&self) -> bool {
        self@.ok()
    }

    /// Compiles a table of variants. The table is refused at the first
    /// entry whose literal is no value of the wire type or was declared
    /// before it.
    pub fn new(type_label: String, repr: Repr, entries: Vec<EnumEntry>) -> (r: Result<
        Self,
        EnumTableErr,
    >)
        ensures
            ({
                let m = EnumModel {
                    type_label: type_label@,
                    repr,
                    entries: entries_model(entries@),
                };
                match r {
                    Ok(codec) => m.ok() && codec@ == m,
                    Err(EnumTableErr::NoVariants) => entries.len() == 0,
                    Err(EnumTableErr::LiteralOutOfRange(i)) => {
                        &&& i < entries.len()
                        &&& forall|k: int| 0 <= k < i ==> m.entry_ok(k)
                        &&& !literal_fits(repr, entries[i as int].literal)
                    },
                    Err(EnumTableErr::DuplicateLiteral(i)) => {
                        &&& i < entries.len()
                        &&& forall|k: int| 0 <= k < i ==> m.entry_ok(k)
                        &&& literal_fits(repr, entries[i as int].literal)
                        &&& !m.entry_ok(i as int)
                    },
                }
            }),
    {
        let ghost m = EnumModel { type_label: type_label@, repr, entries: entries_model(entries@) };
        if entries.len() == 0 {
            return Err(EnumTableErr::NoVariants);
        }
        let mut i: usize = 0;
        while i < entries.len()
            invariant
                i <= entries.len(),
                m == (EnumModel { type_label: type_label@, repr, entries: entries_model(entries@) }),
                forall|k: int| 0 <= k < i ==> m.entry_ok(k),
            decreases entries.len() - i,
        {
            let literal = entries[i].literal;
            let fits = match repr {
                Repr::Byte => 0 <= literal && literal <= 0xff,
                _ => true,
            };
            if !fits {
                return Err(EnumTableErr::LiteralOutOfRange(i));
            }
            let mut j: usize = 0;
            while j < i
                invariant
                    j <= i < entries.len(),
                    literal == entries[i as int].literal,
                    literal_fits(repr, literal),
                    m == (EnumModel {
                        type_label: type_label@,
                        repr,
                        entries: entries_model(entries@),
                    }),
                    forall|k: int| 0 <= k < i ==> m.entry_ok(k),
                    forall|k: int| 0 <= k < j ==> (#[trigger] m.entries[k]).0 != literal,
                decreases i - j,
            {
                if entries[j].literal == literal {
                    proof {
                        assert(m.entries[j as int].0 == m.entries[i as int].0);
                    }
                    return Err(EnumTableErr::DuplicateLiteral(i));
                }
                j += 1;
            }
            i += 1;
        }
        Ok(EnumCodec { type_label, repr, entries })
    }

    /// The name of the enumerated type.
    pub fn type_label(&self) -> (r: &str)
        ensures
            r@ == self@.type_label,
    {
        self.type_label.as_str()
    }

    /// The wire type that carries the literals.
    pub fn repr(&self) -> (r: Repr)
        ensures
            r == self@.repr,
    {
        self.repr
    }

    /// The number of declared variants.
    pub fn len(&self) -> (r: usize)
        ensures
            r == self@.entries.len(),
            r > 0,
            self@.ok(),
    {
        proof {
            use_type_invariant(self);
        }
        self.entries.len()
    }

    /// The entry bound to `literal`, if it is declared.
    fn position(&self, literal: i32) -> (r: Option<usize>)
        ensures
            self@.ok(),
            match r {
                Some(i) => self@.binds(i as int, literal) && self@.index_of(literal) == i
                    && literal_fits(self@.repr, literal),
                None => !self@.declares(literal),
            },
    {
        proof {
            use_type_invariant(self);
        }
        let mut i: usize = 0;
        while i < self.entries.len()
            invariant
                i <= self.entries.len(),
                self@.ok(),
                forall|k: int| 0 <= k < i ==> !self@.binds(k, literal),
            decreases self.entries.len() - i,
        {
            if self.entries[i].literal == literal {
                proof {
                    lemma_one_entry_per_literal(self@, i as int, literal);
                }
                return Some(i);
            }
            i += 1;
        }
        None
    }

    /// The variant bound to `literal`, if there is one.
    pub fn lookup(&self, literal: i32) -> (r: Option<EnumValue>)
        ensures
            r == if self@.declares(literal) {
                Some(EnumValue { repr: self@.repr, literal })
            } else {
                None
            },
    {
        match self.position(literal) {
            Some(_) => Some(EnumValue { repr: self.repr, literal }),
            None => None,
        }
    }

    /// Whether the variant belongs to this set.
    pub fn owns(&self, v: EnumValue) -> (r: bool)
        ensures
            r == self@.owns(v),
    {
        v.repr == self.repr && self.position(v.literal).is_some()
    }

    /// The declared name of a variant; nothing for a variant of another
    /// set.
    pub fn name(&self, v: EnumValue) -> (r: Option<&str>)
        ensures
            match r {
                Some(name) => self@.owns(v) && name@ == self@.entries[self@.index_of(
                    v.literal,
                )].1,
                None => !self@.owns(v),
            },
    {
        if !(v.repr == self.repr) {
            return None;
        }
        match self.position(v.literal) {
            Some(i) => Some(self.entries[i].name.as_str()),
            None => None,
        }
    }

    /// The text that shows a variant: its name, and its literal in
    /// brackets; nothing for a variant of another set.
    pub fn display(&self, v: EnumValue) -> (r: Option<String>)
        ensures
            match r {
                Some(text) => self@.owns(v) && text@ == self@.display(v.literal),
                None => !self@.owns(v),
            },
    {
        let name = match self.name(v) {
            Some(name) => name,
            None => {
                return None;
            },
        };
        let mut out = String::from_str(name);
        match self.repr {
            Repr::VarInt => {
                out.append("(VarInt(");
                out.append(decimal_string(v.literal).as_str());
                out.append("))");
            },
            _ => {
                out.append("(0x");
                out.append(hex_string(to_unsigned(v.literal)).as_str());
                out.append(")");
            },
        }
        Some(out)
    }

    /// Reads one variant from the front of `data`.
    pub fn decode<'a>(&self, data: &'a [u8]) -> (r: DeserializeResult<'a, EnumValue>)
        ensures
            reads(r, self@.parse(data@)),
    {
        let d = match read_literal(self.repr, data) {
            Ok(d) => d,
            Err(e) => {
                return Err(e);
            },
        };
        match self.lookup(d.value) {
            Some(v) => Ok(Deserialized { value: v, data: d.data }),
            None => {
                let mut text = String::from_str("invalid ");
                text.append(self.type_label.as_str());
                text.append(" ");
                text.append(decimal_string(d.value).as_str());
                Err(DeserializeErr::CannotUnderstandValue(text))
            },
        }
    }

    /// The variant that entry `index` declares, counted round the table.
    pub fn pick(&self, index: usize) -> (r: EnumValue)
        ensures
            self@.ok(),
            r == self@.variant(index as int % self@.entries.len() as int),
            self@.owns(r),
    {
        let n = self.len();
        let i = index % n;
        proof {
            lemma_one_entry_per_literal(self@, i as int, self.entries[i as int].literal);
        }
        EnumValue { repr: self.repr, literal: self.entries[i].literal }
    }
}

} // verus!
