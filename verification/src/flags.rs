//! Up to eight boolean flags packed into one byte, each under a bit mask.

use crate::wire::{
    Deserialize, DeserializeResult, Deserialized, Parsed, ProtocolType, Serialize,
    SerializeResult, Serializer,
};
use vstd::prelude::*;
use vstd::string::*;

verus! {

/// A byte of flags.
#[derive(Debug, Clone, Copy, PartialEq, Eq, Structural)]
pub struct ByteFlags(pub u8);

impl View for ByteFlags {
    type V = u8;

    open spec fn view(&self) -> u8 {
        self.0
    }
}

impl Default for ByteFlags {
    fn default() -> (r: Self)
        ensures
            r.0 == 0,
    {
        ByteFlags(0)
    }
}

/// Whether `byte` has a bit of `mask` set.
pub open spec fn flag_of(byte: u8, mask: u8) -> bool {
    byte & mask != 0
}

/// `byte` with the bits of `mask` set, or cleared.
pub open spec fn flag_put(byte: u8, mask: u8, value: bool) -> u8 {
    if value {
        byte | mask
    } else {
        byte & !mask
    }
}

impl ByteFlags {
    /// Whether the flag under `mask` is set.
    pub fn is_set(&self, mask: u8) -> (r: bool)
        ensures
            r == flag_of(self.0, mask),
    {
        self.0 & mask != 0
    }

    /// Sets or clears the flag under `mask`, whatever it was before.
    pub fn set(&mut self, mask: u8, value: bool)
        ensures
            final(self).0 == flag_put(old(self).0, mask, value),
    {
        if value {
            self.0 = self.0 | mask;
        } else {
            self.0 = self.0 & !mask;
        }
    }

    /// The same flags, but for the one under `mask`.
    pub fn with(self, mask: u8, value: bool) -> (r: Self)
        ensures
            r.0 == flag_put(self.0, mask, value),
    {
        let mut out = self;
        out.set(mask, value);
        out
    }
}

/// A flag reads as what it was last set to.
pub proof fn lemma_flag_reads_as_set(byte: u8, mask: u8, value: bool)
    requires
        mask != 0,
    ensures
        flag_of(flag_put(byte, mask, value), mask) == value,
{
    assert((byte | mask) & mask != 0) by (bit_vector)
        requires
            mask != 0,
    ;
    assert((byte & !mask) & mask == 0) by (bit_vector);
}

/// Setting a flag twice to one value is setting it once.
pub proof fn lemma_flag_put_idempotent(byte: u8, mask: u8, value: bool)
    ensures
        flag_put(flag_put(byte, mask, value), mask, value) == flag_put(byte, mask, value),
{
    assert((byte | mask) | mask == byte | mask) by (bit_vector);
    assert((byte & !mask) & !mask == byte & !mask) by (bit_vector);
}

/// Setting a flag leaves every flag on other bits as it was.
pub proof fn lemma_flags_independent(byte: u8, mask: u8, value: bool, other: u8)
    requires
        mask & other == 0,
    ensures
        flag_of(flag_put(byte, mask, value), other) == flag_of(byte, other),
        flag_put(byte, mask, value) & other == byte & other,
{
    assert((byte | mask) & other == byte & other) by (bit_vector)
        requires
            mask & other == 0,
    ;
    assert((byte & !mask) & other == byte & other) by (bit_vector)
        requires
            mask & other == 0,
    ;
}

/// `mask` is one bit of a byte.
pub open spec fn one_bit(mask: u8) -> bool {
    mask == 0x01 || mask == 0x02 || mask == 0x04 || mask == 0x08 || mask == 0x10 || mask == 0x20
        || mask == 0x40 || mask == 0x80
}

pub fn is_one_bit(mask: u8) -> (r: bool)
    ensures
        r == one_bit(mask),
{
    mask == 0x01 || mask == 0x02 || mask == 0x04 || mask == 0x08 || mask == 0x10 || mask == 0x20
        || mask == 0x40 || mask == 0x80
}

/// Two different bits have nothing in common.
pub proof fn lemma_bits_apart(a: u8, b: u8)
    requires
        one_bit(a),
        one_bit(b),
        a != b,
    ensures
        a & b == 0,
{
    assert(a & b == 0) by (bit_vector)
        requires
            a == 0x01 || a == 0x02 || a == 0x04 || a == 0x08 || a == 0x10 || a == 0x20 || a
                == 0x40 || a == 0x80,
            b == 0x01 || b == 0x02 || b == 0x04 || b == 0x08 || b == 0x10 || b == 0x20 || b
                == 0x40 || b == 0x80,
            a != b,
    ;
}

/// One line of the table that declares a byte of flags.
#[derive(Debug, Clone, PartialEq, Eq)]
pub struct FlagEntry {
    pub mask: u8,
    pub name: String,
}

/// Why a table of flags was refused. Each names the first entry at fault.
#[derive(Debug, Clone, Copy, PartialEq, Eq, Structural)]
pub enum FlagTableErr {
    /// The mask of the entry at this index is not one bit.
    NotOneBit(usize),
    /// The bit of the entry at this index belongs to an entry before it.
    BitTaken(usize),
    /// The name of the entry at this index belongs to an entry before it.
    NameTaken(usize),
}

/// The mathematical form of a [`FlagTable`].
pub struct FlagModel {
    pub type_label: Seq<char>,
    /// The declared masks with their names, in the order of declaration.
    pub entries: Seq<(u8, Seq<char>)>,
}

impl FlagModel {
    /// No entry before `i` has the bit of entry `i`.
    pub open spec fn bit_free(self, i: int) -> bool {
        forall|j: int| 0 <= j < i ==> (#[trigger] self.entries[j]).0 != self.entries[i].0
    }

    /// No entry before `i` has the name of entry `i`.
    pub open spec fn name_free(self, i: int) -> bool {
        forall|j: int| 0 <= j < i ==> (#[trigger] self.entries[j]).1 != self.entries[i].1
    }

    /// Entry `i` owns one bit and a name, and shares neither with an entry
    /// before it.
    pub open spec fn entry_ok(self, i: int) -> bool {
        one_bit(self.entries[i].0) && self.bit_free(i) && self.name_free(i)
    }

    /// Every flag owns one bit and one name of its own.
    pub open spec fn ok(self) -> bool {
        forall|i: int| 0 <= i < self.entries.len() ==> self.entry_ok(i)
    }

    /// Entry `i` declares the flag `name`.
    pub open spec fn binds(self, i: int, name: Seq<char>) -> bool {
        0 <= i < self.entries.len() && self.entries[i].1 == name
    }

    pub open spec fn declares(self, name: Seq<char>) -> bool {
        exists|i: int| self.binds(i, name)
    }

    /// The mask of a declared flag.
    pub open spec fn mask_of(self, name: Seq<char>) -> u8 {
        self.entries[choose|i: int| self.binds(i, name)].0
    }

    /// The table declares a flag on the bit `mask`.
    pub open spec fn owns_bit(self, mask: u8) -> bool {
        exists|i: int| 0 <= i < self.entries.len() && (#[trigger] self.entries[i]).0 == mask
    }
}

/// In a table that is in order, one entry at most declares a name.
pub proof fn lemma_one_flag_per_name(m: FlagModel, i: int, name: Seq<char>)
    requires
        m.ok(),
        m.binds(i, name),
    ensures
        m.declares(name),
        m.mask_of(name) == m.entries[i].0,
        one_bit(m.mask_of(name)),
{
    let k = choose|k: int| m.binds(k, name);
    assert(m.binds(k, name));
    assert(m.entry_ok(i));
    if k < i {
        assert(m.name_free(i));
        assert(m.entries[k].1 != m.entries[i].1);
    }
    if i < k {
        assert(m.entry_ok(k));
        assert(m.name_free(k));
        assert(m.entries[i].1 != m.entries[k].1);
    }
}

/// Setting one declared flag leaves every other declared flag as it was,
/// and the flag itself reads as what it was set to.
pub proof fn lemma_named_flags_independent(m: FlagModel, byte: u8, i: int, j: int, value: bool)
    requires
        m.ok(),
        0 <= i < m.entries.len(),
        0 <= j < m.entries.len(),
        i != j,
    ensures
        flag_of(flag_put(byte, m.entries[i].0, value), m.entries[i].0) == value,
        flag_of(flag_put(byte, m.entries[i].0, value), m.entries[j].0) == flag_of(
            byte,
            m.entries[j].0,
        ),
{
    let a = m.entries[i].0;
    let b = m.entries[j].0;
    assert(m.entry_ok(i));
    assert(m.entry_ok(j));
    if i < j {
        assert(m.bit_free(j));
        assert(m.entries[i].0 != m.entries[j].0);
    } else {
        assert(m.bit_free(i));
        assert(m.entries[j].0 != m.entries[i].0);
    }
    lemma_bits_apart(a, b);
    lemma_flag_reads_as_set(byte, a, value);
    lemma_flags_independent(byte, a, value, b);
}

/// The models of the entries of a table.
pub open spec fn flag_entries_model(entries: Seq<FlagEntry>) -> Seq<(u8, Seq<char>)> {
    entries.map_values(|e: FlagEntry| (e.mask, e.name@))
}

/// The compiled form of a table of flags: named access to the bits of a
/// byte.
#[derive(Debug)]
pub struct FlagTable {
    type_label: String,
    entries: Vec<FlagEntry>,
}

impl View for FlagTable {
    type V = FlagModel;

    closed spec fn view(&self) -> FlagModel {
        FlagModel { type_label: self.type_label@, entries: flag_entries_model(self.entries@) }
    }
}

impl FlagTable {
    #[verifier::type_invariant]
    closed spec fn inv(&self) -> bool {
        self@.ok()
    }

    /// Compiles a table of flags. The table is refused at the first entry
    /// whose mask is not one bit, or whose bit or name belongs to an entry
    /// before it.
    pub fn new(type_label: String, entries: Vec<FlagEntry>) -> (r: Result<Self, FlagTableErr>)
        ensures
            ({
                let m = FlagModel {
                    type_label: type_label@,
                    entries: flag_entries_model(entries@),
                };
                match r {
                    Ok(table) => m.ok() && table@ == m,
                    Err(FlagTableErr::NotOneBit(i)) => {
                        &&& i < entries.len()
                        &&& forall|k: int| 0 <= k < i ==> m.entry_ok(k)
                        &&& !one_bit(entries[i as int].mask)
                    },
                    Err(FlagTableErr::BitTaken(i)) => {
                        &&& i < entries.len()
                        &&& forall|k: int| 0 <= k < i ==> m.entry_ok(k)
                        &&& one_bit(entries[i as int].mask)
                        &&& !m.bit_free(i as int)
                    },
                    Err(FlagTableErr::NameTaken(i)) => {
                        &&& i < entries.len()
                        &&& forall|k: int| 0 <= k < i ==> m.entry_ok(k)
                        &&& one_bit(entries[i as int].mask)
                        &&& m.bit_free(i as int)
                        &&& !m.name_free(i as int)
                    },
                }
            }),
    {
        let ghost m = FlagModel { type_label: type_label@, entries: flag_entries_model(entries@) };
        let mut i: usize = 0;
        while i < entries.len()
            invariant
                i <= entries.len(),
                m == (FlagModel { type_label: type_label@, entries: flag_entries_model(entries@) }),
                forall|k: int| 0 <= k < i ==> m.entry_ok(k),
            decreases entries.len() - i,
        {
            if !is_one_bit(entries[i].mask) {
                return Err(FlagTableErr::NotOneBit(i));
            }
            let mut j: usize = 0;
            while j < i
                invariant
                    j <= i < entries.len(),
                    one_bit(entries[i as int].mask),
                    m == (FlagModel {
                        type_label: type_label@,
                        entries: flag_entries_model(entries@),
                    }),
                    forall|k: int| 0 <= k < i ==> m.entry_ok(k),
                    forall|k: int| 0 <= k < j ==> (#[trigger] m.entries[k]).0 != m.entries[i as int].0,
                decreases i - j,
            {
                if entries[j].mask == entries[i].mask {
                    proof {
                        assert(m.entries[j as int].0 == m.entries[i as int].0);
                    }
                    return Err(FlagTableErr::BitTaken(i));
                }
                j += 1;
            }
            let mut j: usize = 0;
            while j < i
                invariant
                    j <= i < entries.len(),
                    one_bit(entries[i as int].mask),
                    m == (FlagModel {
                        type_label: type_label@,
                        entries: flag_entries_model(entries@),
                    }),
                    forall|k: int| 0 <= k < i ==> m.entry_ok(k),
                    m.bit_free(i as int),
                    forall|k: int| 0 <= k < j ==> (#[trigger] m.entries[k]).1 != m.entries[i as int].1,
                decreases i - j,
            {
                if entries[j].name == entries[i].name {
                    proof {
                        assert(m.entries[j as int].1 == m.entries[i as int].1);
                    }
                    return Err(FlagTableErr::NameTaken(i));
                }
                j += 1;
            }
            i += 1;
        }
        Ok(FlagTable { type_label, entries })
    }

    /// The name of the flag type.
    pub fn type_label(&self) -> (r: &str)
        ensures
            r@ == self@.type_label,
    {
        self.type_label.as_str()
    }

    /// The number of declared flags.
    pub fn len(&self) -> (r: usize)
        ensures
            r == self@.entries.len(),
            self@.ok(),
    {
        proof {
            use_type_invariant(self);
        }
        self.entries.len()
    }

    /// The mask of the flag at `index`, in the order of declaration.
    pub fn mask_at(&self, index: usize) -> (r: Option<u8>)
        ensures
            self@.ok(),
            match r {
                Some(mask) => index < self@.entries.len() && mask == self@.entries[index as int].0
                    && one_bit(mask),
                None => index >= self@.entries.len(),
            },
    {
        proof {
            use_type_invariant(self);
        }
        if index < self.entries.len() {
            proof {
                assert(self@.entry_ok(index as int));
            }
            Some(self.entries[index].mask)
        } else {
            None
        }
    }

    /// The mask of the flag `name`, if it is declared.
    pub fn mask_of(&self, name: &str) -> (r: Option<u8>)
        ensures
            self@.ok(),
            match r {
                Some(mask) => self@.declares(name@) && mask == self@.mask_of(name@) && one_bit(
                    mask,
                ),
                None => !self@.declares(name@),
            },
    {
        proof {
            use_type_invariant(self);
        }
        let wanted = String::from_str(name);
        let mut i: usize = 0;
        while i < self.entries.len()
            invariant
                i <= self.entries.len(),
                self@.ok(),
                wanted@ == name@,
                forall|k: int| 0 <= k < i ==> !self@.binds(k, name@),
            decreases self.entries.len() - i,
        {
            if self.entries[i].name == wanted {
                proof {
                    lemma_one_flag_per_name(self@, i as int, name@);
                }
                return Some(self.entries[i].mask);
            }
            i += 1;
        }
        None
    }

    /// Whether the flag `name` is set; nothing for a name that is not
    /// declared.
    pub fn is_set(&self, flags: ByteFlags, name: &str) -> (r: Option<bool>)
        ensures
            r == if self@.declares(name@) {
                Some(flag_of(flags.0, self@.mask_of(name@)))
            } else {
                None
            },
    {
        match self.mask_of(name) {
            Some(mask) => Some(flags.is_set(mask)),
            None => None,
        }
    }

    /// Sets or clears the flag `name`, whatever it was before, and says
    /// whether the name is declared. The flags stay as they are where it is
    /// not.
    pub fn set(&self, flags: &mut ByteFlags, name: &str, value: bool) -> (r: bool)
        ensures
            r == self@.declares(name@),
            final(flags).0 == if self@.declares(name@) {
                flag_put(old(flags).0, self@.mask_of(name@), value)
            } else {
                old(flags).0
            },
    {
        match self.mask_of(name) {
            Some(mask) => {
                flags.set(mask, value);
                true
            },
            None => false,
        }
    }

    /// The same flags, but for the flag `name`; nothing for a name that is
    /// not declared.
    pub fn with(&self, flags: ByteFlags, name: &str, value: bool) -> (r: Option<ByteFlags>)
        ensures
            r == if self@.declares(name@) {
                Some(ByteFlags(flag_put(flags.0, self@.mask_of(name@), value)))
            } else {
                None
            },
    {
        match self.mask_of(name) {
            Some(mask) => Some(flags.with(mask, value)),
            None => None,
        }
    }
}

impl Serialize for ByteFlags {
    open spec fn wire(v: u8) -> Seq<u8> {
        seq![v]
    }

    fn mc_serialize<S: Serializer>(&self, to: &mut S) -> (r: SerializeResult) {
        let r = to.serialize_byte(self.0);
        proof {
            assert(old(to).written().push(self.0) =~= old(to).written() + seq![self.0]);
        }
        r
    }
}

impl Deserialize for ByteFlags {
    /// Every byte is a byte of flags.
    open spec fn parse(data: Seq<u8>) -> Parsed<u8> {
        u8::parse(data)
    }

    fn mc_deserialize(data: &[u8]) -> (r: DeserializeResult<'_, Self>) {
        match u8::mc_deserialize(data) {
            Ok(d) => Ok(Deserialized { value: ByteFlags(d.value), data: d.data }),
            Err(e) => Err(e),
        }
    }
}

impl ProtocolType for ByteFlags {
    open spec fn legal(v: u8) -> bool {
        true
    }

    proof fn round_trip(v: u8, rest: Seq<u8>) {
        u8::round_trip(v, rest);
    }

    proof fn cut_short(v: u8, n: int) {
        u8::cut_short(v, n);
    }

    proof fn leaves_suffix(data: Seq<u8>) {
        u8::leaves_suffix(data);
    }
}

} // verus!
