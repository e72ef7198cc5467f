//! The schema compiler: from a table of packet definitions to the codec of
//! every packet body, the dispatch of raw packets by key, and the
//! description of the protocol.

use crate::field::{
    admits, lemma_value_cut_short, lemma_value_leaves_suffix, lemma_value_round_trip,
    lemma_values_wire_front, parse_value, FieldType, TypeModel,
};
use crate::protocol::{
    FieldOutline, Id, Packet, PacketDirection, PacketErr, PacketFault, PacketOutline,
    ProtocolOutline, ProtocolPacketField, ProtocolPacketSpec, ProtocolSpec, RawPacket, State,
};
use crate::value::{
    lemma_models, models, value_wire, values_wire, write_values, Value, ValueModel,
};
use crate::wire::{
    is_suffix, lemma_suffix_of_suffix, reads, DeserializeResult, Deserialized, Malformed, Parsed,
    Serialize, SerializeResult, Serializer,
};
use vstd::prelude::*;
use vstd::string::*;

verus! {

/// One field of a packet definition: its name, the name of its type as
/// declared, and the type.
#[derive(Debug)]
pub struct FieldDef {
    pub name: String,
    pub kind: String,
    pub ty: FieldType,
}

/// The mathematical form of a [`FieldDef`].
pub struct FieldDefModel {
    pub name: Seq<char>,
    pub kind: Seq<char>,
    pub ty: TypeModel,
}

impl View for FieldDef {
    type V = FieldDefModel;

    open spec fn view(&self) -> FieldDefModel {
        FieldDefModel { name: self.name@, kind: self.kind@, ty: self.ty@ }
    }
}

/// One line of the packet table.
#[derive(Debug)]
pub struct PacketDef {
    pub name: String,
    pub id: i32,
    pub state: State,
    pub direction: PacketDirection,
    pub body_struct: String,
    pub fields: Vec<FieldDef>,
}

/// The mathematical form of a [`PacketDef`].
pub struct PacketDefModel {
    pub name: Seq<char>,
    pub id: i32,
    pub state: State,
    pub direction: PacketDirection,
    pub body_struct: Seq<char>,
    pub fields: Seq<FieldDefModel>,
}

impl View for PacketDef {
    type V = PacketDefModel;

    open spec fn view(&self) -> PacketDefModel {
        PacketDefModel {
            name: self.name@,
            id: self.id,
            state: self.state,
            direction: self.direction,
            body_struct: self.body_struct@,
            fields: self.fields@.map_values(|f: FieldDef| f@),
        }
    }
}

/// Reads one value for each field, in the order of declaration, each from
/// what the one before it left.
pub open spec fn parse_fields(fields: Seq<FieldDefModel>, data: Seq<u8>) -> Parsed<
    Seq<ValueModel>,
>
    decreases fields.len(),
{
    if fields.len() == 0 {
        Ok((Seq::<ValueModel>::empty(), data))
    } else {
        match parse_value(fields[0].ty, data) {
            Ok((first, rest)) => match parse_fields(fields.skip(1), rest) {
                Ok((others, left)) => Ok((seq![first] + others, left)),
                Err(e) => Err(e),
            },
            Err(e) => Err(e),
        }
    }
}

/// `values` holds one value for each field, of the field's type.
pub open spec fn body_admits(fields: Seq<FieldDefModel>, values: Seq<ValueModel>) -> bool {
    &&& values.len() == fields.len()
    &&& forall|i: int| 0 <= i < fields.len() ==> admits(fields[i].ty, #[trigger] values[i])
}

impl PacketDefModel {
    /// The key that the packet is declared under.
    pub open spec fn key(self) -> Id {
        Id { id: self.id, state: self.state, direction: self.direction }
    }

    /// The description of the packet.
    pub open spec fn outline(self) -> PacketOutline {
        PacketOutline {
            state: self.state.spec_name(),
            direction: self.direction.spec_name(),
            id: self.id,
            name: self.name,
            body_struct: self.body_struct,
            fields: self.fields.map_values(
                |f: FieldDefModel| FieldOutline { name: f.name, kind: f.kind },
            ),
        }
    }
}

/// The body of a packet: one value for each field, in the order of
/// declaration.
#[derive(Debug, PartialEq)]
pub struct Body {
    pub fields: Vec<Value>,
}

impl Clone for Body {
    fn clone(&self) -> (r: Self)
        ensures
            r@ == self@,
    {
        let fields = self.fields.clone();
        proof {
            lemma_models(self.fields@);
            lemma_models(fields@);
            assert forall|i: int| 0 <= i < fields.len() implies fields[i]@ == self.fields[i]@ by {
                assert(cloned::<Value>(self.fields[i], fields[i]));
            }
            assert(models(fields@) =~= models(self.fields@));
        }
        Body { fields }
    }
}

impl View for Body {
    type V = Seq<ValueModel>;

    open spec fn view(&self) -> Seq<ValueModel> {
        models(self.fields@)
    }
}

impl Serialize for Body {
    /// The wire formats of the fields, one after the other, and nothing
    /// else.
    open spec fn wire(v: Seq<ValueModel>) -> Seq<u8> {
        values_wire(v)
    }

    fn mc_serialize<S: Serializer>(&self, to: &mut S) -> (r: SerializeResult) {
        write_values(&self.fields, to)
    }
}

impl PacketDef {
    /// The key that the packet is declared under.
    pub fn key(&self) -> (r: Id)
        ensures
            r == self@.key(),
    {
        Id { id: self.id, state: self.state, direction: self.direction }
    }

    /// Whether `body` holds one value for each field, of the field's
    /// type.
    pub fn admits(&self, body: &Body) -> (r: bool)
        ensures
            r == body_admits(self@.fields, body@),
    {
        proof {
            lemma_models(body.fields@);
        }
        if body.fields.len() != self.fields.len() {
            return false;
        }
        let mut i: usize = 0;
        while i < self.fields.len()
            invariant
                i <= self.fields.len(),
                body.fields.len() == self.fields.len(),
                body@.len() == body.fields.len(),
                forall|k: int| 0 <= k < body.fields.len() ==> (#[trigger] body@[k]) == body.fields[k]@,
                forall|k: int| 0 <= k < i ==> admits(self@.fields[k].ty, #[trigger] body@[k]),
            decreases self.fields.len() - i,
        {
            if !self.fields[i].ty.admits(&body.fields[i]) {
                proof {
                    assert(!admits(self@.fields[i as int].ty, body@[i as int]));
                }
                return false;
            }
            i += 1;
        }
        true
    }

    /// Reads the body of the packet from the front of `data`.
    pub fn decode_body<'a>(&self, data: &'a [u8]) -> (r: DeserializeResult<'a, Body>)
        ensures
            reads(r, parse_fields(self@.fields, data@)),
    {
        let ghost fields = self@.fields;
        let ghost whole = parse_fields(fields, data@);
        let mut cur = data;
        let mut out: Vec<Value> = Vec::new();
        let mut i: usize = 0;
        proof {
            lemma_models(out@);
            assert(models(out@) =~= Seq::<ValueModel>::empty());
            assert(fields.skip(0) =~= fields);
            match whole {
                Ok((values, left)) => {
                    assert(Seq::<ValueModel>::empty() + values =~= values);
                },
                Err(_) => {},
            }
        }
        while i < self.fields.len()
            invariant
                i <= self.fields.len(),
                fields == self@.fields,
                fields.len() == self.fields.len(),
                out.len() == i,
                whole == parse_fields(fields, data@),
                whole == match parse_fields(fields.skip(i as int), cur@) {
                    Ok((others, left)) => Ok::<(Seq<ValueModel>, Seq<u8>), Malformed>(
                        (models(out@) + others, left),
                    ),
                    Err(e) => Err::<(Seq<ValueModel>, Seq<u8>), Malformed>(e),
                },
            decreases self.fields.len() - i,
        {
            let ghost so_far = models(out@);
            let ghost here = fields.skip(i as int);
            proof {
                assert(here[0] == self.fields[i as int]@);
                assert(here.skip(1) =~= fields.skip(i + 1));
            }
            match self.fields[i].ty.decode(cur) {
                Ok(d) => {
                    proof {
                        let grown = out@.push(d.value);
                        lemma_models(out@);
                        lemma_models(grown);
                        assert(models(grown) =~= so_far + seq![d.value@]);
                        match parse_fields(fields.skip(i + 1), d.data@) {
                            Ok((others, left)) => {
                                assert(so_far + (seq![d.value@] + others) =~= models(grown)
                                    + others);
                            },
                            Err(_) => {},
                        }
                    }
                    cur = d.data;
                    out.push(d.value);
                },
                Err(e) => {
                    return Err(e);
                },
            }
            i += 1;
        }
        proof {
            assert(models(out@) + Seq::<ValueModel>::empty() =~= models(out@));
        }
        Ok(Deserialized { value: Body { fields: out }, data: cur })
    }
}

/// A body is read back as it was written, whatever follows it: every field
/// comes back with its value, and what followed is left over.
pub proof fn lemma_body_round_trip(
    fields: Seq<FieldDefModel>,
    values: Seq<ValueModel>,
    rest: Seq<u8>,
)
    requires
        body_admits(fields, values),
    ensures
        parse_fields(fields, values_wire(values) + rest) == Ok::<
            (Seq<ValueModel>, Seq<u8>),
            Malformed,
        >((values, rest)),
    decreases fields.len(),
{
    if fields.len() == 0 {
        assert(values_wire(values) + rest =~= rest);
        assert(values =~= Seq::<ValueModel>::empty());
    } else {
        let tail = values.skip(1);
        let after = values_wire(tail) + rest;
        lemma_values_wire_front(values, values.len());
        assert(values_wire(values) + rest =~= value_wire(values[0]) + after);
        lemma_value_round_trip(fields[0].ty, values[0], after);
        assert forall|i: int| 0 <= i < fields.skip(1).len() implies admits(
            fields.skip(1)[i].ty,
            #[trigger] tail[i],
        ) by {
            assert(tail[i] == values[i + 1]);
        }
        lemma_body_round_trip(fields.skip(1), tail, rest);
        assert(seq![values[0]] + tail =~= values);
    }
}

/// A body whose wire format was cut short is reported as such.
pub proof fn lemma_body_cut_short(fields: Seq<FieldDefModel>, values: Seq<ValueModel>, n: int)
    requires
        body_admits(fields, values),
        0 <= n < values_wire(values).len(),
    ensures
        parse_fields(fields, values_wire(values).take(n)) == Err::<
            (Seq<ValueModel>, Seq<u8>),
            Malformed,
        >(Malformed::Eof),
    decreases fields.len(),
{
    if fields.len() == 0 {
    } else {
        let first = value_wire(values[0]);
        let tail = values.skip(1);
        let after = values_wire(tail);
        lemma_values_wire_front(values, values.len());
        let cut = values_wire(values).take(n);
        if n < first.len() {
            assert(cut =~= first.take(n));
            lemma_value_cut_short(fields[0].ty, values[0], n);
        } else {
            let m = n - first.len();
            assert(cut =~= first + after.take(m));
            lemma_value_round_trip(fields[0].ty, values[0], after.take(m));
            assert forall|i: int| 0 <= i < fields.skip(1).len() implies admits(
                fields.skip(1)[i].ty,
                #[trigger] tail[i],
            ) by {
                assert(tail[i] == values[i + 1]);
            }
            lemma_body_cut_short(fields.skip(1), tail, m);
        }
    }
}

/// Reading a body gives one value for each field, and leaves over the end
/// of the buffer.
pub proof fn lemma_body_leaves_suffix(fields: Seq<FieldDefModel>, data: Seq<u8>)
    ensures
        parse_fields(fields, data) matches Ok((values, rest)) ==> values.len() == fields.len()
            && is_suffix(rest, data),
    decreases fields.len(),
{
    if fields.len() == 0 {
        assert(data =~= data.skip(0));
    } else {
        lemma_value_leaves_suffix(fields[0].ty, data);
        match parse_value(fields[0].ty, data) {
            Ok((first, rest)) => {
                lemma_body_leaves_suffix(fields.skip(1), rest);
                match parse_fields(fields.skip(1), rest) {
                    Ok((others, left)) => lemma_suffix_of_suffix(left, rest, data),
                    Err(_) => {},
                }
            },
            Err(_) => {},
        }
    }
}

/// A body without fields is written as no bytes, and is read from any
/// buffer without taking any of it.
pub proof fn lemma_body_without_fields(data: Seq<u8>)
    ensures
        values_wire(Seq::<ValueModel>::empty()) == Seq::<u8>::empty(),
        parse_fields(Seq::<FieldDefModel>::empty(), data) == Ok::<
            (Seq<ValueModel>, Seq<u8>),
            Malformed,
        >((Seq::<ValueModel>::empty(), data)),
{
}

/// A packet of a protocol: which definition it is of, by position in the
/// table, and its body.
#[derive(Debug, PartialEq)]
pub struct PacketValue {
    pub variant: usize,
    pub body: Body,
}

impl Clone for PacketValue {
    fn clone(&self) -> (r: Self)
        ensures
            r@ == self@,
    {
        PacketValue { variant: self.variant, body: self.body.clone() }
    }
}

/// The mathematical form of a [`PacketValue`].
pub struct PacketModel {
    pub variant: usize,
    pub body: Seq<ValueModel>,
}

impl View for PacketValue {
    type V = PacketModel;

    open spec fn view(&self) -> PacketModel {
        PacketModel { variant: self.variant, body: self.body@ }
    }
}

impl Serialize for PacketValue {
    /// A packet travels as its body. Its key is no part of it.
    open spec fn wire(v: PacketModel) -> Seq<u8> {
        values_wire(v.body)
    }

    fn mc_serialize<S: Serializer>(&self, to: &mut S) -> (r: SerializeResult) {
        self.body.mc_serialize(to)
    }
}

/// Why a packet table was refused.
#[derive(Debug, Clone, Copy, PartialEq, Eq, Structural)]
pub enum ProtocolErr {
    /// The key of the definition at this index was declared before it.
    DuplicateKey(usize),
}

/// The mathematical form of a [`Protocol`].
pub struct ProtocolModel {
    pub name: Seq<char>,
    /// The packet definitions, in the order of declaration.
    pub packets: Seq<PacketDefModel>,
}

impl ProtocolModel {
    /// No definition before `i` is declared under the key of definition
    /// `i`.
    pub open spec fn key_ok(self, i: int) -> bool {
        forall|j: int| 0 <= j < i ==> (#[trigger] self.packets[j]).key() != self.packets[i].key()
    }

    /// No two definitions share a key.
    pub open spec fn ok(self) -> bool {
        forall|i: int| 0 <= i < self.packets.len() ==> self.key_ok(i)
    }

    /// Definition `i` is declared under `id`.
    pub open spec fn binds(self, i: int, id: Id) -> bool {
        0 <= i < self.packets.len() && self.packets[i].key() == id
    }

    pub open spec fn declares(self, id: Id) -> bool {
        exists|i: int| self.binds(i, id)
    }

    /// The definition declared under `id`.
    pub open spec fn index_of(self, id: Id) -> int {
        choose|i: int| self.binds(i, id)
    }

    /// The packet is of one of the definitions.
    pub open spec fn knows(self, packet: PacketModel) -> bool {
        packet.variant < self.packets.len()
    }

    /// The packet is of one of the definitions, and its body holds a value
    /// of its type for each field.
    pub open spec fn admits(self, packet: PacketModel) -> bool {
        self.knows(packet) && body_admits(self.packets[packet.variant as int].fields, packet.body)
    }

    /// What dispatching `data` under the key `id` comes to: the definition
    /// declared under the key reads its body, and the packet is of that
    /// definition.
    pub open spec fn dispatch(self, id: Id, data: Seq<u8>) -> Result<PacketModel, PacketFault> {
        if !self.declares(id) {
            Err(PacketFault::UnknownId(id.id))
        } else {
            let i = self.index_of(id);
            match parse_fields(self.packets[i].fields, data) {
                Ok((body, _)) => Ok(PacketModel { variant: i as usize, body }),
                Err(e) => Err(PacketFault::DeserializeFailed(e)),
            }
        }
    }

    /// The description of the protocol.
    pub open spec fn describe(self) -> ProtocolOutline {
        ProtocolOutline {
            name: self.name,
            packets: self.packets.map_values(|p: PacketDefModel| p.outline()),
        }
    }
}

/// In a table that is in order, one definition at most is declared under a
/// key.
pub proof fn lemma_one_definition_per_key(m: ProtocolModel, i: int, id: Id)
    requires
        m.ok(),
        m.binds(i, id),
    ensures
        m.declares(id),
        m.index_of(id) == i,
{
    let k = m.index_of(id);
    assert(m.binds(k, id));
    if k < i {
        assert(m.key_ok(i));
        assert(m.packets[k].key() != m.packets[i].key());
    }
    if i < k {
        assert(m.key_ok(k));
        assert(m.packets[i].key() != m.packets[k].key());
    }
}

/// Dispatch under the key of a definition goes to that definition and to
/// no other: its fields read the body.
pub proof fn lemma_dispatch_by_declared_key(m: ProtocolModel, i: int, data: Seq<u8>)
    requires
        m.ok(),
        0 <= i < m.packets.len(),
    ensures
        m.dispatch(m.packets[i].key(), data) == match parse_fields(m.packets[i].fields, data) {
            Ok((body, _)) => Ok::<PacketModel, PacketFault>(
                PacketModel { variant: i as usize, body },
            ),
            Err(e) => Err::<PacketModel, PacketFault>(PacketFault::DeserializeFailed(e)),
        },
{
    lemma_one_definition_per_key(m, i, m.packets[i].key());
}

/// Dispatch under a key that no definition is declared under reports the
/// key's number.
pub proof fn lemma_dispatch_by_unknown_key(m: ProtocolModel, id: Id, data: Seq<u8>)
    requires
        forall|i: int| 0 <= i < m.packets.len() ==> (#[trigger] m.packets[i]).key() != id,
    ensures
        m.dispatch(id, data) == Err::<PacketModel, PacketFault>(PacketFault::UnknownId(id.id)),
{
    if m.declares(id) {
        let i = m.index_of(id);
        assert(m.binds(i, id));
        assert(m.packets[i].key() != id);
    }
}

/// A packet that was written is the packet that dispatch under its key
/// gives back.
pub proof fn lemma_packet_round_trip(m: ProtocolModel, packet: PacketModel)
    requires
        m.ok(),
        m.admits(packet),
    ensures
        m.dispatch(m.packets[packet.variant as int].key(), PacketValue::wire(packet)) == Ok::<
            PacketModel,
            PacketFault,
        >(packet),
{
    let i = packet.variant as int;
    let fields = m.packets[i].fields;
    lemma_dispatch_by_declared_key(m, i, PacketValue::wire(packet));
    lemma_body_round_trip(fields, packet.body, Seq::<u8>::empty());
    assert(values_wire(packet.body) + Seq::<u8>::empty() =~= values_wire(packet.body));
}

/// The models of the definitions of a table.
pub open spec fn packets_model(packets: Seq<PacketDef>) -> Seq<PacketDefModel> {
    packets.map_values(|p: PacketDef| p@)
}

/// The compiled form of a packet table.
#[derive(Debug)]
pub struct Protocol {
    name: String,
    packets: Vec<PacketDef>,
}

impl View for Protocol {
    type V = ProtocolModel;

    closed spec fn view(&self) -> ProtocolModel {
        ProtocolModel { name: self.name@, packets: packets_model(self.packets@) }
    }
}

impl Protocol {
    #[verifier::type_invariant]
    closed spec fn inv(&self) -> bool {
        self@.ok()
    }

    /// Compiles a packet table. The table is refused at the first
    /// definition whose key was declared before it.
    pub fn new(name: String, packets: Vec<PacketDef>) -> (r: Result<Self, ProtocolErr>)
        ensures
            ({
                let m = ProtocolModel { name: name@, packets: packets_model(packets@) };
                match r {
                    Ok(protocol) => m.ok() && protocol@ == m,
                    Err(ProtocolErr::DuplicateKey(i)) => {
                        &&& i < packets.len()
                        &&& forall|k: int| 0 <= k < i ==> m.key_ok(k)
                        &&& !m.key_ok(i as int)
                    },
                }
            }),
    {
        let ghost m = ProtocolModel { name: name@, packets: packets_model(packets@) };
        let mut i: usize = 0;
        while i < packets.len()
            invariant
                i <= packets.len(),
                m == (ProtocolModel { name: name@, packets: packets_model(packets@) }),
                forall|k: int| 0 <= k < i ==> m.key_ok(k),
            decreases packets.len() - i,
        {
            let key = packets[i].key();
            let mut j: usize = 0;
            while j < i
                invariant
                    j <= i < packets.len(),
                    key == m.packets[i as int].key(),
                    m == (ProtocolModel { name: name@, packets: packets_model(packets@) }),
                    forall|k: int| 0 <= k < i ==> m.key_ok(k),
                    forall|k: int| 0 <= k < j ==> (#[trigger] m.packets[k]).key() != key,
                decreases i - j,
            {
                if packets[j].key() == key {
                    proof {
                        assert(m.packets[j as int].key() == m.packets[i as int].key());
                    }
                    return Err(ProtocolErr::DuplicateKey(i));
                }
                j += 1;
            }
            i += 1;
        }
        Ok(Protocol { name, packets })
    }

    /// The name of the protocol.
    pub fn name(&self) -> (r: &str)
        ensures
            r@ == self@.name,
    {
        self.name.as_str()
    }

    /// The number of packet definitions.
    pub fn len(&self) -> (r: usize)
        ensures
            r == self@.packets.len(),
            self@.ok(),
    {
        proof {
            use_type_invariant(self);
        }
        self.packets.len()
    }

    /// The definition at `index`, in the order of declaration.
    pub fn packet(&self, index: usize) -> (r: Option<&PacketDef>)
        ensures
            match r {
                Some(def) => index < self@.packets.len() && def@ == self@.packets[index as int],
                None => index >= self@.packets.len(),
            },
    {
        if index < self.packets.len() {
            Some(&self.packets[index])
        } else {
            None
        }
    }

    /// The position of the definition declared under `id`, if there is
    /// one.
    pub fn position(&self, id: Id) -> (r: Option<usize>)
        ensures
            self@.ok(),
            match r {
                Some(i) => self@.binds(i as int, id) && self@.index_of(id) == i,
                None => !self@.declares(id),
            },
    {
        proof {
            use_type_invariant(self);
        }
        let mut i: usize = 0;
        while i < self.packets.len()
            invariant
                i <= self.packets.len(),
                self@.ok(),
                forall|k: int| 0 <= k < i ==> !self@.binds(k, id),
            decreases self.packets.len() - i,
        {
            if self.packets[i].key() == id {
                proof {
                    lemma_one_definition_per_key(self@, i as int, id);
                }
                return Some(i);
            }
            i += 1;
        }
        None
    }

    /// Whether the packet is of one of the definitions.
    pub fn knows(&self, packet: &PacketValue) -> (r: bool)
        ensures
            r == self@.knows(packet@),
    {
        packet.variant < self.packets.len()
    }

    /// Whether the packet is of one of the definitions, with a body that
    /// holds a value of its type for each field.
    pub fn admits(&self, packet: &PacketValue) -> (r: bool)
        ensures
            r == self@.admits(packet@),
    {
        if packet.variant < self.packets.len() {
            self.packets[packet.variant].admits(&packet.body)
        } else {
            false
        }
    }

    /// The key that the packet's definition is declared under.
    pub fn id_of(&self, packet: &PacketValue) -> (r: Id)
        requires
            self@.knows(packet@),
        ensures
            r == self@.packets[packet.variant as int].key(),
    {
        self.packets[packet.variant].key()
    }

    /// Turns a raw packet into a packet: the definition declared under the
    /// key reads the body. Without such a definition the key's number is
    /// reported; a body that cannot be read is reported with the reason.
    pub fn decode(&self, raw: RawPacket<'_, Id>) -> (r: Result<PacketValue, PacketErr>)
        ensures
            match r {
                Ok(packet) => self@.dispatch(raw.id, raw.data@) == Ok::<PacketModel, PacketFault>(
                    packet@,
                ),
                Err(e) => self@.dispatch(raw.id, raw.data@) == Err::<PacketModel, PacketFault>(
                    e@,
                ),
            },
    {
        match self.position(raw.id) {
            None => Err(PacketErr::UnknownId(raw.id.id)),
            Some(i) => match self.packets[i].decode_body(raw.data) {
                Ok(d) => Ok(PacketValue { variant: i, body: d.value }),
                Err(e) => Err(PacketErr::DeserializeFailed(e)),
            },
        }
    }

    /// Describes the protocol: every definition in the order of
    /// declaration, each field with the name of its type as declared.
    pub fn describe(&self) -> (r: ProtocolSpec)
        ensures
            r@ == self@.describe(),
    {
        let mut packets: Vec<ProtocolPacketSpec> = Vec::new();
        let mut i: usize = 0;
        while i < self.packets.len()
            invariant
                i <= self.packets.len(),
                packets.len() == i,
                forall|k: int| 0 <= k < i ==> (#[trigger] packets[k])@ == self@.packets[k].outline(),
            decreases self.packets.len() - i,
        {
            let def = &self.packets[i];
            let mut fields: Vec<ProtocolPacketField> = Vec::new();
            let mut f: usize = 0;
            while f < def.fields.len()
                invariant
                    f <= def.fields.len(),
                    fields.len() == f,
                    forall|k: int|
                        0 <= k < f ==> (#[trigger] fields[k])@ == (FieldOutline {
                            name: def.fields[k].name@,
                            kind: def.fields[k].kind@,
                        }),
                decreases def.fields.len() - f,
            {
                fields.push(
                    ProtocolPacketField {
                        name: def.fields[f].name.clone(),
                        kind: def.fields[f].kind.clone(),
                    },
                );
                f += 1;
            }
            let spec = ProtocolPacketSpec {
                state: String::from_str(def.state.name()),
                direction: String::from_str(def.direction.name()),
                id: def.id,
                name: def.name.clone(),
                body_struct: def.body_struct.clone(),
                fields,
            };
            proof {
                assert(spec@.fields =~= def@.outline().fields);
                assert(def@ == self@.packets[i as int]);
            }
            packets.push(spec);
            i += 1;
        }
        let r = ProtocolSpec { name: self.name.clone(), packets };
        proof {
            assert(r@.packets =~= self@.describe().packets);
        }
        r
    }
}

impl Packet<Id> for PacketValue {
    type Table = Protocol;

    open spec fn known(table: &Protocol, packet: PacketModel) -> bool {
        table@.knows(packet)
    }

    open spec fn key(table: &Protocol, packet: PacketModel) -> Id {
        table@.packets[packet.variant as int].key()
    }

    open spec fn dispatch(table: &Protocol, id: Id, data: Seq<u8>) -> Result<
        PacketModel,
        PacketFault,
    > {
        table@.dispatch(id, data)
    }

    fn id(&self, table: &Protocol) -> (r: Id) {
        table.id_of(self)
    }

    fn mc_deserialize(table: &Protocol, raw: RawPacket<'_, Id>) -> (r: Result<Self, PacketErr>) {
        table.decode(raw)
    }
}

} // verus!
