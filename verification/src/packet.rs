//! Packets and the packet registry: a packet couples a typed record payload
//! with a wire `packet_id` and a classification `model_id`; the registry maps
//! a `packet_id` to the codec of its payload and dispatches encode and decode
//! calls. A frame whose id has no registered codec degrades to an
//! `UnknownPacket` carrying the raw decrypted payload bytes.

use vstd::prelude::*;

use crate::bytes::ByteReader;
use crate::codec::{
    spec_decode, spec_encode, CodecError, CodecRegistry, CodecRegistryView, MAX_DEPTH,
};
use crate::value::{values_view, SpecValue, TypeTag, Value};

verus! {

/// A packet whose id has no registered codec: the raw, decrypted, undecoded
/// payload bytes, kept verbatim.
#[derive(Debug, PartialEq)]
pub struct UnknownPacket {
    packet_id: i32,
    payload: Vec<u8>,
}

impl UnknownPacket {
    pub closed spec fn spec_packet_id(self) -> i32 {
        self.packet_id
    }

    pub closed spec fn spec_payload(self) -> Seq<u8> {
        self.payload@
    }

    pub fn new(packet_id: i32, payload: Vec<u8>) -> (r: UnknownPacket)
        ensures
            r.spec_packet_id() == packet_id,
            r.spec_payload() == payload@,
    {
        UnknownPacket { packet_id, payload }
    }

    /// The raw payload bytes, exactly as they stood in the frame.
    pub fn payload(&self) -> (r: &Vec<u8>)
        ensures
            r@ == self.spec_payload(),
    {
        &self.payload
    }

    pub fn packet_id(&self) -> (r: i32)
        ensures
            r == self.spec_packet_id(),
    {
        self.packet_id
    }

    /// An unknown packet carries no classification tag; its model id is the
    /// smallest signed 32-bit value.
    pub fn model_id(&self) -> (r: i32)
        ensures
            r == i32::MIN,
    {
        i32::MIN
    }
}

/// A packet: a typed record payload with its wire id and model id, or an
/// unknown packet passed through as raw bytes.
#[derive(Debug, PartialEq)]
pub enum Packet {
    Known { packet_id: i32, model_id: i32, fields: Vec<Value> },
    Unknown(UnknownPacket),
}

/// The mathematical model of a packet.
pub enum SpecPacket {
    Known { packet_id: i32, model_id: i32, fields: Seq<SpecValue> },
    Unknown { packet_id: i32, payload: Seq<u8> },
}

pub open spec fn packet_view(p: Packet) -> SpecPacket {
    match p {
        Packet::Known { packet_id, model_id, fields } => SpecPacket::Known {
            packet_id,
            model_id,
            fields: values_view(fields, 0),
        },
        Packet::Unknown(up) => SpecPacket::Unknown {
            packet_id: up.spec_packet_id(),
            payload: up.spec_payload(),
        },
    }
}

impl View for Packet {
    type V = SpecPacket;

    open spec fn view(&self) -> SpecPacket {
        packet_view(*self)
    }
}

impl SpecPacket {
    pub open spec fn spec_packet_id(self) -> i32 {
        match self {
            SpecPacket::Known { packet_id, .. } => packet_id,
            SpecPacket::Unknown { packet_id, .. } => packet_id,
        }
    }
}

impl Packet {
    /// The wire identifier this packet travels under.
    pub fn packet_id(&self) -> (r: i32)
        ensures
            r == self@.spec_packet_id(),
    {
        match self {
            Packet::Known { packet_id, .. } => *packet_id,
            Packet::Unknown(up) => up.packet_id(),
        }
    }

    /// The classification tag; an unknown packet reports the smallest
    /// signed 32-bit value.
    pub fn model_id(&self) -> (r: i32)
        ensures
            r == match self@ {
                SpecPacket::Known { model_id, .. } => model_id,
                SpecPacket::Unknown { .. } => i32::MIN,
            },
    {
        match self {
            Packet::Known { model_id, .. } => *model_id,
            Packet::Unknown(up) => up.model_id(),
        }
    }

    /// The safe downcast to the unknown-packet payload, when this packet is
    /// one.
    pub fn as_unknown(&self) -> (r: Option<&UnknownPacket>)
        ensures
            match r {
                Some(up) => *self is Unknown && self@ == SpecPacket::Unknown {
                    packet_id: up.spec_packet_id(),
                    payload: up.spec_payload(),
                },
                None => !(*self is Unknown),
            },
    {
        match self {
            Packet::Unknown(up) => Some(up),
            Packet::Known { .. } => None,
        }
    }
}

/// One registered packet type: its wire id, its model id, and the ordered
/// field schema of its payload record.
#[derive(Debug)]
pub struct RegisteredPacketImpl {
    packet_id: i32,
    model_id: i32,
    fields: Vec<TypeTag>,
}

impl RegisteredPacketImpl {
    pub closed spec fn spec_packet_id(self) -> i32 {
        self.packet_id
    }

    pub closed spec fn spec_model_id(self) -> i32 {
        self.model_id
    }

    pub closed spec fn spec_schema(self) -> Seq<TypeTag> {
        self.fields@
    }

    pub fn new(packet_id: i32, model_id: i32, fields: Vec<TypeTag>) -> (r: RegisteredPacketImpl)
        ensures
            r.spec_packet_id() == packet_id,
            r.spec_model_id() == model_id,
            r.spec_schema() == fields@,
    {
        RegisteredPacketImpl { packet_id, model_id, fields }
    }
}

/// The mathematical model of a packet registry: the codec registry it owns
/// and, for every registered packet id, the model id and field schema.
pub struct PacketRegistryView {
    pub codecs: CodecRegistryView,
    pub packets: Map<i32, (i32, Seq<TypeTag>)>,
}

/// What encoding a packet against a registry yields: the payload bytes of
/// its frame. An id with no dispatch entry is `NoCodec`; an unknown packet
/// whose id has one cannot be routed to that entry's codec, which is
/// `DowncastError`; a known packet with the wrong model id likewise.
pub open spec fn spec_encode_packet(reg: PacketRegistryView, p: SpecPacket) -> Result<
    Seq<u8>,
    CodecError,
> {
    if !reg.packets.dom().contains(p.spec_packet_id()) {
        Err(CodecError::NoCodec)
    } else {
        match p {
            SpecPacket::Unknown { .. } => Err(CodecError::DowncastError),
            SpecPacket::Known { packet_id, model_id, fields } => {
                if model_id != reg.packets[packet_id].0 {
                    Err(CodecError::DowncastError)
                } else {
                    spec_encode(
                        reg.codecs,
                        TypeTag::Record(packet_id as u32),
                        SpecValue::Record(packet_id as u32, fields),
                        MAX_DEPTH as nat,
                    )
                }
            },
        }
    }
}

/// What decoding a payload for `packet_id` yields: nothing when the id is
/// unregistered (the caller falls back to an unknown packet), otherwise the
/// decoded packet and the number of payload bytes consumed.
pub open spec fn spec_decode_packet(reg: PacketRegistryView, packet_id: i32, s: Seq<u8>) -> Result<
    Option<(SpecPacket, int)>,
    CodecError,
> {
    if !reg.packets.dom().contains(packet_id) {
        Ok(None)
    } else {
        match spec_decode(reg.codecs, TypeTag::Record(packet_id as u32), s, MAX_DEPTH as nat) {
            Ok((v, k)) => match v {
                SpecValue::Record(rid, fields) => Ok(
                    Some(
                        (
                            SpecPacket::Known {
                                packet_id,
                                model_id: reg.packets[packet_id].0,
                                fields,
                            },
                            k,
                        ),
                    ),
                ),
                _ => Err(CodecError::DecodeError),
            },
            Err(e) => Err(e),
        }
    }
}

/// The mapping from `packet_id` to the registered codec of its payload.
/// At most one registration per `packet_id`: protocol ids are unambiguous.
#[derive(Debug)]
pub struct PacketRegistry {
    codecs: CodecRegistry,
    packets: Vec<RegisteredPacketImpl>,
}

impl PacketRegistry {
    pub closed spec fn has_packet(self, id: i32) -> bool {
        exists|k: int| 0 <= k < self.packets@.len() && self.packets@[k].spec_packet_id() == id
    }

    pub closed spec fn packet_entry(self, id: i32) -> (i32, Seq<TypeTag>) {
        let k = choose|k: int|
            0 <= k < self.packets@.len() && self.packets@[k].spec_packet_id() == id;
        (self.packets@[k].spec_model_id(), self.packets@[k].spec_schema())
    }

    /// Packet ids are unique, and every dispatch entry's record codec is
    /// registered in the codec registry under the packet id, with the same
    /// schema.
    pub closed spec fn wf(self) -> bool {
        &&& self.codecs.wf()
        &&& forall|i: int, j: int|
            0 <= i < j < self.packets@.len() ==> (#[trigger] self.packets@[i]).spec_packet_id() != (
            #[trigger] self.packets@[j]).spec_packet_id()
        &&& forall|k: int|
            0 <= k < self.packets@.len() ==> self.codecs@.tags.contains(
                TypeTag::Record((#[trigger] self.packets@[k]).spec_packet_id() as u32),
            )
        &&& forall|k: int|
            0 <= k < self.packets@.len() ==> self.codecs@.schemas.dom().contains(
                (#[trigger] self.packets@[k]).spec_packet_id() as u32,
            ) && self.codecs@.schemas[self.packets@[k].spec_packet_id() as u32]
                == self.packets@[k].spec_schema()
    }

    proof fn lemma_packet_at(self, k: int)
        requires
            self.wf(),
            0 <= k < self.packets@.len(),
        ensures
            self.has_packet(self.packets@[k].spec_packet_id()),
            self.packet_entry(self.packets@[k].spec_packet_id()) == (
                self.packets@[k].spec_model_id(),
                self.packets@[k].spec_schema(),
            ),
    {
        let id = self.packets@[k].spec_packet_id();
        assert(self.has_packet(id));
        let c = choose|c: int|
            0 <= c < self.packets@.len() && self.packets@[c].spec_packet_id() == id;
        if c < k {
            assert(self.packets@[c].spec_packet_id() != self.packets@[k].spec_packet_id());
        } else if k < c {
            assert(self.packets@[k].spec_packet_id() != self.packets@[c].spec_packet_id());
        }
    }
}

/// Two registries with the same dispatch table model the same packet map.
proof fn lemma_packets_view_eq(a: PacketRegistry, b: PacketRegistry)
    requires
        a.wf(),
        a.packets@ == b.packets@,
    ensures
        a@.packets == b@.packets,
{
    assert forall|id: i32| a.has_packet(id) implies b.has_packet(id) by {
        let k = choose|k: int|
            0 <= k < a.packets@.len() && a.packets@[k].spec_packet_id() == id;
        assert(b.packets@[k].spec_packet_id() == id);
    }
    assert forall|id: i32| b.has_packet(id) implies a.has_packet(id) by {
        let k = choose|k: int|
            0 <= k < b.packets@.len() && b.packets@[k].spec_packet_id() == id;
        assert(a.packets@[k].spec_packet_id() == id);
    }
    assert forall|id: i32| a.has_packet(id) implies a.packet_entry(id) == b.packet_entry(id) by {
        let ka = choose|k: int|
            0 <= k < a.packets@.len() && a.packets@[k].spec_packet_id() == id;
        let kb = choose|k: int|
            0 <= k < b.packets@.len() && b.packets@[k].spec_packet_id() == id;
        if ka < kb {
            assert(a.packets@[ka].spec_packet_id() != a.packets@[kb].spec_packet_id());
        } else if kb < ka {
            assert(a.packets@[kb].spec_packet_id() != a.packets@[ka].spec_packet_id());
        }
    }
    assert(a@.packets =~= b@.packets);
}

impl View for PacketRegistry {
    type V = PacketRegistryView;

    closed spec fn view(&self) -> PacketRegistryView {
        PacketRegistryView {
            codecs: self.codecs@,
            packets: Map::new(
                |id: i32| self.has_packet(id),
                |id: i32| self.packet_entry(id),
            ),
        }
    }
}

impl PacketRegistry {
    /// A registry whose codec registry holds the primitive and container
    /// codecs, and no packets yet.
    pub fn new() -> (r: PacketRegistry)
        ensures
            r.wf(),
            r@.packets == Map::<i32, (i32, Seq<TypeTag>)>::empty(),
            r@.codecs.tags == CodecRegistry::primitive_tags(),
            r@.codecs.schemas == Map::<u32, Seq<TypeTag>>::empty(),
    {
        let mut codecs = CodecRegistry::new();
        codecs.register_primitives();
        let r = PacketRegistry { codecs, packets: Vec::new() };
        proof {
            assert(r@.packets =~= Map::<i32, (i32, Seq<TypeTag>)>::empty());
            assert(r@.codecs.tags =~= CodecRegistry::primitive_tags());
        }
        r
    }

    /// Register a codec for a non-record value type in the owned codec
    /// registry.
    pub fn register_codec(&mut self, tag: TypeTag) -> (r: Result<(), CodecError>)
        requires
            old(self).wf(),
        ensures
            final (self).wf(),
            final (self)@.packets == old(self)@.packets,
            match r {
                Ok(()) => !old(self)@.codecs.tags.contains(tag) && !(tag is Record) && final (
                self)@.codecs.tags == old(self)@.codecs.tags.insert(tag) && final (
                self)@.codecs.schemas == old(self)@.codecs.schemas,
                Err(e) => e == CodecError::InvalidArgument && (old(self)@.codecs.tags.contains(tag)
                    || (tag is Record)) && *final (self) == *old(self),
            },
    {
        let r = self.codecs.register_codec(tag);
        proof {
            lemma_packets_view_eq(*old(self), *self);
            lemma_packets_view_eq(*self, *old(self));
        }
        r
    }

    /// Register a record codec (a shared struct schema) in the owned codec
    /// registry.
    pub fn register_record_codec(&mut self, id: u32, fields: Vec<TypeTag>) -> (r: Result<
        (),
        CodecError,
    >)
        requires
            old(self).wf(),
        ensures
            final (self).wf(),
            final (self)@.packets == old(self)@.packets,
            match r {
                Ok(()) => !old(self)@.codecs.tags.contains(TypeTag::Record(id)) && final (
                self)@.codecs.tags == old(self)@.codecs.tags.insert(TypeTag::Record(id)) && final (
                self)@.codecs.schemas == old(self)@.codecs.schemas.insert(id, fields@),
                Err(e) => e == CodecError::InvalidArgument && old(self)@.codecs.tags.contains(
                    TypeTag::Record(id),
                ) && *final (self) == *old(self),
            },
    {
        let ghost fields_view = fields@;
        let r = self.codecs.register_record_codec(id, fields);
        proof {
            lemma_packets_view_eq(*old(self), *self);
            lemma_packets_view_eq(*self, *old(self));
            if r is Ok {
                assert forall|k: int| 0 <= k < self.packets@.len() implies self.codecs@.tags
                    .contains(
                    TypeTag::Record((#[trigger] self.packets@[k]).spec_packet_id() as u32),
                ) by {
                    assert(old(self).codecs@.tags.contains(
                        TypeTag::Record(self.packets@[k].spec_packet_id() as u32),
                    ));
                }
            }
        }
        r
    }

    /// Register a packet type: its record codec goes into the codec
    /// registry under the packet id, and a dispatch entry is stored.
    /// Registering a `packet_id` twice is a fatal configuration error,
    /// reported at registration time, never at decode time.
    pub fn register_packet(&mut self, packet: RegisteredPacketImpl) -> (r: Result<(), CodecError>)
        requires
            old(self).wf(),
        ensures
            final (self).wf(),
            match r {
                Ok(()) => !old(self)@.packets.dom().contains(packet.spec_packet_id()) && final (
                self)@.packets == old(self)@.packets.insert(
                    packet.spec_packet_id(),
                    (packet.spec_model_id(), packet.spec_schema()),
                ) && final (self)@.codecs.tags == old(self)@.codecs.tags.insert(
                    TypeTag::Record(packet.spec_packet_id() as u32),
                ) && final (self)@.codecs.schemas == old(self)@.codecs.schemas.insert(
                    packet.spec_packet_id() as u32,
                    packet.spec_schema(),
                ),
                Err(e) => e == CodecError::InvalidArgument && (old(self)@.packets.dom().contains(
                    packet.spec_packet_id(),
                ) || old(self)@.codecs.tags.contains(
                    TypeTag::Record(packet.spec_packet_id() as u32),
                )) && *final (self) == *old(self),
            },
    {
        let packet_id = packet.packet_id;
        let ghost pre = *self;

        // A duplicate dispatch entry is a configuration error.
        let n = self.packets.len();
        let mut i: usize = 0;
        while i < n
            invariant
                i <= n,
                self.wf(),
                *self == *old(self),
                packet_id == packet.spec_packet_id(),
                n == self.packets@.len(),
                forall|j: int|
                    0 <= j < i ==> (#[trigger] self.packets@[j]).spec_packet_id() != packet_id,
            decreases n - i,
        {
            if self.packets[i].packet_id == packet_id {
                proof {
                    self.lemma_packet_at(i as int);
                }
                return Err(CodecError::InvalidArgument);
            }
            i = i + 1;
        }

        let schema = crate::value::clone_tags(&packet.fields);
        match self.codecs.register_record_codec(#[verifier::truncate] (packet_id as u32), schema) {
            Ok(()) => {},
            Err(e) => {
                return Err(e);
            },
        }
        self.packets.push(packet);
        proof {
            assert forall|i2: int, j2: int|
                0 <= i2 < j2 < self.packets@.len() implies (
            #[trigger] self.packets@[i2]).spec_packet_id() != (
            #[trigger] self.packets@[j2]).spec_packet_id() by {}
            assert(self.wf());
            assert forall|id2: i32| self.has_packet(id2) implies pre@.packets.insert(
                packet_id,
                (packet.spec_model_id(), packet.spec_schema()),
            ).dom().contains(id2) by {
                let k = choose|k: int|
                    0 <= k < self.packets@.len() && self.packets@[k].spec_packet_id() == id2;
                if k < pre.packets@.len() {
                    assert(pre.has_packet(id2));
                }
            }
            assert forall|id2: i32| pre@.packets.insert(
                packet_id,
                (packet.spec_model_id(), packet.spec_schema()),
            ).dom().contains(id2) implies self.has_packet(id2) by {
                if id2 == packet_id {
                    assert(self.packets@[self.packets@.len() - 1].spec_packet_id() == id2);
                } else {
                    let k = choose|k: int|
                        0 <= k < pre.packets@.len() && pre.packets@[k].spec_packet_id() == id2;
                    assert(self.packets@[k].spec_packet_id() == id2);
                }
            }
            assert forall|id2: i32| self.has_packet(id2) implies self.packet_entry(id2)
                == pre@.packets.insert(
                packet_id,
                (packet.spec_model_id(), packet.spec_schema()),
            )[id2] by {
                if id2 == packet_id {
                    self.lemma_packet_at(self.packets@.len() - 1);
                } else {
                    let k = choose|k: int|
                        0 <= k < self.packets@.len() && self.packets@[k].spec_packet_id() == id2;
                    assert(k < pre.packets@.len());
                    self.lemma_packet_at(k);
                    pre.lemma_packet_at(k);
                }
            }
            assert(self@.packets =~= pre@.packets.insert(
                packet_id,
                (packet.spec_model_id(), packet.spec_schema()),
            ));
        }
        Ok(())
    }

    /// Whether a codec is registered for this packet id.
    fn find_packet(&self, packet_id: i32) -> (r: Option<&RegisteredPacketImpl>)
        requires
            self.wf(),
        ensures
            match r {
                Some(entry) => self@.packets.dom().contains(packet_id) && entry.spec_model_id()
                    == self@.packets[packet_id].0 && entry.spec_schema()
                    == self@.packets[packet_id].1 && entry.spec_packet_id() == packet_id,
                None => !self@.packets.dom().contains(packet_id),
            },
    {
        let n = self.packets.len();
        let mut i: usize = 0;
        while i < n
            invariant
                i <= n,
                self.wf(),
                n == self.packets@.len(),
                forall|j: int|
                    0 <= j < i ==> (#[trigger] self.packets@[j]).spec_packet_id() != packet_id,
            decreases n - i,
        {
            if self.packets[i].packet_id == packet_id {
                proof {
                    self.lemma_packet_at(i as int);
                }
                return Some(&self.packets[i]);
            }
            i = i + 1;
        }
        None
    }

    /// Encode a packet's payload: look up the dispatch entry by the
    /// packet's id (`NoCodec` when absent), route the value to the entry's
    /// codec (`DowncastError` when the packet cannot be the entry's type),
    /// and append the payload bytes to `writer`. On an error nothing is
    /// appended.
    pub fn encode(&self, writer: &mut Vec<u8>, packet: &Packet) -> (r: Result<(), CodecError>)
        requires
            self.wf(),
        ensures
            ({
                let res = spec_encode_packet(self@, packet@);
                match r {
                    Ok(()) => res is Ok && final (writer)@ == old(writer)@ + res->Ok_0,
                    Err(e) => res == Err::<Seq<u8>, CodecError>(e) && final (writer)@ == old(
                        writer,
                    )@,
                }
            }),
    {
        let packet_id = packet.packet_id();
        let entry = match self.find_packet(packet_id) {
            Some(entry) => entry,
            None => {
                return Err(CodecError::NoCodec);
            },
        };
        match packet {
            Packet::Unknown(_) => Err(CodecError::DowncastError),
            Packet::Known { packet_id: pid, model_id, fields } => {
                if *model_id != entry.model_id {
                    return Err(CodecError::DowncastError);
                }
                let tag = TypeTag::Record(#[verifier::truncate] (*pid as u32));
                let value = Value::Record(#[verifier::truncate] (*pid as u32), crate::value::clone_values(fields));
                self.codecs.encode(writer, &tag, &value)
            },
        }
    }

    /// Decode the payload of a frame carrying `packet_id`. An unregistered
    /// id is no error: the result is `None` and the caller falls back to an
    /// unknown packet.
    pub fn decode(&self, reader: &mut ByteReader, packet_id: i32) -> (r: Result<
        Option<Packet>,
        CodecError,
    >)
        requires
            self.wf(),
            old(reader).wf(),
        ensures
            final (reader).wf(),
            final (reader).all_bytes() == old(reader).all_bytes(),
            ({
                let res = spec_decode_packet(self@, packet_id, old(reader).remaining());
                match r {
                    Ok(Some(p)) => res matches Ok(Some((sp, k))) && p@ == sp && final (
                    reader).remaining() == old(reader).remaining().skip(k),
                    Ok(None) => res == Ok::<Option<(SpecPacket, int)>, CodecError>(None) && *final (
                    reader) == *old(reader),
                    Err(e) => res == Err::<Option<(SpecPacket, int)>, CodecError>(e),
                }
            }),
    {
        let entry = match self.find_packet(packet_id) {
            Some(entry) => entry,
            None => {
                return Ok(None);
            },
        };
        let tag = TypeTag::Record(#[verifier::truncate] (packet_id as u32));
        match self.codecs.decode(reader, &tag) {
            Ok(value) => match value {
                Value::Record(_, fields) => Ok(
                    Some(Packet::Known { packet_id, model_id: entry.model_id, fields }),
                ),
                _ => Err(CodecError::DecodeError),
            },
            Err(e) => Err(e),
        }
    }
}

/// Packet round trip: a packet value that a registry encodes, the same
/// registry decodes back from those bytes under the same id, reconstructing
/// an equal value and consuming exactly the payload.
pub proof fn lemma_packet_round_trip(reg: PacketRegistryView, p: SpecPacket, rest: Seq<u8>)
    requires
        spec_encode_packet(reg, p) is Ok,
    ensures
        ({
            let bs = spec_encode_packet(reg, p)->Ok_0;
            spec_decode_packet(reg, p.spec_packet_id(), bs + rest) == Ok::<
                Option<(SpecPacket, int)>,
                CodecError,
            >(Some((p, bs.len() as int)))
        }),
{
    match p {
        SpecPacket::Known { packet_id, model_id, fields } => {
            crate::codec::lemma_codec_round_trip(
                reg.codecs,
                TypeTag::Record(packet_id as u32),
                SpecValue::Record(packet_id as u32, fields),
                MAX_DEPTH as nat,
                rest,
            );
        },
        SpecPacket::Unknown { .. } => {},
    }
}

} // verus!
