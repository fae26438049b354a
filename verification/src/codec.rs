//! The codec stack: a registry mapping runtime type identities to codecs,
//! and the encode/decode machinery for every registered value shape.
//!
//! The wire format is big-endian throughout. Strings carry an "is-empty"
//! flag, then (when non-empty) a 4-byte signed byte length and the UTF-8
//! bytes. Optional values carry an "is-none" flag, then the value. Sequences
//! carry a 4-byte signed element count, then the elements. Records are the
//! concatenation of their fields in schema order.

use vstd::prelude::*;
use vstd::utf8::{decode_utf8, encode_utf8, valid_utf8};

use crate::bytes::{
    append_bytes, i16_be_bytes, i16_from_be, i32_be_bytes, i32_from_be, i64_be_bytes, i64_from_be,
    lemma_i16_be_round_trip, lemma_i32_be_round_trip, lemma_i64_be_round_trip,
    lemma_u32_be_round_trip, lemma_u64_be_round_trip, u32_be_bytes, u32_from_be, u64_be_bytes,
    u64_from_be, write_i16_be, write_i32_be, write_i64_be, write_u32_be, write_u64_be, write_u8,
    ByteReader,
};
use crate::value::{lemma_values_view, value_view, values_view, SpecValue, TypeTag, Value};

verus! {

broadcast use vstd::seq_lib::lemma_seq_contains_after_push;

/// Nesting deeper than this many levels of optional values, sequences and
/// records is refused by both the encoder and the decoder.
pub const MAX_DEPTH: u32 = 64;

/// Errors raised by the serialization stack.
#[derive(Debug, Clone, Copy, PartialEq, Eq, Structural)]
pub enum CodecError {
    /// No codec is registered for the requested type identity.
    NoCodec,
    /// The input ended before the value was complete.
    IoError,
    /// The value handed to the encoder does not fit the requested type,
    /// or a size does not fit its wire representation.
    InvalidArgument,
    /// The value nests deeper than the encoder supports.
    EncodeError,
    /// The bytes are not a well-formed value of the requested type.
    DecodeError,
    /// A packet value was routed to a codec registered for another type.
    DowncastError,
}

/// The mathematical model of a codec registry: the set of registered type
/// identities, and the field schema of every registered record id.
pub struct CodecRegistryView {
    pub tags: Set<TypeTag>,
    pub schemas: Map<u32, Seq<TypeTag>>,
}

/// A process-local mapping from a value's runtime type identity to its
/// codec. Registered record ids always have a schema, and registration is
/// unique: at most one codec per type identity.
#[derive(Debug)]
pub struct CodecRegistry {
    tags: Vec<TypeTag>,
    schemas: Vec<(u32, Vec<TypeTag>)>,
}

impl CodecRegistry {
    pub closed spec fn has_schema(self, id: u32) -> bool {
        exists|k: int| 0 <= k < self.schemas@.len() && self.schemas@[k].0 == id
    }

    pub closed spec fn schema_of(self, id: u32) -> Seq<TypeTag> {
        let k = choose|k: int| 0 <= k < self.schemas@.len() && self.schemas@[k].0 == id;
        self.schemas@[k].1@
    }

    /// Registration is unique, and every registered record id has a schema.
    pub closed spec fn wf(self) -> bool {
        &&& forall|i: int, j: int|
            0 <= i < j < self.tags@.len() ==> self.tags@[i] != self.tags@[j]
        &&& forall|i: int, j: int|
            0 <= i < j < self.schemas@.len() ==> (#[trigger] self.schemas@[i]).0 != (
            #[trigger] self.schemas@[j]).0
        &&& forall|k: int|
            0 <= k < self.schemas@.len() ==> self.tags@.contains(
                TypeTag::Record((#[trigger] self.schemas@[k]).0),
            )
        &&& forall|id: u32|
            self.tags@.contains(TypeTag::Record(id)) ==> #[trigger] self.has_schema(id)
    }

    proof fn lemma_schema_at(self, k: int)
        requires
            self.wf(),
            0 <= k < self.schemas@.len(),
        ensures
            self.has_schema(self.schemas@[k].0),
            self.schema_of(self.schemas@[k].0) == self.schemas@[k].1@,
    {
        let id = self.schemas@[k].0;
        assert(self.has_schema(id));
        let c = choose|c: int| 0 <= c < self.schemas@.len() && self.schemas@[c].0 == id;
        if c < k {
            assert(self.schemas@[c].0 != self.schemas@[k].0);
        } else if k < c {
            assert(self.schemas@[k].0 != self.schemas@[c].0);
        }
    }
}

impl View for CodecRegistry {
    type V = CodecRegistryView;

    closed spec fn view(&self) -> CodecRegistryView {
        CodecRegistryView {
            tags: Set::new(|t: TypeTag| self.tags@.contains(t)),
            schemas: Map::new(|id: u32| self.has_schema(id), |id: u32| self.schema_of(id)),
        }
    }
}

/// Two registries with the same schema table model the same schema map.
proof fn lemma_schemas_view_eq(a: CodecRegistry, b: CodecRegistry)
    requires
        a.wf(),
        a.schemas@ == b.schemas@,
    ensures
        a@.schemas == b@.schemas,
{
    assert forall|id: u32| a.has_schema(id) implies b.has_schema(id) by {
        let k = choose|k: int| 0 <= k < a.schemas@.len() && a.schemas@[k].0 == id;
        assert(b.schemas@[k].0 == id);
    }
    assert forall|id: u32| b.has_schema(id) implies a.has_schema(id) by {
        let k = choose|k: int| 0 <= k < b.schemas@.len() && b.schemas@[k].0 == id;
        assert(a.schemas@[k].0 == id);
    }
    assert forall|id: u32| a.has_schema(id) implies a.schema_of(id) == b.schema_of(id) by {
        let ka = choose|k: int| 0 <= k < a.schemas@.len() && a.schemas@[k].0 == id;
        let kb = choose|k: int| 0 <= k < b.schemas@.len() && b.schemas@[k].0 == id;
        if ka < kb {
            assert(a.schemas@[ka].0 != a.schemas@[kb].0);
        } else if kb < ka {
            assert(a.schemas@[kb].0 != a.schemas@[ka].0);
        }
    }
    assert(a@.schemas =~= b@.schemas);
}

impl CodecRegistry {
    /// A registry with no codecs at all.
    pub fn new() -> (r: CodecRegistry)
        ensures
            r.wf(),
            r@.tags == Set::<TypeTag>::empty(),
            r@.schemas == Map::<u32, Seq<TypeTag>>::empty(),
    {
        let r = CodecRegistry { tags: Vec::new(), schemas: Vec::new() };
        proof {
            assert(r@.tags =~= Set::<TypeTag>::empty());
            assert(r@.schemas =~= Map::<u32, Seq<TypeTag>>::empty());
        }
        r
    }

    /// Whether a codec for this type identity is registered.
    fn find_tag(&self, tag: &TypeTag) -> (r: bool)
        ensures
            r == self@.tags.contains(*tag),
    {
        let n = self.tags.len();
        let mut i: usize = 0;
        while i < n
            invariant
                i <= n,
                n == self.tags@.len(),
                forall|j: int| 0 <= j < i ==> self.tags@[j] != *tag,
            decreases n - i,
        {
            if self.tags[i].matches(tag) {
                return true;
            }
            i = i + 1;
        }
        false
    }

    /// The schema registered for a record id, if any.
    fn find_schema(&self, id: u32) -> (r: Option<&Vec<TypeTag>>)
        requires
            self.wf(),
        ensures
            match r {
                Some(schema) => self@.schemas.dom().contains(id) && schema@ == self@.schemas[id],
                None => !self@.schemas.dom().contains(id),
            },
    {
        let n = self.schemas.len();
        let mut i: usize = 0;
        while i < n
            invariant
                i <= n,
                self.wf(),
                n == self.schemas@.len(),
                forall|j: int| 0 <= j < i ==> (#[trigger] self.schemas@[j]).0 != id,
            decreases n - i,
        {
            if self.schemas[i].0 == id {
                proof {
                    self.lemma_schema_at(i as int);
                }
                return Some(&self.schemas[i].1);
            }
            i = i + 1;
        }
        None
    }

    /// Register a codec for a non-record type identity. Registering the same
    /// identity twice is a configuration error, reported (never a panic) at
    /// registration time. Record codecs carry a schema and are registered
    /// with `register_record_codec`.
    pub fn register_codec(&mut self, tag: TypeTag) -> (r: Result<(), CodecError>)
        requires
            old(self).wf(),
        ensures
            final (self).wf(),
            match r {
                Ok(()) => !old(self)@.tags.contains(tag) && !(tag is Record) && final (self)@.tags
                    == old(self)@.tags.insert(tag) && final (self)@.schemas == old(self)@.schemas,
                Err(e) => e == CodecError::InvalidArgument && (old(self)@.tags.contains(tag) || (
                tag is Record)) && *final (self) == *old(self),
            },
    {
        if matches!(tag, TypeTag::Record(_)) {
            return Err(CodecError::InvalidArgument);
        }
        if self.find_tag(&tag) {
            return Err(CodecError::InvalidArgument);
        }
        let ghost pre = *self;
        self.tags.push(tag);
        proof {
            assert(self.tags@ == pre.tags@.push(tag));
            assert forall|i: int, j: int|
                0 <= i < j < self.tags@.len() implies self.tags@[i] != self.tags@[j] by {
                if j == self.tags@.len() - 1 {
                    assert(pre.tags@.contains(self.tags@[i]));
                }
            }
            assert forall|id: u32|
                self.tags@.contains(TypeTag::Record(id)) implies #[trigger] self.has_schema(
                id,
            ) by {
                assert(pre.tags@.contains(TypeTag::Record(id)));
                assert(pre.has_schema(id));
                let k = choose|k: int|
                    0 <= k < pre.schemas@.len() && pre.schemas@[k].0 == id;
                assert(self.schemas@[k].0 == id);
            }
            assert(self.wf());
            assert(final (self)@.tags =~= pre@.tags.insert(tag));
            lemma_schemas_view_eq(pre, *self);
        }
        Ok(())
    }

    /// Register a record codec: the ordered field schema of a record id.
    /// Registering an id twice is a configuration error, reported at
    /// registration time.
    pub fn register_record_codec(&mut self, id: u32, fields: Vec<TypeTag>) -> (r: Result<
        (),
        CodecError,
    >)
        requires
            old(self).wf(),
        ensures
            final (self).wf(),
            match r {
                Ok(()) => !old(self)@.tags.contains(TypeTag::Record(id)) && final (self)@.tags
                    == old(self)@.tags.insert(TypeTag::Record(id)) && final (self)@.schemas == old(
                    self,
                )@.schemas.insert(id, fields@),
                Err(e) => e == CodecError::InvalidArgument && old(self)@.tags.contains(
                    TypeTag::Record(id),
                ) && *final (self) == *old(self),
            },
    {
        if self.find_tag(&TypeTag::Record(id)) {
            return Err(CodecError::InvalidArgument);
        }
        let ghost pre = *self;
        let ghost fields_view = fields@;
        self.tags.push(TypeTag::Record(id));
        self.schemas.push((id, fields));
        proof {
            let tag = TypeTag::Record(id);
            assert(self.tags@ == pre.tags@.push(tag));
            assert(self.schemas@.len() == pre.schemas@.len() + 1);
            assert(self.schemas@.last().0 == id && self.schemas@.last().1@ == fields_view);
            assert(forall|k: int|
                0 <= k < pre.schemas@.len() ==> self.schemas@[k] == pre.schemas@[k]);
            assert(self@.tags =~= pre@.tags.insert(tag));

            // The new schema table is still unique, because the id was absent.
            assert forall|k: int| 0 <= k < pre.schemas@.len() implies (
            #[trigger] pre.schemas@[k]).0 != id by {
                pre.lemma_schema_at(k);
                assert(pre.tags@.contains(TypeTag::Record(pre.schemas@[k].0)));
            }
            assert forall|i2: int, j2: int|
                0 <= i2 < j2 < self.tags@.len() implies self.tags@[i2] != self.tags@[j2] by {
                if j2 == self.tags@.len() - 1 {
                    assert(pre.tags@.contains(self.tags@[i2]));
                }
            }
            assert forall|id2: u32|
                self.tags@.contains(TypeTag::Record(id2)) implies #[trigger] self.has_schema(
                id2,
            ) by {
                if id2 == id {
                    assert(self.schemas@[self.schemas@.len() - 1].0 == id2);
                } else {
                    assert(pre.tags@.contains(TypeTag::Record(id2)));
                    assert(pre.has_schema(id2));
                    let k = choose|k: int|
                        0 <= k < pre.schemas@.len() && pre.schemas@[k].0 == id2;
                    assert(self.schemas@[k].0 == id2);
                }
            }
            assert(self.wf());
            assert forall|i2: u32| self@.schemas.dom().contains(i2) implies pre@.schemas.insert(
                id,
                fields_view,
            ).dom().contains(i2) by {
                let k = choose|k: int|
                    0 <= k < self.schemas@.len() && self.schemas@[k].0 == i2;
                if k < pre.schemas@.len() {
                    assert(pre.has_schema(i2));
                }
            }
            assert forall|i2: u32| pre@.schemas.insert(id, fields_view).dom().contains(
                i2,
            ) implies self@.schemas.dom().contains(i2) by {
                if i2 == id {
                    assert(self.schemas@[self.schemas@.len() - 1].0 == i2);
                } else {
                    let k = choose|k: int|
                        0 <= k < pre.schemas@.len() && pre.schemas@[k].0 == i2;
                    assert(self.schemas@[k].0 == i2);
                }
            }
            assert forall|i2: u32| self@.schemas.dom().contains(i2) implies self@.schemas[i2]
                == pre@.schemas.insert(id, fields_view)[i2] by {
                if i2 == id {
                    self.lemma_schema_at(self.schemas@.len() - 1);
                } else {
                    let k = choose|k: int|
                        0 <= k < self.schemas@.len() && self.schemas@[k].0 == i2;
                    assert(k < pre.schemas@.len());
                    self.lemma_schema_at(k);
                    pre.lemma_schema_at(k);
                }
            }
            assert(self@.schemas =~= pre@.schemas.insert(id, fields_view));
        }
        Ok(())
    }

    /// Look up the codec for a type identity; the returned handle names the
    /// registered identity itself.
    pub fn get_codec(&self, tag: &TypeTag) -> (r: Option<&TypeTag>)
        ensures
            match r {
                Some(t) => self@.tags.contains(*tag) && *t == *tag,
                None => !self@.tags.contains(*tag),
            },
    {
        let n = self.tags.len();
        let mut i: usize = 0;
        while i < n
            invariant
                i <= n,
                n == self.tags@.len(),
                forall|j: int| 0 <= j < i ==> self.tags@[j] != *tag,
            decreases n - i,
        {
            if self.tags[i].matches(tag) {
                return Some(&self.tags[i]);
            }
            i = i + 1;
        }
        None
    }

    /// As `get_codec`, but an absent codec is the error `NoCodec`.
    pub fn try_get_codec(&self, tag: &TypeTag) -> (r: Result<&TypeTag, CodecError>)
        ensures
            match r {
                Ok(t) => self@.tags.contains(*tag) && *t == *tag,
                Err(e) => e == CodecError::NoCodec && !self@.tags.contains(*tag),
            },
    {
        match self.get_codec(tag) {
            Some(t) => Ok(t),
            None => Err(CodecError::NoCodec),
        }
    }

    /// Register a codec for `tag` unless one is already present.
    fn ensure_codec(&mut self, tag: TypeTag)
        requires
            old(self).wf(),
            !(tag is Record),
        ensures
            final (self).wf(),
            final (self)@.tags == old(self)@.tags.insert(tag),
            final (self)@.schemas == old(self)@.schemas,
    {
        if self.find_tag(&tag) {
            proof {
                assert(final (self)@.tags =~= old(self)@.tags.insert(tag));
            }
        } else {
            let r = self.register_codec(tag);
        }
    }

    /// The set of type identities covered by `register_primitives`: every
    /// primitive scalar, the string, and a sequence codec for each of them.
    pub open spec fn primitive_tags() -> Set<TypeTag> {
        set![
            TypeTag::Byte,
            TypeTag::UByte,
            TypeTag::Short,
            TypeTag::Int,
            TypeTag::Long,
            TypeTag::Float,
            TypeTag::Double,
            TypeTag::Bool,
            TypeTag::Str,
            TypeTag::Sequence(Box::new(TypeTag::Byte)),
            TypeTag::Sequence(Box::new(TypeTag::UByte)),
            TypeTag::Sequence(Box::new(TypeTag::Short)),
            TypeTag::Sequence(Box::new(TypeTag::Int)),
            TypeTag::Sequence(Box::new(TypeTag::Long)),
            TypeTag::Sequence(Box::new(TypeTag::Float)),
            TypeTag::Sequence(Box::new(TypeTag::Double)),
            TypeTag::Sequence(Box::new(TypeTag::Bool)),
            TypeTag::Sequence(Box::new(TypeTag::Str)),
        ]
    }

    /// Register the codecs for every primitive type, the string type, and a
    /// vector codec for each of them. This happens once, eagerly, before any
    /// record or packet codec is registered, because record codecs resolve
    /// their field types through the registry.
    pub fn register_primitives(&mut self)
        requires
            old(self).wf(),
        ensures
            final (self).wf(),
            final (self)@.tags == old(self)@.tags.union(Self::primitive_tags()),
            final (self)@.schemas == old(self)@.schemas,
    {
        self.ensure_codec(TypeTag::Byte);
        self.ensure_codec(TypeTag::UByte);
        self.ensure_codec(TypeTag::Short);
        self.ensure_codec(TypeTag::Int);
        self.ensure_codec(TypeTag::Long);
        self.ensure_codec(TypeTag::Float);
        self.ensure_codec(TypeTag::Double);
        self.ensure_codec(TypeTag::Bool);
        self.ensure_codec(TypeTag::Str);
        self.ensure_codec(TypeTag::Sequence(Box::new(TypeTag::Byte)));
        self.ensure_codec(TypeTag::Sequence(Box::new(TypeTag::UByte)));
        self.ensure_codec(TypeTag::Sequence(Box::new(TypeTag::Short)));
        self.ensure_codec(TypeTag::Sequence(Box::new(TypeTag::Int)));
        self.ensure_codec(TypeTag::Sequence(Box::new(TypeTag::Long)));
        self.ensure_codec(TypeTag::Sequence(Box::new(TypeTag::Float)));
        self.ensure_codec(TypeTag::Sequence(Box::new(TypeTag::Double)));
        self.ensure_codec(TypeTag::Sequence(Box::new(TypeTag::Bool)));
        self.ensure_codec(TypeTag::Sequence(Box::new(TypeTag::Str)));
        proof {
            assert(final (self)@.tags =~= old(self)@.tags.union(Self::primitive_tags()));
        }
    }
}


// ---------------------------------------------------------------------------
// The wire format, as specification functions.
// ---------------------------------------------------------------------------

/// The encoding of a string: an "is-empty" flag; when non-empty, a 4-byte
/// signed byte length, then the UTF-8 bytes.
pub open spec fn spec_encode_string(sv: Seq<char>) -> Result<Seq<u8>, CodecError> {
    if sv.len() == 0 {
        Ok(seq![1u8])
    } else {
        let bs = encode_utf8(sv);
        if bs.len() > i32::MAX {
            Err(CodecError::InvalidArgument)
        } else {
            Ok(seq![0u8] + i32_be_bytes(bs.len() as i32) + bs)
        }
    }
}

/// What encoding a value of type `t` against registry `reg` yields, with a
/// budget of `depth` further nesting levels.
pub open spec fn spec_encode(
    reg: CodecRegistryView,
    t: TypeTag,
    v: SpecValue,
    depth: nat,
) -> Result<Seq<u8>, CodecError>
    decreases depth, 0int, 0int,
{
    if !reg.tags.contains(t) {
        Err(CodecError::NoCodec)
    } else {
        match (t, v) {
            (TypeTag::Byte, SpecValue::Byte(x)) => Ok(seq![x as u8]),
            (TypeTag::UByte, SpecValue::UByte(x)) => Ok(seq![x]),
            (TypeTag::Short, SpecValue::Short(x)) => Ok(i16_be_bytes(x)),
            (TypeTag::Int, SpecValue::Int(x)) => Ok(i32_be_bytes(x)),
            (TypeTag::Long, SpecValue::Long(x)) => Ok(i64_be_bytes(x)),
            (TypeTag::Float, SpecValue::Float(x)) => Ok(u32_be_bytes(x)),
            (TypeTag::Double, SpecValue::Double(x)) => Ok(u64_be_bytes(x)),
            (TypeTag::Bool, SpecValue::Bool(b)) => Ok(
                seq![
                    if b {
                        1u8
                    } else {
                        0u8
                    },
                ],
            ),
            (TypeTag::Str, SpecValue::Str(sv)) => spec_encode_string(sv),
            (TypeTag::Optional(inner), SpecValue::Optional(ov)) => match ov {
                None => Ok(seq![1u8]),
                Some(x) => if depth == 0 {
                    Err(CodecError::EncodeError)
                } else {
                    match spec_encode(reg, *inner, *x, (depth - 1) as nat) {
                        Ok(bs) => Ok(seq![0u8] + bs),
                        Err(e) => Err(e),
                    }
                },
            },
            (TypeTag::Sequence(inner), SpecValue::Sequence(elems)) => if elems.len() > i32::MAX {
                Err(CodecError::InvalidArgument)
            } else if depth == 0 {
                Err(CodecError::EncodeError)
            } else {
                match spec_encode_list(reg, *inner, elems, 0, (depth - 1) as nat) {
                    Ok(bs) => Ok(i32_be_bytes(elems.len() as i32) + bs),
                    Err(e) => Err(e),
                }
            },
            (TypeTag::Record(id), SpecValue::Record(rid, fields)) => if id != rid {
                Err(CodecError::InvalidArgument)
            } else if !reg.schemas.dom().contains(id) {
                Err(CodecError::NoCodec)
            } else if fields.len() != reg.schemas[id].len() {
                Err(CodecError::InvalidArgument)
            } else if depth == 0 {
                Err(CodecError::EncodeError)
            } else {
                spec_encode_fields(reg, reg.schemas[id], fields, 0, (depth - 1) as nat)
            },
            _ => Err(CodecError::InvalidArgument),
        }
    }
}

/// The concatenated encodings of `elems[i..]`, every element of type `t`.
pub open spec fn spec_encode_list(
    reg: CodecRegistryView,
    t: TypeTag,
    elems: Seq<SpecValue>,
    i: int,
    depth: nat,
) -> Result<Seq<u8>, CodecError>
    decreases depth, 1int, elems.len() - i,
{
    if i < 0 || i >= elems.len() {
        Ok(Seq::empty())
    } else {
        match spec_encode(reg, t, elems[i], depth) {
            Ok(b) => match spec_encode_list(reg, t, elems, i + 1, depth) {
                Ok(rest) => Ok(b + rest),
                Err(e) => Err(e),
            },
            Err(e) => Err(e),
        }
    }
}

/// The concatenated encodings of `fields[i..]`, field `j` of type `tags[j]`.
pub open spec fn spec_encode_fields(
    reg: CodecRegistryView,
    tags: Seq<TypeTag>,
    fields: Seq<SpecValue>,
    i: int,
    depth: nat,
) -> Result<Seq<u8>, CodecError>
    decreases depth, 1int, tags.len() - i,
{
    if i < 0 || i >= tags.len() {
        Ok(Seq::empty())
    } else {
        match spec_encode(reg, tags[i], fields[i], depth) {
            Ok(b) => match spec_encode_fields(reg, tags, fields, i + 1, depth) {
                Ok(rest) => Ok(b + rest),
                Err(e) => Err(e),
            },
            Err(e) => Err(e),
        }
    }
}

/// The decoding of a string from the front of `s`: the decoded value and
/// the number of bytes consumed.
pub open spec fn spec_decode_string(s: Seq<u8>) -> Result<(SpecValue, int), CodecError> {
    if s.len() < 1 {
        Err(CodecError::IoError)
    } else if s[0] == 1 {
        Ok((SpecValue::Str(Seq::empty()), 1int))
    } else if s.len() < 5 {
        Err(CodecError::IoError)
    } else {
        let n = i32_from_be(s.skip(1));
        if n < 0 {
            Err(CodecError::IoError)
        } else if s.len() < 5 + n {
            Err(CodecError::IoError)
        } else {
            let bs = s.subrange(5, 5 + n);
            if !valid_utf8(bs) {
                Err(CodecError::DecodeError)
            } else {
                Ok((SpecValue::Str(decode_utf8(bs)), 5 + n))
            }
        }
    }
}

/// What decoding a value of type `t` from the front of `s` yields: the
/// decoded value and the number of bytes consumed.
pub open spec fn spec_decode(
    reg: CodecRegistryView,
    t: TypeTag,
    s: Seq<u8>,
    depth: nat,
) -> Result<(SpecValue, int), CodecError>
    decreases depth, 0int, 0int,
{
    if !reg.tags.contains(t) {
        Err(CodecError::NoCodec)
    } else {
        match t {
            TypeTag::Byte => if s.len() < 1 {
                Err(CodecError::IoError)
            } else {
                Ok((SpecValue::Byte(s[0] as i8), 1int))
            },
            TypeTag::UByte => if s.len() < 1 {
                Err(CodecError::IoError)
            } else {
                Ok((SpecValue::UByte(s[0]), 1int))
            },
            TypeTag::Short => if s.len() < 2 {
                Err(CodecError::IoError)
            } else {
                Ok((SpecValue::Short(i16_from_be(s)), 2int))
            },
            TypeTag::Int => if s.len() < 4 {
                Err(CodecError::IoError)
            } else {
                Ok((SpecValue::Int(i32_from_be(s)), 4int))
            },
            TypeTag::Long => if s.len() < 8 {
                Err(CodecError::IoError)
            } else {
                Ok((SpecValue::Long(i64_from_be(s)), 8int))
            },
            TypeTag::Float => if s.len() < 4 {
                Err(CodecError::IoError)
            } else {
                Ok((SpecValue::Float(u32_from_be(s)), 4int))
            },
            TypeTag::Double => if s.len() < 8 {
                Err(CodecError::IoError)
            } else {
                Ok((SpecValue::Double(u64_from_be(s)), 8int))
            },
            TypeTag::Bool => if s.len() < 1 {
                Err(CodecError::IoError)
            } else {
                Ok((SpecValue::Bool(s[0] == 1), 1int))
            },
            TypeTag::Str => spec_decode_string(s),
            TypeTag::Optional(inner) => if s.len() < 1 {
                Err(CodecError::IoError)
            } else if s[0] == 1 {
                Ok((SpecValue::Optional(None), 1int))
            } else if depth == 0 {
                Err(CodecError::DecodeError)
            } else {
                match spec_decode(reg, *inner, s.skip(1), (depth - 1) as nat) {
                    Ok((v, k)) => Ok((SpecValue::Optional(Some(Box::new(v))), 1 + k)),
                    Err(e) => Err(e),
                }
            },
            TypeTag::Sequence(inner) => if s.len() < 4 {
                Err(CodecError::IoError)
            } else {
                let n = i32_from_be(s);
                if n < 0 {
                    Err(CodecError::DecodeError)
                } else if depth == 0 {
                    Err(CodecError::DecodeError)
                } else {
                    match spec_decode_list(reg, *inner, s.skip(4), n as int, (depth - 1) as nat) {
                        Ok((vs, k)) => Ok((SpecValue::Sequence(vs), 4 + k)),
                        Err(e) => Err(e),
                    }
                }
            },
            TypeTag::Record(id) => if !reg.schemas.dom().contains(id) {
                Err(CodecError::NoCodec)
            } else if depth == 0 {
                Err(CodecError::DecodeError)
            } else {
                match spec_decode_fields(reg, reg.schemas[id], 0, s, (depth - 1) as nat) {
                    Ok((vs, k)) => Ok((SpecValue::Record(id, vs), k)),
                    Err(e) => Err(e),
                }
            },
        }
    }
}

/// Decoding of `count` consecutive values of type `t` from the front of `s`.
pub open spec fn spec_decode_list(
    reg: CodecRegistryView,
    t: TypeTag,
    s: Seq<u8>,
    count: int,
    depth: nat,
) -> Result<(Seq<SpecValue>, int), CodecError>
    decreases depth, 1int, count,
{
    if count <= 0 {
        Ok((Seq::empty(), 0int))
    } else {
        match spec_decode(reg, t, s, depth) {
            Ok((v, k)) => match spec_decode_list(reg, t, s.skip(k), count - 1, depth) {
                Ok((vs, k2)) => Ok((seq![v] + vs, k + k2)),
                Err(e) => Err(e),
            },
            Err(e) => Err(e),
        }
    }
}

/// Decoding of the fields `tags[i..]` from the front of `s`.
pub open spec fn spec_decode_fields(
    reg: CodecRegistryView,
    tags: Seq<TypeTag>,
    i: int,
    s: Seq<u8>,
    depth: nat,
) -> Result<(Seq<SpecValue>, int), CodecError>
    decreases depth, 1int, tags.len() - i,
{
    if i < 0 || i >= tags.len() {
        Ok((Seq::empty(), 0int))
    } else {
        match spec_decode(reg, tags[i], s, depth) {
            Ok((v, k)) => match spec_decode_fields(reg, tags, i + 1, s.skip(k), depth) {
                Ok((vs, k2)) => Ok((seq![v] + vs, k + k2)),
                Err(e) => Err(e),
            },
            Err(e) => Err(e),
        }
    }
}


// ---------------------------------------------------------------------------
// The executable encoder.
// ---------------------------------------------------------------------------

/// One prefix sequence inside another, transitively.
proof fn lemma_prefix_trans(a: Seq<u8>, b: Seq<u8>, c: Seq<u8>)
    requires
        a.is_prefix_of(b),
        b.is_prefix_of(c),
    ensures
        a.is_prefix_of(c),
{
    assert(a =~= c.take(a.len() as int));
}

impl CodecRegistry {
    /// Encode `value` as type `tag`, appending the bytes to `writer`, with a
    /// budget of `depth` further nesting levels. On an error, `writer` may
    /// have grown by a partial encoding.
    #[verifier::rlimit(100)]
    fn encode_at(&self, writer: &mut Vec<u8>, tag: &TypeTag, value: &Value, depth: u32) -> (r:
        Result<(), CodecError>)
        requires
            self.wf(),
        ensures
            old(writer)@.is_prefix_of(final (writer)@),
            ({
                let res = spec_encode(self@, *tag, value@, depth as nat);
                match r {
                    Ok(()) => res is Ok && final (writer)@ == old(writer)@ + res->Ok_0,
                    Err(e) => res == Err::<Seq<u8>, CodecError>(e),
                }
            }),
        decreases depth,
    {
        if !self.find_tag(tag) {
            assert(old(writer)@.is_prefix_of(writer@));
            return Err(CodecError::NoCodec);
        }
        match (tag, value) {
            (TypeTag::Byte, Value::Byte(x)) => {
                let b = #[verifier::truncate] (*x as u8);
                write_u8(writer, b);
                assert(writer@ =~= old(writer)@ + seq![b]);
                assert(old(writer)@.is_prefix_of(writer@));
                Ok(())
            },
            (TypeTag::UByte, Value::UByte(x)) => {
                write_u8(writer, *x);
                assert(writer@ =~= old(writer)@ + seq![*x]);
                assert(old(writer)@.is_prefix_of(writer@));
                Ok(())
            },
            (TypeTag::Short, Value::Short(x)) => {
                write_i16_be(writer, *x);
                assert(old(writer)@.is_prefix_of(writer@));
                Ok(())
            },
            (TypeTag::Int, Value::Int(x)) => {
                write_i32_be(writer, *x);
                assert(old(writer)@.is_prefix_of(writer@));
                Ok(())
            },
            (TypeTag::Long, Value::Long(x)) => {
                write_i64_be(writer, *x);
                assert(old(writer)@.is_prefix_of(writer@));
                Ok(())
            },
            (TypeTag::Float, Value::Float(x)) => {
                write_u32_be(writer, *x);
                assert(old(writer)@.is_prefix_of(writer@));
                Ok(())
            },
            (TypeTag::Double, Value::Double(x)) => {
                write_u64_be(writer, *x);
                assert(old(writer)@.is_prefix_of(writer@));
                Ok(())
            },
            (TypeTag::Bool, Value::Bool(v)) => {
                let b: u8 = if *v {
                    1
                } else {
                    0
                };
                write_u8(writer, b);
                assert(writer@ =~= old(writer)@ + seq![b]);
                assert(old(writer)@.is_prefix_of(writer@));
                Ok(())
            },
            (TypeTag::Str, Value::Str(sv)) => {
                if sv.as_str().is_empty() {
                    write_u8(writer, 1);
                    assert(writer@ =~= old(writer)@ + seq![1u8]);
                    assert(old(writer)@.is_prefix_of(writer@));
                    Ok(())
                } else {
                    let bs = sv.as_str().as_bytes();
                    let n = bs.len();
                    if n > 0x7fff_ffff {
                        assert(old(writer)@.is_prefix_of(writer@));
                        return Err(CodecError::InvalidArgument);
                    }
                    write_u8(writer, 0);
                    write_i32_be(writer, n as i32);
                    append_bytes(writer, bs);
                    assert(writer@ =~= old(writer)@ + (seq![0u8] + i32_be_bytes(n as i32)
                        + encode_utf8(sv@)));
                    assert(old(writer)@.is_prefix_of(writer@));
                    Ok(())
                }
            },
            (TypeTag::Optional(inner), Value::Optional(ov)) => match ov {
                None => {
                    write_u8(writer, 1);
                    assert(writer@ =~= old(writer)@ + seq![1u8]);
                    assert(old(writer)@.is_prefix_of(writer@));
                    Ok(())
                },
                Some(bx) => {
                    if depth == 0 {
                        assert(old(writer)@.is_prefix_of(writer@));
                        return Err(CodecError::EncodeError);
                    }
                    write_u8(writer, 0);
                    let ghost mid = writer@;
                    assert(mid =~= old(writer)@ + seq![0u8]);
                    assert(old(writer)@.is_prefix_of(mid));
                    match self.encode_at(writer, &**inner, &**bx, depth - 1) {
                        Ok(()) => {
                            proof {
                                let res = spec_encode(
                                    self@,
                                    **inner,
                                    (**bx)@,
                                    (depth - 1) as nat,
                                );
                                assert(writer@ =~= old(writer)@ + (seq![0u8] + res->Ok_0));
                                lemma_prefix_trans(old(writer)@, mid, writer@);
                            }
                            Ok(())
                        },
                        Err(e) => {
                            proof {
                                lemma_prefix_trans(old(writer)@, mid, writer@);
                            }
                            Err(e)
                        },
                    }
                },
            },
            (TypeTag::Sequence(inner), Value::Sequence(vs)) => {
                let ghost elems = values_view(*vs, 0);
                proof {
                    lemma_values_view(*vs, 0);
                }
                if vs.len() > 0x7fff_ffff {
                    assert(old(writer)@.is_prefix_of(writer@));
                    return Err(CodecError::InvalidArgument);
                }
                if depth == 0 {
                    assert(old(writer)@.is_prefix_of(writer@));
                    return Err(CodecError::EncodeError);
                }
                let ghost d = (depth - 1) as nat;
                let n = vs.len();
                write_i32_be(writer, n as i32);
                let ghost start = writer@;
                let ghost mut acc: Seq<u8> = Seq::empty();
                proof {
                    assert(start =~= start + acc);
                    assert(old(writer)@.is_prefix_of(start));
                    let r0 = spec_encode_list(self@, **inner, elems, 0, d);
                    if r0 is Ok {
                        assert(acc + r0->Ok_0 =~= r0->Ok_0);
                    }
                }
                let mut i: usize = 0;
                while i < n
                    invariant
                        i <= n,
                        self.wf(),
                        depth >= 1,
                        d == (depth - 1) as nat,
                        n == vs@.len(),
                        n == elems.len(),
                        n <= 0x7fff_ffff,
                        *tag == TypeTag::Sequence(*inner),
                        value@ == SpecValue::Sequence(elems),
                        self@.tags.contains(*tag),
                        forall|j: int| 0 <= j < n ==> elems[j] == value_view(vs@[j]),
                        old(writer)@.is_prefix_of(start),
                        writer@ == start + acc,
                        ({
                            let list0 = spec_encode_list(self@, **inner, elems, 0, d);
                            match spec_encode_list(self@, **inner, elems, i as int, d) {
                                Ok(rest) => list0 == Ok::<Seq<u8>, CodecError>(acc + rest),
                                Err(e) => list0 == Err::<Seq<u8>, CodecError>(e),
                            }
                        }),
                    decreases n - i,
                {
                    let ghost pre_w = writer@;
                    match self.encode_at(writer, &**inner, &vs[i], depth - 1) {
                        Ok(()) => {
                            proof {
                                let b = spec_encode(self@, **inner, elems[i as int], d)->Ok_0;
                                assert(writer@ =~= start + (acc + b));
                                let rest_i1 = spec_encode_list(
                                    self@,
                                    **inner,
                                    elems,
                                    i as int + 1,
                                    d,
                                );
                                if rest_i1 is Ok {
                                    assert((acc + b) + rest_i1->Ok_0 =~= acc + (b
                                        + rest_i1->Ok_0));
                                }
                                acc = acc + b;
                            }
                        },
                        Err(e) => {
                            proof {
                                lemma_prefix_trans(old(writer)@, start, pre_w);
                                lemma_prefix_trans(old(writer)@, pre_w, writer@);
                            }
                            return Err(e);
                        },
                    }
                    i = i + 1;
                }
                proof {
                    let list0 = spec_encode_list(self@, **inner, elems, 0, d);
                    assert(spec_encode_list(self@, **inner, elems, n as int, d) == Ok::<
                        Seq<u8>,
                        CodecError,
                    >(Seq::empty()));
                    assert(acc + Seq::<u8>::empty() =~= acc);
                    assert(list0 == Ok::<Seq<u8>, CodecError>(acc));
                    assert(writer@ =~= old(writer)@ + (i32_be_bytes(n as i32) + acc));
                    assert(old(writer)@.is_prefix_of(writer@));
                }
                Ok(())
            },
            (TypeTag::Record(id), Value::Record(rid, fields)) => {
                if *id != *rid {
                    assert(old(writer)@.is_prefix_of(writer@));
                    return Err(CodecError::InvalidArgument);
                }
                let schema = match self.find_schema(*id) {
                    Some(schema) => schema,
                    None => {
                        assert(old(writer)@.is_prefix_of(writer@));
                        return Err(CodecError::NoCodec);
                    },
                };
                let ghost fvs = values_view(*fields, 0);
                proof {
                    lemma_values_view(*fields, 0);
                }
                if fields.len() != schema.len() {
                    assert(old(writer)@.is_prefix_of(writer@));
                    return Err(CodecError::InvalidArgument);
                }
                if depth == 0 {
                    assert(old(writer)@.is_prefix_of(writer@));
                    return Err(CodecError::EncodeError);
                }
                let ghost d = (depth - 1) as nat;
                let ghost start = writer@;
                let ghost mut acc: Seq<u8> = Seq::empty();
                proof {
                    assert(start =~= start + acc);
                    let r0 = spec_encode_fields(self@, schema@, fvs, 0, d);
                    if r0 is Ok {
                        assert(acc + r0->Ok_0 =~= r0->Ok_0);
                    }
                }
                let n = fields.len();
                let mut i: usize = 0;
                while i < n
                    invariant
                        i <= n,
                        self.wf(),
                        depth >= 1,
                        d == (depth - 1) as nat,
                        n == fields@.len(),
                        n == fvs.len(),
                        n == schema@.len(),
                        *tag == TypeTag::Record(*id),
                        value@ == SpecValue::Record(*id, fvs),
                        self@.tags.contains(*tag),
                        self@.schemas.dom().contains(*id),
                        schema@ == self@.schemas[*id],
                        forall|j: int| 0 <= j < n ==> fvs[j] == value_view(fields@[j]),
                        old(writer)@.is_prefix_of(start),
                        writer@ == start + acc,
                        ({
                            let all0 = spec_encode_fields(self@, schema@, fvs, 0, d);
                            match spec_encode_fields(self@, schema@, fvs, i as int, d) {
                                Ok(rest) => all0 == Ok::<Seq<u8>, CodecError>(acc + rest),
                                Err(e) => all0 == Err::<Seq<u8>, CodecError>(e),
                            }
                        }),
                    decreases n - i,
                {
                    let ghost pre_w = writer@;
                    match self.encode_at(writer, &schema[i], &fields[i], depth - 1) {
                        Ok(()) => {
                            proof {
                                let b = spec_encode(
                                    self@,
                                    schema@[i as int],
                                    fvs[i as int],
                                    d,
                                )->Ok_0;
                                assert(writer@ =~= start + (acc + b));
                                let rest_i1 = spec_encode_fields(
                                    self@,
                                    schema@,
                                    fvs,
                                    i as int + 1,
                                    d,
                                );
                                if rest_i1 is Ok {
                                    assert((acc + b) + rest_i1->Ok_0 =~= acc + (b
                                        + rest_i1->Ok_0));
                                }
                                acc = acc + b;
                            }
                        },
                        Err(e) => {
                            proof {
                                lemma_prefix_trans(old(writer)@, start, pre_w);
                                lemma_prefix_trans(old(writer)@, pre_w, writer@);
                            }
                            return Err(e);
                        },
                    }
                    i = i + 1;
                }
                proof {
                    let all0 = spec_encode_fields(self@, schema@, fvs, 0, d);
                    assert(spec_encode_fields(self@, schema@, fvs, n as int, d) == Ok::<
                        Seq<u8>,
                        CodecError,
                    >(Seq::empty()));
                    assert(acc + Seq::<u8>::empty() =~= acc);
                    assert(all0 == Ok::<Seq<u8>, CodecError>(acc));
                    assert(writer@ =~= old(writer)@ + acc);
                    assert(old(writer)@.is_prefix_of(writer@));
                }
                Ok(())
            },
            _ => {
                assert(old(writer)@.is_prefix_of(writer@));
                Err(CodecError::InvalidArgument)
            },
        }
    }

    /// Encode `value` as type `tag`, appending the bytes to `writer`. On an
    /// error nothing is appended.
    pub fn encode(&self, writer: &mut Vec<u8>, tag: &TypeTag, value: &Value) -> (r: Result<
        (),
        CodecError,
    >)
        requires
            self.wf(),
        ensures
            ({
                let res = spec_encode(self@, *tag, value@, MAX_DEPTH as nat);
                match r {
                    Ok(()) => res is Ok && final (writer)@ == old(writer)@ + res->Ok_0,
                    Err(e) => res == Err::<Seq<u8>, CodecError>(e) && final (writer)@ == old(
                        writer,
                    )@,
                }
            }),
    {
        let start = writer.len();
        match self.encode_at(writer, tag, value, MAX_DEPTH) {
            Ok(()) => Ok(()),
            Err(e) => {
                writer.truncate(start);
                assert(writer@ =~= old(writer)@);
                Err(e)
            },
        }
    }
}


/// A successful decode consumes between zero and all of the input bytes.
pub proof fn lemma_spec_decode_len(reg: CodecRegistryView, t: TypeTag, s: Seq<u8>, depth: nat)
    ensures
        spec_decode(reg, t, s, depth) matches Ok((v, k)) ==> 0 <= k <= s.len(),
    decreases depth, 0int, 0int,
{
    match t {
        TypeTag::Optional(inner) => {
            if s.len() >= 1 && s[0] != 1 && depth > 0 {
                lemma_spec_decode_len(reg, *inner, s.skip(1), (depth - 1) as nat);
            }
        },
        TypeTag::Sequence(inner) => {
            if s.len() >= 4 && i32_from_be(s) >= 0 && depth > 0 {
                lemma_spec_decode_list_len(
                    reg,
                    *inner,
                    s.skip(4),
                    i32_from_be(s) as int,
                    (depth - 1) as nat,
                );
            }
        },
        TypeTag::Record(id) => {
            if reg.schemas.dom().contains(id) && depth > 0 {
                lemma_spec_decode_fields_len(reg, reg.schemas[id], 0, s, (depth - 1) as nat);
            }
        },
        _ => {},
    }
}

/// A successful list decode consumes between zero and all of the input bytes.
pub proof fn lemma_spec_decode_list_len(
    reg: CodecRegistryView,
    t: TypeTag,
    s: Seq<u8>,
    count: int,
    depth: nat,
)
    ensures
        spec_decode_list(reg, t, s, count, depth) matches Ok((vs, k)) ==> 0 <= k <= s.len(),
    decreases depth, 1int, count,
{
    if count > 0 {
        lemma_spec_decode_len(reg, t, s, depth);
        if spec_decode(reg, t, s, depth) is Ok {
            let k = spec_decode(reg, t, s, depth)->Ok_0.1;
            lemma_spec_decode_list_len(reg, t, s.skip(k), count - 1, depth);
        }
    }
}

/// A successful field-list decode consumes between zero and all of the
/// input bytes.
pub proof fn lemma_spec_decode_fields_len(
    reg: CodecRegistryView,
    tags: Seq<TypeTag>,
    i: int,
    s: Seq<u8>,
    depth: nat,
)
    ensures
        spec_decode_fields(reg, tags, i, s, depth) matches Ok((vs, k)) ==> 0 <= k <= s.len(),
    decreases depth, 1int, tags.len() - i,
{
    if 0 <= i < tags.len() {
        lemma_spec_decode_len(reg, tags[i], s, depth);
        if spec_decode(reg, tags[i], s, depth) is Ok {
            let k = spec_decode(reg, tags[i], s, depth)->Ok_0.1;
            lemma_spec_decode_fields_len(reg, tags, i + 1, s.skip(k), depth);
        }
    }
}

// ---------------------------------------------------------------------------
// The executable decoder.
// ---------------------------------------------------------------------------

/// Skipping twice is skipping the sum.
proof fn lemma_skip_skip(s: Seq<u8>, a: int, b: int)
    requires
        0 <= a,
        0 <= b,
        a + b <= s.len(),
    ensures
        s.skip(a).skip(b) == s.skip(a + b),
{
    assert(s.skip(a).skip(b) =~= s.skip(a + b));
}

/// Relies on String::from_utf8: returns the string read from the given
/// bytes when they are valid UTF-8, and nothing otherwise.
#[verifier::external_body]
fn string_from_utf8(bytes: Vec<u8>) -> (r: Option<String>)
    ensures
        match r {
            Some(s) => valid_utf8(bytes@) && s@ == decode_utf8(bytes@),
            None => !valid_utf8(bytes@),
        },
{
    String::from_utf8(bytes).ok()
}

impl CodecRegistry {
    /// Decode one value of type `tag` from the front of `reader`, with a
    /// budget of `depth` further nesting levels. On an error the read
    /// position is unspecified; the bytes themselves never change.
    #[verifier::rlimit(100)]
    fn decode_at(&self, reader: &mut ByteReader, tag: &TypeTag, depth: u32) -> (r: Result<
        Value,
        CodecError,
    >)
        requires
            self.wf(),
            old(reader).wf(),
        ensures
            final (reader).wf(),
            final (reader).all_bytes() == old(reader).all_bytes(),
            ({
                let res = spec_decode(self@, *tag, old(reader).remaining(), depth as nat);
                match r {
                    Ok(v) => res is Ok && v@ == res->Ok_0.0 && final (reader).remaining() == old(
                        reader,
                    ).remaining().skip(res->Ok_0.1),
                    Err(e) => res == Err::<(SpecValue, int), CodecError>(e),
                }
            }),
        decreases depth,
    {
        let ghost s0 = old(reader).remaining();
        if !self.find_tag(tag) {
            return Err(CodecError::NoCodec);
        }
        match tag {
            TypeTag::Byte => match reader.read_u8() {
                Some(b) => Ok(Value::Byte(#[verifier::truncate] (b as i8))),
                None => Err(CodecError::IoError),
            },
            TypeTag::UByte => match reader.read_u8() {
                Some(b) => Ok(Value::UByte(b)),
                None => Err(CodecError::IoError),
            },
            TypeTag::Short => match reader.read_u16_be() {
                Some(v) => Ok(Value::Short(#[verifier::truncate] (v as i16))),
                None => Err(CodecError::IoError),
            },
            TypeTag::Int => match reader.read_u32_be() {
                Some(v) => Ok(Value::Int(#[verifier::truncate] (v as i32))),
                None => Err(CodecError::IoError),
            },
            TypeTag::Long => match reader.read_u64_be() {
                Some(v) => Ok(Value::Long(#[verifier::truncate] (v as i64))),
                None => Err(CodecError::IoError),
            },
            TypeTag::Float => match reader.read_u32_be() {
                Some(v) => Ok(Value::Float(v)),
                None => Err(CodecError::IoError),
            },
            TypeTag::Double => match reader.read_u64_be() {
                Some(v) => Ok(Value::Double(v)),
                None => Err(CodecError::IoError),
            },
            TypeTag::Bool => match reader.read_u8() {
                Some(b) => Ok(Value::Bool(b == 1)),
                None => Err(CodecError::IoError),
            },
            TypeTag::Str => {
                let flag = match reader.read_u8() {
                    Some(b) => b,
                    None => {
                        return Err(CodecError::IoError);
                    },
                };
                if flag == 1 {
                    let st = String::new();
                    assert(value_view(Value::Str(st)) == SpecValue::Str(st@));
                    Ok(Value::Str(st))
                } else {
                    let nraw = match reader.read_u32_be() {
                        Some(v) => v,
                        None => {
                            return Err(CodecError::IoError);
                        },
                    };
                    proof {
                        lemma_skip_skip(s0, 1, 4);
                    }
                    let n_i32 = #[verifier::truncate] (nraw as i32);
                    if n_i32 < 0 {
                        return Err(CodecError::IoError);
                    }
                    let n = n_i32 as usize;
                    let bytes = match reader.read_bytes(n) {
                        Some(b) => b,
                        None => {
                            return Err(CodecError::IoError);
                        },
                    };
                    proof {
                        assert(bytes@ =~= s0.subrange(5, 5 + n as int));
                        lemma_skip_skip(s0, 5, n as int);
                    }
                    match string_from_utf8(bytes) {
                        Some(st) => Ok(Value::Str(st)),
                        None => Err(CodecError::DecodeError),
                    }
                }
            },
            TypeTag::Optional(inner) => {
                let flag = match reader.read_u8() {
                    Some(b) => b,
                    None => {
                        return Err(CodecError::IoError);
                    },
                };
                if flag == 1 {
                    Ok(Value::Optional(None))
                } else if depth == 0 {
                    Err(CodecError::DecodeError)
                } else {
                    match self.decode_at(reader, &**inner, depth - 1) {
                        Ok(v) => {
                            proof {
                                let k = spec_decode(
                                    self@,
                                    **inner,
                                    s0.skip(1),
                                    (depth - 1) as nat,
                                )->Ok_0.1;
                                lemma_spec_decode_len(self@, **inner, s0.skip(1), (depth - 1) as nat);
                                lemma_skip_skip(s0, 1, k);
                            }
                            Ok(Value::Optional(Some(Box::new(v))))
                        },
                        Err(e) => Err(e),
                    }
                }
            },
            TypeTag::Sequence(inner) => {
                let nraw = match reader.read_u32_be() {
                    Some(v) => v,
                    None => {
                        return Err(CodecError::IoError);
                    },
                };
                let n_i32 = #[verifier::truncate] (nraw as i32);
                if n_i32 < 0 {
                    return Err(CodecError::DecodeError);
                }
                if depth == 0 {
                    return Err(CodecError::DecodeError);
                }
                let n = n_i32 as usize;
                let ghost d = (depth - 1) as nat;
                let ghost s4 = s0.skip(4);
                let mut out: Vec<Value> = Vec::new();
                let ghost mut acc: Seq<SpecValue> = Seq::empty();
                let ghost mut consumed: int = 0;
                let mut j: usize = 0;
                proof {
                    assert(reader.remaining() =~= s4.skip(consumed));
                    let r0 = spec_decode_list(self@, **inner, s4, n as int, d);
                    if r0 is Ok {
                        assert(acc + r0->Ok_0.0 =~= r0->Ok_0.0);
                    }
                }
                while j < n
                    invariant
                        j <= n,
                        self.wf(),
                        reader.wf(),
                        depth >= 1,
                        d == (depth - 1) as nat,
                        reader.all_bytes() == old(reader).all_bytes(),
                        s0 == old(reader).remaining(),
                        s0.len() >= 4,
                        n_i32 == i32_from_be(s0),
                        n_i32 >= 0,
                        n == n_i32 as usize,
                        s4 == s0.skip(4),
                        *tag == TypeTag::Sequence(*inner),
                        self@.tags.contains(*tag),
                        out@.len() == j,
                        acc.len() == j,
                        forall|jj: int| 0 <= jj < j ==> value_view(out@[jj]) == acc[jj],
                        0 <= consumed <= s4.len(),
                        reader.remaining() == s4.skip(consumed),
                        ({
                            let list0 = spec_decode_list(self@, **inner, s4, n as int, d);
                            match spec_decode_list(
                                self@,
                                **inner,
                                reader.remaining(),
                                n - j,
                                d,
                            ) {
                                Ok((vs2, k2)) => list0 == Ok::<(Seq<SpecValue>, int), CodecError>(
                                    (acc + vs2, consumed + k2),
                                ),
                                Err(e) => list0 == Err::<(Seq<SpecValue>, int), CodecError>(e),
                            }
                        }),
                    decreases n - j,
                {
                    let ghost rem_pre = reader.remaining();
                    match self.decode_at(reader, &**inner, depth - 1) {
                        Ok(v) => {
                            proof {
                                let k = spec_decode(self@, **inner, rem_pre, d)->Ok_0.1;
                                let vsp = spec_decode(self@, **inner, rem_pre, d)->Ok_0.0;
                                let rest = spec_decode_list(
                                    self@,
                                    **inner,
                                    rem_pre.skip(k),
                                    n - j - 1,
                                    d,
                                );
                                if rest is Ok {
                                    assert((acc + seq![vsp]) + rest->Ok_0.0 =~= acc + (seq![vsp]
                                        + rest->Ok_0.0));
                                }
                                lemma_spec_decode_len(self@, **inner, rem_pre, d);
                                assert(0 <= k <= rem_pre.len());
                                lemma_skip_skip(s4, consumed, k);
                                acc = acc + seq![vsp];
                                consumed = consumed + k;
                            }
                            out.push(v);
                            j = j + 1;
                        },
                        Err(e) => {
                            return Err(e);
                        },
                    }
                }
                proof {
                    let list0 = spec_decode_list(self@, **inner, s4, n as int, d);
                    assert(spec_decode_list(self@, **inner, reader.remaining(), 0, d) == Ok::<
                        (Seq<SpecValue>, int),
                        CodecError,
                    >((Seq::empty(), 0int)));
                    assert(acc + Seq::<SpecValue>::empty() =~= acc);
                    assert(list0 == Ok::<(Seq<SpecValue>, int), CodecError>((acc, consumed)));
                    lemma_values_view(out, 0);
                    assert(values_view(out, 0) =~= acc);
                    lemma_skip_skip(s0, 4, consumed);
                }
                Ok(Value::Sequence(out))
            },
            TypeTag::Record(id) => {
                let schema = match self.find_schema(*id) {
                    Some(schema) => schema,
                    None => {
                        return Err(CodecError::NoCodec);
                    },
                };
                if depth == 0 {
                    return Err(CodecError::DecodeError);
                }
                let n = schema.len();
                let ghost d = (depth - 1) as nat;
                let mut out: Vec<Value> = Vec::new();
                let ghost mut acc: Seq<SpecValue> = Seq::empty();
                let ghost mut consumed: int = 0;
                let mut j: usize = 0;
                proof {
                    assert(reader.remaining() =~= s0.skip(consumed));
                    let r0 = spec_decode_fields(self@, schema@, 0, s0, d);
                    if r0 is Ok {
                        assert(acc + r0->Ok_0.0 =~= r0->Ok_0.0);
                    }
                }
                while j < n
                    invariant
                        j <= n,
                        self.wf(),
                        reader.wf(),
                        depth >= 1,
                        d == (depth - 1) as nat,
                        reader.all_bytes() == old(reader).all_bytes(),
                        s0 == old(reader).remaining(),
                        n == schema@.len(),
                        *tag == TypeTag::Record(*id),
                        self@.tags.contains(*tag),
                        self@.schemas.dom().contains(*id),
                        schema@ == self@.schemas[*id],
                        out@.len() == j,
                        acc.len() == j,
                        forall|jj: int| 0 <= jj < j ==> value_view(out@[jj]) == acc[jj],
                        0 <= consumed <= s0.len(),
                        reader.remaining() == s0.skip(consumed),
                        ({
                            let all0 = spec_decode_fields(self@, schema@, 0, s0, d);
                            match spec_decode_fields(
                                self@,
                                schema@,
                                j as int,
                                reader.remaining(),
                                d,
                            ) {
                                Ok((vs2, k2)) => all0 == Ok::<(Seq<SpecValue>, int), CodecError>(
                                    (acc + vs2, consumed + k2),
                                ),
                                Err(e) => all0 == Err::<(Seq<SpecValue>, int), CodecError>(e),
                            }
                        }),
                    decreases n - j,
                {
                    let ghost rem_pre = reader.remaining();
                    match self.decode_at(reader, &schema[j], depth - 1) {
                        Ok(v) => {
                            proof {
                                let k = spec_decode(self@, schema@[j as int], rem_pre, d)->Ok_0.1;
                                let vsp = spec_decode(self@, schema@[j as int], rem_pre, d)->Ok_0.0;
                                let rest = spec_decode_fields(
                                    self@,
                                    schema@,
                                    j as int + 1,
                                    rem_pre.skip(k),
                                    d,
                                );
                                if rest is Ok {
                                    assert((acc + seq![vsp]) + rest->Ok_0.0 =~= acc + (seq![vsp]
                                        + rest->Ok_0.0));
                                }
                                lemma_spec_decode_len(self@, schema@[j as int], rem_pre, d);
                                assert(0 <= k <= rem_pre.len());
                                lemma_skip_skip(s0, consumed, k);
                                acc = acc + seq![vsp];
                                consumed = consumed + k;
                            }
                            out.push(v);
                            j = j + 1;
                        },
                        Err(e) => {
                            return Err(e);
                        },
                    }
                }
                proof {
                    let all0 = spec_decode_fields(self@, schema@, 0, s0, d);
                    assert(spec_decode_fields(self@, schema@, n as int, reader.remaining(), d)
                        == Ok::<(Seq<SpecValue>, int), CodecError>((Seq::empty(), 0int)));
                    assert(acc + Seq::<SpecValue>::empty() =~= acc);
                    assert(all0 == Ok::<(Seq<SpecValue>, int), CodecError>((acc, consumed)));
                    lemma_values_view(out, 0);
                    assert(values_view(out, 0) =~= acc);
                }
                Ok(Value::Record(*id, out))
            },
        }
    }

    /// Decode one value of type `tag` from the front of `reader`. On an
    /// error the read position is unspecified; the bytes never change.
    pub fn decode(&self, reader: &mut ByteReader, tag: &TypeTag) -> (r: Result<Value, CodecError>)
        requires
            self.wf(),
            old(reader).wf(),
        ensures
            final (reader).wf(),
            final (reader).all_bytes() == old(reader).all_bytes(),
            ({
                let res = spec_decode(self@, *tag, old(reader).remaining(), MAX_DEPTH as nat);
                match r {
                    Ok(v) => res is Ok && v@ == res->Ok_0.0 && final (reader).remaining() == old(
                        reader,
                    ).remaining().skip(res->Ok_0.1),
                    Err(e) => res == Err::<(SpecValue, int), CodecError>(e),
                }
            }),
    {
        self.decode_at(reader, tag, MAX_DEPTH)
    }
}


// ---------------------------------------------------------------------------
// Round-trip fidelity: decoding an encoding yields the original value.
// ---------------------------------------------------------------------------

/// Round-trip fidelity. Whatever value a registry encodes, the same registry
/// decodes back from those bytes, whatever bytes follow them, consuming
/// exactly the encoding: primitives, strings, optional values, sequences and
/// records alike.
pub proof fn lemma_codec_round_trip(
    reg: CodecRegistryView,
    t: TypeTag,
    v: SpecValue,
    depth: nat,
    rest: Seq<u8>,
)
    requires
        spec_encode(reg, t, v, depth) is Ok,
    ensures
        ({
            let bs = spec_encode(reg, t, v, depth)->Ok_0;
            spec_decode(reg, t, bs + rest, depth) == Ok::<(SpecValue, int), CodecError>(
                (v, bs.len() as int),
            )
        }),
    decreases depth, 0int, 0int,
{
    let bs = spec_encode(reg, t, v, depth)->Ok_0;
    let s = bs + rest;
    match (t, v) {
        (TypeTag::Byte, SpecValue::Byte(x)) => {
            assert(s[0] == x as u8);
            assert((x as u8) as i8 == x) by (bit_vector);
        },
        (TypeTag::UByte, SpecValue::UByte(x)) => {
            assert(s[0] == x);
        },
        (TypeTag::Short, SpecValue::Short(x)) => {
            lemma_i16_be_round_trip(x);
            assert(s[0] == i16_be_bytes(x)[0] && s[1] == i16_be_bytes(x)[1]);
            assert(i16_from_be(s) == i16_from_be(i16_be_bytes(x)));
        },
        (TypeTag::Int, SpecValue::Int(x)) => {
            lemma_i32_be_round_trip(x);
            assert(s[0] == i32_be_bytes(x)[0] && s[1] == i32_be_bytes(x)[1] && s[2]
                == i32_be_bytes(x)[2] && s[3] == i32_be_bytes(x)[3]);
            assert(i32_from_be(s) == i32_from_be(i32_be_bytes(x)));
        },
        (TypeTag::Long, SpecValue::Long(x)) => {
            lemma_i64_be_round_trip(x);
            assert(forall|j: int| 0 <= j < 8 ==> s[j] == i64_be_bytes(x)[j]);
            assert(i64_from_be(s) == i64_from_be(i64_be_bytes(x)));
        },
        (TypeTag::Float, SpecValue::Float(x)) => {
            lemma_u32_be_round_trip(x);
            assert(s[0] == u32_be_bytes(x)[0] && s[1] == u32_be_bytes(x)[1] && s[2]
                == u32_be_bytes(x)[2] && s[3] == u32_be_bytes(x)[3]);
            assert(u32_from_be(s) == u32_from_be(u32_be_bytes(x)));
        },
        (TypeTag::Double, SpecValue::Double(x)) => {
            lemma_u64_be_round_trip(x);
            assert(forall|j: int| 0 <= j < 8 ==> s[j] == u64_be_bytes(x)[j]);
            assert(u64_from_be(s) == u64_from_be(u64_be_bytes(x)));
        },
        (TypeTag::Bool, SpecValue::Bool(b)) => {
            assert(s[0] == if b {
                1u8
            } else {
                0u8
            });
        },
        (TypeTag::Str, SpecValue::Str(sv)) => {
            if sv.len() == 0 {
                assert(s[0] == 1);
                assert(decode_utf8(Seq::empty()) =~= sv) by {
                    vstd::utf8::encode_utf8_decode_utf8(sv);
                    assert(encode_utf8(sv) =~= Seq::<u8>::empty());
                }
                assert(Seq::<char>::empty() =~= sv);
            } else {
                let ub = encode_utf8(sv);
                let m = ub.len() as i32;
                assert(bs =~= seq![0u8] + i32_be_bytes(m) + ub);
                assert(s[0] == 0);
                vstd::utf8::encode_utf8_valid_utf8(sv);
                assert(ub.len() > 0) by {
                    vstd::utf8::encode_utf8_decode_utf8(sv);
                    if ub.len() == 0 {
                        assert(decode_utf8(ub) =~= Seq::<char>::empty());
                    }
                }
                assert(s.len() >= 5);
                assert(forall|j: int|
                    0 <= j < 4 ==> s.skip(1)[j] == i32_be_bytes(m)[j]);
                lemma_i32_be_round_trip(m);
                assert(i32_from_be(s.skip(1)) == i32_from_be(i32_be_bytes(m)));
                let n = i32_from_be(s.skip(1));
                assert(n == m);
                assert(m >= 0);
                assert(s.len() >= 5 + n);
                assert(s.subrange(5, 5 + n as int) =~= ub);
                assert(valid_utf8(ub));
                vstd::utf8::encode_utf8_decode_utf8(sv);
                assert(decode_utf8(ub) == sv);
                assert(bs.len() == 5 + n);
            }
        },
        (TypeTag::Optional(inner), SpecValue::Optional(ov)) => match ov {
            None => {
                assert(s[0] == 1);
            },
            Some(x) => {
                let inner_bs = spec_encode(reg, *inner, *x, (depth - 1) as nat)->Ok_0;
                assert(bs =~= seq![0u8] + inner_bs);
                assert(s[0] == 0);
                lemma_codec_round_trip(reg, *inner, *x, (depth - 1) as nat, rest);
                assert(s.skip(1) =~= inner_bs + rest);
                assert(bs.len() == 1 + inner_bs.len());
            },
        },
        (TypeTag::Sequence(inner), SpecValue::Sequence(elems)) => {
            let d = (depth - 1) as nat;
            let list_bs = spec_encode_list(reg, *inner, elems, 0, d)->Ok_0;
            let m = elems.len() as i32;
            assert(bs =~= i32_be_bytes(m) + list_bs);
            assert(forall|j: int| 0 <= j < 4 ==> s[j] == i32_be_bytes(m)[j]);
            lemma_i32_be_round_trip(m);
            assert(i32_from_be(s) == i32_from_be(i32_be_bytes(m)));
            let n = i32_from_be(s);
            assert(n == m && n >= 0);
            assert(s.skip(4) =~= list_bs + rest);
            lemma_codec_round_trip_list(reg, *inner, elems, 0, d, rest);
            assert(elems.skip(0) =~= elems);
            assert(bs.len() == 4 + list_bs.len());
        },
        (TypeTag::Record(id), SpecValue::Record(rid, fields)) => {
            let d = (depth - 1) as nat;
            let tags = reg.schemas[id];
            lemma_codec_round_trip_fields(reg, tags, fields, 0, d, rest);
            assert(fields.skip(0) =~= fields);
        },
        _ => {},
    }
}

/// Round-trip fidelity for the elements `elems[i..]` of a sequence: element
/// order and count are preserved exactly.
pub proof fn lemma_codec_round_trip_list(
    reg: CodecRegistryView,
    t: TypeTag,
    elems: Seq<SpecValue>,
    i: int,
    depth: nat,
    rest: Seq<u8>,
)
    requires
        0 <= i <= elems.len(),
        spec_encode_list(reg, t, elems, i, depth) is Ok,
    ensures
        ({
            let bs = spec_encode_list(reg, t, elems, i, depth)->Ok_0;
            spec_decode_list(reg, t, bs + rest, elems.len() - i, depth) == Ok::<
                (Seq<SpecValue>, int),
                CodecError,
            >((elems.skip(i), bs.len() as int))
        }),
    decreases depth, 1int, elems.len() - i,
{
    let bs = spec_encode_list(reg, t, elems, i, depth)->Ok_0;
    if i == elems.len() {
        assert(elems.skip(i) =~= Seq::<SpecValue>::empty());
    } else {
        let b = spec_encode(reg, t, elems[i], depth)->Ok_0;
        let tail = spec_encode_list(reg, t, elems, i + 1, depth)->Ok_0;
        assert(bs =~= b + tail);
        assert(bs + rest =~= b + (tail + rest));
        lemma_codec_round_trip(reg, t, elems[i], depth, tail + rest);
        assert((bs + rest).skip(b.len() as int) =~= tail + rest);
        lemma_codec_round_trip_list(reg, t, elems, i + 1, depth, rest);
        assert(seq![elems[i]] + elems.skip(i + 1) =~= elems.skip(i));
    }
}

/// Round-trip fidelity for the fields `fields[i..]` of a record, each of
/// the type the schema gives it.
pub proof fn lemma_codec_round_trip_fields(
    reg: CodecRegistryView,
    tags: Seq<TypeTag>,
    fields: Seq<SpecValue>,
    i: int,
    depth: nat,
    rest: Seq<u8>,
)
    requires
        0 <= i <= tags.len(),
        tags.len() == fields.len(),
        spec_encode_fields(reg, tags, fields, i, depth) is Ok,
    ensures
        ({
            let bs = spec_encode_fields(reg, tags, fields, i, depth)->Ok_0;
            spec_decode_fields(reg, tags, i, bs + rest, depth) == Ok::<
                (Seq<SpecValue>, int),
                CodecError,
            >((fields.skip(i), bs.len() as int))
        }),
    decreases depth, 1int, tags.len() - i,
{
    let bs = spec_encode_fields(reg, tags, fields, i, depth)->Ok_0;
    if i == tags.len() {
        assert(fields.skip(i) =~= Seq::<SpecValue>::empty());
    } else {
        let b = spec_encode(reg, tags[i], fields[i], depth)->Ok_0;
        let tail = spec_encode_fields(reg, tags, fields, i + 1, depth)->Ok_0;
        assert(bs =~= b + tail);
        assert(bs + rest =~= b + (tail + rest));
        lemma_codec_round_trip(reg, tags[i], fields[i], depth, tail + rest);
        assert((bs + rest).skip(b.len() as int) =~= tail + rest);
        lemma_codec_round_trip_fields(reg, tags, fields, i + 1, depth, rest);
        assert(seq![fields[i]] + fields.skip(i + 1) =~= fields.skip(i));
    }
}


/// String codec round trip: decoding the encoding of any string — the empty
/// string included, and strings whose UTF-8 bytes happen to look like a
/// length prefix — yields that string back, whatever bytes follow the
/// encoding.
pub proof fn lemma_string_round_trip(reg: CodecRegistryView, sv: Seq<char>, rest: Seq<u8>)
    requires
        reg.tags.contains(TypeTag::Str),
        encode_utf8(sv).len() <= i32::MAX,
    ensures
        spec_encode(reg, TypeTag::Str, SpecValue::Str(sv), MAX_DEPTH as nat) is Ok,
        ({
            let bs = spec_encode(reg, TypeTag::Str, SpecValue::Str(sv), MAX_DEPTH as nat)->Ok_0;
            spec_decode(reg, TypeTag::Str, bs + rest, MAX_DEPTH as nat) == Ok::<
                (SpecValue, int),
                CodecError,
            >((SpecValue::Str(sv), bs.len() as int))
        }),
{
    lemma_codec_round_trip(reg, TypeTag::Str, SpecValue::Str(sv), MAX_DEPTH as nat, rest);
}

/// Sequence codec round trip: decoding the encoding of a list yields a list
/// with the same elements in the same order, and in particular the same
/// count, for empty and non-empty lists alike.
pub proof fn lemma_sequence_round_trip(
    reg: CodecRegistryView,
    inner: TypeTag,
    elems: Seq<SpecValue>,
    rest: Seq<u8>,
)
    requires
        spec_encode(reg, TypeTag::Sequence(Box::new(inner)), SpecValue::Sequence(elems),
            MAX_DEPTH as nat) is Ok,
    ensures
        ({
            let bs = spec_encode(
                reg,
                TypeTag::Sequence(Box::new(inner)),
                SpecValue::Sequence(elems),
                MAX_DEPTH as nat,
            )->Ok_0;
            let decoded = spec_decode(
                reg,
                TypeTag::Sequence(Box::new(inner)),
                bs + rest,
                MAX_DEPTH as nat,
            );
            &&& decoded == Ok::<(SpecValue, int), CodecError>(
                (SpecValue::Sequence(elems), bs.len() as int),
            )
            &&& decoded->Ok_0.0->Sequence_0.len() == elems.len()
            &&& forall|j: int|
                0 <= j < elems.len() ==> decoded->Ok_0.0->Sequence_0[j] == elems[j]
        }),
{
    lemma_codec_round_trip(
        reg,
        TypeTag::Sequence(Box::new(inner)),
        SpecValue::Sequence(elems),
        MAX_DEPTH as nat,
        rest,
    );
}

/// Optional codec round trip: decoding the encoding of an absent value
/// yields an absent value, and decoding the encoding of a present value
/// yields the same present value.
pub proof fn lemma_optional_round_trip(
    reg: CodecRegistryView,
    inner: TypeTag,
    ov: Option<Box<SpecValue>>,
    rest: Seq<u8>,
)
    requires
        spec_encode(reg, TypeTag::Optional(Box::new(inner)), SpecValue::Optional(ov),
            MAX_DEPTH as nat) is Ok,
    ensures
        ({
            let bs = spec_encode(
                reg,
                TypeTag::Optional(Box::new(inner)),
                SpecValue::Optional(ov),
                MAX_DEPTH as nat,
            )->Ok_0;
            spec_decode(reg, TypeTag::Optional(Box::new(inner)), bs + rest, MAX_DEPTH as nat)
                == Ok::<(SpecValue, int), CodecError>((SpecValue::Optional(ov), bs.len() as int))
        }),
{
    lemma_codec_round_trip(
        reg,
        TypeTag::Optional(Box::new(inner)),
        SpecValue::Optional(ov),
        MAX_DEPTH as nat,
        rest,
    );
}

} // verus!
