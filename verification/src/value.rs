//! The closed universe of wire values: primitives, strings, optional values,
//! homogeneous sequences and records, together with the runtime type
//! identities (`TypeTag`) that the codec registry is keyed by.
//!
//! Floating-point fields travel on the wire as the big-endian bytes of their
//! IEEE 754 bit patterns, so the library carries them as those bit patterns
//! (`u32`/`u64`); callers convert with `to_bits`/`from_bits` at the edge.

use vstd::prelude::*;

verus! {

broadcast use vstd::std_specs::vec::axiom_vec_index_decreases;

/// The runtime identity of a value type, the key of the codec registry.
/// A `Record` tag names a registered record schema by its numeric id.
#[derive(Debug, PartialEq)]
pub enum TypeTag {
    Byte,
    UByte,
    Short,
    Int,
    Long,
    Float,
    Double,
    Bool,
    Str,
    Optional(Box<TypeTag>),
    Sequence(Box<TypeTag>),
    Record(u32),
}

impl TypeTag {
    /// Structural equality of type identities.
    pub fn matches(&self, other: &TypeTag) -> (r: bool)
        ensures
            r == (*self == *other),
        decreases self,
    {
        match (self, other) {
            (TypeTag::Byte, TypeTag::Byte) => true,
            (TypeTag::UByte, TypeTag::UByte) => true,
            (TypeTag::Short, TypeTag::Short) => true,
            (TypeTag::Int, TypeTag::Int) => true,
            (TypeTag::Long, TypeTag::Long) => true,
            (TypeTag::Float, TypeTag::Float) => true,
            (TypeTag::Double, TypeTag::Double) => true,
            (TypeTag::Bool, TypeTag::Bool) => true,
            (TypeTag::Str, TypeTag::Str) => true,
            (TypeTag::Optional(a), TypeTag::Optional(b)) => a.matches(b),
            (TypeTag::Sequence(a), TypeTag::Sequence(b)) => a.matches(b),
            (TypeTag::Record(a), TypeTag::Record(b)) => a == b,
            _ => false,
        }
    }

    /// A deep copy of the type identity.
    pub fn duplicate(&self) -> (r: TypeTag)
        ensures
            r == *self,
        decreases self,
    {
        match self {
            TypeTag::Byte => TypeTag::Byte,
            TypeTag::UByte => TypeTag::UByte,
            TypeTag::Short => TypeTag::Short,
            TypeTag::Int => TypeTag::Int,
            TypeTag::Long => TypeTag::Long,
            TypeTag::Float => TypeTag::Float,
            TypeTag::Double => TypeTag::Double,
            TypeTag::Bool => TypeTag::Bool,
            TypeTag::Str => TypeTag::Str,
            TypeTag::Optional(a) => TypeTag::Optional(Box::new(a.duplicate())),
            TypeTag::Sequence(a) => TypeTag::Sequence(Box::new(a.duplicate())),
            TypeTag::Record(id) => TypeTag::Record(*id),
        }
    }
}

/// A wire value. Each variant carries a value of exactly one `TypeTag` shape.
#[derive(Debug, PartialEq)]
pub enum Value {
    Byte(i8),
    UByte(u8),
    Short(i16),
    Int(i32),
    Long(i64),
    /// An IEEE 754 single-precision bit pattern.
    Float(u32),
    /// An IEEE 754 double-precision bit pattern.
    Double(u64),
    Bool(bool),
    Str(String),
    Optional(Option<Box<Value>>),
    Sequence(Vec<Value>),
    Record(u32, Vec<Value>),
}

/// The mathematical model of a `Value`: strings become character sequences
/// and vectors become `Seq`, so that contracts can speak of values without
/// reference to heap containers.
pub enum SpecValue {
    Byte(i8),
    UByte(u8),
    Short(i16),
    Int(i32),
    Long(i64),
    Float(u32),
    Double(u64),
    Bool(bool),
    Str(Seq<char>),
    Optional(Option<Box<SpecValue>>),
    Sequence(Seq<SpecValue>),
    Record(u32, Seq<SpecValue>),
}

pub open spec fn value_view(v: Value) -> SpecValue
    decreases v, 1int, 0int,
{
    match v {
        Value::Byte(x) => SpecValue::Byte(x),
        Value::UByte(x) => SpecValue::UByte(x),
        Value::Short(x) => SpecValue::Short(x),
        Value::Int(x) => SpecValue::Int(x),
        Value::Long(x) => SpecValue::Long(x),
        Value::Float(x) => SpecValue::Float(x),
        Value::Double(x) => SpecValue::Double(x),
        Value::Bool(x) => SpecValue::Bool(x),
        Value::Str(s) => SpecValue::Str(s@),
        Value::Optional(None) => SpecValue::Optional(None),
        Value::Optional(Some(b)) => SpecValue::Optional(Some(Box::new(value_view(*b)))),
        Value::Sequence(vs) => SpecValue::Sequence(values_view(vs, 0)),
        Value::Record(id, vs) => SpecValue::Record(id, values_view(vs, 0)),
    }
}

/// The views of the elements of `vs` from index `i` on.
pub open spec fn values_view(vs: Vec<Value>, i: int) -> Seq<SpecValue>
    decreases vs, 0int, vs@.len() - i,
{
    if 0 <= i < vs@.len() {
        seq![value_view(vs@[i])] + values_view(vs, i + 1)
    } else {
        Seq::empty()
    }
}

/// Pointwise description of `values_view`.
pub proof fn lemma_values_view(vs: Vec<Value>, i: int)
    requires
        0 <= i <= vs@.len(),
    ensures
        values_view(vs, i).len() == vs@.len() - i,
        forall|j: int|
            0 <= j < vs@.len() - i ==> #[trigger] values_view(vs, i)[j] == value_view(
                vs@[i + j],
            ),
    decreases vs@.len() - i,
{
    if i < vs@.len() {
        lemma_values_view(vs, i + 1);
    }
}

impl View for Value {
    type V = SpecValue;

    open spec fn view(&self) -> SpecValue {
        value_view(*self)
    }
}


/// A deep copy of a type-identity vector.
pub fn clone_tags(tags: &Vec<TypeTag>) -> (r: Vec<TypeTag>)
    ensures
        r@ == tags@,
{
    let n = tags.len();
    let mut out: Vec<TypeTag> = Vec::new();
    let mut i: usize = 0;
    while i < n
        invariant
            i <= n,
            n == tags@.len(),
            out@ == tags@.take(i as int),
        decreases n - i,
    {
        out.push(tags[i].duplicate());
        i = i + 1;
        assert(out@ =~= tags@.take(i as int));
    }
    assert(out@ =~= tags@);
    out
}

impl Value {
    /// A deep copy of the value; the copy has the same mathematical model.
    pub fn duplicate(&self) -> (r: Value)
        ensures
            value_view(r) == value_view(*self),
        decreases self, 1int,
    {
        match self {
            Value::Byte(x) => Value::Byte(*x),
            Value::UByte(x) => Value::UByte(*x),
            Value::Short(x) => Value::Short(*x),
            Value::Int(x) => Value::Int(*x),
            Value::Long(x) => Value::Long(*x),
            Value::Float(x) => Value::Float(*x),
            Value::Double(x) => Value::Double(*x),
            Value::Bool(x) => Value::Bool(*x),
            Value::Str(s) => Value::Str(s.clone()),
            Value::Optional(None) => Value::Optional(None),
            Value::Optional(Some(b)) => Value::Optional(Some(Box::new(b.duplicate()))),
            Value::Sequence(vs) => Value::Sequence(clone_values(vs)),
            Value::Record(id, vs) => Value::Record(*id, clone_values(vs)),
        }
    }
}

/// A deep copy of a value vector; the copy models the same value sequence.
pub fn clone_values(vs: &Vec<Value>) -> (r: Vec<Value>)
    ensures
        values_view(r, 0) == values_view(*vs, 0),
        r@.len() == vs@.len(),
    decreases vs, 0int,
{
    let n = vs.len();
    let mut out: Vec<Value> = Vec::new();
    let mut i: usize = 0;
    while i < n
        invariant
            i <= n,
            n == vs@.len(),
            out@.len() == i,
            forall|j: int| 0 <= j < i ==> value_view(out@[j]) == value_view(vs@[j]),
        decreases n - i,
    {
        let d = vs[i].duplicate();
        out.push(d);
        i = i + 1;
    }
    proof {
        lemma_values_view(out, 0);
        lemma_values_view(*vs, 0);
        assert(values_view(out, 0) =~= values_view(*vs, 0));
    }
    out
}

} // verus!
