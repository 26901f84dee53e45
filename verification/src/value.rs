//! The generic data model the walkers traverse.
//!
//! [`Value`] is the executable representation of a structured value;
//! [`Shape`] describes a type: which variant of [`Value`] is expected where.
//! [`ValModel`] is the mathematical view of a [`Value`], with sequences in
//! place of vectors and strings, and is what every contract speaks about.
//!
//! Floating-point payloads travel as their raw IEEE-754 bit patterns
//! (`F32Bits`, `F64Bits`): bit patterns round-trip exactly and no arithmetic
//! is ever performed on them.

use vstd::prelude::*;

verus! {

/// An executable structured value.
#[derive(Debug, PartialEq, Eq)]
pub enum Value {
    Bool(bool),
    I8(i8),
    I16(i16),
    I32(i32),
    I64(i64),
    U8(u8),
    U16(u16),
    U32(u32),
    U64(u64),
    /// An `f32` as its raw bit pattern.
    F32Bits(u32),
    /// An `f64` as its raw bit pattern.
    F64Bits(u64),
    Char(char),
    Unit,
    /// An optional payload: one discriminant byte, then the payload if
    /// present.
    Opt(Option<Box<Value>>),
    /// A tuple or fixed-arity struct: fields in declared order, no prefix.
    Tuple(Vec<Value>),
    /// An enum value: the 0-based variant index and that variant's payload.
    Variant(u64, Box<Value>),
    /// A dynamically sized sequence: element count, then the elements.
    List(Vec<Value>),
    /// A map: entry count, then each key-value pair in source order.
    Dict(Vec<(Value, Value)>),
    /// UTF-8 text: byte length, then the bytes.
    Text(String),
    /// A raw byte blob: byte length, then the bytes.
    Bytes(Vec<u8>),
}

/// The type-shape a decoder expects: one case per [`Value`] case, with an
/// enum's shape listing the payload shape of each of its variants.
#[derive(Debug, PartialEq, Eq)]
pub enum Shape {
    Bool,
    I8,
    I16,
    I32,
    I64,
    U8,
    U16,
    U32,
    U64,
    F32,
    F64,
    Char,
    Unit,
    Opt(Box<Shape>),
    Tuple(Vec<Shape>),
    Enum(Vec<Shape>),
    List(Box<Shape>),
    Dict(Box<Shape>, Box<Shape>),
    Text,
    Bytes,
}

/// The mathematical view of a [`Value`].
pub enum ValModel {
    Bool(bool),
    I8(i8),
    I16(i16),
    I32(i32),
    I64(i64),
    U8(u8),
    U16(u16),
    U32(u32),
    U64(u64),
    F32Bits(u32),
    F64Bits(u64),
    Char(char),
    Unit,
    Opt(Option<Box<ValModel>>),
    Tuple(Seq<ValModel>),
    Variant(u64, Box<ValModel>),
    List(Seq<ValModel>),
    Dict(Seq<(ValModel, ValModel)>),
    Text(Seq<char>),
    Bytes(Seq<u8>),
}

/// The views of each value in a sequence, in order.
pub open spec fn views_of(s: Seq<Value>) -> Seq<ValModel>
    decreases s,
{
    if s.len() == 0 {
        Seq::empty()
    } else {
        seq![view_of(s[0])] + views_of(s.drop_first())
    }
}

/// The views of each pair in a sequence, in order.
pub open spec fn views_of_pairs(s: Seq<(Value, Value)>) -> Seq<(ValModel, ValModel)>
    decreases s,
{
    if s.len() == 0 {
        Seq::empty()
    } else {
        seq![(view_of(s[0].0), view_of(s[0].1))] + views_of_pairs(s.drop_first())
    }
}

/// The mathematical view of a value.
pub open spec fn view_of(v: Value) -> ValModel
    decreases v,
{
    match v {
        Value::Bool(b) => ValModel::Bool(b),
        Value::I8(x) => ValModel::I8(x),
        Value::I16(x) => ValModel::I16(x),
        Value::I32(x) => ValModel::I32(x),
        Value::I64(x) => ValModel::I64(x),
        Value::U8(x) => ValModel::U8(x),
        Value::U16(x) => ValModel::U16(x),
        Value::U32(x) => ValModel::U32(x),
        Value::U64(x) => ValModel::U64(x),
        Value::F32Bits(x) => ValModel::F32Bits(x),
        Value::F64Bits(x) => ValModel::F64Bits(x),
        Value::Char(c) => ValModel::Char(c),
        Value::Unit => ValModel::Unit,
        Value::Opt(o) => ValModel::Opt(
            match o {
                Option::None => Option::None,
                Option::Some(bx) => Option::Some(Box::new(view_of(*bx))),
            },
        ),
        Value::Tuple(vs) => ValModel::Tuple(views_of(vs@)),
        Value::Variant(idx, payload) => ValModel::Variant(idx, Box::new(view_of(*payload))),
        Value::List(vs) => ValModel::List(views_of(vs@)),
        Value::Dict(ps) => ValModel::Dict(views_of_pairs(ps@)),
        Value::Text(s) => ValModel::Text(s@),
        Value::Bytes(bs) => ValModel::Bytes(bs@),
    }
}

impl View for Value {
    type V = ValModel;

    open spec fn view(&self) -> ValModel {
        view_of(*self)
    }
}

/// Length prefixes travel as unsigned LEB128, so no sequence, map, text, or
/// blob may hold `2^64` or more elements or bytes.
pub open spec fn fits_u64(n: nat) -> bool {
    n <= u64::MAX
}

/// Whether every element of `ms` is a value of shape `e`.
pub open spec fn matches_elems(ms: Seq<ValModel>, e: Shape) -> bool
    decreases ms,
{
    ms.len() == 0 || (matches_shape(ms[0], e) && matches_elems(ms.drop_first(), e))
}

/// Whether the values of `ms` are, in order, values of the shapes of `ss`.
pub open spec fn matches_fields(ms: Seq<ValModel>, ss: Seq<Shape>) -> bool
    decreases ms,
{
    &&& ms.len() == ss.len()
    &&& (ms.len() == 0 || (matches_shape(ms[0], ss[0]) && matches_fields(
        ms.drop_first(),
        ss.drop_first(),
    )))
}

/// Whether every pair of `ps` has a key of shape `ks` and a value of shape
/// `vs`.
pub open spec fn matches_pairs(ps: Seq<(ValModel, ValModel)>, ks: Shape, vs: Shape) -> bool
    decreases ps,
{
    ps.len() == 0 || (matches_shape(ps[0].0, ks) && matches_shape(ps[0].1, vs) && matches_pairs(
        ps.drop_first(),
        ks,
        vs,
    ))
}

/// `views_of` maps the view over the sequence, element by element.
pub proof fn lemma_views_of(s: Seq<Value>)
    ensures
        views_of(s).len() == s.len(),
        forall|i: int| 0 <= i < s.len() ==> views_of(s)[i] == view_of(s[i]),
    decreases s.len(),
{
    if s.len() > 0 {
        lemma_views_of(s.drop_first());
    }
}

/// `views_of_pairs` maps the views over the pair sequence, pair by pair.
pub proof fn lemma_views_of_pairs(s: Seq<(Value, Value)>)
    ensures
        views_of_pairs(s).len() == s.len(),
        forall|i: int|
            0 <= i < s.len() ==> views_of_pairs(s)[i] == (view_of(s[i].0), view_of(s[i].1)),
    decreases s.len(),
{
    if s.len() > 0 {
        lemma_views_of_pairs(s.drop_first());
    }
}

/// Whether `m` is a well-formed value of shape `s`: every case agrees, every
/// enum index is within its declared variant count, and every length fits
/// the 64-bit length prefix.
pub open spec fn matches_shape(m: ValModel, s: Shape) -> bool
    decreases m,
{
    match (m, s) {
        (ValModel::Bool(_), Shape::Bool) => true,
        (ValModel::I8(_), Shape::I8) => true,
        (ValModel::I16(_), Shape::I16) => true,
        (ValModel::I32(_), Shape::I32) => true,
        (ValModel::I64(_), Shape::I64) => true,
        (ValModel::U8(_), Shape::U8) => true,
        (ValModel::U16(_), Shape::U16) => true,
        (ValModel::U32(_), Shape::U32) => true,
        (ValModel::U64(_), Shape::U64) => true,
        (ValModel::F32Bits(_), Shape::F32) => true,
        (ValModel::F64Bits(_), Shape::F64) => true,
        (ValModel::Char(_), Shape::Char) => true,
        (ValModel::Unit, Shape::Unit) => true,
        (ValModel::Opt(o), Shape::Opt(inner)) => match o {
            Option::None => true,
            Option::Some(bx) => matches_shape(*bx, *inner),
        },
        (ValModel::Tuple(ms), Shape::Tuple(ss)) => matches_fields(ms, ss@),
        (ValModel::Variant(idx, payload), Shape::Enum(variants)) => (idx as nat)
            < variants@.len() && matches_shape(*payload, variants@[idx as int]),
        (ValModel::List(ms), Shape::List(e)) => fits_u64(ms.len()) && matches_elems(ms, *e),
        (ValModel::Dict(ps), Shape::Dict(ks, vs)) => fits_u64(ps.len()) && matches_pairs(
            ps,
            *ks,
            *vs,
        ),
        (ValModel::Text(cs), Shape::Text) => fits_u64(
            vstd::utf8::encode_utf8(cs).len(),
        ),
        (ValModel::Bytes(bs), Shape::Bytes) => fits_u64(bs.len()),
        _ => false,
    }
}

} // verus!
