//! The laws the wire format obeys, each proved against the specifications
//! `enc` and `dec` that the executable walkers are verified to implement.

use vstd::arithmetic::power2::lemma2_to64;
use vstd::arithmetic::power2::pow2;
use vstd::prelude::*;
use vstd::utf8::char_is_scalar;
use vstd::utf8::char_u32_cast;
use vstd::utf8::encode_utf8_decode_utf8;
use vstd::utf8::encode_utf8_valid_utf8;

use crate::error::Error;
use crate::leb128::lemma_uleb_bytes_len;
use crate::leb128::lemma_uleb_round_trip;
use crate::leb128::uleb_bytes;
use crate::leb128::uleb_decode;
use crate::scalar::lemma_uint_round_trip;
use crate::scalar::uint_bytes;
use crate::scalar::ByteOrder;
use crate::value::matches_elems;
use crate::value::matches_fields;
use crate::value::matches_pairs;
use crate::value::matches_shape;
use crate::value::Shape;
use crate::value::ValModel;
use crate::walk::dec;
use crate::walk::dec_elems;
use crate::walk::dec_fields;
use crate::walk::dec_pairs;
use crate::walk::enc;
use crate::walk::enc_all;
use crate::walk::enc_pairs;

verus! {

/// Round trip for the non-recursive cases: scalars, booleans, Unicode
/// scalars, and unit.
#[verifier::rlimit(100)]
proof fn lemma_round_trip_simple(m: ValModel, s: Shape, bo: ByteOrder, rest: Seq<u8>)
    requires
        matches_shape(m, s),
        !(m is Opt),
        !(m is Tuple),
        !(m is Variant),
        !(m is List),
        !(m is Dict),
        !(m is Text),
        !(m is Bytes),
    ensures
        dec(s, bo, enc(m, bo) + rest) == Ok::<(ValModel, nat), Error>((m, enc(m, bo).len())),
{
    lemma2_to64();
    let b = enc(m, bo) + rest;
    match m {
        ValModel::Bool(x) => {
            assert(b[0] == (if x {
                1u8
            } else {
                0u8
            }));
        },
        ValModel::I8(x) => {
            lemma_uint_round_trip((x as u8) as nat, 1, bo);
            assert(b.take(1) =~= uint_bytes((x as u8) as nat, 1, bo));
            assert(((x as u8) as i8) == x) by (bit_vector);
        },
        ValModel::I16(x) => {
            lemma_uint_round_trip((x as u16) as nat, 2, bo);
            assert(b.take(2) =~= uint_bytes((x as u16) as nat, 2, bo));
            assert(((x as u16) as i16) == x) by (bit_vector);
        },
        ValModel::I32(x) => {
            lemma_uint_round_trip((x as u32) as nat, 4, bo);
            assert(b.take(4) =~= uint_bytes((x as u32) as nat, 4, bo));
            assert(((x as u32) as i32) == x) by (bit_vector);
        },
        ValModel::I64(x) => {
            lemma_uint_round_trip((x as u64) as nat, 8, bo);
            assert(b.take(8) =~= uint_bytes((x as u64) as nat, 8, bo));
            assert(((x as u64) as i64) == x) by (bit_vector);
        },
        ValModel::U8(x) => {
            lemma_uint_round_trip(x as nat, 1, bo);
            assert(b.take(1) =~= uint_bytes(x as nat, 1, bo));
        },
        ValModel::U16(x) => {
            lemma_uint_round_trip(x as nat, 2, bo);
            assert(b.take(2) =~= uint_bytes(x as nat, 2, bo));
        },
        ValModel::U32(x) => {
            lemma_uint_round_trip(x as nat, 4, bo);
            assert(b.take(4) =~= uint_bytes(x as nat, 4, bo));
        },
        ValModel::U64(x) => {
            lemma_uint_round_trip(x as nat, 8, bo);
            assert(b.take(8) =~= uint_bytes(x as nat, 8, bo));
        },
        ValModel::F32Bits(x) => {
            lemma_uint_round_trip(x as nat, 4, bo);
            assert(b.take(4) =~= uint_bytes(x as nat, 4, bo));
        },
        ValModel::F64Bits(x) => {
            lemma_uint_round_trip(x as nat, 8, bo);
            assert(b.take(8) =~= uint_bytes(x as nat, 8, bo));
        },
        ValModel::Char(c) => {
            char_is_scalar(c);
            lemma_uint_round_trip((c as u32) as nat, 4, bo);
            assert(b.take(4) =~= uint_bytes((c as u32) as nat, 4, bo));
            char_u32_cast(c, c as u32);
        },
        _ => {},
    }
}

/// Round trip: decoding the encoding of any well-formed value of shape `s`,
/// under the same byte order and with any trailing bytes, yields exactly
/// that value and consumes exactly its encoding.
#[verifier::rlimit(100)]
pub proof fn lemma_round_trip(m: ValModel, s: Shape, bo: ByteOrder, rest: Seq<u8>)
    requires
        matches_shape(m, s),
    ensures
        dec(s, bo, enc(m, bo) + rest) == Ok::<(ValModel, nat), Error>((m, enc(m, bo).len())),
    decreases m, 0nat,
{
    lemma2_to64();
    let b = enc(m, bo) + rest;
    match m {
        ValModel::Opt(o) => match o {
            Option::None => {
                assert(b[0] == 0u8);
            },
            Option::Some(bx) => {
                let inner = match s {
                    Shape::Opt(i) => *i,
                    _ => s,
                };
                assert(b[0] == 1u8);
                assert(b.drop_first() =~= enc(*bx, bo) + rest);
                lemma_round_trip(*bx, inner, bo, rest);
            },
        },
        ValModel::Tuple(ms) => {
            let ss = match s {
                Shape::Tuple(ss) => ss,
                _ => arbitrary(),
            };
            lemma_round_trip_fields(ms, ss@, bo, rest);
        },
        ValModel::Variant(idx, payload) => {
            let variants = match s {
                Shape::Enum(vs) => vs,
                _ => arbitrary(),
            };
            assert((uleb_bytes(idx) + enc(*payload, bo)) + rest =~= uleb_bytes(idx) + (enc(
                *payload,
                bo,
            ) + rest));
            assert((idx as nat) < pow2(64));
            lemma_uleb_round_trip(idx, 0, enc(*payload, bo) + rest);
            let n1 = uleb_bytes(idx).len();
            assert(b.skip(n1 as int) =~= enc(*payload, bo) + rest);
            lemma_round_trip(*payload, variants@[idx as int], bo, rest);
        },
        ValModel::List(ms) => {
            let elem = match s {
                Shape::List(e) => *e,
                _ => arbitrary(),
            };
            let count = ms.len() as u64;
            assert((uleb_bytes(count) + enc_all(ms, bo)) + rest =~= uleb_bytes(count) + (
            enc_all(ms, bo) + rest));
            assert((count as nat) < pow2(64));
            lemma_uleb_round_trip(count, 0, enc_all(ms, bo) + rest);
            let n1 = uleb_bytes(count).len();
            assert(b.skip(n1 as int) =~= enc_all(ms, bo) + rest);
            lemma_round_trip_elems(ms, elem, bo, rest);
        },
        ValModel::Dict(ps) => {
            let count = ps.len() as u64;
            assert((uleb_bytes(count) + enc_pairs(ps, bo)) + rest =~= uleb_bytes(count) + (
            enc_pairs(ps, bo) + rest));
            assert((count as nat) < pow2(64));
            lemma_uleb_round_trip(count, 0, enc_pairs(ps, bo) + rest);
            let n1 = uleb_bytes(count).len();
            assert(b.skip(n1 as int) =~= enc_pairs(ps, bo) + rest);
            lemma_round_trip_pairs(ps, s, bo, rest);
        },
        ValModel::Text(cs) => {
            let utf8 = vstd::utf8::encode_utf8(cs);
            let blen = utf8.len() as u64;
            assert((uleb_bytes(blen) + utf8) + rest =~= uleb_bytes(blen) + (utf8 + rest));
            assert((blen as nat) < pow2(64));
            lemma_uleb_round_trip(blen, 0, utf8 + rest);
            let n1 = uleb_bytes(blen).len();
            assert(b.skip(n1 as int) =~= utf8 + rest);
            assert(b.skip(n1 as int).take(blen as int) =~= utf8);
            encode_utf8_valid_utf8(cs);
            encode_utf8_decode_utf8(cs);
        },
        ValModel::Bytes(bs) => {
            let blen = bs.len() as u64;
            assert((uleb_bytes(blen) + bs) + rest =~= uleb_bytes(blen) + (bs + rest));
            assert((blen as nat) < pow2(64));
            lemma_uleb_round_trip(blen, 0, bs + rest);
            let n1 = uleb_bytes(blen).len();
            assert(b.skip(n1 as int) =~= bs + rest);
            assert(b.skip(n1 as int).take(blen as int) =~= bs);
        },
        _ => {
            lemma_round_trip_simple(m, s, bo, rest);
        },
    }
}

/// Round trip for tuple fields, in order.
proof fn lemma_round_trip_fields(ms: Seq<ValModel>, ss: Seq<Shape>, bo: ByteOrder, rest: Seq<u8>)
    requires
        matches_fields(ms, ss),
    ensures
        dec_fields(ss, bo, enc_all(ms, bo) + rest) == Ok::<(Seq<ValModel>, nat), Error>(
            (ms, enc_all(ms, bo).len()),
        ),
    decreases ms, 1nat,
{
    if ms.len() == 0 {
        assert(enc_all(ms, bo) + rest =~= rest);
        assert(ms =~= Seq::<ValModel>::empty());
    } else {
        let b = enc_all(ms, bo) + rest;
        let tail = enc_all(ms.drop_first(), bo);
        assert(b =~= enc(ms[0], bo) + (tail + rest));
        lemma_round_trip(ms[0], ss[0], bo, tail + rest);
        let n1 = enc(ms[0], bo).len();
        assert(b.skip(n1 as int) =~= tail + rest);
        lemma_round_trip_fields(ms.drop_first(), ss.drop_first(), bo, rest);
        assert(seq![ms[0]] + ms.drop_first() =~= ms);
    }
}

/// Round trip for sequence elements, in order.
proof fn lemma_round_trip_elems(ms: Seq<ValModel>, e: Shape, bo: ByteOrder, rest: Seq<u8>)
    requires
        matches_elems(ms, e),
    ensures
        dec_elems(e, bo, enc_all(ms, bo) + rest, ms.len()) == Ok::<(Seq<ValModel>, nat), Error>(
            (ms, enc_all(ms, bo).len()),
        ),
    decreases ms, 1nat,
{
    if ms.len() == 0 {
        assert(ms =~= Seq::<ValModel>::empty());
    } else {
        let b = enc_all(ms, bo) + rest;
        let tail = enc_all(ms.drop_first(), bo);
        assert(b =~= enc(ms[0], bo) + (tail + rest));
        lemma_round_trip(ms[0], e, bo, tail + rest);
        let n1 = enc(ms[0], bo).len();
        assert(b.skip(n1 as int) =~= tail + rest);
        lemma_round_trip_elems(ms.drop_first(), e, bo, rest);
        assert(seq![ms[0]] + ms.drop_first() =~= ms);
    }
}

/// Round trip for map entries, keys first, in order.
proof fn lemma_round_trip_pairs(
    ps: Seq<(ValModel, ValModel)>,
    s: Shape,
    bo: ByteOrder,
    rest: Seq<u8>,
)
    requires
        s is Dict,
        matches_pairs(ps, *s->Dict_0, *s->Dict_1),
    ensures
        dec_pairs(s, bo, enc_pairs(ps, bo) + rest, ps.len()) == Ok::<
            (Seq<(ValModel, ValModel)>, nat),
            Error,
        >((ps, enc_pairs(ps, bo).len())),
    decreases ps, 1nat,
{
    let ks = *s->Dict_0;
    let vs = *s->Dict_1;
    if ps.len() == 0 {
        assert(ps =~= Seq::<(ValModel, ValModel)>::empty());
    } else {
        let b = enc_pairs(ps, bo) + rest;
        let ek = enc(ps[0].0, bo);
        let ev = enc(ps[0].1, bo);
        let tail = enc_pairs(ps.drop_first(), bo);
        assert(b =~= ek + (ev + (tail + rest)));
        lemma_round_trip(ps[0].0, ks, bo, ev + (tail + rest));
        assert(b.skip(ek.len() as int) =~= ev + (tail + rest));
        lemma_round_trip(ps[0].1, vs, bo, tail + rest);
        assert(b.skip(ek.len() as int).skip(ev.len() as int) =~= tail + rest);
        assert(b.skip((ek.len() + ev.len()) as int) =~= tail + rest);
        lemma_round_trip_pairs(ps.drop_first(), s, bo, rest);
        assert(seq![ps[0]] + ps.drop_first() =~= ps);
    }
}

/// Exact byte width: each fixed-width scalar encodes to exactly its declared
/// byte count, and the unit value encodes to zero bytes.
pub proof fn lemma_scalar_exact_width(m: ValModel, bo: ByteOrder)
    ensures
        m is Bool ==> enc(m, bo).len() == 1,
        m is I8 ==> enc(m, bo).len() == 1,
        m is I16 ==> enc(m, bo).len() == 2,
        m is I32 ==> enc(m, bo).len() == 4,
        m is I64 ==> enc(m, bo).len() == 8,
        m is U8 ==> enc(m, bo).len() == 1,
        m is U16 ==> enc(m, bo).len() == 2,
        m is U32 ==> enc(m, bo).len() == 4,
        m is U64 ==> enc(m, bo).len() == 8,
        m is F32Bits ==> enc(m, bo).len() == 4,
        m is F64Bits ==> enc(m, bo).len() == 8,
        m is Char ==> enc(m, bo).len() == 4,
        m is Unit ==> enc(m, bo).len() == 0,
{
    match m {
        ValModel::I8(x) => lemma_uint_width((x as u8) as nat, 1, bo),
        ValModel::I16(x) => lemma_uint_width((x as u16) as nat, 2, bo),
        ValModel::I32(x) => lemma_uint_width((x as u32) as nat, 4, bo),
        ValModel::I64(x) => lemma_uint_width((x as u64) as nat, 8, bo),
        ValModel::U8(x) => lemma_uint_width(x as nat, 1, bo),
        ValModel::U16(x) => lemma_uint_width(x as nat, 2, bo),
        ValModel::U32(x) => lemma_uint_width(x as nat, 4, bo),
        ValModel::U64(x) => lemma_uint_width(x as nat, 8, bo),
        ValModel::F32Bits(x) => lemma_uint_width(x as nat, 4, bo),
        ValModel::F64Bits(x) => lemma_uint_width(x as nat, 8, bo),
        ValModel::Char(c) => lemma_uint_width((c as u32) as nat, 4, bo),
        _ => {},
    }
}

proof fn lemma_uint_width(n: nat, w: nat, bo: ByteOrder)
    ensures
        uint_bytes(n, w, bo).len() == w,
{
    crate::scalar::lemma_le_bytes_len(n, w);
}

/// Varint round trip and size: every `u64` decodes from its own unsigned
/// LEB128 encoding, which never exceeds ten bytes.
pub proof fn lemma_varint_round_trip(n: u64)
    ensures
        uleb_decode(uleb_bytes(n), 0) == Ok::<(nat, nat), Error>(
            ((n as nat), uleb_bytes(n).len()),
        ),
        1 <= uleb_bytes(n).len() <= 10,
{
    lemma2_to64();
    lemma_uleb_bytes_len(n);
    lemma_uleb_round_trip(n, 0, Seq::empty());
    assert(uleb_bytes(n) + Seq::<u8>::empty() =~= uleb_bytes(n));
}

/// Invalid discriminant: an enum whose varint index is at least the declared
/// variant count fails to decode with `InvalidEncoding`, whatever follows.
pub proof fn lemma_invalid_discriminant(
    variants: Shape,
    idx: u64,
    bo: ByteOrder,
    rest: Seq<u8>,
)
    requires
        variants is Enum,
        (idx as nat) >= variants->Enum_0@.len(),
    ensures
        dec(variants, bo, uleb_bytes(idx) + rest) == Err::<(ValModel, nat), Error>(
            Error::InvalidEncoding,
        ),
{
    lemma2_to64();
    lemma_uleb_round_trip(idx, 0, rest);
}

/// Truncation detection for the non-recursive cases.
#[verifier::rlimit(100)]
proof fn lemma_truncation_simple(m: ValModel, s: Shape, bo: ByteOrder, cut: nat)
    requires
        matches_shape(m, s),
        cut < enc(m, bo).len(),
        !(m is Opt),
        !(m is Tuple),
        !(m is Variant),
        !(m is List),
        !(m is Dict),
        !(m is Text),
        !(m is Bytes),
    ensures
        dec(s, bo, enc(m, bo).take(cut as int)) == Err::<(ValModel, nat), Error>(
            Error::UnexpectedEnd,
        ),
{
    lemma_scalar_exact_width(m, bo);
    let b = enc(m, bo).take(cut as int);
    assert(b.len() == cut);
}

/// Truncation detection: decoding any strict prefix of the encoding of a
/// well-formed value of shape `s` fails with `UnexpectedEnd`.
#[verifier::rlimit(100)]
pub proof fn lemma_truncation_detected(m: ValModel, s: Shape, bo: ByteOrder, cut: nat)
    requires
        matches_shape(m, s),
        cut < enc(m, bo).len(),
    ensures
        dec(s, bo, enc(m, bo).take(cut as int)) == Err::<(ValModel, nat), Error>(
            Error::UnexpectedEnd,
        ),
    decreases m, 0nat,
{
    lemma2_to64();
    let full = enc(m, bo);
    let b = full.take(cut as int);
    match m {
        ValModel::Opt(o) => match o {
            Option::None => {
                assert(b.len() == 0);
            },
            Option::Some(bx) => {
                if cut == 0 {
                    assert(b.len() == 0);
                } else {
                    let inner = match s {
                        Shape::Opt(i) => *i,
                        _ => s,
                    };
                    assert(b[0] == 1u8);
                    assert(b.drop_first() =~= enc(*bx, bo).take((cut - 1) as int));
                    lemma_truncation_detected(*bx, inner, bo, (cut - 1) as nat);
                }
            },
        },
        ValModel::Tuple(ms) => {
            let ss = match s {
                Shape::Tuple(ss) => ss,
                _ => arbitrary(),
            };
            lemma_truncation_fields(ms, ss@, bo, cut);
        },
        ValModel::Variant(idx, payload) => {
            let variants = match s {
                Shape::Enum(vs) => vs,
                _ => arbitrary(),
            };
            let x = uleb_bytes(idx);
            let y = enc(*payload, bo);
            assert((idx as nat) < pow2(64));
            if cut < x.len() {
                assert(b =~= x.take(cut as int));
                crate::leb128::lemma_uleb_truncated(idx, 0, cut);
            } else {
                let cut2 = (cut - x.len()) as nat;
                assert(b =~= x + y.take(cut2 as int));
                lemma_uleb_round_trip(idx, 0, y.take(cut2 as int));
                assert(b.skip(x.len() as int) =~= y.take(cut2 as int));
                lemma_truncation_detected(*payload, variants@[idx as int], bo, cut2);
            }
        },
        ValModel::List(ms) => {
            let elem = match s {
                Shape::List(e) => *e,
                _ => arbitrary(),
            };
            let count = ms.len() as u64;
            let x = uleb_bytes(count);
            let y = enc_all(ms, bo);
            assert((count as nat) < pow2(64));
            if cut < x.len() {
                assert(b =~= x.take(cut as int));
                crate::leb128::lemma_uleb_truncated(count, 0, cut);
            } else {
                let cut2 = (cut - x.len()) as nat;
                assert(b =~= x + y.take(cut2 as int));
                lemma_uleb_round_trip(count, 0, y.take(cut2 as int));
                assert(b.skip(x.len() as int) =~= y.take(cut2 as int));
                lemma_truncation_elems(ms, elem, bo, cut2);
            }
        },
        ValModel::Dict(ps) => {
            let count = ps.len() as u64;
            let x = uleb_bytes(count);
            let y = enc_pairs(ps, bo);
            assert((count as nat) < pow2(64));
            if cut < x.len() {
                assert(b =~= x.take(cut as int));
                crate::leb128::lemma_uleb_truncated(count, 0, cut);
            } else {
                let cut2 = (cut - x.len()) as nat;
                assert(b =~= x + y.take(cut2 as int));
                lemma_uleb_round_trip(count, 0, y.take(cut2 as int));
                assert(b.skip(x.len() as int) =~= y.take(cut2 as int));
                lemma_truncation_pairs(ps, s, bo, cut2);
            }
        },
        ValModel::Text(cs) => {
            let utf8 = vstd::utf8::encode_utf8(cs);
            let blen = utf8.len() as u64;
            let x = uleb_bytes(blen);
            assert((blen as nat) < pow2(64));
            if cut < x.len() {
                assert(b =~= x.take(cut as int));
                crate::leb128::lemma_uleb_truncated(blen, 0, cut);
            } else {
                let cut2 = (cut - x.len()) as nat;
                assert(b =~= x + utf8.take(cut2 as int));
                lemma_uleb_round_trip(blen, 0, utf8.take(cut2 as int));
                assert(b.skip(x.len() as int) =~= utf8.take(cut2 as int));
                assert(cut2 < blen as nat);
            }
        },
        ValModel::Bytes(bs) => {
            let blen = bs.len() as u64;
            let x = uleb_bytes(blen);
            assert((blen as nat) < pow2(64));
            if cut < x.len() {
                assert(b =~= x.take(cut as int));
                crate::leb128::lemma_uleb_truncated(blen, 0, cut);
            } else {
                let cut2 = (cut - x.len()) as nat;
                assert(b =~= x + bs.take(cut2 as int));
                lemma_uleb_round_trip(blen, 0, bs.take(cut2 as int));
                assert(b.skip(x.len() as int) =~= bs.take(cut2 as int));
                assert(cut2 < blen as nat);
            }
        },
        _ => {
            lemma_truncation_simple(m, s, bo, cut);
        },
    }
}

/// Truncation detection for tuple fields.
proof fn lemma_truncation_fields(ms: Seq<ValModel>, ss: Seq<Shape>, bo: ByteOrder, cut: nat)
    requires
        matches_fields(ms, ss),
        cut < enc_all(ms, bo).len(),
    ensures
        dec_fields(ss, bo, enc_all(ms, bo).take(cut as int)) == Err::<(Seq<ValModel>, nat), Error>(
            Error::UnexpectedEnd,
        ),
    decreases ms, 1nat,
{
    let full = enc_all(ms, bo);
    let b = full.take(cut as int);
    assert(ms.len() > 0);
    let x = enc(ms[0], bo);
    let y = enc_all(ms.drop_first(), bo);
    if cut < x.len() {
        assert(b =~= x.take(cut as int));
        lemma_truncation_detected(ms[0], ss[0], bo, cut);
    } else {
        let cut2 = (cut - x.len()) as nat;
        assert(b =~= x + y.take(cut2 as int));
        lemma_round_trip(ms[0], ss[0], bo, y.take(cut2 as int));
        assert(b.skip(x.len() as int) =~= y.take(cut2 as int));
        lemma_truncation_fields(ms.drop_first(), ss.drop_first(), bo, cut2);
    }
}

/// Truncation detection for sequence elements.
proof fn lemma_truncation_elems(ms: Seq<ValModel>, e: Shape, bo: ByteOrder, cut: nat)
    requires
        matches_elems(ms, e),
        cut < enc_all(ms, bo).len(),
    ensures
        dec_elems(e, bo, enc_all(ms, bo).take(cut as int), ms.len()) == Err::<
            (Seq<ValModel>, nat),
            Error,
        >(Error::UnexpectedEnd),
    decreases ms, 1nat,
{
    let full = enc_all(ms, bo);
    let b = full.take(cut as int);
    assert(ms.len() > 0);
    let x = enc(ms[0], bo);
    let y = enc_all(ms.drop_first(), bo);
    if cut < x.len() {
        assert(b =~= x.take(cut as int));
        lemma_truncation_detected(ms[0], e, bo, cut);
    } else {
        let cut2 = (cut - x.len()) as nat;
        assert(b =~= x + y.take(cut2 as int));
        lemma_round_trip(ms[0], e, bo, y.take(cut2 as int));
        assert(b.skip(x.len() as int) =~= y.take(cut2 as int));
        lemma_truncation_elems(ms.drop_first(), e, bo, cut2);
    }
}

/// Truncation detection for map entries.
proof fn lemma_truncation_pairs(ps: Seq<(ValModel, ValModel)>, s: Shape, bo: ByteOrder, cut: nat)
    requires
        s is Dict,
        matches_pairs(ps, *s->Dict_0, *s->Dict_1),
        cut < enc_pairs(ps, bo).len(),
    ensures
        dec_pairs(s, bo, enc_pairs(ps, bo).take(cut as int), ps.len()) == Err::<
            (Seq<(ValModel, ValModel)>, nat),
            Error,
        >(Error::UnexpectedEnd),
    decreases ps, 1nat,
{
    let ks = *s->Dict_0;
    let vs = *s->Dict_1;
    let full = enc_pairs(ps, bo);
    let b = full.take(cut as int);
    assert(ps.len() > 0);
    let ek = enc(ps[0].0, bo);
    let ev = enc(ps[0].1, bo);
    let y = enc_pairs(ps.drop_first(), bo);
    if cut < ek.len() {
        assert(b =~= ek.take(cut as int));
        lemma_truncation_detected(ps[0].0, ks, bo, cut);
    } else if cut < ek.len() + ev.len() {
        let cut2 = (cut - ek.len()) as nat;
        assert(b =~= ek + ev.take(cut2 as int));
        lemma_round_trip(ps[0].0, ks, bo, ev.take(cut2 as int));
        assert(b.skip(ek.len() as int) =~= ev.take(cut2 as int));
        lemma_truncation_detected(ps[0].1, vs, bo, cut2);
    } else {
        let cut2 = (cut - ek.len() - ev.len()) as nat;
        assert(b =~= ek + (ev + y.take(cut2 as int)));
        lemma_round_trip(ps[0].0, ks, bo, ev + y.take(cut2 as int));
        assert(b.skip(ek.len() as int) =~= ev + y.take(cut2 as int));
        lemma_round_trip(ps[0].1, vs, bo, y.take(cut2 as int));
        assert(b.skip(ek.len() as int).skip(ev.len() as int) =~= y.take(cut2 as int));
        assert(b.skip((ek.len() + ev.len()) as int) =~= y.take(cut2 as int));
        lemma_truncation_pairs(ps.drop_first(), s, bo, cut2);
    }
}

} // verus!
