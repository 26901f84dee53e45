//! The structured value walkers: symmetric encode and decode.
//!
//! `enc` is the specification of the wire format: the exact byte sequence a
//! value produces. `dec` is the specification of decoding: the value, the
//! count of consumed bytes, or the error, for every input. The executable
//! walkers are proven to produce exactly `enc` and to decide exactly as
//! `dec` does; the laws relating the two (round trip, truncation detection,
//! discriminant rejection) live in [`crate::laws`].

use vstd::arithmetic::power2::lemma2_to64;
use vstd::arithmetic::power2::pow2;
use vstd::prelude::*;
use vstd::utf8::char_is_scalar;
use vstd::utf8::char_u32_cast;
use vstd::utf8::decode_utf8;
use vstd::utf8::encode_utf8;
use vstd::utf8::is_scalar;
use vstd::utf8::valid_utf8;

use crate::cursor::read_u8_at;
use crate::cursor::read_exact_at;
use crate::cursor::write_bytes;
use crate::error::Error;
use crate::leb128::uleb_bytes;
use crate::leb128::uleb_decode;
use crate::leb128::uleb_read_at;
use crate::leb128::uleb_write;
use crate::scalar::read_uint;
use crate::scalar::uint_bytes;
use crate::scalar::uint_val;
use crate::scalar::write_uint;
use crate::scalar::ByteOrder;
use crate::value::lemma_views_of;
use crate::value::lemma_views_of_pairs;
use crate::value::view_of;
use crate::value::views_of;
use crate::value::views_of_pairs;
use crate::value::Shape;
use crate::value::ValModel;
use crate::value::Value;

verus! {

/// The encoding of `m` in byte order `bo`: the wire format, byte for byte.
pub open spec fn enc(m: ValModel, bo: ByteOrder) -> Seq<u8>
    decreases m,
{
    match m {
        ValModel::Bool(x) => seq![if x { 1u8 } else { 0u8 }],
        ValModel::I8(x) => uint_bytes((x as u8) as nat, 1, bo),
        ValModel::I16(x) => uint_bytes((x as u16) as nat, 2, bo),
        ValModel::I32(x) => uint_bytes((x as u32) as nat, 4, bo),
        ValModel::I64(x) => uint_bytes((x as u64) as nat, 8, bo),
        ValModel::U8(x) => uint_bytes(x as nat, 1, bo),
        ValModel::U16(x) => uint_bytes(x as nat, 2, bo),
        ValModel::U32(x) => uint_bytes(x as nat, 4, bo),
        ValModel::U64(x) => uint_bytes(x as nat, 8, bo),
        ValModel::F32Bits(x) => uint_bytes(x as nat, 4, bo),
        ValModel::F64Bits(x) => uint_bytes(x as nat, 8, bo),
        ValModel::Char(c) => uint_bytes((c as u32) as nat, 4, bo),
        ValModel::Unit => Seq::empty(),
        ValModel::Opt(o) => match o {
            Option::None => seq![0u8],
            Option::Some(bx) => seq![1u8] + enc(*bx, bo),
        },
        ValModel::Tuple(ms) => enc_all(ms, bo),
        ValModel::Variant(idx, payload) => uleb_bytes(idx) + enc(*payload, bo),
        ValModel::List(ms) => uleb_bytes(ms.len() as u64) + enc_all(ms, bo),
        ValModel::Dict(ps) => uleb_bytes(ps.len() as u64) + enc_pairs(ps, bo),
        ValModel::Text(cs) => uleb_bytes(encode_utf8(cs).len() as u64) + encode_utf8(cs),
        ValModel::Bytes(bs) => uleb_bytes(bs.len() as u64) + bs,
    }
}

/// The concatenated encodings of a sequence of values, in order.
pub open spec fn enc_all(ms: Seq<ValModel>, bo: ByteOrder) -> Seq<u8>
    decreases ms,
{
    if ms.len() == 0 {
        Seq::empty()
    } else {
        enc(ms[0], bo) + enc_all(ms.drop_first(), bo)
    }
}

/// The concatenated encodings of key-value pairs, keys first, in order.
pub open spec fn enc_pairs(ps: Seq<(ValModel, ValModel)>, bo: ByteOrder) -> Seq<u8>
    decreases ps,
{
    if ps.len() == 0 {
        Seq::empty()
    } else {
        enc(ps[0].0, bo) + enc(ps[0].1, bo) + enc_pairs(ps.drop_first(), bo)
    }
}

/// Decoding a `w`-byte unsigned integer: its value and consumed count, or
/// `UnexpectedEnd` when fewer than `w` bytes remain.
pub open spec fn dec_uint(b: Seq<u8>, w: nat, bo: ByteOrder) -> Result<(nat, nat), Error> {
    if b.len() < w {
        Err(Error::UnexpectedEnd)
    } else {
        Ok((uint_val(b.take(w as int), bo), w))
    }
}

/// Decoding a value of shape `s` from the front of `b`: the value and the
/// count of consumed bytes, or the error the decoder reports.
pub open spec fn dec(s: Shape, bo: ByteOrder, b: Seq<u8>) -> Result<(ValModel, nat), Error>
    decreases s, 1nat, 0nat,
{
    match s {
        Shape::Bool => if b.len() == 0 {
            Err(Error::UnexpectedEnd)
        } else if b[0] == 0 {
            Ok((ValModel::Bool(false), 1))
        } else if b[0] == 1 {
            Ok((ValModel::Bool(true), 1))
        } else {
            Err(Error::InvalidEncoding)
        },
        Shape::I8 => match dec_uint(b, 1, bo) {
            Ok(vn) => Ok((ValModel::I8((vn.0 as u8) as i8), vn.1)),
            Err(e) => Err(e),
        },
        Shape::I16 => match dec_uint(b, 2, bo) {
            Ok(vn) => Ok((ValModel::I16((vn.0 as u16) as i16), vn.1)),
            Err(e) => Err(e),
        },
        Shape::I32 => match dec_uint(b, 4, bo) {
            Ok(vn) => Ok((ValModel::I32((vn.0 as u32) as i32), vn.1)),
            Err(e) => Err(e),
        },
        Shape::I64 => match dec_uint(b, 8, bo) {
            Ok(vn) => Ok((ValModel::I64((vn.0 as u64) as i64), vn.1)),
            Err(e) => Err(e),
        },
        Shape::U8 => match dec_uint(b, 1, bo) {
            Ok(vn) => Ok((ValModel::U8(vn.0 as u8), vn.1)),
            Err(e) => Err(e),
        },
        Shape::U16 => match dec_uint(b, 2, bo) {
            Ok(vn) => Ok((ValModel::U16(vn.0 as u16), vn.1)),
            Err(e) => Err(e),
        },
        Shape::U32 => match dec_uint(b, 4, bo) {
            Ok(vn) => Ok((ValModel::U32(vn.0 as u32), vn.1)),
            Err(e) => Err(e),
        },
        Shape::U64 => match dec_uint(b, 8, bo) {
            Ok(vn) => Ok((ValModel::U64(vn.0 as u64), vn.1)),
            Err(e) => Err(e),
        },
        Shape::F32 => match dec_uint(b, 4, bo) {
            Ok(vn) => Ok((ValModel::F32Bits(vn.0 as u32), vn.1)),
            Err(e) => Err(e),
        },
        Shape::F64 => match dec_uint(b, 8, bo) {
            Ok(vn) => Ok((ValModel::F64Bits(vn.0 as u64), vn.1)),
            Err(e) => Err(e),
        },
        Shape::Char => match dec_uint(b, 4, bo) {
            Ok(vn) => if is_scalar(vn.0 as u32) {
                Ok((ValModel::Char((vn.0 as u32) as char), vn.1))
            } else {
                Err(Error::InvalidEncoding)
            },
            Err(e) => Err(e),
        },
        Shape::Unit => Ok((ValModel::Unit, 0)),
        Shape::Opt(inner) => if b.len() == 0 {
            Err(Error::UnexpectedEnd)
        } else if b[0] == 0 {
            Ok((ValModel::Opt(Option::None), 1))
        } else if b[0] == 1 {
            match dec(*inner, bo, b.drop_first()) {
                Ok(mn) => Ok((ValModel::Opt(Option::Some(Box::new(mn.0))), mn.1 + 1)),
                Err(e) => Err(e),
            }
        } else {
            Err(Error::InvalidEncoding)
        },
        Shape::Tuple(ss) => match dec_fields(ss@, bo, b) {
            Ok(mn) => Ok((ValModel::Tuple(mn.0), mn.1)),
            Err(e) => Err(e),
        },
        Shape::Enum(variants) => match uleb_decode(b, 0) {
            Ok(vn) => if vn.0 >= variants@.len() {
                Err(Error::InvalidEncoding)
            } else {
                match dec(variants@[vn.0 as int], bo, b.skip(vn.1 as int)) {
                    Ok(mn) => Ok(
                        (ValModel::Variant(vn.0 as u64, Box::new(mn.0)), vn.1 + mn.1),
                    ),
                    Err(e) => Err(e),
                }
            },
            Err(e) => Err(e),
        },
        Shape::List(e) => match uleb_decode(b, 0) {
            Ok(kn) => match dec_elems(*e, bo, b.skip(kn.1 as int), kn.0) {
                Ok(mn) => Ok((ValModel::List(mn.0), kn.1 + mn.1)),
                Err(e2) => Err(e2),
            },
            Err(e2) => Err(e2),
        },
        Shape::Dict(_, _) => match uleb_decode(b, 0) {
            Ok(kn) => match dec_pairs(s, bo, b.skip(kn.1 as int), kn.0) {
                Ok(mn) => Ok((ValModel::Dict(mn.0), kn.1 + mn.1)),
                Err(e2) => Err(e2),
            },
            Err(e2) => Err(e2),
        },
        Shape::Text => match uleb_decode(b, 0) {
            Ok(kn) => if b.skip(kn.1 as int).len() < kn.0 {
                Err(Error::UnexpectedEnd)
            } else if valid_utf8(b.skip(kn.1 as int).take(kn.0 as int)) {
                Ok(
                    (
                        ValModel::Text(decode_utf8(b.skip(kn.1 as int).take(kn.0 as int))),
                        kn.1 + kn.0,
                    ),
                )
            } else {
                Err(Error::InvalidEncoding)
            },
            Err(e) => Err(e),
        },
        Shape::Bytes => match uleb_decode(b, 0) {
            Ok(kn) => if b.skip(kn.1 as int).len() < kn.0 {
                Err(Error::UnexpectedEnd)
            } else {
                Ok((ValModel::Bytes(b.skip(kn.1 as int).take(kn.0 as int)), kn.1 + kn.0))
            },
            Err(e) => Err(e),
        },
    }
}

/// Decoding one value per shape, in order.
pub open spec fn dec_fields(ss: Seq<Shape>, bo: ByteOrder, b: Seq<u8>) -> Result<
    (Seq<ValModel>, nat),
    Error,
>
    decreases ss, 0nat, 0nat,
{
    if ss.len() == 0 {
        Ok((Seq::empty(), 0))
    } else {
        match dec(ss[0], bo, b) {
            Ok(mn) => match dec_fields(ss.drop_first(), bo, b.skip(mn.1 as int)) {
                Ok(rest) => Ok((seq![mn.0] + rest.0, mn.1 + rest.1)),
                Err(e) => Err(e),
            },
            Err(e) => Err(e),
        }
    }
}

/// Decoding `k` values of shape `e`, in order.
pub open spec fn dec_elems(e: Shape, bo: ByteOrder, b: Seq<u8>, k: nat) -> Result<
    (Seq<ValModel>, nat),
    Error,
>
    decreases e, 2nat, k,
{
    if k == 0 {
        Ok((Seq::empty(), 0))
    } else {
        match dec(e, bo, b) {
            Ok(mn) => match dec_elems(e, bo, b.skip(mn.1 as int), (k - 1) as nat) {
                Ok(rest) => Ok((seq![mn.0] + rest.0, mn.1 + rest.1)),
                Err(e2) => Err(e2),
            },
            Err(e2) => Err(e2),
        }
    }
}

/// Decoding `k` key-value pairs of a map shape, in order.
pub open spec fn dec_pairs(s: Shape, bo: ByteOrder, b: Seq<u8>, k: nat) -> Result<
    (Seq<(ValModel, ValModel)>, nat),
    Error,
>
    decreases s, 0nat, k,
{
    match s {
        Shape::Dict(ks, vs) => if k == 0 {
            Ok((Seq::empty(), 0))
        } else {
            match dec(*ks, bo, b) {
                Ok(kn) => match dec(*vs, bo, b.skip(kn.1 as int)) {
                    Ok(vn) => match dec_pairs(
                        s,
                        bo,
                        b.skip((kn.1 + vn.1) as int),
                        (k - 1) as nat,
                    ) {
                        Ok(rest) => Ok(
                            (seq![(kn.0, vn.0)] + rest.0, kn.1 + vn.1 + rest.1),
                        ),
                        Err(e) => Err(e),
                    },
                    Err(e) => Err(e),
                },
                Err(e) => Err(e),
            }
        },
        _ => Err(Error::InvalidEncoding),
    }
}

/// Relies on `String::from_utf8`: it succeeds exactly on valid UTF-8 input,
/// and the string it returns holds the characters those bytes decode to.
#[verifier::external_body]
fn string_from_utf8(bytes: Vec<u8>) -> (r: Option<String>)
    ensures
        match r {
            Option::Some(s) => valid_utf8(bytes@) && s@ == decode_utf8(bytes@),
            Option::None => !valid_utf8(bytes@),
        },
{
    match String::from_utf8(bytes) {
        Ok(s) => Some(s),
        Err(_) => None,
    }
}

/// Relies on `char::from_u32`: it returns the character with the given code
/// point exactly when the value is a Unicode scalar value.
#[verifier::external_body]
fn char_from_u32(v: u32) -> (r: Option<char>)
    ensures
        match r {
            Option::Some(c) => is_scalar(v) && c as u32 == v,
            Option::None => !is_scalar(v),
        },
{
    char::from_u32(v)
}

/// Appends the encoding of `*v` in byte order `bo` to `out`.
pub fn encode_value(v: &Value, bo: ByteOrder, out: &mut Vec<u8>)
    ensures
        final(out)@ == old(out)@ + enc(v@, bo),
    decreases *v, 0nat,
{
    proof {
        lemma2_to64();
    }
    match v {
        Value::Bool(x) => {
            let b: u8 = if *x {
                1
            } else {
                0
            };
            out.push(b);
            proof {
                assert(out@ =~= old(out)@ + enc(v@, bo));
            }
        },
        Value::I8(x) => write_uint((*x as u8) as u64, 1, bo, out),
        Value::I16(x) => write_uint((*x as u16) as u64, 2, bo, out),
        Value::I32(x) => write_uint((*x as u32) as u64, 4, bo, out),
        Value::I64(x) => write_uint(*x as u64, 8, bo, out),
        Value::U8(x) => write_uint(*x as u64, 1, bo, out),
        Value::U16(x) => write_uint(*x as u64, 2, bo, out),
        Value::U32(x) => write_uint(*x as u64, 4, bo, out),
        Value::U64(x) => write_uint(*x, 8, bo, out),
        Value::F32Bits(x) => write_uint(*x as u64, 4, bo, out),
        Value::F64Bits(x) => write_uint(*x as u64, 8, bo, out),
        Value::Char(c) => {
            proof {
                char_is_scalar(*c);
            }
            write_uint((*c as u32) as u64, 4, bo, out);
        },
        Value::Unit => {
            proof {
                assert(out@ =~= old(out)@ + enc(v@, bo));
            }
        },
        Value::Opt(o) => encode_opt(o, bo, out),
        Value::Tuple(vs) => encode_seq(vs, bo, out),
        Value::Variant(idx, payload) => encode_variant(*idx, payload, bo, out),
        Value::List(vs) => encode_list(vs, bo, out),
        Value::Dict(ps) => encode_dict(ps, bo, out),
        Value::Text(st) => encode_text(st, out),
        Value::Bytes(bv) => encode_bytes(bv, out),
    }
}

/// Appends one presence byte, then the payload's encoding if present.
fn encode_opt(o: &Option<Box<Value>>, bo: ByteOrder, out: &mut Vec<u8>)
    ensures
        final(out)@ == old(out)@ + enc(
            ValModel::Opt(
                match *o {
                    Option::None => Option::None,
                    Option::Some(bx) => Option::Some(Box::new(view_of(*bx))),
                },
            ),
            bo,
        ),
    decreases *o, 0nat,
{
    match o {
        Option::None => {
            out.push(0);
            proof {
                assert(out@ =~= old(out)@ + seq![0u8]);
            }
        },
        Option::Some(bx) => {
            out.push(1);
            encode_value(bx, bo, out);
            proof {
                assert(out@ =~= old(out)@ + (seq![1u8] + enc(view_of(**bx), bo)));
            }
        },
    }
}

/// Appends the variant index as a varint, then the payload's encoding.
fn encode_variant(idx: u64, payload: &Value, bo: ByteOrder, out: &mut Vec<u8>)
    ensures
        final(out)@ == old(out)@ + enc(ValModel::Variant(idx, Box::new(payload@)), bo),
    decreases *payload, 1nat,
{
    uleb_write(idx, out);
    encode_value(payload, bo, out);
    proof {
        assert(out@ =~= old(out)@ + (uleb_bytes(idx) + enc(payload@, bo)));
    }
}

/// Appends the element count as a varint, then each element's encoding.
fn encode_list(vs: &Vec<Value>, bo: ByteOrder, out: &mut Vec<u8>)
    ensures
        final(out)@ == old(out)@ + enc(ValModel::List(views_of(vs@)), bo),
    decreases vs@, 1nat,
{
    proof {
        lemma_views_of(vs@);
    }
    uleb_write(vs.len() as u64, out);
    encode_seq(vs, bo, out);
    proof {
        assert(out@ =~= old(out)@ + (uleb_bytes(vs@.len() as u64) + enc_all(
            views_of(vs@),
            bo,
        )));
    }
}

/// Appends the entry count as a varint, then each pair's encoding.
fn encode_dict(ps: &Vec<(Value, Value)>, bo: ByteOrder, out: &mut Vec<u8>)
    ensures
        final(out)@ == old(out)@ + enc(ValModel::Dict(views_of_pairs(ps@)), bo),
    decreases ps@, 1nat,
{
    proof {
        lemma_views_of_pairs(ps@);
    }
    uleb_write(ps.len() as u64, out);
    encode_pairs(ps, bo, out);
    proof {
        assert(out@ =~= old(out)@ + (uleb_bytes(ps@.len() as u64) + enc_pairs(
            views_of_pairs(ps@),
            bo,
        )));
    }
}

/// Appends the UTF-8 byte length as a varint, then the bytes. The byte order
/// plays no role: UTF-8 is byte-oriented.
fn encode_text(st: &String, out: &mut Vec<u8>)
    ensures
        forall|bo: ByteOrder|
            final(out)@ == old(out)@ + enc(ValModel::Text(st@), bo),
{
    let bs = st.as_str().as_bytes();
    uleb_write(bs.len() as u64, out);
    write_bytes(out, bs);
    proof {
        assert forall|bo: ByteOrder|
            out@ == old(out)@ + enc(ValModel::Text(st@), bo) by {
            assert(out@ =~= old(out)@ + (uleb_bytes(encode_utf8(st@).len() as u64)
                + encode_utf8(st@)));
        }
    }
}

/// Appends the blob's byte length as a varint, then its bytes.
fn encode_bytes(bv: &Vec<u8>, out: &mut Vec<u8>)
    ensures
        forall|bo: ByteOrder|
            final(out)@ == old(out)@ + enc(ValModel::Bytes(bv@), bo),
{
    uleb_write(bv.len() as u64, out);
    write_bytes(out, bv.as_slice());
    proof {
        assert forall|bo: ByteOrder|
            out@ == old(out)@ + enc(ValModel::Bytes(bv@), bo) by {
            assert(out@ =~= old(out)@ + (uleb_bytes(bv@.len() as u64) + bv@));
        }
    }
}

/// Appends the concatenated encodings of the values of `vs`, in order.
fn encode_seq(vs: &Vec<Value>, bo: ByteOrder, out: &mut Vec<u8>)
    ensures
        final(out)@ == old(out)@ + enc_all(views_of(vs@), bo),
    decreases vs@, 0nat,
{
    let ghost vm = views_of(vs@);
    let ghost start = out@;
    proof {
        lemma_views_of(vs@);
    }
    let mut i: usize = 0;
    proof {
        assert(vm.skip(0) =~= vm);
    }
    while i < vs.len()
        invariant
            i <= vs@.len(),
            vm == views_of(vs@),
            vm.len() == vs@.len(),
            forall|j: int| 0 <= j < vs@.len() ==> vm[j] == view_of(vs@[j]),
            out@ + enc_all(vm.skip(i as int), bo) == start + enc_all(vm, bo),
        decreases vs@.len() - i,
    {
        let ghost before = out@;
        encode_value(&vs[i], bo, out);
        proof {
            assert(vm.skip(i as int)[0] == vm[i as int]);
            assert(vm.skip(i as int).drop_first() =~= vm.skip(i + 1));
            assert(out@ + enc_all(vm.skip(i + 1), bo) =~= before + enc_all(
                vm.skip(i as int),
                bo,
            ));
        }
        i = i + 1;
    }
    proof {
        assert(vm.skip(vs@.len() as int) =~= Seq::<ValModel>::empty());
        assert(out@ =~= start + enc_all(vm, bo));
    }
}

/// Appends the concatenated encodings of the pairs of `ps`, keys first, in
/// order.
fn encode_pairs(ps: &Vec<(Value, Value)>, bo: ByteOrder, out: &mut Vec<u8>)
    ensures
        final(out)@ == old(out)@ + enc_pairs(views_of_pairs(ps@), bo),
    decreases ps@, 0nat,
{
    let ghost pm = views_of_pairs(ps@);
    let ghost start = out@;
    proof {
        lemma_views_of_pairs(ps@);
    }
    let mut i: usize = 0;
    proof {
        assert(pm.skip(0) =~= pm);
    }
    while i < ps.len()
        invariant
            i <= ps@.len(),
            pm == views_of_pairs(ps@),
            pm.len() == ps@.len(),
            forall|j: int|
                0 <= j < ps@.len() ==> pm[j] == (view_of(ps@[j].0), view_of(ps@[j].1)),
            out@ + enc_pairs(pm.skip(i as int), bo) == start + enc_pairs(pm, bo),
        decreases ps@.len() - i,
    {
        let ghost before = out@;
        let pair = &ps[i];
        encode_value(&pair.0, bo, out);
        let ghost mid = out@;
        encode_value(&pair.1, bo, out);
        proof {
            assert(pm.skip(i as int)[0] == pm[i as int]);
            assert(pm.skip(i as int).drop_first() =~= pm.skip(i + 1));
            assert(out@ + enc_pairs(pm.skip(i + 1), bo) =~= before + enc_pairs(
                pm.skip(i as int),
                bo,
            ));
        }
        i = i + 1;
    }
    proof {
        assert(pm.skip(ps@.len() as int) =~= Seq::<(ValModel, ValModel)>::empty());
        assert(out@ =~= start + enc_pairs(pm, bo));
    }
}

/// Reads a `w`-byte unsigned integer, aligned with [`dec_uint`].
fn decode_uint_at(buf: &[u8], pos: usize, w: usize, bo: ByteOrder) -> (r: Result<
    (u64, usize),
    Error,
>)
    requires
        pos <= buf@.len(),
        1 <= w <= 8,
    ensures
        match dec_uint(buf@.skip(pos as int), w as nat, bo) {
            Ok(vn) => r is Ok && r->Ok_0.0 as nat == vn.0 && vn.0 < pow2((8 * w) as nat)
                && r->Ok_0.1 == pos + vn.1 && r->Ok_0.1 <= buf@.len(),
            Err(e) => r is Err && r->Err_0 == e,
        },
{
    let r = read_uint(buf, pos, w, bo);
    proof {
        let b = buf@.skip(pos as int);
        if b.len() >= w {
            let win = buf@.subrange(pos as int, pos + w);
            assert(win =~= b.take(w as int));
            crate::scalar::lemma_le_val_bound(win);
            crate::scalar::lemma_be_val_bound(win);
        }
    }
    r
}

/// Decodes one value of shape `*s` starting at `pos`, returning the value
/// and the position one past its final byte; aligned with [`dec`], error for
/// error.
/// Whether a shape is decoded without recursion: a fixed-width scalar,
/// boolean, Unicode scalar, or unit.
pub open spec fn is_simple(s: Shape) -> bool {
    ||| s is Bool
    ||| s is I8
    ||| s is I16
    ||| s is I32
    ||| s is I64
    ||| s is U8
    ||| s is U16
    ||| s is U32
    ||| s is U64
    ||| s is F32
    ||| s is F64
    ||| s is Char
    ||| s is Unit
}

/// Decodes one value of a non-recursive shape; aligned with [`dec`].
#[verifier::rlimit(100)]
fn decode_simple(s: &Shape, bo: ByteOrder, buf: &[u8], pos: usize) -> (r: Result<
    (Value, usize),
    Error,
>)
    requires
        pos <= buf@.len(),
    ensures
        is_simple(*s) ==> match dec(*s, bo, buf@.skip(pos as int)) {
            Ok(mn) => r is Ok && r->Ok_0.0@ == mn.0 && r->Ok_0.1 == pos + mn.1 && r->Ok_0.1
                <= buf@.len(),
            Err(e) => r is Err && r->Err_0 == e,
        },
{
    let total = buf.len();
    proof {
        lemma2_to64();
        assert(buf@.len() == total);
    }
    match s {
        Shape::Bool => match read_u8_at(buf, pos) {
            Ok(0) => Ok((Value::Bool(false), pos + 1)),
            Ok(1) => Ok((Value::Bool(true), pos + 1)),
            Ok(_) => Err(Error::InvalidEncoding),
            Err(e) => Err(e),
        },
        Shape::I8 => match decode_uint_at(buf, pos, 1, bo) {
            Ok(vp) => Ok((Value::I8((vp.0 as u8) as i8), vp.1)),
            Err(e) => Err(e),
        },
        Shape::I16 => match decode_uint_at(buf, pos, 2, bo) {
            Ok(vp) => Ok((Value::I16((vp.0 as u16) as i16), vp.1)),
            Err(e) => Err(e),
        },
        Shape::I32 => match decode_uint_at(buf, pos, 4, bo) {
            Ok(vp) => Ok((Value::I32((vp.0 as u32) as i32), vp.1)),
            Err(e) => Err(e),
        },
        Shape::I64 => match decode_uint_at(buf, pos, 8, bo) {
            Ok(vp) => Ok((Value::I64(vp.0 as i64), vp.1)),
            Err(e) => Err(e),
        },
        Shape::U8 => match decode_uint_at(buf, pos, 1, bo) {
            Ok(vp) => Ok((Value::U8(vp.0 as u8), vp.1)),
            Err(e) => Err(e),
        },
        Shape::U16 => match decode_uint_at(buf, pos, 2, bo) {
            Ok(vp) => Ok((Value::U16(vp.0 as u16), vp.1)),
            Err(e) => Err(e),
        },
        Shape::U32 => match decode_uint_at(buf, pos, 4, bo) {
            Ok(vp) => Ok((Value::U32(vp.0 as u32), vp.1)),
            Err(e) => Err(e),
        },
        Shape::U64 => match decode_uint_at(buf, pos, 8, bo) {
            Ok(vp) => Ok((Value::U64(vp.0), vp.1)),
            Err(e) => Err(e),
        },
        Shape::F32 => match decode_uint_at(buf, pos, 4, bo) {
            Ok(vp) => Ok((Value::F32Bits(vp.0 as u32), vp.1)),
            Err(e) => Err(e),
        },
        Shape::F64 => match decode_uint_at(buf, pos, 8, bo) {
            Ok(vp) => Ok((Value::F64Bits(vp.0), vp.1)),
            Err(e) => Err(e),
        },
        Shape::Char => match decode_uint_at(buf, pos, 4, bo) {
            Ok(vp) => match char_from_u32(vp.0 as u32) {
                Some(c) => {
                    proof {
                        char_u32_cast(c, vp.0 as u32);
                    }
                    Ok((Value::Char(c), vp.1))
                },
                None => Err(Error::InvalidEncoding),
            },
            Err(e) => Err(e),
        },
        _ => Ok((Value::Unit, pos)),
    }
}

/// Decodes one value of shape `*s` starting at `pos`, returning the value
/// and the position one past its final byte; aligned with [`dec`], error for
/// error.
pub fn decode_value(s: &Shape, bo: ByteOrder, buf: &[u8], pos: usize) -> (r: Result<
    (Value, usize),
    Error,
>)
    requires
        pos <= buf@.len(),
    ensures
        match dec(*s, bo, buf@.skip(pos as int)) {
            Ok(mn) => r is Ok && r->Ok_0.0@ == mn.0 && r->Ok_0.1 == pos + mn.1 && r->Ok_0.1
                <= buf@.len(),
            Err(e) => r is Err && r->Err_0 == e,
        },
    decreases *s, 1nat,
{
    let total = buf.len();
    proof {
        assert(buf@.len() == total);
    }
    match s {
        Shape::Opt(inner) => match read_u8_at(buf, pos) {
            Ok(0) => Ok((Value::Opt(None), pos + 1)),
            Ok(1) => {
                proof {
                    assert(buf@.skip(pos as int).drop_first() =~= buf@.skip(pos + 1));
                }
                match decode_value(inner, bo, buf, pos + 1) {
                    Ok(vp) => Ok((Value::Opt(Some(Box::new(vp.0))), vp.1)),
                    Err(e) => Err(e),
                }
            },
            Ok(_) => Err(Error::InvalidEncoding),
            Err(e) => Err(e),
        },
        Shape::Tuple(ss) => match decode_fields(ss, bo, buf, pos) {
            Ok(vp) => Ok((Value::Tuple(vp.0), vp.1)),
            Err(e) => Err(e),
        },
        Shape::Enum(..) => decode_enum(s, bo, buf, pos),
        Shape::List(..) => decode_list(s, bo, buf, pos),
        Shape::Dict(..) => decode_dict(s, bo, buf, pos),
        Shape::Text => decode_text(bo, buf, pos),
        Shape::Bytes => decode_bytes(bo, buf, pos),
        _ => decode_simple(s, bo, buf, pos),
    }
}

/// Decodes one value per shape of `ss`, in order; aligned with
/// [`dec_fields`].
fn decode_fields(ss: &Vec<Shape>, bo: ByteOrder, buf: &[u8], pos: usize) -> (r: Result<
    (Vec<Value>, usize),
    Error,
>)
    requires
        pos <= buf@.len(),
    ensures
        match dec_fields(ss@, bo, buf@.skip(pos as int)) {
            Ok(mn) => r is Ok && views_of(r->Ok_0.0@) == mn.0 && r->Ok_0.1 == pos + mn.1
                && r->Ok_0.1 <= buf@.len(),
            Err(e) => r is Err && r->Err_0 == e,
        },
    decreases ss@, 0nat,
{
    let mut acc: Vec<Value> = Vec::new();
    let mut cur = pos;
    let mut i: usize = 0;
    proof {
        lemma_views_of(acc@);
        assert(ss@.skip(0) =~= ss@);
        match dec_fields(ss@, bo, buf@.skip(pos as int)) {
            Ok(mn) => {
                assert(Seq::<ValModel>::empty() + mn.0 =~= mn.0);
            },
            Err(_) => {},
        }
    }
    loop
        invariant
            i <= ss@.len(),
            pos <= cur <= buf@.len(),
            acc@.len() == i,
            match dec_fields(ss@.skip(i as int), bo, buf@.skip(cur as int)) {
                Ok(mn) => dec_fields(ss@, bo, buf@.skip(pos as int)) == Ok::<
                    (Seq<ValModel>, nat),
                    Error,
                >((views_of(acc@) + mn.0, ((cur - pos) as nat) + mn.1)),
                Err(e) => dec_fields(ss@, bo, buf@.skip(pos as int)) == Err::<
                    (Seq<ValModel>, nat),
                    Error,
                >(e),
            },
        decreases ss@.len() - i,
    {
        if i >= ss.len() {
            proof {
                assert(ss@.skip(i as int).len() == 0);
                assert(views_of(acc@) + Seq::<ValModel>::empty() =~= views_of(acc@));
            }
            return Ok((acc, cur));
        }
        proof {
            assert(ss@.skip(i as int)[0] == ss@[i as int]);
            assert(ss@.skip(i as int).drop_first() =~= ss@.skip(i + 1));
        }
        match decode_value(&ss[i], bo, buf, cur) {
            Err(e) => {
                return Err(e);
            },
            Ok(vp) => {
                let ghost old_acc = acc@;
                acc.push(vp.0);
                proof {
                    assert(buf@.skip(cur as int).skip((vp.1 - cur) as int) =~= buf@.skip(
                        vp.1 as int,
                    ));
                    lemma_views_of(old_acc);
                    lemma_views_of(acc@);
                    assert(views_of(acc@) =~= views_of(old_acc) + seq![view_of(acc@[i as int])]);
                    match dec_fields(ss@.skip(i + 1), bo, buf@.skip(vp.1 as int)) {
                        Ok(mn) => {
                            assert(views_of(old_acc) + (seq![view_of(acc@[i as int])] + mn.0)
                                =~= views_of(acc@) + mn.0);
                        },
                        Err(_) => {},
                    }
                }
                cur = vp.1;
                i = i + 1;
            },
        }
    }
}

/// Decodes a varint discriminant, checks it against the declared variant
/// count, then decodes that variant's payload; aligned with the enum case of
/// [`dec`].
fn decode_enum(s: &Shape, bo: ByteOrder, buf: &[u8], pos: usize) -> (r: Result<
    (Value, usize),
    Error,
>)
    requires
        pos <= buf@.len(),
    ensures
        (*s) is Enum ==> match dec(*s, bo, buf@.skip(pos as int)) {
            Ok(mn) => r is Ok && r->Ok_0.0@ == mn.0 && r->Ok_0.1 == pos + mn.1 && r->Ok_0.1
                <= buf@.len(),
            Err(e) => r is Err && r->Err_0 == e,
        },
    decreases *s, 0nat,
{
    match s {
        Shape::Enum(variants) => match uleb_read_at(buf, pos) {
            Err(e) => Err(e),
            Ok(ip) => {
                let idx = ip.0;
                let p2 = ip.1;
                if idx >= variants.len() as u64 {
                    return Err(Error::InvalidEncoding);
                }
                proof {
                    assert(buf@.skip(pos as int).skip((p2 - pos) as int) =~= buf@.skip(
                        p2 as int,
                    ));
                }
                match decode_value(&variants[idx as usize], bo, buf, p2) {
                    Ok(vp) => Ok((Value::Variant(idx, Box::new(vp.0)), vp.1)),
                    Err(e) => Err(e),
                }
            },
        },
        _ => Err(Error::InvalidEncoding),
    }
}

/// Decodes a varint element count, then that many elements; aligned with the
/// sequence case of [`dec`].
fn decode_list(s: &Shape, bo: ByteOrder, buf: &[u8], pos: usize) -> (r: Result<
    (Value, usize),
    Error,
>)
    requires
        pos <= buf@.len(),
    ensures
        (*s) is List ==> match dec(*s, bo, buf@.skip(pos as int)) {
            Ok(mn) => r is Ok && r->Ok_0.0@ == mn.0 && r->Ok_0.1 == pos + mn.1 && r->Ok_0.1
                <= buf@.len(),
            Err(e) => r is Err && r->Err_0 == e,
        },
    decreases *s, 0nat,
{
    match s {
        Shape::List(elem) => match uleb_read_at(buf, pos) {
            Err(e) => Err(e),
            Ok(kp) => {
                proof {
                    assert(buf@.skip(pos as int).skip((kp.1 - pos) as int) =~= buf@.skip(
                        kp.1 as int,
                    ));
                }
                match decode_elems(elem, bo, buf, kp.1, kp.0) {
                    Ok(vp) => Ok((Value::List(vp.0), vp.1)),
                    Err(e) => Err(e),
                }
            },
        },
        _ => Err(Error::InvalidEncoding),
    }
}

/// Decodes `k` values of shape `*e`, growing the result incrementally: a
/// hostile count never pre-allocates anything. Aligned with [`dec_elems`].
fn decode_elems(e: &Shape, bo: ByteOrder, buf: &[u8], pos: usize, k: u64) -> (r: Result<
    (Vec<Value>, usize),
    Error,
>)
    requires
        pos <= buf@.len(),
    ensures
        match dec_elems(*e, bo, buf@.skip(pos as int), k as nat) {
            Ok(mn) => r is Ok && views_of(r->Ok_0.0@) == mn.0 && r->Ok_0.1 == pos + mn.1
                && r->Ok_0.1 <= buf@.len(),
            Err(e2) => r is Err && r->Err_0 == e2,
        },
    decreases *e, 2nat,
{
    let mut acc: Vec<Value> = Vec::new();
    let mut cur = pos;
    let mut j: u64 = 0;
    proof {
        lemma_views_of(acc@);
        match dec_elems(*e, bo, buf@.skip(pos as int), k as nat) {
            Ok(mn) => {
                assert(Seq::<ValModel>::empty() + mn.0 =~= mn.0);
            },
            Err(_) => {},
        }
    }
    loop
        invariant
            j <= k,
            pos <= cur <= buf@.len(),
            acc@.len() == j,
            match dec_elems(*e, bo, buf@.skip(cur as int), (k - j) as nat) {
                Ok(mn) => dec_elems(*e, bo, buf@.skip(pos as int), k as nat) == Ok::<
                    (Seq<ValModel>, nat),
                    Error,
                >((views_of(acc@) + mn.0, ((cur - pos) as nat) + mn.1)),
                Err(e2) => dec_elems(*e, bo, buf@.skip(pos as int), k as nat) == Err::<
                    (Seq<ValModel>, nat),
                    Error,
                >(e2),
            },
        decreases k - j,
    {
        if j >= k {
            proof {
                assert(views_of(acc@) + Seq::<ValModel>::empty() =~= views_of(acc@));
            }
            return Ok((acc, cur));
        }
        match decode_value(e, bo, buf, cur) {
            Err(e2) => {
                return Err(e2);
            },
            Ok(vp) => {
                let ghost old_acc = acc@;
                acc.push(vp.0);
                proof {
                    assert(buf@.skip(cur as int).skip((vp.1 - cur) as int) =~= buf@.skip(
                        vp.1 as int,
                    ));
                    lemma_views_of(old_acc);
                    lemma_views_of(acc@);
                    assert(views_of(acc@) =~= views_of(old_acc) + seq![view_of(
                        acc@[j as int],
                    )]);
                    match dec_elems(*e, bo, buf@.skip(vp.1 as int), (k - j - 1) as nat) {
                        Ok(mn) => {
                            assert(views_of(old_acc) + (seq![view_of(acc@[j as int])] + mn.0)
                                =~= views_of(acc@) + mn.0);
                        },
                        Err(_) => {},
                    }
                }
                cur = vp.1;
                j = j + 1;
            },
        }
    }
}

/// Decodes a varint entry count, then that many key-value pairs, growing the
/// result incrementally; aligned with the map case of [`dec`].
fn decode_dict(s: &Shape, bo: ByteOrder, buf: &[u8], pos: usize) -> (r: Result<
    (Value, usize),
    Error,
>)
    requires
        pos <= buf@.len(),
    ensures
        (*s) is Dict ==> match dec(*s, bo, buf@.skip(pos as int)) {
            Ok(mn) => r is Ok && r->Ok_0.0@ == mn.0 && r->Ok_0.1 == pos + mn.1 && r->Ok_0.1
                <= buf@.len(),
            Err(e) => r is Err && r->Err_0 == e,
        },
    decreases *s, 0nat,
{
    match s {
        Shape::Dict(ks, vs) => match uleb_read_at(buf, pos) {
            Err(e) => Err(e),
            Ok(kp) => {
                let k = kp.0;
                proof {
                    assert(buf@.skip(pos as int).skip((kp.1 - pos) as int) =~= buf@.skip(
                        kp.1 as int,
                    ));
                }
                let mut acc: Vec<(Value, Value)> = Vec::new();
                let mut cur = kp.1;
                let mut j: u64 = 0;
                proof {
                    lemma_views_of_pairs(acc@);
                    match dec_pairs(*s, bo, buf@.skip(kp.1 as int), k as nat) {
                        Ok(mn) => {
                            assert(Seq::<(ValModel, ValModel)>::empty() + mn.0 =~= mn.0);
                        },
                        Err(_) => {},
                    }
                }
                loop
                    invariant
                        j <= k,
                        pos <= kp.1 <= cur <= buf@.len(),
                        acc@.len() == j,
                        *s == Shape::Dict(*ks, *vs),
                        uleb_decode(buf@.skip(pos as int), 0) == Ok::<(nat, nat), Error>(
                            (k as nat, (kp.1 - pos) as nat),
                        ),
                        match dec_pairs(*s, bo, buf@.skip(cur as int), (k - j) as nat) {
                            Ok(mn) => dec_pairs(
                                *s,
                                bo,
                                buf@.skip(kp.1 as int),
                                k as nat,
                            ) == Ok::<(Seq<(ValModel, ValModel)>, nat), Error>(
                                (views_of_pairs(acc@) + mn.0, ((cur - kp.1) as nat) + mn.1),
                            ),
                            Err(e2) => dec_pairs(
                                *s,
                                bo,
                                buf@.skip(kp.1 as int),
                                k as nat,
                            ) == Err::<(Seq<(ValModel, ValModel)>, nat), Error>(e2),
                        },
                    decreases k - j,
                {
                    proof {
                        assert(buf@.skip(pos as int).skip((kp.1 - pos) as int) =~= buf@.skip(
                            kp.1 as int,
                        ));
                    }
                    if j >= k {
                        proof {
                            assert(views_of_pairs(acc@) + Seq::<(ValModel, ValModel)>::empty()
                                =~= views_of_pairs(acc@));
                        }
                        return Ok((Value::Dict(acc), cur));
                    }
                    let kv = match decode_value(ks, bo, buf, cur) {
                        Err(e2) => {
                            return Err(e2);
                        },
                        Ok(x) => x,
                    };
                    proof {
                        assert(buf@.skip(cur as int).skip((kv.1 - cur) as int) =~= buf@.skip(
                            kv.1 as int,
                        ));
                    }
                    let vv = match decode_value(vs, bo, buf, kv.1) {
                        Err(e2) => {
                            return Err(e2);
                        },
                        Ok(x) => x,
                    };
                    proof {
                        assert(buf@.skip(cur as int).skip((vv.1 - cur) as int) =~= buf@.skip(
                            vv.1 as int,
                        ));
                    }
                    let ghost old_acc = acc@;
                    acc.push((kv.0, vv.0));
                    proof {
                        lemma_views_of_pairs(old_acc);
                        lemma_views_of_pairs(acc@);
                        assert(views_of_pairs(acc@) =~= views_of_pairs(old_acc) + seq![
                            (view_of(acc@[j as int].0), view_of(acc@[j as int].1)),
                        ]);
                        match dec_pairs(*s, bo, buf@.skip(vv.1 as int), (k - j - 1) as nat) {
                            Ok(mn) => {
                                assert(views_of_pairs(old_acc) + (seq![
                                    (view_of(acc@[j as int].0), view_of(acc@[j as int].1)),
                                ] + mn.0) =~= views_of_pairs(acc@) + mn.0);
                            },
                            Err(_) => {},
                        }
                    }
                    cur = vv.1;
                    j = j + 1;
                }
            },
        },
        _ => Err(Error::InvalidEncoding),
    }
}

/// Decodes a varint byte length, slices that many bytes, and validates
/// UTF-8; aligned with the text case of [`dec`].
fn decode_text(bo: ByteOrder, buf: &[u8], pos: usize) -> (r: Result<(Value, usize), Error>)
    requires
        pos <= buf@.len(),
    ensures
        match dec(Shape::Text, bo, buf@.skip(pos as int)) {
            Ok(mn) => r is Ok && r->Ok_0.0@ == mn.0 && r->Ok_0.1 == pos + mn.1 && r->Ok_0.1
                <= buf@.len(),
            Err(e) => r is Err && r->Err_0 == e,
        },
{
    match uleb_read_at(buf, pos) {
        Err(e) => Err(e),
        Ok(kp) => {
            let blen = kp.0;
            let p2 = kp.1;
            if blen > (buf.len() - p2) as u64 {
                return Err(Error::UnexpectedEnd);
            }
            let n = blen as usize;
            let raw = match read_exact_at(buf, p2, n) {
                Ok(x) => x,
                Err(e) => {
                    return Err(e);
                },
            };
            proof {
                assert(buf@.subrange(p2 as int, p2 + n) =~= buf@.skip(pos as int).skip(
                    (p2 - pos) as int,
                ).take(blen as int));
            }
            match string_from_utf8(raw) {
                Some(st) => Ok((Value::Text(st), p2 + n)),
                None => Err(Error::InvalidEncoding),
            }
        },
    }
}

/// Decodes a varint byte length, then that many raw bytes; aligned with the
/// blob case of [`dec`].
fn decode_bytes(bo: ByteOrder, buf: &[u8], pos: usize) -> (r: Result<(Value, usize), Error>)
    requires
        pos <= buf@.len(),
    ensures
        match dec(Shape::Bytes, bo, buf@.skip(pos as int)) {
            Ok(mn) => r is Ok && r->Ok_0.0@ == mn.0 && r->Ok_0.1 == pos + mn.1 && r->Ok_0.1
                <= buf@.len(),
            Err(e) => r is Err && r->Err_0 == e,
        },
{
    match uleb_read_at(buf, pos) {
        Err(e) => Err(e),
        Ok(kp) => {
            let blen = kp.0;
            let p2 = kp.1;
            if blen > (buf.len() - p2) as u64 {
                return Err(Error::UnexpectedEnd);
            }
            let n = blen as usize;
            let raw = match read_exact_at(buf, p2, n) {
                Ok(x) => x,
                Err(e) => {
                    return Err(e);
                },
            };
            proof {
                assert(buf@.subrange(p2 as int, p2 + n) =~= buf@.skip(pos as int).skip(
                    (p2 - pos) as int,
                ).take(blen as int));
            }
            Ok((Value::Bytes(raw), p2 + n))
        },
    }
}

/// Decodes one value of shape `*shape` from the front of `source`,
/// little-endian. Trailing bytes past the value's encoding are ignored.
pub fn load_from_le_bytes(shape: &Shape, source: &[u8]) -> (r: Result<Value, Error>)
    ensures
        match dec(*shape, ByteOrder::Little, source@) {
            Ok(mn) => r is Ok && r->Ok_0@ == mn.0,
            Err(e) => r is Err && r->Err_0 == e,
        },
{
    proof {
        assert(source@.skip(0) =~= source@);
    }
    match decode_value(shape, ByteOrder::Little, source, 0) {
        Ok(vp) => Ok(vp.0),
        Err(e) => Err(e),
    }
}

/// Decodes one value of shape `*shape` from the front of `source`,
/// big-endian. Trailing bytes past the value's encoding are ignored.
pub fn load_from_be_bytes(shape: &Shape, source: &[u8]) -> (r: Result<Value, Error>)
    ensures
        match dec(*shape, ByteOrder::Big, source@) {
            Ok(mn) => r is Ok && r->Ok_0@ == mn.0,
            Err(e) => r is Err && r->Err_0 == e,
        },
{
    proof {
        assert(source@.skip(0) =~= source@);
    }
    match decode_value(shape, ByteOrder::Big, source, 0) {
        Ok(vp) => Ok(vp.0),
        Err(e) => Err(e),
    }
}

/// Encodes `value` little-endian, appending to `dest`; returns the number of
/// bytes written. Encoding a well-formed value never fails.
pub fn dump_into_le_bytes(value: &Value, dest: &mut Vec<u8>) -> (r: Result<usize, Error>)
    ensures
        r is Ok,
        final(dest)@ == old(dest)@ + enc(value@, ByteOrder::Little),
        r->Ok_0 == enc(value@, ByteOrder::Little).len(),
{
    let before = dest.len();
    encode_value(value, ByteOrder::Little, dest);
    Ok(dest.len() - before)
}

/// Encodes `value` big-endian, appending to `dest`; returns the number of
/// bytes written. Encoding a well-formed value never fails.
pub fn dump_into_be_bytes(value: &Value, dest: &mut Vec<u8>) -> (r: Result<usize, Error>)
    ensures
        r is Ok,
        final(dest)@ == old(dest)@ + enc(value@, ByteOrder::Big),
        r->Ok_0 == enc(value@, ByteOrder::Big).len(),
{
    let before = dest.len();
    encode_value(value, ByteOrder::Big, dest);
    Ok(dest.len() - before)
}

} // verus!
