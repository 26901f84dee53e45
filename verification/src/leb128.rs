//! Unsigned LEB128 variable-length integer encoding.
//!
//! Each byte carries seven payload bits, low bits first; the high bit marks a
//! continuation. The canonical encoding of a value is the shortest one, and
//! decoding rejects any byte that would set bits at or beyond position 64
//! ([`Error::InvalidEncoding`]) and any buffer that ends before a terminating
//! byte ([`Error::UnexpectedEnd`]). A 64-bit value never needs more than ten
//! bytes.

use vstd::arithmetic::div_mod::lemma_div_is_strictly_smaller;
use vstd::arithmetic::div_mod::lemma_fundamental_div_mod;
use vstd::arithmetic::div_mod::lemma_multiply_divide_lt;
use vstd::arithmetic::power2::lemma2_to64;
use vstd::arithmetic::power2::lemma2_to64_rest;
use vstd::arithmetic::power2::lemma_pow2_adds;
use vstd::arithmetic::power2::lemma_pow2_strictly_increases;
use vstd::arithmetic::power2::pow2;
use vstd::prelude::*;

use crate::error::Error;

verus! {

/// The unsigned LEB128 encoding of `n`: low seven bits first, continuation
/// bit set on every byte but the last.
pub open spec fn uleb_bytes(n: u64) -> Seq<u8>
    decreases n,
{
    if n < 128 {
        seq![n as u8]
    } else {
        seq![((n % 128) + 128) as u8] + uleb_bytes(n / 128)
    }
}

/// One step of unsigned LEB128 decoding, `depth` bytes in: the decoded value
/// and the number of bytes consumed, or the error the decoder reports.
///
/// A tenth byte (`depth == 9`) may only be `0x00` or `0x01`: anything else
/// would set bits at or beyond position 64 of the result.
pub open spec fn uleb_decode(b: Seq<u8>, depth: nat) -> Result<(nat, nat), Error>
    decreases b.len(),
{
    if b.len() == 0 {
        Err(Error::UnexpectedEnd)
    } else {
        let byte = b[0];
        if depth == 9 && byte > 1 {
            Err(Error::InvalidEncoding)
        } else if byte < 128 {
            Ok(((byte as nat), 1))
        } else {
            match uleb_decode(b.drop_first(), depth + 1) {
                Ok(vn) => Ok((((byte as nat) % 128) + 128 * vn.0, vn.1 + 1)),
                Err(e) => Err(e),
            }
        }
    }
}

proof fn lemma_pow2_le(e1: nat, e2: nat)
    requires
        e1 <= e2,
    ensures
        pow2(e1) <= pow2(e2),
{
    if e1 < e2 {
        lemma_pow2_strictly_increases(e1, e2);
    }
}

/// Dividing by 128 strips one seven-bit digit from the bound.
proof fn lemma_div128(n: u64, a: nat)
    requires
        7 <= a,
        (n as nat) < pow2(a),
    ensures
        ((n / 128) as nat) < pow2((a - 7) as nat),
{
    lemma_pow2_adds((a - 7) as nat, 7);
    lemma2_to64();
    assert((n as int) < 128 * (pow2((a - 7) as nat) as int)) by (nonlinear_arith)
        requires
            (n as nat) < pow2(a),
            pow2(a) == pow2((a - 7) as nat) * pow2(7),
            pow2(7) == 128,
    ;
    lemma_multiply_divide_lt(n as int, 128, pow2((a - 7) as nat) as int);
}

/// An encoding is at least one and at most `k` bytes long once the value is
/// below `2^(7k)`.
pub proof fn lemma_uleb_bytes_len_bound(n: u64, k: nat)
    requires
        1 <= k,
        (n as nat) < pow2(7 * k),
    ensures
        1 <= uleb_bytes(n).len() <= k,
    decreases n,
{
    if n >= 128 {
        lemma2_to64();
        if k == 1 {
            assert(false);
        }
        assert(7 * k - 7 == 7 * (k - 1)) by (nonlinear_arith);
        lemma_div128(n, 7 * k);
        lemma_div_is_strictly_smaller(n as int, 128);
        lemma_uleb_bytes_len_bound(n / 128, (k - 1) as nat);
    }
}

/// A 64-bit value encodes to between one and ten bytes.
pub proof fn lemma_uleb_bytes_len(n: u64)
    ensures
        1 <= uleb_bytes(n).len() <= 10,
{
    lemma2_to64();
    lemma_pow2_le(64, 70);
    lemma_uleb_bytes_len_bound(n, 10);
}

/// Decoding an encoding followed by anything yields exactly the encoded
/// value and consumes exactly the encoding.
pub proof fn lemma_uleb_round_trip(n: u64, depth: nat, rest: Seq<u8>)
    requires
        depth <= 9,
        (n as nat) < pow2((64 - 7 * depth) as nat),
    ensures
        uleb_decode(uleb_bytes(n) + rest, depth) == Ok::<(nat, nat), Error>(
            ((n as nat), uleb_bytes(n).len()),
        ),
    decreases n,
{
    let b = uleb_bytes(n) + rest;
    lemma2_to64();
    if n < 128 {
        assert(b[0] == n as u8);
        assert(uleb_decode(b, depth) == Ok::<(nat, nat), Error>(((n as nat), 1)));
    } else {
        // a tenth byte could only carry the value's 64th bit
        assert(depth <= 8);
        let byte = ((n % 128) + 128) as u8;
        assert(b[0] == byte);
        assert(b.drop_first() =~= uleb_bytes(n / 128) + rest);
        lemma_div128(n, (64 - 7 * depth) as nat);
        lemma_div_is_strictly_smaller(n as int, 128);
        lemma_uleb_round_trip(n / 128, depth + 1, rest);
        lemma_fundamental_div_mod(n as int, 128);
        assert((byte as nat) % 128 == (n % 128) as nat);
    }
}

/// Decoding any strict prefix of an encoding fails with `UnexpectedEnd`.
pub proof fn lemma_uleb_truncated(n: u64, depth: nat, cut: nat)
    requires
        depth <= 9,
        (n as nat) < pow2((64 - 7 * depth) as nat),
        cut < uleb_bytes(n).len(),
    ensures
        uleb_decode(uleb_bytes(n).take(cut as int), depth) == Err::<(nat, nat), Error>(
            Error::UnexpectedEnd,
        ),
    decreases n,
{
    let full = uleb_bytes(n);
    let b = full.take(cut as int);
    lemma2_to64();
    if cut == 0 {
        assert(b.len() == 0);
    } else {
        // a strict prefix of at least one byte exists only for multi-byte
        // encodings, whose head byte continues
        assert(full.len() > 1);
        assert(n >= 128);
        assert(depth <= 8);
        let byte = ((n % 128) + 128) as u8;
        assert(b[0] == byte);
        assert(b.drop_first() =~= uleb_bytes(n / 128).take(cut - 1));
        lemma_div128(n, (64 - 7 * depth) as nat);
        lemma_div_is_strictly_smaller(n as int, 128);
        lemma_uleb_truncated(n / 128, depth + 1, (cut - 1) as nat);
    }
}

/// Appends the unsigned LEB128 encoding of `n` to `out` and returns how many
/// bytes were written.
pub fn uleb_write(n: u64, out: &mut Vec<u8>) -> (len: usize)
    ensures
        final(out)@ == old(out)@ + uleb_bytes(n),
        len == uleb_bytes(n).len(),
        1 <= len <= 10,
{
    proof {
        lemma_uleb_bytes_len(n);
    }
    let ghost start = out@;
    let mut cur = n;
    let mut len: usize = 0;
    loop
        invariant
            start == old(out)@,
            start + uleb_bytes(n) == out@ + uleb_bytes(cur),
            len == out@.len() - start.len(),
            len + uleb_bytes(cur).len() == uleb_bytes(n).len(),
            uleb_bytes(n).len() <= 10,
        decreases uleb_bytes(cur).len(),
    {
        proof {
            lemma_uleb_bytes_len(cur);
        }
        if cur < 128 {
            out.push(cur as u8);
            proof {
                assert(uleb_bytes(cur) =~= seq![cur as u8]);
                assert(out@ =~= start + uleb_bytes(n));
            }
            return len + 1;
        } else {
            let b = (cur % 128 + 128) as u8;
            out.push(b);
            proof {
                assert(uleb_bytes(cur) == seq![b] + uleb_bytes(cur / 128));
                assert(out@ + uleb_bytes(cur / 128) =~= start + uleb_bytes(n));
            }
            cur = cur / 128;
            len = len + 1;
        }
    }
}

/// Decodes an unsigned LEB128 value from `buf` starting at `pos`, returning
/// the value and the position one past its final byte.
pub fn uleb_read_at(buf: &[u8], pos: usize) -> (r: Result<(u64, usize), Error>)
    requires
        pos <= buf@.len(),
    ensures
        match uleb_decode(buf@.skip(pos as int), 0) {
            Ok(vn) => r is Ok && r->Ok_0.0 as nat == vn.0 && r->Ok_0.1 == pos + vn.1 && r->Ok_0.1
                <= buf@.len(),
            Err(e) => r is Err && r->Err_0 == e,
        },
{
    let ghost b0 = buf@.skip(pos as int);
    let mut i = pos;
    let mut acc: u64 = 0;
    let mut p: u64 = 1;
    let mut depth: usize = 0;
    proof {
        lemma2_to64();
    }
    loop
        invariant
            pos <= i <= buf@.len(),
            depth == i - pos,
            depth <= 9,
            b0 == buf@.skip(pos as int),
            p as nat == pow2((7 * depth) as nat),
            (acc as nat) < p as nat,
            match uleb_decode(buf@.skip(i as int), depth as nat) {
                Ok(vn) => uleb_decode(b0, 0) == Ok::<(nat, nat), Error>(
                    ((acc as nat) + (p as nat) * vn.0, ((i - pos) as nat) + vn.1),
                ),
                Err(e) => uleb_decode(b0, 0) == Err::<(nat, nat), Error>(e),
            },
        decreases buf@.len() - i,
    {
        proof {
            lemma2_to64();
            lemma2_to64_rest();
        }
        if i >= buf.len() {
            assert(buf@.skip(i as int).len() == 0);
            return Err(Error::UnexpectedEnd);
        }
        let ghost rest = buf@.skip(i as int);
        assert(rest.len() > 0);
        let byte = buf[i];
        assert(byte == rest[0]);
        if depth == 9 && byte > 1 {
            return Err(Error::InvalidEncoding);
        }
        assert(rest.drop_first() =~= buf@.skip(i + 1));
        if byte < 128 {
            proof {
                if depth < 9 {
                    lemma_pow2_le((7 * depth) as nat, 56);
                    lemma_pow2_adds(56, 7);
                    assert((acc as nat) + (p as nat) * (byte as nat) < pow2(63))
                        by (nonlinear_arith)
                        requires
                            (acc as nat) < (p as nat),
                            (byte as nat) < 128,
                            (p as nat) <= pow2(56),
                            pow2(63) == pow2(56) * pow2(7),
                            pow2(7) == 128,
                    ;
                    lemma_pow2_strictly_increases(63, 64);
                } else {
                    lemma_pow2_adds(63, 1);
                    assert((acc as nat) + (p as nat) * (byte as nat) < pow2(64))
                        by (nonlinear_arith)
                        requires
                            (acc as nat) < (p as nat),
                            (byte as nat) <= 1,
                            (p as nat) == pow2(63),
                            pow2(64) == pow2(63) * pow2(1),
                            pow2(1) == 2,
                    ;
                }
            }
            let v = acc + p * (byte as u64);
            return Ok((v, i + 1));
        }
        // continuation byte: a tenth one was rejected above
        assert(depth <= 8);
        let low = byte - 128;
        assert((byte as nat) % 128 == low as nat);
        proof {
            lemma_pow2_le((7 * depth) as nat, 56);
            lemma_pow2_adds((7 * depth) as nat, 7);
            lemma_pow2_adds(56, 7);
            assert((acc as nat) + (p as nat) * (low as nat) < (p as nat) * 128)
                by (nonlinear_arith)
                requires
                    (acc as nat) < (p as nat),
                    (low as nat) < 128,
            ;
            assert((p as nat) * 128 <= pow2(63)) by (nonlinear_arith)
                requires
                    (p as nat) <= pow2(56),
                    pow2(63) == pow2(56) * pow2(7),
                    pow2(7) == 128,
            ;
        }
        let ghost old_acc = acc;
        let ghost old_p = p;
        acc = acc + p * (low as u64);
        p = p * 128;
        depth = depth + 1;
        i = i + 1;
        proof {
            match uleb_decode(buf@.skip(i as int), depth as nat) {
                Ok(vn) => {
                    assert((old_acc as nat) + (old_p as nat) * (((byte as nat) % 128) + 128 * vn.0)
                        == (acc as nat) + (p as nat) * vn.0) by (nonlinear_arith)
                        requires
                            acc as nat == (old_acc as nat) + (old_p as nat) * (low as nat),
                            p as nat == (old_p as nat) * 128,
                            (byte as nat) % 128 == low as nat,
                    ;
                },
                Err(_) => {},
            }
        }
    }
}

/// An unsigned LEB128 value: a non-negative integer below `2^64`.
///
/// Used internally for sequence lengths and enum discriminants, and provided
/// as a standalone utility.
#[derive(Debug, Clone, Copy, PartialEq, Eq, Structural)]
pub struct ULeb128(pub u64);

impl ULeb128 {
    /// Attempts to read an unsigned LEB128 encoded value from a buffer.
    pub fn read_from(reader: &[u8]) -> (r: Result<Self, Error>)
        ensures
            match uleb_decode(reader@, 0) {
                Ok(vn) => r is Ok && r->Ok_0.0 as nat == vn.0,
                Err(e) => r is Err && r->Err_0 == e,
            },
    {
        proof {
            assert(reader@.skip(0) =~= reader@);
        }
        match uleb_read_at(reader, 0) {
            Ok(vn) => Ok(ULeb128(vn.0)),
            Err(e) => Err(e),
        }
    }

    /// Attempts to write a value into a buffer using unsigned LEB128
    /// encoding, returning the number of bytes written.
    pub fn write_into(self, writer: &mut Vec<u8>) -> (r: Result<usize, Error>)
        ensures
            r is Ok,
            final(writer)@ == old(writer)@ + uleb_bytes(self.0),
            r->Ok_0 == uleb_bytes(self.0).len(),
    {
        Ok(uleb_write(self.0, writer))
    }

    /// Narrows to `u8`, failing when the value does not fit.
    pub fn try_to_u8(self) -> (r: Result<u8, Error>)
        ensures
            self.0 <= u8::MAX ==> r == Ok::<u8, Error>(self.0 as u8),
            self.0 > u8::MAX ==> r == Err::<u8, Error>(Error::NarrowingOverflow),
    {
        if self.0 <= u8::MAX as u64 {
            Ok(self.0 as u8)
        } else {
            Err(Error::NarrowingOverflow)
        }
    }

    /// Narrows to `u16`, failing when the value does not fit.
    pub fn try_to_u16(self) -> (r: Result<u16, Error>)
        ensures
            self.0 <= u16::MAX ==> r == Ok::<u16, Error>(self.0 as u16),
            self.0 > u16::MAX ==> r == Err::<u16, Error>(Error::NarrowingOverflow),
    {
        if self.0 <= u16::MAX as u64 {
            Ok(self.0 as u16)
        } else {
            Err(Error::NarrowingOverflow)
        }
    }

    /// Narrows to `u32`, failing when the value does not fit.
    pub fn try_to_u32(self) -> (r: Result<u32, Error>)
        ensures
            self.0 <= u32::MAX ==> r == Ok::<u32, Error>(self.0 as u32),
            self.0 > u32::MAX ==> r == Err::<u32, Error>(Error::NarrowingOverflow),
    {
        if self.0 <= u32::MAX as u64 {
            Ok(self.0 as u32)
        } else {
            Err(Error::NarrowingOverflow)
        }
    }

    /// Narrows to `usize`, failing when the value does not fit.
    pub fn try_to_usize(self) -> (r: Result<usize, Error>)
        ensures
            self.0 <= usize::MAX ==> r == Ok::<usize, Error>(self.0 as usize),
            self.0 > usize::MAX ==> r == Err::<usize, Error>(Error::NarrowingOverflow),
    {
        if self.0 <= usize::MAX as u64 {
            Ok(self.0 as usize)
        } else {
            Err(Error::NarrowingOverflow)
        }
    }
}

impl From<u8> for ULeb128 {
    fn from(n: u8) -> (r: ULeb128) {
        ULeb128(n as u64)
    }
}

impl vstd::std_specs::convert::FromSpecImpl<u8> for ULeb128 {
    open spec fn obeys_from_spec() -> bool {
        true
    }

    open spec fn from_spec(n: u8) -> ULeb128 {
        ULeb128(n as u64)
    }
}

impl From<u16> for ULeb128 {
    fn from(n: u16) -> (r: ULeb128) {
        ULeb128(n as u64)
    }
}

impl vstd::std_specs::convert::FromSpecImpl<u16> for ULeb128 {
    open spec fn obeys_from_spec() -> bool {
        true
    }

    open spec fn from_spec(n: u16) -> ULeb128 {
        ULeb128(n as u64)
    }
}

impl From<u32> for ULeb128 {
    fn from(n: u32) -> (r: ULeb128) {
        ULeb128(n as u64)
    }
}

impl vstd::std_specs::convert::FromSpecImpl<u32> for ULeb128 {
    open spec fn obeys_from_spec() -> bool {
        true
    }

    open spec fn from_spec(n: u32) -> ULeb128 {
        ULeb128(n as u64)
    }
}

impl From<u64> for ULeb128 {
    fn from(n: u64) -> (r: ULeb128) {
        ULeb128(n)
    }
}

impl vstd::std_specs::convert::FromSpecImpl<u64> for ULeb128 {
    open spec fn obeys_from_spec() -> bool {
        true
    }

    open spec fn from_spec(n: u64) -> ULeb128 {
        ULeb128(n)
    }
}

impl From<usize> for ULeb128 {
    fn from(n: usize) -> (r: ULeb128) {
        ULeb128(n as u64)
    }
}

impl vstd::std_specs::convert::FromSpecImpl<usize> for ULeb128 {
    open spec fn obeys_from_spec() -> bool {
        true
    }

    open spec fn from_spec(n: usize) -> ULeb128 {
        ULeb128(n as u64)
    }
}

impl From<ULeb128> for u64 {
    fn from(v: ULeb128) -> (r: u64) {
        v.0
    }
}

impl vstd::std_specs::convert::FromSpecImpl<ULeb128> for u64 {
    open spec fn obeys_from_spec() -> bool {
        true
    }

    open spec fn from_spec(v: ULeb128) -> u64 {
        v.0
    }
}

} // verus!
