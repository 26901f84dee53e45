//! Fixed-width unsigned integer transport in a chosen byte order.
//!
//! Every fixed-width scalar (integers, floats as raw bit patterns, Unicode
//! scalar values, booleans) travels through these routines as an unsigned
//! integer of its exact byte width.

use vstd::arithmetic::power2::lemma2_to64;
use vstd::arithmetic::power2::lemma_pow2_adds;
use vstd::arithmetic::power2::pow2;
use vstd::prelude::*;

use crate::error::Error;

verus! {

/// The byte order used for every multi-byte scalar of one whole encode or
/// decode call.
#[derive(Debug, Clone, Copy, PartialEq, Eq, Structural)]
pub enum ByteOrder {
    /// Least significant byte first.
    Little,
    /// Most significant byte first.
    Big,
}

/// The `w` least significant base-256 digits of `n`, least significant
/// first.
pub open spec fn le_bytes(n: nat, w: nat) -> Seq<u8>
    decreases w,
{
    if w == 0 {
        Seq::empty()
    } else {
        seq![(n % 256) as u8] + le_bytes(n / 256, (w - 1) as nat)
    }
}

/// The value of a little-endian digit string.
pub open spec fn le_val(b: Seq<u8>) -> nat
    decreases b.len(),
{
    if b.len() == 0 {
        0
    } else {
        (b[0] as nat) + 256 * le_val(b.drop_first())
    }
}

/// The value of a big-endian digit string.
pub open spec fn be_val(b: Seq<u8>) -> nat
    decreases b.len(),
{
    if b.len() == 0 {
        0
    } else {
        256 * be_val(b.drop_last()) + (b.last() as nat)
    }
}

/// The `w`-byte encoding of `n` in byte order `bo`.
pub open spec fn uint_bytes(n: nat, w: nat, bo: ByteOrder) -> Seq<u8> {
    match bo {
        ByteOrder::Little => le_bytes(n, w),
        ByteOrder::Big => le_bytes(n, w).reverse(),
    }
}

/// The value carried by digit string `b` read in byte order `bo`.
pub open spec fn uint_val(b: Seq<u8>, bo: ByteOrder) -> nat {
    match bo {
        ByteOrder::Little => le_val(b),
        ByteOrder::Big => be_val(b),
    }
}

/// A `w`-byte encoding is exactly `w` bytes long.
pub proof fn lemma_le_bytes_len(n: nat, w: nat)
    ensures
        le_bytes(n, w).len() == w,
    decreases w,
{
    if w > 0 {
        lemma_le_bytes_len(n / 256, (w - 1) as nat);
    }
}

/// A digit string of length `w` holds a value below `2^(8w)`.
pub proof fn lemma_le_val_bound(b: Seq<u8>)
    ensures
        le_val(b) < pow2(8 * b.len()),
    decreases b.len(),
{
    lemma2_to64();
    if b.len() > 0 {
        lemma_le_val_bound(b.drop_first());
        lemma_pow2_adds(8, 8 * (b.len() - 1) as nat);
        assert((b[0] as nat) + 256 * le_val(b.drop_first()) < pow2(8 * b.len()))
            by (nonlinear_arith)
            requires
                (b[0] as nat) < 256,
                le_val(b.drop_first()) < pow2((8 * (b.len() - 1)) as nat),
                pow2(8 * b.len()) == pow2(8) * pow2((8 * (b.len() - 1)) as nat),
                pow2(8) == 256,
        ;
        assert(8 * b.len() - 8 == 8 * (b.len() - 1)) by (nonlinear_arith);
    }
}

/// Reading back the digits of `n` recovers `n` whenever it fits in `w`
/// bytes.
pub proof fn lemma_le_round_trip(n: nat, w: nat)
    requires
        n < pow2(8 * w),
    ensures
        le_val(le_bytes(n, w)) == n,
    decreases w,
{
    lemma2_to64();
    if w == 0 {
        assert(pow2(0) == 1);
    } else {
        let b = le_bytes(n, w);
        lemma_le_bytes_len(n / 256, (w - 1) as nat);
        assert(b.drop_first() =~= le_bytes(n / 256, (w - 1) as nat));
        lemma_pow2_adds((8 * (w - 1)) as nat, 8);
        assert(8 * w - 8 == 8 * (w - 1)) by (nonlinear_arith);
        assert(n / 256 < pow2((8 * (w - 1)) as nat)) by (nonlinear_arith)
            requires
                n < pow2(8 * w),
                pow2(8 * w) == pow2((8 * (w - 1)) as nat) * pow2(8),
                pow2(8) == 256,
        ;
        lemma_le_round_trip(n / 256, (w - 1) as nat);
        vstd::arithmetic::div_mod::lemma_fundamental_div_mod(n as int, 256);
    }
}

/// Reading a digit string back to front flips its endianness.
pub proof fn lemma_be_val_reverse(b: Seq<u8>)
    ensures
        be_val(b.reverse()) == le_val(b),
    decreases b.len(),
{
    if b.len() > 0 {
        let r = b.reverse();
        assert(r.drop_last() =~= b.drop_first().reverse());
        assert(r.last() == b[0]);
        lemma_be_val_reverse(b.drop_first());
    }
}

/// Big-endian round trip: the reversed digits of `n` read back as `n`.
pub proof fn lemma_be_round_trip(n: nat, w: nat)
    requires
        n < pow2(8 * w),
    ensures
        be_val(le_bytes(n, w).reverse()) == n,
{
    lemma_be_val_reverse(le_bytes(n, w));
    lemma_le_round_trip(n, w);
}

/// Round trip in either byte order.
pub proof fn lemma_uint_round_trip(n: nat, w: nat, bo: ByteOrder)
    requires
        n < pow2(8 * w),
    ensures
        uint_val(uint_bytes(n, w, bo), bo) == n,
        uint_bytes(n, w, bo).len() == w,
{
    lemma_le_bytes_len(n, w);
    match bo {
        ByteOrder::Little => lemma_le_round_trip(n, w),
        ByteOrder::Big => lemma_be_round_trip(n, w),
    }
}

/// Appends the `w`-byte encoding of `n` in byte order `bo`.
pub fn write_uint(n: u64, w: usize, bo: ByteOrder, out: &mut Vec<u8>)
    requires
        w <= 8,
        (n as nat) < pow2(8 * w as nat),
    ensures
        final(out)@ == old(out)@ + uint_bytes(n as nat, w as nat, bo),
{
    match bo {
        ByteOrder::Little => write_uint_le(n, w, out),
        ByteOrder::Big => {
            let mut temp: Vec<u8> = Vec::new();
            write_uint_le(n, w, &mut temp);
            proof {
                lemma_le_bytes_len(n as nat, w as nat);
            }
            let ghost le = le_bytes(n as nat, w as nat);
            let ghost start = out@;
            let mut k: usize = 0;
            while k < w
                invariant
                    k <= w,
                    w <= 8,
                    temp@ == le,
                    le.len() == w,
                    out@ == start + le.reverse().take(k as int),
                decreases w - k,
            {
                out.push(temp[w - 1 - k]);
                k = k + 1;
                proof {
                    assert(le.reverse().take(k as int) =~= le.reverse().take(k - 1).push(
                        le[w - k],
                    ));
                    assert(out@ =~= start + le.reverse().take(k as int));
                }
            }
            proof {
                assert(le.reverse().take(w as int) =~= le.reverse());
            }
        },
    }
}

fn write_uint_le(n: u64, w: usize, out: &mut Vec<u8>)
    requires
        w <= 8,
    ensures
        final(out)@ == old(out)@ + le_bytes(n as nat, w as nat),
{
    let ghost start = out@;
    let mut cur = n;
    let mut i: usize = 0;
    while i < w
        invariant
            i <= w,
            start + le_bytes(n as nat, w as nat) == out@ + le_bytes(cur as nat, (w - i) as nat),
            out@.len() == start.len() + i,
        decreases w - i,
    {
        proof {
            lemma_le_bytes_len(n as nat, w as nat);
            lemma_le_bytes_len(cur as nat, (w - i) as nat);
        }
        let b = (cur % 256) as u8;
        out.push(b);
        proof {
            assert(le_bytes(cur as nat, (w - i) as nat) == seq![b] + le_bytes(
                (cur / 256) as nat,
                (w - i - 1) as nat,
            ));
            assert(out@ + le_bytes((cur / 256) as nat, (w - i - 1) as nat) =~= start + le_bytes(
                n as nat,
                w as nat,
            ));
        }
        cur = cur / 256;
        i = i + 1;
    }
    proof {
        lemma_le_bytes_len(n as nat, w as nat);
        assert(le_bytes(cur as nat, 0) =~= Seq::<u8>::empty());
        assert(out@ =~= start + le_bytes(n as nat, w as nat));
    }
}

/// Reads a `w`-byte unsigned integer in byte order `bo` starting at `pos`,
/// returning the value and the position one past its final byte.
pub fn read_uint(buf: &[u8], pos: usize, w: usize, bo: ByteOrder) -> (r: Result<
    (u64, usize),
    Error,
>)
    requires
        pos <= buf@.len(),
        w <= 8,
    ensures
        buf@.len() - pos >= w ==> r is Ok && r->Ok_0.0 as nat == uint_val(
            buf@.subrange(pos as int, pos + w),
            bo,
        ) && r->Ok_0.1 == pos + w,
        buf@.len() - pos < w ==> r == Err::<(u64, usize), Error>(Error::UnexpectedEnd),
{
    if buf.len() - pos < w {
        return Err(Error::UnexpectedEnd);
    }
    let ghost win = buf@.subrange(pos as int, pos + w);
    proof {
        lemma2_to64();
    }
    match bo {
        ByteOrder::Little => {
            let mut acc: u64 = 0;
            let mut j = w;
            while j > 0
                invariant
                    j <= w <= 8,
                    pos + w <= buf@.len(),
                    buf@.len() <= usize::MAX,
                    win == buf@.subrange(pos as int, pos + w),
                    acc as nat == le_val(win.skip(j as int)),
                decreases j,
            {
                proof {
                    lemma_le_val_bound(win.skip(j - 1));
                    lemma_pow2_le_u64(8 * (w - j + 1) as nat);
                }
                let byte = buf[pos + j - 1];
                assert(win.skip(j - 1)[0] == byte);
                assert(win.skip(j - 1).drop_first() =~= win.skip(j as int));
                acc = (byte as u64) + 256 * acc;
                j = j - 1;
            }
            proof {
                assert(win.skip(0) =~= win);
            }
            Ok((acc, pos + w))
        },
        ByteOrder::Big => {
            let mut acc: u64 = 0;
            let mut j: usize = 0;
            while j < w
                invariant
                    j <= w <= 8,
                    pos + w <= buf@.len(),
                    buf@.len() <= usize::MAX,
                    win == buf@.subrange(pos as int, pos + w),
                    acc as nat == be_val(win.take(j as int)),
                decreases w - j,
            {
                proof {
                    lemma_be_val_bound(win.take(j + 1));
                    assert(win.take(j + 1).drop_last() =~= win.take(j as int));
                    lemma_pow2_le_u64(8 * (j + 1) as nat);
                }
                let byte = buf[pos + j];
                assert(win.take(j + 1).last() == byte);
                acc = 256 * acc + (byte as u64);
                j = j + 1;
            }
            proof {
                assert(win.take(w as int) =~= win);
            }
            Ok((acc, pos + w))
        },
    }
}

/// A big-endian digit string of length `w` holds a value below `2^(8w)`.
pub proof fn lemma_be_val_bound(b: Seq<u8>)
    ensures
        be_val(b) < pow2(8 * b.len()),
    decreases b.len(),
{
    lemma2_to64();
    if b.len() > 0 {
        lemma_be_val_bound(b.drop_last());
        lemma_pow2_adds((8 * (b.len() - 1)) as nat, 8);
        assert(8 * b.len() - 8 == 8 * (b.len() - 1)) by (nonlinear_arith);
        assert(256 * be_val(b.drop_last()) + (b.last() as nat) < pow2(8 * b.len()))
            by (nonlinear_arith)
            requires
                (b.last() as nat) < 256,
                be_val(b.drop_last()) < pow2((8 * (b.len() - 1)) as nat),
                pow2(8 * b.len()) == pow2((8 * (b.len() - 1)) as nat) * pow2(8),
                pow2(8) == 256,
        ;
    }
}

/// Powers of two up to `2^64` fit the `u64` range.
proof fn lemma_pow2_le_u64(e: nat)
    requires
        e <= 64,
    ensures
        pow2(e) <= 0x10000000000000000,
{
    lemma2_to64();
    if e < 64 {
        vstd::arithmetic::power2::lemma_pow2_strictly_increases(e, 64);
    }
}

} // verus!
