//! The bit-addressable buffer underlying every codec: a `bitvec` bit-vector
//! with least-significant-bit-first addressing inside each byte, seen by the
//! verifier as a sequence of booleans.

use vstd::prelude::*;

verus! {

/// The buffer every codec reads from and writes to: `bitvec`'s bit-vector
/// over bytes, addressed least-significant bit first. The vector is held in
/// a hidden field because the verifier refuses `bitvec`'s generic type
/// itself; all access goes through the wrappers below.
#[verifier::external_body]
pub struct BitBuf {
    inner: bitvec::vec::BitVec<u8, bitvec::order::Lsb0>,
}

/// The bits a buffer holds, in address order.
pub uninterp spec fn stream(buf: BitBuf) -> Seq<bool>;

/// A buffer longer than this is never grown further; well below the length
/// cap at which `bitvec` panics, so pushing under it cannot fail.
pub const BIT_CAP: usize = 0x1000_0000;

/// Relies on `bitvec::vec::BitVec::new`: a fresh bit-vector is empty.
#[verifier::external_body]
pub fn empty_bits() -> (r: BitBuf)
    ensures
        stream(r) == Seq::<bool>::empty(),
{
    BitBuf { inner: bitvec::vec::BitVec::new() }
}

/// Relies on `bitvec::vec::BitVec::len`: the number of bits held.
#[verifier::external_body]
pub fn bit_len(buf: &BitBuf) -> (r: usize)
    ensures
        r == stream(*buf).len(),
{
    buf.inner.len()
}

/// Relies on `bitvec`'s `BitSlice` indexing: the bit at a position below the
/// length.
#[verifier::external_body]
pub fn bit_at(buf: &BitBuf, i: usize) -> (r: bool)
    requires
        i < stream(*buf).len(),
    ensures
        r == stream(*buf)[i as int],
{
    buf.inner[i]
}

/// Relies on `bitvec::vec::BitVec::push`: appends one bit. `push` panics
/// only when the length reaches `BitSlice::MAX_BITS` (the maximum `usize`
/// shifted right by the bits of a byte's bit index), which the precondition
/// keeps far out of reach.
#[verifier::external_body]
pub fn push_bit(buf: &mut BitBuf, b: bool)
    requires
        stream(*old(buf)).len() < BIT_CAP,
    ensures
        stream(*final(buf)) == stream(*old(buf)).push(b),
{
    buf.inner.push(b);
}

/// The numeric weight of one bit.
pub open spec fn bit_val(b: bool) -> nat {
    if b {
        1
    } else {
        0
    }
}

/// The unsigned integer a bit sequence denotes, first bit least significant.
pub open spec fn bits_to_nat(s: Seq<bool>) -> nat
    decreases s.len(),
{
    if s.len() == 0 {
        0
    } else {
        bit_val(s[0]) + 2 * bits_to_nat(s.drop_first())
    }
}

/// The `w`-bit little-endian bit sequence of `v % pow2(w)`.
pub open spec fn nat_to_bits(v: nat, w: nat) -> Seq<bool>
    decreases w,
{
    if w == 0 {
        Seq::empty()
    } else {
        seq![v % 2 == 1] + nat_to_bits(v / 2, (w - 1) as nat)
    }
}

pub open spec fn pow2(e: nat) -> nat {
    vstd::arithmetic::power2::pow2(e)
}

pub proof fn lemma_nat_to_bits_len(v: nat, w: nat)
    ensures
        nat_to_bits(v, w).len() == w,
    decreases w,
{
    if w > 0 {
        lemma_nat_to_bits_len(v / 2, (w - 1) as nat);
    }
}

pub proof fn lemma_bits_to_nat_bound(s: Seq<bool>)
    ensures
        bits_to_nat(s) < pow2(s.len()),
    decreases s.len(),
{
    if s.len() == 0 {
        assert(pow2(0) == 1) by {
            vstd::arithmetic::power2::lemma2_to64();
        }
    } else {
        vstd::arithmetic::power2::lemma_pow2_unfold(s.len());
        lemma_bits_to_nat_bound(s.drop_first());
    }
}

/// Writing `w` bits and reading them back yields the value, if it fits.
pub proof fn lemma_bits_round_trip(v: nat, w: nat)
    requires
        v < pow2(w),
    ensures
        bits_to_nat(nat_to_bits(v, w)) == v,
    decreases w,
{
    if w == 0 {
        assert(pow2(0) == 1) by {
            vstd::arithmetic::power2::lemma2_to64();
        }
    } else {
        vstd::arithmetic::power2::lemma_pow2_unfold(w);
        lemma_nat_to_bits_len(v / 2, (w - 1) as nat);
        lemma_bits_round_trip(v / 2, (w - 1) as nat);
        let s = nat_to_bits(v, w);
        assert(s.drop_first() =~= nat_to_bits(v / 2, (w - 1) as nat));
    }
}

/// Reading `w` bits and writing the value back reproduces the bits.
pub proof fn lemma_nat_round_trip(s: Seq<bool>)
    ensures
        nat_to_bits(bits_to_nat(s), s.len()) =~= s,
    decreases s.len(),
{
    if s.len() > 0 {
        lemma_nat_round_trip(s.drop_first());
        let v = bits_to_nat(s);
        assert(v % 2 == (if s[0] { 1nat } else { 0nat }));
        assert(v / 2 == bits_to_nat(s.drop_first()));
        lemma_nat_to_bits_len(v / 2, (s.len() - 1) as nat);
        assert(nat_to_bits(v, s.len()).drop_first() =~= nat_to_bits(v / 2, (s.len() - 1) as nat));
        assert(nat_to_bits(v, s.len()) =~= s);
    }
}

/// The eight bits of one byte, least significant first.
pub open spec fn byte_bits(b: u8) -> Seq<bool> {
    nat_to_bits(b as nat, 8)
}

/// The bit stream of a byte sequence: each byte contributes its eight bits,
/// least significant first.
pub open spec fn bytes_to_bits(bs: Seq<u8>) -> Seq<bool>
    decreases bs.len(),
{
    if bs.len() == 0 {
        Seq::empty()
    } else {
        byte_bits(bs[0]) + bytes_to_bits(bs.drop_first())
    }
}

/// The bytes denoted by a bit stream, one per full group of eight bits.
pub open spec fn bits_to_bytes(s: Seq<bool>) -> Seq<u8> {
    Seq::new(s.len() / 8, |i: int| bits_to_nat(s.subrange(8 * i, 8 * i + 8)) as u8)
}

pub proof fn lemma_bytes_to_bits_len(bs: Seq<u8>)
    ensures
        bytes_to_bits(bs).len() == 8 * bs.len(),
    decreases bs.len(),
{
    if bs.len() > 0 {
        lemma_nat_to_bits_len(bs[0] as nat, 8);
        lemma_bytes_to_bits_len(bs.drop_first());
    }
}

pub proof fn lemma_bytes_to_bits_push(bs: Seq<u8>, b: u8)
    ensures
        bytes_to_bits(bs.push(b)) == bytes_to_bits(bs) + byte_bits(b),
    decreases bs.len(),
{
    if bs.len() == 0 {
        assert(bs.push(b).drop_first() =~= Seq::<u8>::empty());
        assert(bs.push(b)[0] == b);
        assert(bytes_to_bits(bs.push(b)) == byte_bits(b) + bytes_to_bits(Seq::<u8>::empty()));
        assert(bytes_to_bits(bs.push(b)) =~= bytes_to_bits(bs) + byte_bits(b));
    } else {
        lemma_bytes_to_bits_push(bs.drop_first(), b);
        assert(bs.push(b).drop_first() =~= bs.drop_first().push(b));
        assert(bs.push(b)[0] == bs[0]);
        assert(bytes_to_bits(bs.push(b)) == byte_bits(bs[0]) + bytes_to_bits(
            bs.drop_first().push(b),
        ));
        assert(bytes_to_bits(bs.push(b)) =~= bytes_to_bits(bs) + byte_bits(b));
    }
}

/// Turning bytes into bits and grouping the bits back recovers the bytes.
pub proof fn lemma_bytes_bits_bytes(bs: Seq<u8>)
    ensures
        bits_to_bytes(bytes_to_bits(bs)) =~= bs,
    decreases bs.len(),
{
    lemma_bytes_to_bits_len(bs);
    if bs.len() > 0 {
        let s = bytes_to_bits(bs);
        lemma_bytes_to_bits_len(bs.drop_first());
        lemma_nat_to_bits_len(bs[0] as nat, 8);
        lemma_bytes_bits_bytes(bs.drop_first());
        assert(s.subrange(0, 8) =~= byte_bits(bs[0]));
        assert(bits_to_nat(s.subrange(0, 8)) == bs[0]) by {
            vstd::arithmetic::power2::lemma2_to64();
            lemma_bits_round_trip(bs[0] as nat, 8);
        }
        assert forall|i: int| 1 <= i < bs.len() implies bits_to_bytes(s)[i] == bs[i] by {
            let rest = bytes_to_bits(bs.drop_first());
            assert(s.subrange(8 * i, 8 * i + 8) =~= rest.subrange(
                8 * (i - 1),
                8 * (i - 1) + 8,
            ));
            assert(bits_to_bytes(rest)[i - 1] == bs.drop_first()[i - 1]);
        }
    }
}

/// Grouping a whole number of bytes' worth of bits and expanding them again
/// recovers the bits.
pub proof fn lemma_bits_bytes_bits(s: Seq<bool>)
    requires
        s.len() % 8 == 0,
    ensures
        bytes_to_bits(bits_to_bytes(s)) =~= s,
    decreases s.len(),
{
    let bs = bits_to_bytes(s);
    lemma_bytes_to_bits_len(bs);
    if s.len() > 0 {
        let tail = s.skip(8);
        assert(tail.len() % 8 == 0) by {
            assert(tail.len() == s.len() - 8);
        }
        lemma_bits_bytes_bits(tail);
        assert(bits_to_bytes(tail) =~= bs.drop_first()) by {
            assert forall|i: int| 0 <= i < bits_to_bytes(tail).len() implies bits_to_bytes(
                tail,
            )[i] == bs.drop_first()[i] by {
                assert(tail.subrange(8 * i, 8 * i + 8) =~= s.subrange(
                    8 * (i + 1),
                    8 * (i + 1) + 8,
                ));
            }
        }
        assert(byte_bits(bs[0]) =~= s.subrange(0, 8)) by {
            lemma_bits_to_nat_bound(s.subrange(0, 8));
            vstd::arithmetic::power2::lemma2_to64();
            lemma_nat_round_trip(s.subrange(0, 8));
        }
        assert(bytes_to_bits(bs) =~= byte_bits(bs[0]) + bytes_to_bits(bs.drop_first()));
        assert(bytes_to_bits(bs) =~= s);
    }
}

/// Loads a whole byte buffer into a bit buffer.
pub fn bits_from_bytes(bytes: &Vec<u8>) -> (r: BitBuf)
    requires
        8 * bytes@.len() <= BIT_CAP,
    ensures
        stream(r) == bytes_to_bits(bytes@),
{
    let mut out = empty_bits();
    let mut i: usize = 0;
    proof {
        assert(bytes@.subrange(0, 0) =~= Seq::<u8>::empty());
        lemma_bytes_to_bits_len(bytes@.subrange(0, 0));
    }
    while i < bytes.len()
        invariant
            i <= bytes@.len(),
            8 * bytes@.len() <= BIT_CAP,
            stream(out) == bytes_to_bits(bytes@.subrange(0, i as int)),
            stream(out).len() == 8 * i,
        decreases bytes@.len() - i,
    {
        proof {
            vstd::arithmetic::power2::lemma2_to64();
            lemma_bytes_to_bits_push(bytes@.subrange(0, i as int), bytes@[i as int]);
            assert(bytes@.subrange(0, i as int).push(bytes@[i as int]) =~= bytes@.subrange(
                0,
                i + 1,
            ));
            lemma_nat_to_bits_len(bytes@[i as int] as nat, 8);
        }
        store_bits(&mut out, bytes[i] as u32, 8);
        i = i + 1;
    }
    proof {
        assert(bytes@.subrange(0, bytes@.len() as int) =~= bytes@);
    }
    out
}

/// Reads a bit buffer holding a whole number of bytes back out as bytes.
pub fn bits_into_bytes(buf: &BitBuf) -> (r: Vec<u8>)
    requires
        stream(*buf).len() <= BIT_CAP,
        stream(*buf).len() % 8 == 0,
    ensures
        r@ == bits_to_bytes(stream(*buf)),
{
    let total = bit_len(buf);
    let n = total / 8;
    let mut out: Vec<u8> = Vec::new();
    let mut i: usize = 0;
    while i < n
        invariant
            i <= n,
            n == stream(*buf).len() / 8,
            stream(*buf).len() % 8 == 0,
            stream(*buf).len() <= BIT_CAP,
            out@.len() == i,
            forall|j: int| 0 <= j < i ==> out@[j] == bits_to_bytes(stream(*buf))[j],
        decreases n - i,
    {
        let b = load_bits(buf, 8 * i, 8);
        proof {
            vstd::arithmetic::power2::lemma2_to64();
        }
        out.push(b as u8);
        i = i + 1;
    }
    proof {
        assert(out@ =~= bits_to_bytes(stream(*buf)));
    }
    out
}

/// Reads `w` bits at `pos`, first bit least significant.
pub fn load_bits(buf: &BitBuf, pos: usize, w: usize) -> (r: u32)
    requires
        w <= 32,
        pos + w <= stream(*buf).len(),
        stream(*buf).len() <= BIT_CAP,
    ensures
        r as nat == bits_to_nat(stream(*buf).subrange(pos as int, pos + w)),
        r < pow2(w as nat),
    decreases w,
{
    proof {
        lemma_bits_to_nat_bound(stream(*buf).subrange(pos as int, pos + w));
        if w > 0 {
            vstd::arithmetic::power2::lemma_pow2_unfold(w as nat);
            vstd::arithmetic::power2::lemma_pow2_strictly_increases((w - 1) as nat, 32);
            vstd::arithmetic::power2::lemma2_to64();
        }
    }
    if w == 0 {
        0
    } else {
        let b = bit_at(buf, pos);
        let rest = load_bits(buf, pos + 1, w - 1);
        proof {
            let s = stream(*buf).subrange(pos as int, pos + w);
            assert(s.drop_first() =~= stream(*buf).subrange(pos + 1, pos + w));
            assert(s[0] == stream(*buf)[pos as int]);
        }
        (if b {
            1
        } else {
            0
        }) + 2 * rest
    }
}

/// Appends the low `w` bits of `v`, least significant first.
pub fn store_bits(buf: &mut BitBuf, v: u32, w: usize)
    requires
        w <= 32,
        v < pow2(w as nat),
        stream(*old(buf)).len() + w <= BIT_CAP,
    ensures
        stream(*final(buf)) == stream(*old(buf)) + nat_to_bits(v as nat, w as nat),
    decreases w,
{
    proof {
        lemma_nat_to_bits_len(v as nat, w as nat);
    }
    if w == 0 {
        proof {
            assert(stream(*buf) =~= stream(*buf) + nat_to_bits(v as nat, 0));
        }
    } else {
        let b = v % 2 == 1;
        push_bit(buf, b);
        proof {
            vstd::arithmetic::power2::lemma_pow2_unfold(w as nat);
        }
        store_bits(buf, v / 2, w - 1);
        proof {
            assert(stream(*buf) =~= stream(*old(buf)) + nat_to_bits(v as nat, w as nat));
        }
    }
}

} // verus!
