//! Reading and writing fixed-width integers inside a byte buffer, in either
//! byte order. Multi-byte magic values and markers are compared as if packed
//! big-endian.
use vstd::prelude::*;

verus! {

/// The two buffer bytes at `p`, read as one big-endian `u16`.
pub open spec fn be16(b: Seq<u8>, p: int) -> u16 {
    ((b[p] as u16) << 8) | (b[p + 1] as u16)
}

/// The two buffer bytes at `p`, read as one little-endian `u16`.
pub open spec fn le16(b: Seq<u8>, p: int) -> u16 {
    ((b[p + 1] as u16) << 8) | (b[p] as u16)
}

/// The four buffer bytes at `p`, read as one big-endian `u32`.
pub open spec fn be32(b: Seq<u8>, p: int) -> u32 {
    ((b[p] as u32) << 24) | ((b[p + 1] as u32) << 16) | ((b[p + 2] as u32) << 8) | (b[p
        + 3] as u32)
}

/// The four buffer bytes at `p`, read as one little-endian `u32`.
pub open spec fn le32(b: Seq<u8>, p: int) -> u32 {
    ((b[p + 3] as u32) << 24) | ((b[p + 2] as u32) << 16) | ((b[p + 1] as u32) << 8) | (b[p] as u32)
}

/// The `u16` at `p` in the selected byte order.
pub open spec fn word16(b: Seq<u8>, p: int, big: bool) -> u16 {
    if big {
        be16(b, p)
    } else {
        le16(b, p)
    }
}

/// The `u32` at `p` in the selected byte order.
pub open spec fn word32(b: Seq<u8>, p: int, big: bool) -> u32 {
    if big {
        be32(b, p)
    } else {
        le32(b, p)
    }
}

/// Reads the `u16` at `p` in the selected byte order.
pub fn read_u16(b: &Vec<u8>, p: usize, big: bool) -> (r: u16)
    requires
        p + 2 <= b.len(),
    ensures
        r == word16(b@, p as int, big),
{
    if big {
        ((b[p] as u16) << 8u16) | (b[p + 1] as u16)
    } else {
        ((b[p + 1] as u16) << 8u16) | (b[p] as u16)
    }
}

/// Reads the `u32` at `p` in the selected byte order.
pub fn read_u32(b: &Vec<u8>, p: usize, big: bool) -> (r: u32)
    requires
        p + 4 <= b.len(),
    ensures
        r == word32(b@, p as int, big),
{
    if big {
        ((b[p] as u32) << 24u32) | ((b[p + 1] as u32) << 16u32) | ((b[p + 2] as u32) << 8u32) | (b[p
            + 3] as u32)
    } else {
        ((b[p + 3] as u32) << 24u32) | ((b[p + 2] as u32) << 16u32) | ((b[p + 1] as u32) << 8u32)
            | (b[p] as u32)
    }
}

/// The big-endian bytes of a `u16`.
pub open spec fn u16_be(x: u16) -> Seq<u8> {
    seq![(x >> 8) as u8, x as u8]
}

/// The big-endian bytes of a `u32`.
pub open spec fn u32_be(x: u32) -> Seq<u8> {
    seq![(x >> 24) as u8, (x >> 16) as u8, (x >> 8) as u8, x as u8]
}

/// Appends the big-endian bytes of a `u16`, which read back as the value.
pub fn push_u16_be(v: &mut Vec<u8>, x: u16)
    ensures
        final(v)@ == old(v)@ + u16_be(x),
        final(v)@.len() == old(v)@.len() + 2,
        be16(final(v)@, old(v)@.len() as int) == x,
        forall|j: int| 0 <= j < old(v)@.len() ==> final(v)@[j] == old(v)@[j],
{
    let ghost l = v@.len() as int;
    v.push(#[verifier::truncate] ((x >> 8u16) as u8));
    v.push(#[verifier::truncate] (x as u8));
    proof {
        assert(v@ =~= old(v)@ + u16_be(x));
        lemma_be16_of_bytes(v@, l, x);
    }
}

/// Appends the big-endian bytes of a `u32`, which read back as the value.
pub fn push_u32_be(v: &mut Vec<u8>, x: u32)
    ensures
        final(v)@ == old(v)@ + u32_be(x),
        final(v)@.len() == old(v)@.len() + 4,
        be32(final(v)@, old(v)@.len() as int) == x,
        forall|j: int| 0 <= j < old(v)@.len() ==> final(v)@[j] == old(v)@[j],
{
    let ghost l = v@.len() as int;
    v.push(#[verifier::truncate] ((x >> 24u32) as u8));
    v.push(#[verifier::truncate] ((x >> 16u32) as u8));
    v.push(#[verifier::truncate] ((x >> 8u32) as u8));
    v.push(#[verifier::truncate] (x as u8));
    proof {
        assert(v@ =~= old(v)@ + u32_be(x));
        lemma_be32_of_bytes(v@, l, x);
    }
}

/// Appends a whole byte slice, which reads back as itself.
pub fn push_bytes(v: &mut Vec<u8>, s: &[u8])
    ensures
        final(v)@ == old(v)@ + s@,
        final(v)@.len() == old(v)@.len() + s@.len(),
        final(v)@.subrange(old(v)@.len() as int, final(v)@.len() as int) == s@,
        forall|j: int| 0 <= j < old(v)@.len() ==> final(v)@[j] == old(v)@[j],
{
    let ghost l = v@.len() as int;
    let mut k: usize = 0;
    let n = s.len();
    while k < n
        invariant
            k <= n,
            n == s@.len(),
            v@ == old(v)@ + s@.subrange(0, k as int),
        decreases n - k,
    {
        v.push(s[k]);
        proof {
            assert(v@ =~= old(v)@ + s@.subrange(0, k + 1));
        }
        k = k + 1;
    }
    proof {
        assert(s@.subrange(0, n as int) =~= s@);
        assert(v@.subrange(l, v@.len() as int) =~= s@);
    }
}

/// Appends `count` zero bytes.
pub fn push_zeros(v: &mut Vec<u8>, count: usize)
    ensures
        final(v)@.len() == old(v)@.len() + count,
        forall|j: int|
            old(v)@.len() <= j < final(v)@.len() ==> final(v)@[j] == 0,
        forall|j: int| 0 <= j < old(v)@.len() ==> final(v)@[j] == old(v)@[j],
{
    let mut k: usize = 0;
    while k < count
        invariant
            k <= count,
            v@.len() == old(v)@.len() + k,
            forall|j: int| old(v)@.len() <= j < v@.len() ==> v@[j] == 0,
            forall|j: int| 0 <= j < old(v)@.len() ==> v@[j] == old(v)@[j],
        decreases count - k,
    {
        v.push(0);
        k = k + 1;
    }
}

/// Copies the bytes at `start..end` out of the buffer.
pub fn copy_range(b: &Vec<u8>, start: usize, end: usize) -> (r: Vec<u8>)
    requires
        start <= end <= b.len(),
    ensures
        r@ == b@.subrange(start as int, end as int),
{
    let mut r: Vec<u8> = Vec::new();
    let mut p = start;
    proof {
        assert(r@ =~= b@.subrange(start as int, start as int));
    }
    while p < end
        invariant
            start <= p <= end <= b@.len(),
            r@ == b@.subrange(start as int, p as int),
        decreases end - p,
    {
        r.push(b[p]);
        proof {
            assert(r@ =~= b@.subrange(start as int, p + 1));
        }
        p = p + 1;
    }
    r
}

/// A big-endian `u16` written into a buffer reads back as itself.
pub proof fn lemma_be16_of_bytes(b: Seq<u8>, p: int, x: u16)
    requires
        0 <= p,
        p + 2 <= b.len(),
        b[p] == (x >> 8) as u8,
        b[p + 1] == x as u8,
    ensures
        be16(b, p) == x,
{
    let hi = b[p];
    let lo = b[p + 1];
    assert(hi == (x >> 8) as u8 && lo == x as u8 ==> (((hi as u16) << 8) | (lo as u16)) == x)
        by (bit_vector);
}

/// A big-endian `u32` written into a buffer reads back as itself.
pub proof fn lemma_be32_of_bytes(b: Seq<u8>, p: int, x: u32)
    requires
        0 <= p,
        p + 4 <= b.len(),
        b[p] == (x >> 24) as u8,
        b[p + 1] == (x >> 16) as u8,
        b[p + 2] == (x >> 8) as u8,
        b[p + 3] == x as u8,
    ensures
        be32(b, p) == x,
{
    let b0 = b[p];
    let b1 = b[p + 1];
    let b2 = b[p + 2];
    let b3 = b[p + 3];
    assert(b0 == (x >> 24) as u8 && b1 == (x >> 16) as u8 && b2 == (x >> 8) as u8 && b3 == x as u8
        ==> (((b0 as u32) << 24) | ((b1 as u32) << 16) | ((b2 as u32) << 8) | (b3 as u32)) == x)
        by (bit_vector);
}

} // verus!
