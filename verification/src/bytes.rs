//! Big-endian byte images of the fixed-width integers the container format
//! uses, together with the executable readers and writers and the lemmas
//! that connect the two directions.

use vstd::prelude::*;

verus! {

/// Big-endian image of a 16-bit value: high byte first.
pub open spec fn be16(x: u16) -> Seq<u8> {
    seq![((x >> 8) & 0xff) as u8, (x & 0xff) as u8]
}

/// Big-endian image of a 32-bit value: highest byte first.
pub open spec fn be32(x: u32) -> Seq<u8> {
    seq![
        ((x >> 24) & 0xff) as u8,
        ((x >> 16) & 0xff) as u8,
        ((x >> 8) & 0xff) as u8,
        (x & 0xff) as u8,
    ]
}

/// The 16-bit value whose big-endian image starts at position `i` of `s`.
pub open spec fn read_be16(s: Seq<u8>, i: int) -> u16
    recommends
        0 <= i,
        i + 2 <= s.len(),
{
    (s[i] as u16) << 8 | (s[i + 1] as u16)
}

/// The 32-bit value whose big-endian image starts at position `i` of `s`.
pub open spec fn read_be32(s: Seq<u8>, i: int) -> u32
    recommends
        0 <= i,
        i + 4 <= s.len(),
{
    (s[i] as u32) << 24 | (s[i + 1] as u32) << 16 | (s[i + 2] as u32) << 8 | (s[i + 3] as u32)
}

/// Reading a 16-bit big-endian image back gives the value that was written.
pub proof fn lemma_read_be16_at(s: Seq<u8>, i: int, x: u16)
    requires
        0 <= i,
        i + 2 <= s.len(),
        s.subrange(i, i + 2) == be16(x),
    ensures
        read_be16(s, i) == x,
{
    assert(s[i] == be16(x)[0]) by {
        assert(s.subrange(i, i + 2)[0] == s[i]);
    }
    assert(s[i + 1] == be16(x)[1]) by {
        assert(s.subrange(i, i + 2)[1] == s[i + 1]);
    }
    assert(((((x >> 8) & 0xff) as u8) as u16) << 8 | (((x & 0xff) as u8) as u16) == x)
        by (bit_vector);
}

/// Reading a 32-bit big-endian image back gives the value that was written.
pub proof fn lemma_read_be32_at(s: Seq<u8>, i: int, x: u32)
    requires
        0 <= i,
        i + 4 <= s.len(),
        s.subrange(i, i + 4) == be32(x),
    ensures
        read_be32(s, i) == x,
{
    assert(s[i] == be32(x)[0]) by {
        assert(s.subrange(i, i + 4)[0] == s[i]);
    }
    assert(s[i + 1] == be32(x)[1]) by {
        assert(s.subrange(i, i + 4)[1] == s[i + 1]);
    }
    assert(s[i + 2] == be32(x)[2]) by {
        assert(s.subrange(i, i + 4)[2] == s[i + 2]);
    }
    assert(s[i + 3] == be32(x)[3]) by {
        assert(s.subrange(i, i + 4)[3] == s[i + 3]);
    }
    assert(((((x >> 24) & 0xff) as u8) as u32) << 24 | ((((x >> 16) & 0xff) as u8) as u32) << 16
        | ((((x >> 8) & 0xff) as u8) as u32) << 8 | (((x & 0xff) as u8) as u32) == x)
        by (bit_vector);
}

/// A subrange equal to a concatenation splits into its two halves.
pub proof fn lemma_split_at(s: Seq<u8>, p: int, x: Seq<u8>, y: Seq<u8>)
    requires
        0 <= p,
        p + x.len() + y.len() <= s.len(),
        s.subrange(p, p + x.len() + y.len()) == x + y,
    ensures
        s.subrange(p, p + x.len()) == x,
        s.subrange(p + x.len(), p + x.len() + y.len()) == y,
{
    assert forall|k: int| 0 <= k < x.len() implies s.subrange(p, p + x.len())[k] == x[k] by {
        assert(s.subrange(p, p + x.len() + y.len())[k] == (x + y)[k]);
    }
    assert(s.subrange(p, p + x.len()) =~= x);
    assert forall|k: int| 0 <= k < y.len() implies s.subrange(
        p + x.len(),
        p + x.len() + y.len(),
    )[k] == y[k] by {
        assert(s.subrange(p, p + x.len() + y.len())[x.len() + k] == (x + y)[x.len() + k]);
        assert((x + y)[x.len() + k] == y[k]);
        assert(s.subrange(p + x.len(), p + x.len() + y.len())[k] == s[p + x.len() + k]);
        assert(s.subrange(p, p + x.len() + y.len())[x.len() + k] == s[p + x.len() + k]);
    }
    assert(s.subrange(p + x.len(), p + x.len() + y.len()) =~= y);
}

/// Reads the 16-bit big-endian field at position `i` of `s`.
pub fn read_be16_at(s: &Vec<u8>, i: usize) -> (r: u16)
    requires
        i + 2 <= s@.len(),
    ensures
        r == read_be16(s@, i as int),
{
    // binds the length so the index sums below are known to fit a usize
    let n = s.len();
    let hi = s[i];
    let lo = s[i + 1];
    (hi as u16) << 8 | (lo as u16)
}

/// Reads the 32-bit big-endian field at position `i` of `s`.
pub fn read_be32_at(s: &Vec<u8>, i: usize) -> (r: u32)
    requires
        i + 4 <= s@.len(),
    ensures
        r == read_be32(s@, i as int),
{
    // binds the length so the index sums below are known to fit a usize
    let n = s.len();
    let b0 = s[i];
    let b1 = s[i + 1];
    let b2 = s[i + 2];
    let b3 = s[i + 3];
    (b0 as u32) << 24 | (b1 as u32) << 16 | (b2 as u32) << 8 | (b3 as u32)
}

/// Appends the big-endian image of a 16-bit value.
pub fn push_be16(out: &mut Vec<u8>, x: u16)
    ensures
        final(out)@ == old(out)@ + be16(x),
{
    assert(x >> 8 < 256 && (x >> 8) & 0xff == x >> 8 && (x & 0xff) < 256) by (bit_vector);
    let b0 = (x >> 8) as u8;
    let b1 = (x & 0xff) as u8;
    out.push(b0);
    out.push(b1);
    assert(out@ =~= old(out)@ + be16(x));
}

/// Appends the big-endian image of a 32-bit value.
pub fn push_be32(out: &mut Vec<u8>, x: u32)
    ensures
        final(out)@ == old(out)@ + be32(x),
{
    assert(x >> 24 < 256 && (x >> 24) & 0xff == x >> 24) by (bit_vector);
    assert((x >> 16) & 0xff < 256 && (x >> 8) & 0xff < 256 && (x & 0xff) < 256) by (bit_vector);
    let b0 = (x >> 24) as u8;
    let b1 = ((x >> 16) & 0xff) as u8;
    let b2 = ((x >> 8) & 0xff) as u8;
    let b3 = (x & 0xff) as u8;
    out.push(b0);
    out.push(b1);
    out.push(b2);
    out.push(b3);
    assert(out@ =~= old(out)@ + be32(x));
}

/// Appends a copy of every byte of `b`.
pub fn push_bytes(out: &mut Vec<u8>, b: &Vec<u8>)
    ensures
        final(out)@ == old(out)@ + b@,
{
    out.extend_from_slice(b.as_slice());
}

/// Copies `s[start .. start + n]` into a fresh vector.
pub fn copy_range(s: &Vec<u8>, start: usize, n: usize) -> (r: Vec<u8>)
    requires
        start + n <= s@.len(),
    ensures
        r@ == s@.subrange(start as int, start + n),
{
    let total = s.len();
    let mut r: Vec<u8> = Vec::new();
    let mut i: usize = 0;
    while i < n
        invariant
            start + n <= total,
            total == s@.len(),
            i <= n,
            r@ == s@.subrange(start as int, start + i),
        decreases n - i,
    {
        r.push(s[start + i]);
        assert(r@ =~= s@.subrange(start as int, start + i + 1));
        i = i + 1;
    }
    r
}

} // verus!
