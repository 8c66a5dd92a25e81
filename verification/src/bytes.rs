//! Big-endian byte conversions for the fixed-width integer fields of the
//! wire format, and small verified helpers for moving bytes around.

use vstd::prelude::*;

verus! {

/// Big-endian bytes of a 32-bit value, most significant byte first.
pub open spec fn u32_be(x: u32) -> Seq<u8> {
    seq![(x >> 24) as u8, (x >> 16) as u8, (x >> 8) as u8, x as u8]
}

/// The 32-bit value read from four big-endian bytes.
pub open spec fn u32_of_be(b0: u8, b1: u8, b2: u8, b3: u8) -> u32 {
    ((b0 as u32) << 24) | ((b1 as u32) << 16) | ((b2 as u32) << 8) | (b3 as u32)
}

/// Big-endian bytes of a 64-bit value, most significant byte first.
pub open spec fn u64_be(x: u64) -> Seq<u8> {
    seq![
        (x >> 56) as u8,
        (x >> 48) as u8,
        (x >> 40) as u8,
        (x >> 32) as u8,
        (x >> 24) as u8,
        (x >> 16) as u8,
        (x >> 8) as u8,
        x as u8,
    ]
}

/// The 64-bit value read from eight big-endian bytes.
pub open spec fn u64_of_be(
    b0: u8,
    b1: u8,
    b2: u8,
    b3: u8,
    b4: u8,
    b5: u8,
    b6: u8,
    b7: u8,
) -> u64 {
    ((b0 as u64) << 56) | ((b1 as u64) << 48) | ((b2 as u64) << 40) | ((b3 as u64) << 32)
        | ((b4 as u64) << 24) | ((b5 as u64) << 16) | ((b6 as u64) << 8) | (b7 as u64)
}

/// Reading back the four big-endian bytes of a 32-bit value gives the value.
pub proof fn lemma_u32_be_round_trip(x: u32)
    ensures
        u32_of_be(u32_be(x)[0], u32_be(x)[1], u32_be(x)[2], u32_be(x)[3]) == x,
{
    assert((((x >> 24) as u8 as u32) << 24) | (((x >> 16) as u8 as u32) << 16) | (((x >> 8) as u8
        as u32) << 8) | (x as u8 as u32) == x) by (bit_vector);
}

/// Writing the value read from four bytes reproduces those bytes.
pub proof fn lemma_u32_be_inverse(b0: u8, b1: u8, b2: u8, b3: u8)
    ensures
        u32_be(u32_of_be(b0, b1, b2, b3)) =~= seq![b0, b1, b2, b3],
{
    let x = u32_of_be(b0, b1, b2, b3);
    assert((((b0 as u32) << 24) | ((b1 as u32) << 16) | ((b2 as u32) << 8) | (b3 as u32)) >> 24
        == b0 as u32 && (((b0 as u32) << 24) | ((b1 as u32) << 16) | ((b2 as u32) << 8) | (b3
        as u32)) >> 16 == ((b0 as u32) << 8) | (b1 as u32) && (((b0 as u32) << 24) | ((b1
        as u32) << 16) | ((b2 as u32) << 8) | (b3 as u32)) >> 8 == ((b0 as u32) << 16) | ((b1
        as u32) << 8) | (b2 as u32)) by (bit_vector);
    assert((x >> 24) as u8 == b0 && (x >> 16) as u8 == b1 && (x >> 8) as u8 == b2 && x as u8 == b3)
        by (bit_vector)
        requires
            x == ((b0 as u32) << 24) | ((b1 as u32) << 16) | ((b2 as u32) << 8) | (b3 as u32),
    ;
}

/// Reading back the eight big-endian bytes of a 64-bit value gives the value.
pub proof fn lemma_u64_be_round_trip(x: u64)
    ensures
        u64_of_be(
            u64_be(x)[0],
            u64_be(x)[1],
            u64_be(x)[2],
            u64_be(x)[3],
            u64_be(x)[4],
            u64_be(x)[5],
            u64_be(x)[6],
            u64_be(x)[7],
        ) == x,
{
    assert((((x >> 56) as u8 as u64) << 56) | (((x >> 48) as u8 as u64) << 48) | (((x >> 40) as u8
        as u64) << 40) | (((x >> 32) as u8 as u64) << 32) | (((x >> 24) as u8 as u64) << 24) | (((x
        >> 16) as u8 as u64) << 16) | (((x >> 8) as u8 as u64) << 8) | (x as u8 as u64) == x)
        by (bit_vector);
}

/// Appends the four big-endian bytes of `x` to `out`.
pub fn push_u32_be(out: &mut Vec<u8>, x: u32)
    ensures
        final(out)@ =~= old(out)@ + u32_be(x),
{
    out.push((x >> 24) as u8);
    out.push((x >> 16) as u8);
    out.push((x >> 8) as u8);
    out.push(x as u8);
}

/// Reads a 32-bit big-endian value at `off`.
pub fn read_u32_be(data: &Vec<u8>, off: usize) -> (r: u32)
    requires
        off + 4 <= data@.len(),
    ensures
        r == u32_of_be(data@[off as int], data@[off + 1], data@[off + 2], data@[off + 3]),
{
    let n = data.len();
    assert(off + 4 <= n);
    u32_of_be_exec(data[off], data[off + 1], data[off + 2], data[off + 3])
}

/// The executable form of [`u32_of_be`].
pub fn u32_of_be_exec(b0: u8, b1: u8, b2: u8, b3: u8) -> (r: u32)
    ensures
        r == u32_of_be(b0, b1, b2, b3),
{
    ((b0 as u32) << 24u32) | ((b1 as u32) << 16u32) | ((b2 as u32) << 8u32) | (b3 as u32)
}

/// Reads a 64-bit big-endian value at `off`.
pub fn read_u64_be(data: &Vec<u8>, off: usize) -> (r: u64)
    requires
        off + 8 <= data@.len(),
    ensures
        r == u64_of_be(
            data@[off as int],
            data@[off + 1],
            data@[off + 2],
            data@[off + 3],
            data@[off + 4],
            data@[off + 5],
            data@[off + 6],
            data@[off + 7],
        ),
{
    let n = data.len();
    assert(off + 8 <= n);
    ((data[off] as u64) << 56u64) | ((data[off + 1] as u64) << 48u64) | ((data[off + 2] as u64)
        << 40u64) | ((data[off + 3] as u64) << 32u64) | ((data[off + 4] as u64) << 24u64) | ((
    data[off + 5] as u64) << 16u64) | ((data[off + 6] as u64) << 8u64) | (data[off + 7] as u64)
}

/// Overwrites the eight bytes at `off` with the big-endian form of `x`.
pub fn write_u64_be(data: &mut Vec<u8>, off: usize, x: u64)
    requires
        off + 8 <= old(data)@.len(),
    ensures
        final(data)@.len() == old(data)@.len(),
        final(data)@ =~= old(data)@.subrange(0, off as int) + u64_be(x) + old(data)@.subrange(
            off + 8,
            old(data)@.len() as int,
        ),
{
    let n = data.len();
    assert(off + 8 <= n);
    data[off] = #[verifier::truncate] ((x >> 56u64) as u8);
    data[off + 1] = #[verifier::truncate] ((x >> 48u64) as u8);
    data[off + 2] = #[verifier::truncate] ((x >> 40u64) as u8);
    data[off + 3] = #[verifier::truncate] ((x >> 32u64) as u8);
    data[off + 4] = #[verifier::truncate] ((x >> 24u64) as u8);
    data[off + 5] = #[verifier::truncate] ((x >> 16u64) as u8);
    data[off + 6] = #[verifier::truncate] ((x >> 8u64) as u8);
    data[off + 7] = #[verifier::truncate] (x as u8);
}

/// Copies `src[start..end]` into a fresh vector.
pub fn copy_range(src: &Vec<u8>, start: usize, end: usize) -> (r: Vec<u8>)
    requires
        start <= end <= src@.len(),
    ensures
        r@ =~= src@.subrange(start as int, end as int),
{
    let mut out: Vec<u8> = Vec::new();
    let mut i: usize = start;
    while i < end
        invariant
            start <= i <= end <= src@.len(),
            out@ =~= src@.subrange(start as int, i as int),
        decreases end - i,
    {
        out.push(src[i]);
        i = i + 1;
    }
    out
}

/// A fresh copy of a byte vector.
pub fn clone_bytes(src: &Vec<u8>) -> (r: Vec<u8>)
    ensures
        r@ =~= src@,
{
    copy_range(src, 0, src.len())
}

/// Overwrites `dst[at..at + src.len()]` with the bytes of `src`.
pub fn write_bytes(dst: &mut Vec<u8>, at: usize, src: &Vec<u8>)
    requires
        at + src@.len() <= old(dst)@.len(),
    ensures
        final(dst)@.len() == old(dst)@.len(),
        final(dst)@ =~= old(dst)@.subrange(0, at as int) + src@ + old(dst)@.subrange(
            at + src@.len(),
            old(dst)@.len() as int,
        ),
{
    let sl = src.len();
    let dl = dst.len();
    let mut i: usize = 0;
    while i < sl
        invariant
            sl == src@.len(),
            dl == dst@.len(),
            i <= src@.len(),
            at + src@.len() <= dst@.len(),
            dst@.len() == old(dst)@.len(),
            dst@ =~= old(dst)@.subrange(0, at as int) + src@.subrange(0, i as int) + old(
                dst,
            )@.subrange(at + i, old(dst)@.len() as int),
        decreases src@.len() - i,
    {
        dst[at + i] = src[i];
        i = i + 1;
    }
}

/// Whether two byte vectors hold the same bytes.
pub fn bytes_eq(a: &Vec<u8>, b: &Vec<u8>) -> (r: bool)
    ensures
        r == (a@ == b@),
{
    if a.len() != b.len() {
        proof {
            if a@ == b@ {
                assert(a@.len() == b@.len());
            }
        }
        return false;
    }
    let n = a.len();
    let mut i: usize = 0;
    while i < n
        invariant
            n == a@.len() == b@.len(),
            i <= n,
            forall|j: int| 0 <= j < i ==> a@[j] == b@[j],
        decreases n - i,
    {
        if a[i] != b[i] {
            return false;
        }
        i = i + 1;
    }
    proof {
        assert(a@ =~= b@);
    }
    true
}

/// Extends `v` with zero bytes until it has length `n`.
pub fn zero_extend(v: &mut Vec<u8>, n: usize)
    ensures
        final(v)@.len() == if old(v)@.len() >= n {
            old(v)@.len()
        } else {
            n as nat
        },
        final(v)@.subrange(0, old(v)@.len() as int) =~= old(v)@,
        forall|i: int| old(v)@.len() <= i < final(v)@.len() ==> final(v)@[i] == 0u8,
{
    let mut i: usize = v.len();
    while i < n
        invariant
            v@.len() == i >= old(v)@.len(),
            old(v)@.len() < n ==> i <= n,
            old(v)@.len() >= n ==> i == old(v)@.len(),
            v@.subrange(0, old(v)@.len() as int) =~= old(v)@,
            forall|j: int| old(v)@.len() <= j < i ==> v@[j] == 0u8,
        decreases n - i,
    {
        v.push(0u8);
        i = i + 1;
    }
}

} // verus!
