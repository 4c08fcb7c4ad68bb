use vstd::prelude::*;

verus! {

/// The big-endian 32-bit value of the four bytes of `b` that start at `i`.
pub open spec fn be_u32_at(b: Seq<u8>, i: int) -> u32 {
    ((b[i] as u32) << 24u32) | ((b[i + 1] as u32) << 16u32) | ((b[i + 2] as u32) << 8u32) | (b[i
        + 3] as u32)
}

/// The four big-endian bytes of `n`.
pub open spec fn be_bytes_u32(n: u32) -> Seq<u8> {
    seq![(n >> 24u32) as u8, (n >> 16u32) as u8, (n >> 8u32) as u8, n as u8]
}

/// The eight big-endian bytes of `n`.
pub open spec fn be_bytes_u64(n: u64) -> Seq<u8> {
    be_bytes_u32((n >> 32u64) as u32) + be_bytes_u32(n as u32)
}

/// The big-endian 64-bit value of the eight bytes of `b` that start at `i`.
pub open spec fn be_u64_at(b: Seq<u8>, i: int) -> u64 {
    ((be_u32_at(b, i) as u64) << 32u64) | (be_u32_at(b, i + 4) as u64)
}

/// Splitting a 32-bit value into its four bytes and joining them gives it back.
pub proof fn lemma_u32_bits(n: u32)
    ensures
        ((((n >> 24u32) as u8) as u32) << 24u32) | ((((n >> 16u32) as u8) as u32) << 16u32) | ((((n
            >> 8u32) as u8) as u32) << 8u32) | ((n as u8) as u32) == n,
{
    assert(((((n >> 24u32) as u8) as u32) << 24u32) | ((((n >> 16u32) as u8) as u32) << 16u32) | ((((
    n >> 8u32) as u8) as u32) << 8u32) | ((n as u8) as u32) == n) by (bit_vector);
}

/// Reading four big-endian bytes back gives the value they were written from.
pub proof fn lemma_be_u32_round_trip(n: u32, pre: Seq<u8>, post: Seq<u8>)
    ensures
        be_u32_at(pre + be_bytes_u32(n) + post, pre.len() as int) == n,
{
    let b = pre + be_bytes_u32(n) + post;
    let i = pre.len() as int;
    assert(b[i] == (n >> 24u32) as u8);
    assert(b[i + 1] == (n >> 16u32) as u8);
    assert(b[i + 2] == (n >> 8u32) as u8);
    assert(b[i + 3] == n as u8);
    lemma_u32_bits(n);
}

proof fn lemma_u64_bits(n: u64)
    ensures
        ((((n >> 32u64) as u32) as u64) << 32u64) | (((n as u32) as u64)) == n,
{
    assert(((((n >> 32u64) as u32) as u64) << 32u64) | (((n as u32) as u64)) == n) by (bit_vector);
}

/// Reading eight big-endian bytes back gives the value they were written from.
pub proof fn lemma_be_u64_round_trip(n: u64, pre: Seq<u8>, post: Seq<u8>)
    ensures
        be_u64_at(pre + be_bytes_u64(n) + post, pre.len() as int) == n,
{
    let hi = (n >> 32u64) as u32;
    let lo = n as u32;
    assert(pre + be_bytes_u64(n) + post == pre + be_bytes_u32(hi) + (be_bytes_u32(lo) + post));
    lemma_be_u32_round_trip(hi, pre, be_bytes_u32(lo) + post);
    assert(pre + be_bytes_u64(n) + post == (pre + be_bytes_u32(hi)) + be_bytes_u32(lo) + post);
    lemma_be_u32_round_trip(lo, pre + be_bytes_u32(hi), post);
    lemma_u64_bits(n);
}

/// Reads the big-endian 32-bit value at `i`.
pub fn read_u32_be(b: &[u8], i: usize) -> (r: u32)
    requires
        i + 4 <= b@.len(),
    ensures
        r == be_u32_at(b@, i as int),
{
    ((b[i] as u32) << 24u32) | ((b[i + 1] as u32) << 16u32) | ((b[i + 2] as u32) << 8u32) | (b[i
        + 3] as u32)
}

/// Reads the big-endian 64-bit value at `i`.
pub fn read_u64_be(b: &[u8], i: usize) -> (r: u64)
    requires
        i + 8 <= b@.len(),
    ensures
        r == be_u64_at(b@, i as int),
{
    proof {
        assert(b@.len() == b.len());
    }
    let hi = read_u32_be(b, i);
    let lo = read_u32_be(b, i + 4);
    ((hi as u64) << 32u64) | (lo as u64)
}

/// Appends the four big-endian bytes of `n`.
pub fn push_u32_be(out: &mut Vec<u8>, n: u32)
    ensures
        final(out)@ == old(out)@ + be_bytes_u32(n),
{
    out.push((n >> 24u32) as u8);
    out.push((n >> 16u32) as u8);
    out.push((n >> 8u32) as u8);
    out.push(n as u8);
    assert(final(out)@ =~= old(out)@ + be_bytes_u32(n));
}

/// Appends the eight big-endian bytes of `n`.
pub fn push_u64_be(out: &mut Vec<u8>, n: u64)
    ensures
        final(out)@ == old(out)@ + be_bytes_u64(n),
{
    push_u32_be(out, (n >> 32u64) as u32);
    push_u32_be(out, n as u32);
    assert(final(out)@ =~= old(out)@ + be_bytes_u64(n));
}

/// Overwrites the four bytes at `i` with the big-endian bytes of `n`.
pub fn set_u32_be(out: &mut Vec<u8>, i: usize, n: u32)
    requires
        i + 4 <= old(out)@.len(),
    ensures
        final(out)@.len() == old(out)@.len(),
        forall|k: int| 0 <= k < 4 ==> #[trigger] final(out)@[i + k] == be_bytes_u32(n)[k],
        forall|k: int|
            0 <= k < old(out)@.len() && !(i <= k < i + 4) ==> #[trigger] final(out)@[k] == old(
                out,
            )@[k],
{
    proof {
        assert(out@.len() == out.len());
    }
    out[i] = (n >> 24u32) as u8;
    out[i + 1] = (n >> 16u32) as u8;
    out[i + 2] = (n >> 8u32) as u8;
    out[i + 3] = n as u8;
}

/// Appends the bytes of `b`.
pub fn extend(out: &mut Vec<u8>, b: &[u8])
    ensures
        final(out)@ == old(out)@ + b@,
{
    let mut i: usize = 0;
    while i < b.len()
        invariant
            i <= b@.len(),
            out@ == old(out)@ + b@.subrange(0, i as int),
        decreases b@.len() - i,
    {
        out.push(b[i]);
        i = i + 1;
        assert(out@ =~= old(out)@ + b@.subrange(0, i as int));
    }
    assert(b@.subrange(0, i as int) =~= b@);
}

} // verus!
