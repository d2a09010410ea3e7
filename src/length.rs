//! The frame length field: a 64-bit unsigned integer, least significant byte
//! first, converted explicitly to and from its bytes.
use vstd::prelude::*;

verus! {

/// The eight bytes that stand for `n`, least significant first.
pub open spec fn length_bytes(n: u64) -> Seq<u8> {
    seq![
        n as u8,
        (n >> 8u64) as u8,
        (n >> 16u64) as u8,
        (n >> 24u64) as u8,
        (n >> 32u64) as u8,
        (n >> 40u64) as u8,
        (n >> 48u64) as u8,
        (n >> 56u64) as u8,
    ]
}

/// The value that eight bytes stand for, least significant first.
pub open spec fn length_value(b: Seq<u8>) -> u64
    recommends
        b.len() == 8,
{
    (b[0] as u64) | ((b[1] as u64) << 8u64) | ((b[2] as u64) << 16u64) | ((b[3] as u64) << 24u64)
        | ((b[4] as u64) << 32u64) | ((b[5] as u64) << 40u64) | ((b[6] as u64) << 48u64) | ((
    b[7] as u64) << 56u64)
}

/// Reading back the bytes of a length gives that length.
pub proof fn lemma_length_round_trip(n: u64)
    ensures
        length_bytes(n).len() == 8,
        length_value(length_bytes(n)) == n,
{
    let b = length_bytes(n);
    assert(b.len() == 8);
    let (b0, b1, b2, b3, b4, b5, b6, b7) = (b[0], b[1], b[2], b[3], b[4], b[5], b[6], b[7]);
    assert(b0 == n as u8 && b1 == (n >> 8u64) as u8 && b2 == (n >> 16u64) as u8 && b3 == (n
        >> 24u64) as u8 && b4 == (n >> 32u64) as u8 && b5 == (n >> 40u64) as u8 && b6 == (n
        >> 48u64) as u8 && b7 == (n >> 56u64) as u8);
    assert(((b0 as u64) | ((b1 as u64) << 8u64) | ((b2 as u64) << 16u64) | ((b3 as u64) << 24u64)
        | ((b4 as u64) << 32u64) | ((b5 as u64) << 40u64) | ((b6 as u64) << 48u64) | ((
    b7 as u64) << 56u64)) == n) by (bit_vector)
        requires
            b0 == n as u8,
            b1 == (n >> 8u64) as u8,
            b2 == (n >> 16u64) as u8,
            b3 == (n >> 24u64) as u8,
            b4 == (n >> 32u64) as u8,
            b5 == (n >> 40u64) as u8,
            b6 == (n >> 48u64) as u8,
            b7 == (n >> 56u64) as u8,
    ;
}

/// Appends the length field for `n` to `out`.
pub fn push_length(n: u64, out: &mut Vec<u8>)
    ensures
        final(out)@ == old(out)@ + length_bytes(n),
{
    let ghost start = out@;
    out.push(n as u8);
    out.push((n >> 8u64) as u8);
    out.push((n >> 16u64) as u8);
    out.push((n >> 24u64) as u8);
    out.push((n >> 32u64) as u8);
    out.push((n >> 40u64) as u8);
    out.push((n >> 48u64) as u8);
    out.push((n >> 56u64) as u8);
    assert(out@ =~= start + length_bytes(n));
}

/// Reads the length field that starts at `pos` in `src`.
pub fn read_length(src: &[u8], pos: usize) -> (r: u64)
    requires
        pos + 8 <= src@.len(),
    ensures
        r == length_value(src@.subrange(pos as int, pos + 8)),
{
    let ghost b = src@.subrange(pos as int, pos + 8);
    assert(b[0] == src@[pos as int] && b[7] == src@[pos + 7]);
    (src[pos] as u64) | ((src[pos + 1] as u64) << 8u64) | ((src[pos + 2] as u64) << 16u64) | ((
    src[pos + 3] as u64) << 24u64) | ((src[pos + 4] as u64) << 32u64) | ((src[pos + 5] as u64)
        << 40u64) | ((src[pos + 6] as u64) << 48u64) | ((src[pos + 7] as u64) << 56u64)
}

} // verus!
