//! Eight-byte big-endian encoding of `u64` values.
use vstd::prelude::*;

verus! {

/// The eight bytes of `x`, most significant first.
pub open spec fn be_bytes(x: u64) -> Seq<u8> {
    seq![
        (x >> 56u64) as u8,
        (x >> 48u64) as u8,
        (x >> 40u64) as u8,
        (x >> 32u64) as u8,
        (x >> 24u64) as u8,
        (x >> 16u64) as u8,
        (x >> 8u64) as u8,
        x as u8,
    ]
}

/// The `u64` whose big-endian bytes are the first eight of `b`.
pub open spec fn be_value(b: Seq<u8>) -> u64
    recommends
        b.len() >= 8,
{
    (b[0] as u64) << 56u64 | (b[1] as u64) << 48u64 | (b[2] as u64) << 40u64 | (b[3] as u64)
        << 32u64 | (b[4] as u64) << 24u64 | (b[5] as u64) << 16u64 | (b[6] as u64) << 8u64
        | (b[7] as u64)
}

/// Decoding the encoding of `x` gives `x` back.
pub proof fn lemma_be_value_of_bytes(x: u64)
    ensures
        be_value(be_bytes(x)) == x,
{
    let b = be_bytes(x);
    let (b0, b1, b2, b3, b4, b5, b6, b7) = (b[0], b[1], b[2], b[3], b[4], b[5], b[6], b[7]);
    assert((b0 as u64) << 56u64 | (b1 as u64) << 48u64 | (b2 as u64) << 40u64 | (b3 as u64)
        << 32u64 | (b4 as u64) << 24u64 | (b5 as u64) << 16u64 | (b6 as u64) << 8u64 | (b7 as u64)
        == x) by (bit_vector)
        requires
            b0 == (x >> 56u64) as u8,
            b1 == (x >> 48u64) as u8,
            b2 == (x >> 40u64) as u8,
            b3 == (x >> 32u64) as u8,
            b4 == (x >> 24u64) as u8,
            b5 == (x >> 16u64) as u8,
            b6 == (x >> 8u64) as u8,
            b7 == x as u8,
    ;
}

/// Encoding the value that eight bytes decode to gives the same eight bytes.
pub proof fn lemma_be_bytes_of_value(b: Seq<u8>)
    requires
        b.len() == 8,
    ensures
        be_bytes(be_value(b)) == b,
{
    let (b0, b1, b2, b3, b4, b5, b6, b7) = (b[0], b[1], b[2], b[3], b[4], b[5], b[6], b[7]);
    let v = be_value(b);
    assert({
        &&& (v >> 56u64) as u8 == b0
        &&& (v >> 48u64) as u8 == b1
        &&& (v >> 40u64) as u8 == b2
        &&& (v >> 32u64) as u8 == b3
        &&& (v >> 24u64) as u8 == b4
        &&& (v >> 16u64) as u8 == b5
        &&& (v >> 8u64) as u8 == b6
        &&& v as u8 == b7
    }) by (bit_vector)
        requires
            v == (b0 as u64) << 56u64 | (b1 as u64) << 48u64 | (b2 as u64) << 40u64 | (b3 as u64)
                << 32u64 | (b4 as u64) << 24u64 | (b5 as u64) << 16u64 | (b6 as u64) << 8u64
                | (b7 as u64),
    ;
    assert(be_bytes(v) =~= b);
}

/// The number that the bytes `s` denote in base 256, most significant first.
pub open spec fn be_number(s: Seq<u8>) -> nat
    decreases s.len(),
{
    if s.len() == 0 {
        0
    } else {
        be_number(s.drop_last()) * 256 + s.last() as nat
    }
}

proof fn lemma_be_number_push(s: Seq<u8>, b: u8)
    ensures
        be_number(s.push(b)) == be_number(s) * 256 + b as nat,
{
    assert(s.push(b).drop_last() =~= s);
}

/// The eight bytes of `x` denote `x` in base 256, most significant first.
pub proof fn lemma_be_bytes_number(x: u64)
    ensures
        be_bytes(x).len() == 8,
        be_number(be_bytes(x)) == x,
{
    let b = be_bytes(x);
    let (b0, b1, b2, b3, b4, b5, b6, b7) = (b[0], b[1], b[2], b[3], b[4], b[5], b[6], b[7]);
    let s0 = Seq::<u8>::empty();
    lemma_be_number_push(s0, b0);
    lemma_be_number_push(s0.push(b0), b1);
    lemma_be_number_push(s0.push(b0).push(b1), b2);
    lemma_be_number_push(s0.push(b0).push(b1).push(b2), b3);
    lemma_be_number_push(s0.push(b0).push(b1).push(b2).push(b3), b4);
    lemma_be_number_push(s0.push(b0).push(b1).push(b2).push(b3).push(b4), b5);
    lemma_be_number_push(s0.push(b0).push(b1).push(b2).push(b3).push(b4).push(b5), b6);
    lemma_be_number_push(s0.push(b0).push(b1).push(b2).push(b3).push(b4).push(b5).push(b6), b7);
    assert(b =~= s0.push(b0).push(b1).push(b2).push(b3).push(b4).push(b5).push(b6).push(b7));
    assert(x == (((((((b0 as u64) * 256 + b1 as u64) * 256 + b2 as u64) * 256 + b3 as u64) * 256
        + b4 as u64) * 256 + b5 as u64) * 256 + b6 as u64) * 256 + b7 as u64) by (bit_vector)
        requires
            b0 == (x >> 56u64) as u8,
            b1 == (x >> 48u64) as u8,
            b2 == (x >> 40u64) as u8,
            b3 == (x >> 32u64) as u8,
            b4 == (x >> 24u64) as u8,
            b5 == (x >> 16u64) as u8,
            b6 == (x >> 8u64) as u8,
            b7 == x as u8,
    ;
}

/// Appends the big-endian bytes of `x` to `out`.
pub fn push_be_u64(out: &mut Vec<u8>, x: u64)
    ensures
        final(out)@ == old(out)@ + be_bytes(x),
{
    out.push((x >> 56u64) as u8);
    out.push((x >> 48u64) as u8);
    out.push((x >> 40u64) as u8);
    out.push((x >> 32u64) as u8);
    out.push((x >> 24u64) as u8);
    out.push((x >> 16u64) as u8);
    out.push((x >> 8u64) as u8);
    out.push(x as u8);
    assert(out@ =~= old(out)@ + be_bytes(x));
}

/// Reads the big-endian `u64` stored in `bytes` at `pos`.
pub fn read_be_u64(bytes: &[u8], pos: usize) -> (x: u64)
    requires
        pos + 8 <= bytes@.len(),
    ensures
        x == be_value(bytes@.subrange(pos as int, pos + 8)),
{
    (bytes[pos] as u64) << 56u64 | (bytes[pos + 1] as u64) << 48u64 | (bytes[pos + 2] as u64)
        << 40u64 | (bytes[pos + 3] as u64) << 32u64 | (bytes[pos + 4] as u64) << 24u64 | (bytes[pos
        + 5] as u64) << 16u64 | (bytes[pos + 6] as u64) << 8u64 | (bytes[pos + 7] as u64)
}

} // verus!
