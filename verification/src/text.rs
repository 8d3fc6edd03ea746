//! Length-prefixed UTF-8 text on the wire: the byte length of the text as a
//! big-endian `u64`, then the UTF-8 bytes themselves.
use vstd::prelude::*;
use vstd::utf8::{decode_utf8, encode_utf8, valid_utf8};
use vstd::utf8::{decode_utf8_encode_utf8, encode_utf8_decode_utf8, encode_utf8_valid_utf8};
use crate::bigendian::{
    be_number, lemma_be_bytes_number, be_bytes, be_value, lemma_be_bytes_of_value, lemma_be_value_of_bytes, push_be_u64, read_be_u64,
};

verus! {

/// The encoding of the text `s`.
pub open spec fn text_bytes(s: Seq<char>) -> Seq<u8> {
    be_bytes(encode_utf8(s).len() as u64) + encode_utf8(s)
}

/// The text at the start of `b`, if `b` starts with a length and that many
/// bytes of valid UTF-8; what follows is ignored.
pub open spec fn parse_text(b: Seq<u8>) -> Option<Seq<char>> {
    if b.len() < 8 {
        None
    } else {
        let n = be_value(b) as int;
        if b.len() < 8 + n {
            None
        } else if valid_utf8(b.subrange(8, 8 + n)) {
            Some(decode_utf8(b.subrange(8, 8 + n)))
        } else {
            None
        }
    }
}

/// A text can be written when its UTF-8 byte length fits the `u64` prefix.
pub open spec fn text_fits(s: Seq<char>) -> bool {
    encode_utf8(s).len() <= u64::MAX
}

/// The encoding of a text is eight bytes that denote the byte length of its
/// UTF-8 encoding in base 256, most significant first, then that encoding.
pub proof fn lemma_text_encoding(s: Seq<char>)
    requires
        text_fits(s),
    ensures
        text_bytes(s).len() == 8 + encode_utf8(s).len(),
        be_number(text_bytes(s).subrange(0, 8)) == encode_utf8(s).len(),
        text_bytes(s).subrange(8, text_bytes(s).len() as int) == encode_utf8(s),
{
    let e = encode_utf8(s);
    lemma_be_bytes_number(e.len() as u64);
    assert(text_bytes(s).subrange(0, 8) =~= be_bytes(e.len() as u64));
    assert(text_bytes(s).subrange(8, text_bytes(s).len() as int) =~= e);
}

/// Reading back the encoding of a text gives the text, whatever follows it.
pub proof fn lemma_text_round_trip(s: Seq<char>, rest: Seq<u8>)
    requires
        text_fits(s),
    ensures
        parse_text(text_bytes(s) + rest) == Some(s),
{
    let e = encode_utf8(s);
    let b = text_bytes(s) + rest;
    lemma_be_value_of_bytes(e.len() as u64);
    assert(be_value(b) == be_value(be_bytes(e.len() as u64)));
    assert(b.subrange(8, 8 + e.len() as int) =~= e);
    encode_utf8_valid_utf8(s);
    encode_utf8_decode_utf8(s);
}

/// A text that is read from `b` was read from its own encoding at the start of `b`.
pub proof fn lemma_text_prefix(b: Seq<u8>)
    requires
        parse_text(b) is Some,
    ensures
        text_fits(parse_text(b).unwrap()),
        text_bytes(parse_text(b).unwrap()).len() <= b.len(),
        b.subrange(0, text_bytes(parse_text(b).unwrap()).len() as int) == text_bytes(
            parse_text(b).unwrap(),
        ),
{
    let s = parse_text(b).unwrap();
    let n = be_value(b) as int;
    let p = b.subrange(8, 8 + n);
    decode_utf8_encode_utf8(p);
    assert(encode_utf8(s) == p);
    assert(be_value(b.subrange(0, 8)) == be_value(b));
    lemma_be_bytes_of_value(b.subrange(0, 8));
    assert(b.subrange(0, 8 + n) =~= be_bytes(n as u64) + p);
}

/// `String::from_utf8`: the string that `bytes` encode when they are valid
/// UTF-8, and `None` (the `Err` of std) when they are not. Stated over vstd's
/// model of UTF-8 (`valid_utf8`, `decode_utf8`).
#[verifier::external_body]
fn string_from_utf8(bytes: Vec<u8>) -> (r: Option<String>)
    ensures
        r is Some <==> valid_utf8(bytes@),
        r matches Some(s) ==> s@ == decode_utf8(bytes@),
{
    match String::from_utf8(bytes) {
        Ok(s) => Some(s),
        Err(_) => None,
    }
}

/// Appends all of `src` to `out`.
pub fn push_all(out: &mut Vec<u8>, src: &[u8])
    ensures
        final(out)@ == old(out)@ + src@,
{
    let mut i: usize = 0;
    while i < src.len()
        invariant
            i <= src@.len(),
            out@ == old(out)@ + src@.take(i as int),
        decreases src@.len() - i,
    {
        out.push(src[i]);
        i = i + 1;
        assert(src@.take(i as int) =~= src@.take(i - 1).push(src@[i - 1]));
    }
    assert(src@.take(i as int) =~= src@);
}

/// Appends the encoding of `s` to `out`.
pub fn push_text(out: &mut Vec<u8>, s: &String)
    ensures
        text_fits(s@),
        final(out)@ == old(out)@ + text_bytes(s@),
{
    let b = s.as_str().as_bytes();
    push_be_u64(out, b.len() as u64);
    push_all(out, b);
    assert(out@ =~= old(out)@ + text_bytes(s@));
}

/// Reads the text whose encoding starts at `pos` in `bytes`.
pub fn read_text(bytes: &[u8], pos: usize) -> (r: Option<String>)
    requires
        pos <= bytes@.len(),
    ensures
        r is Some <==> parse_text(bytes@.skip(pos as int)) is Some,
        r matches Some(s) ==> parse_text(bytes@.skip(pos as int)) == Some(s@),
{
    let ghost b = bytes@.skip(pos as int);
    if bytes.len() - pos < 8 {
        return None;
    }
    let n = read_be_u64(bytes, pos);
    assert(n == be_value(b));
    let rest = bytes.len() - pos - 8;
    if n > rest as u64 {
        return None;
    }
    let n = n as usize;
    let start = pos + 8;
    let mut payload: Vec<u8> = Vec::new();
    let mut i: usize = 0;
    while i < n
        invariant
            i <= n,
            start + n <= bytes@.len(),
            bytes@.len() <= usize::MAX,
            payload@ == bytes@.subrange(start as int, start + i),
        decreases n - i,
    {
        payload.push(bytes[start + i]);
        i = i + 1;
        assert(payload@ =~= bytes@.subrange(start as int, start + i));
    }
    assert(payload@ =~= b.subrange(8, 8 + n));
    string_from_utf8(payload)
}

} // verus!
