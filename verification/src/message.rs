//! Requests and responses exchanged between the archive's clients and its
//! server, and their byte encoding.
//!
//! Every message starts with one byte naming its kind. Numbers are written as
//! eight big-endian bytes; texts as their UTF-8 byte length followed by the
//! UTF-8 bytes. Decoding reads one message from the start of a byte sequence
//! and ignores whatever follows it.
use vstd::prelude::*;
use crate::bigendian::{be_number, lemma_be_bytes_number, be_bytes, be_value, lemma_be_bytes_of_value, lemma_be_value_of_bytes, push_be_u64, read_be_u64};
use vstd::utf8::encode_utf8;
use vstd::string::{StrSliceExecFns, StringExecFns};
use crate::decimal::{decimal, digits_value, is_digit, lemma_decimal, push_decimal};
use crate::text::{lemma_text_encoding, lemma_text_prefix, lemma_text_round_trip, parse_text, push_text, read_text, text_bytes, text_fits};

verus! {

/// A request from the client to the server
#[derive(Debug, PartialEq)]
pub enum Request {
    /// Add the document `doc` to the archive
    Publish { doc: String },
    /// Search for the word `word` in the archive
    Search { word: String },
    /// Retrieve the document with the index `id` from the archive
    Retrieve { id: usize },
}

/// The content of a [`Request`], with texts as sequences of characters.
pub enum RequestView {
    Publish { doc: Seq<char> },
    Search { word: Seq<char> },
    Retrieve { id: usize },
}

impl View for Request {
    type V = RequestView;

    open spec fn view(&self) -> RequestView {
        match self {
            Request::Publish { doc } => RequestView::Publish { doc: doc@ },
            Request::Search { word } => RequestView::Search { word: word@ },
            Request::Retrieve { id } => RequestView::Retrieve { id: *id },
        }
    }
}

/// The encoding of a request: kind byte 0 (publish), 1 (search) or 2
/// (retrieve), then the document, the word or the index.
pub open spec fn request_bytes(r: RequestView) -> Seq<u8> {
    match r {
        RequestView::Publish { doc } => seq![0u8] + text_bytes(doc),
        RequestView::Search { word } => seq![1u8] + text_bytes(word),
        RequestView::Retrieve { id } => seq![2u8] + be_bytes(id as u64),
    }
}

/// The request at the start of `b`, or `None` where `b` does not start with
/// one: an empty input, an unknown kind byte, a truncated field or a text that
/// is not UTF-8.
pub open spec fn parse_request(b: Seq<u8>) -> Option<RequestView> {
    if b.len() == 0 {
        None
    } else if b[0] == 0 {
        match parse_text(b.drop_first()) {
            Some(doc) => Some(RequestView::Publish { doc }),
            None => None,
        }
    } else if b[0] == 1 {
        match parse_text(b.drop_first()) {
            Some(word) => Some(RequestView::Search { word }),
            None => None,
        }
    } else if b[0] == 2 {
        if b.len() < 9 {
            None
        } else {
            Some(RequestView::Retrieve { id: be_value(b.drop_first()) as usize })
        }
    } else {
        None
    }
}

/// A request can be encoded when each of its texts can.
pub open spec fn request_fits(r: RequestView) -> bool {
    match r {
        RequestView::Publish { doc } => text_fits(doc),
        RequestView::Search { word } => text_fits(word),
        RequestView::Retrieve { .. } => true,
    }
}

impl Request {
    /// Convert the request `self` into a byte vector.
    pub fn to_bytes(&self) -> (bytes: Vec<u8>)
        ensures
            request_fits(self@),
            bytes@ == request_bytes(self@),
    {
        let mut bytes: Vec<u8> = Vec::new();
        match self {
            Request::Publish { doc } => {
                bytes.push(0u8);
                push_text(&mut bytes, doc);
            },
            Request::Search { word } => {
                bytes.push(1u8);
                push_text(&mut bytes, word);
            },
            Request::Retrieve { id } => {
                bytes.push(2u8);
                push_be_u64(&mut bytes, *id as u64);
            },
        }
        bytes
    }

    /// Read a request from the start of `bytes`. Calling `to_bytes` and then
    /// `from_bytes` gives back the original request; an invalid request
    /// gives `None`.
    pub fn from_bytes(bytes: &[u8]) -> (r: Option<Self>)
        ensures
            r is Some <==> parse_request(bytes@) is Some,
            r matches Some(q) ==> parse_request(bytes@) == Some(q@),
    {
        if bytes.len() < 1 {
            return None;
        }
        let kind = bytes[0];
        assert(bytes@.skip(1) =~= bytes@.drop_first());
        if kind == 0 {
            match read_text(bytes, 1) {
                Some(doc) => Some(Request::Publish { doc }),
                None => None,
            }
        } else if kind == 1 {
            match read_text(bytes, 1) {
                Some(word) => Some(Request::Search { word }),
                None => None,
            }
        } else if kind == 2 {
            if bytes.len() - 1 < 8 {
                return None;
            }
            let id = read_be_u64(bytes, 1);
            assert(be_value(bytes@.subrange(1, 9)) == be_value(bytes@.drop_first()));
            Some(Request::Retrieve { id: id as usize })
        } else {
            None
        }
    }
}

/// What the bytes of a request say: the first names the kind (0 publish, 1
/// search, 2 retrieve); for a document or a word, the next eight denote in
/// base 256, most significant first, the byte length of its UTF-8 encoding,
/// and that encoding follows; for a retrieval, the next eight denote the
/// index in the same way, and nothing follows.
pub proof fn lemma_request_encoding(r: RequestView)
    requires
        request_fits(r),
    ensures
        ({
            let b = request_bytes(r);
            match r {
                RequestView::Publish { doc } => {
                    &&& b.len() == 9 + encode_utf8(doc).len()
                    &&& b[0] == 0
                    &&& be_number(b.subrange(1, 9)) == encode_utf8(doc).len()
                    &&& b.subrange(9, b.len() as int) == encode_utf8(doc)
                },
                RequestView::Search { word } => {
                    &&& b.len() == 9 + encode_utf8(word).len()
                    &&& b[0] == 1
                    &&& be_number(b.subrange(1, 9)) == encode_utf8(word).len()
                    &&& b.subrange(9, b.len() as int) == encode_utf8(word)
                },
                RequestView::Retrieve { id } => {
                    &&& b.len() == 9
                    &&& b[0] == 2
                    &&& be_number(b.subrange(1, 9)) == id
                },
            }
        }),
{
    let b = request_bytes(r);
    match r {
        RequestView::Publish { doc } => {
            lemma_text_encoding(doc);
            let t = text_bytes(doc);
            assert(b.subrange(1, 9) =~= t.subrange(0, 8));
            assert(b.subrange(9, b.len() as int) =~= t.subrange(8, t.len() as int));
        },
        RequestView::Search { word } => {
            lemma_text_encoding(word);
            let t = text_bytes(word);
            assert(b.subrange(1, 9) =~= t.subrange(0, 8));
            assert(b.subrange(9, b.len() as int) =~= t.subrange(8, t.len() as int));
        },
        RequestView::Retrieve { id } => {
            lemma_be_bytes_number(id as u64);
            assert(b.subrange(1, 9) =~= be_bytes(id as u64));
        },
    }
}

/// Decoding the encoding of a request gives the request back, whatever bytes
/// follow the encoding.
pub proof fn lemma_request_round_trip(r: RequestView, rest: Seq<u8>)
    requires
        request_fits(r),
    ensures
        parse_request(request_bytes(r) + rest) == Some(r),
{
    let b = request_bytes(r) + rest;
    match r {
        RequestView::Publish { doc } => {
            assert(b.drop_first() =~= text_bytes(doc) + rest);
            lemma_text_round_trip(doc, rest);
        },
        RequestView::Search { word } => {
            assert(b.drop_first() =~= text_bytes(word) + rest);
            lemma_text_round_trip(word, rest);
        },
        RequestView::Retrieve { id } => {
            lemma_be_value_of_bytes(id as u64);
            assert(be_value(b.drop_first()) == be_value(be_bytes(id as u64)));
        },
    }
}

/// A request decoded from `b` is read from its own encoding, which `b` starts
/// with (on a target whose `usize` has 64 bits, as the format's indices do).
pub proof fn lemma_request_prefix(b: Seq<u8>)
    requires
        usize::BITS == 64,
        parse_request(b) is Some,
    ensures
        request_fits(parse_request(b).unwrap()),
        request_bytes(parse_request(b).unwrap()).len() <= b.len(),
        b.subrange(0, request_bytes(parse_request(b).unwrap()).len() as int) == request_bytes(
            parse_request(b).unwrap(),
        ),
{
    let r = parse_request(b).unwrap();
    let c = b.drop_first();
    if b[0] == 0 || b[0] == 1 {
        lemma_text_prefix(c);
        let t = parse_text(c).unwrap();
        assert(b.subrange(0, 1 + text_bytes(t).len() as int) =~= seq![b[0]] + c.subrange(
            0,
            text_bytes(t).len() as int,
        ));
    } else {
        assert(be_value(c.subrange(0, 8)) == be_value(c));
        lemma_be_bytes_of_value(c.subrange(0, 8));
        assert(b.subrange(0, 9) =~= seq![b[0]] + c.subrange(0, 8));
    }
}

/// A response from the server to the client
#[derive(Debug, PartialEq)]
pub enum Response {
    /// The document was successfully added to the archive with the given index
    PublishSuccess(usize),
    /// The search for the word was successful, and the indices of the documents containing the
    /// word are returned
    SearchSuccess(Vec<usize>),
    /// The retrieval of the document was successful, and the document is returned
    RetrieveSuccess(String),
    /// The request failed
    Failure,
}

/// The content of a [`Response`], with the indices and the document as sequences.
pub enum ResponseView {
    PublishSuccess(usize),
    SearchSuccess(Seq<usize>),
    RetrieveSuccess(Seq<char>),
    Failure,
}

impl View for Response {
    type V = ResponseView;

    open spec fn view(&self) -> ResponseView {
        match self {
            Response::PublishSuccess(index) => ResponseView::PublishSuccess(*index),
            Response::SearchSuccess(ids) => ResponseView::SearchSuccess(ids@),
            Response::RetrieveSuccess(doc) => ResponseView::RetrieveSuccess(doc@),
            Response::Failure => ResponseView::Failure,
        }
    }
}

/// The indices `ids`, eight big-endian bytes each, in order.
pub open spec fn ids_bytes(ids: Seq<usize>) -> Seq<u8>
    decreases ids.len(),
{
    if ids.len() == 0 {
        Seq::empty()
    } else {
        ids_bytes(ids.drop_last()) + be_bytes(ids.last() as u64)
    }
}

/// The `n` indices written at the start of `b`.
pub open spec fn parse_ids(b: Seq<u8>, n: nat) -> Seq<usize> {
    Seq::new(n, |i: int| be_value(b.subrange(8 * i, 8 * i + 8)) as usize)
}

/// The encoding of a response: kind byte 0 (publish success) followed by the
/// index, 1 (search success) followed by the number of indices and the
/// indices, 2 (retrieve success) followed by the document, or 3 (failure).
pub open spec fn response_bytes(r: ResponseView) -> Seq<u8> {
    match r {
        ResponseView::PublishSuccess(index) => seq![0u8] + be_bytes(index as u64),
        ResponseView::SearchSuccess(ids) => seq![1u8] + be_bytes(ids.len() as u64) + ids_bytes(
            ids,
        ),
        ResponseView::RetrieveSuccess(doc) => seq![2u8] + text_bytes(doc),
        ResponseView::Failure => seq![3u8],
    }
}

/// The response at the start of `b`, or `None` where `b` does not start with
/// one: an empty input, an unknown kind byte, a truncated field or a document
/// that is not UTF-8.
pub open spec fn parse_response(b: Seq<u8>) -> Option<ResponseView> {
    if b.len() == 0 {
        None
    } else if b[0] == 0 {
        if b.len() < 9 {
            None
        } else {
            Some(ResponseView::PublishSuccess(be_value(b.drop_first()) as usize))
        }
    } else if b[0] == 1 {
        if b.len() < 9 {
            None
        } else {
            let n = be_value(b.drop_first()) as nat;
            if b.len() - 9 < 8 * n {
                None
            } else {
                Some(ResponseView::SearchSuccess(parse_ids(b.skip(9), n)))
            }
        }
    } else if b[0] == 2 {
        match parse_text(b.drop_first()) {
            Some(doc) => Some(ResponseView::RetrieveSuccess(doc)),
            None => None,
        }
    } else if b[0] == 3 {
        Some(ResponseView::Failure)
    } else {
        None
    }
}

/// A response can be encoded when its number of indices and its document fit
/// the `u64` length fields.
pub open spec fn response_fits(r: ResponseView) -> bool {
    match r {
        ResponseView::SearchSuccess(ids) => ids.len() <= u64::MAX,
        ResponseView::RetrieveSuccess(doc) => text_fits(doc),
        _ => true,
    }
}

/// The encoding of indices has eight bytes per index, and the eight bytes at
/// the `i`-th place encode the `i`-th index.
pub proof fn lemma_ids_bytes(ids: Seq<usize>)
    ensures
        ids_bytes(ids).len() == 8 * ids.len(),
        forall|i: int|
            0 <= i < ids.len() ==> #[trigger] ids_bytes(ids).subrange(8 * i, 8 * i + 8)
                == be_bytes(ids[i] as u64),
    decreases ids.len(),
{
    if ids.len() > 0 {
        let init = ids.drop_last();
        lemma_ids_bytes(init);
        let b = ids_bytes(ids);
        assert forall|i: int| 0 <= i < ids.len() implies #[trigger] b.subrange(8 * i, 8 * i + 8)
            == be_bytes(ids[i] as u64) by {
            if i < init.len() {
                assert(b.subrange(8 * i, 8 * i + 8) =~= ids_bytes(init).subrange(8 * i, 8 * i + 8));
            } else {
                assert(b.subrange(8 * i, 8 * i + 8) =~= be_bytes(ids.last() as u64));
            }
        }
    }
}

/// Encoding the indices decoded from the first `8 * n` bytes of `b` gives
/// those bytes back (indices have 64 bits).
pub proof fn lemma_parse_ids_prefix(b: Seq<u8>, n: nat)
    requires
        usize::BITS == 64,
        8 * n <= b.len(),
    ensures
        ids_bytes(parse_ids(b, n)) == b.subrange(0, 8 * n as int),
    decreases n,
{
    if n > 0 {
        let m = (n - 1) as nat;
        lemma_parse_ids_prefix(b, m);
        assert(parse_ids(b, n).drop_last() =~= parse_ids(b, m));
        let w = b.subrange(8 * m as int, 8 * m as int + 8);
        lemma_be_bytes_of_value(w);
        assert(b.subrange(0, 8 * n as int) =~= b.subrange(0, 8 * m as int) + w);
    }
}

impl Response {
    /// Convert the response `self` into a byte vector.
    pub fn to_bytes(&self) -> (bytes: Vec<u8>)
        ensures
            response_fits(self@),
            bytes@ == response_bytes(self@),
    {
        let mut bytes: Vec<u8> = Vec::new();
        match self {
            Response::PublishSuccess(index) => {
                bytes.push(0u8);
                push_be_u64(&mut bytes, *index as u64);
            },
            Response::SearchSuccess(indices) => {
                bytes.push(1u8);
                push_be_u64(&mut bytes, indices.len() as u64);
                let ghost head = bytes@;
                let mut i: usize = 0;
                while i < indices.len()
                    invariant
                        i <= indices@.len(),
                        bytes@ == head + ids_bytes(indices@.take(i as int)),
                    decreases indices@.len() - i,
                {
                    push_be_u64(&mut bytes, indices[i] as u64);
                    i = i + 1;
                    assert(indices@.take(i as int).drop_last() =~= indices@.take(i - 1));
                }
                assert(indices@.take(i as int) =~= indices@);
            },
            Response::RetrieveSuccess(document) => {
                bytes.push(2u8);
                push_text(&mut bytes, document);
            },
            Response::Failure => {
                bytes.push(3u8);
            },
        }
        bytes
    }

    /// Read a response from the start of `bytes`. Calling `to_bytes` and then
    /// `from_bytes` gives back the original response; an invalid response
    /// gives `None`.
    pub fn from_bytes(bytes: &[u8]) -> (r: Option<Self>)
        ensures
            r is Some <==> parse_response(bytes@) is Some,
            r matches Some(q) ==> parse_response(bytes@) == Some(q@),
    {
        if bytes.len() < 1 {
            return None;
        }
        let kind = bytes[0];
        assert(bytes@.skip(1) =~= bytes@.drop_first());
        if kind == 0 {
            if bytes.len() - 1 < 8 {
                return None;
            }
            let index = read_be_u64(bytes, 1);
            assert(be_value(bytes@.subrange(1, 9)) == be_value(bytes@.drop_first()));
            Some(Response::PublishSuccess(index as usize))
        } else if kind == 1 {
            if bytes.len() - 1 < 8 {
                return None;
            }
            let len = read_be_u64(bytes, 1);
            assert(be_value(bytes@.subrange(1, 9)) == be_value(bytes@.drop_first()));
            let rest = bytes.len() - 9;
            if len > (rest / 8) as u64 {
                return None;
            }
            let len = len as usize;
            let ghost c = bytes@.skip(9);
            let mut indices: Vec<usize> = Vec::new();
            let mut i: usize = 0;
            while i < len
                invariant
                    i <= len,
                    8 * len <= c.len(),
                    c == bytes@.skip(9),
                    9 <= bytes@.len() <= usize::MAX,
                    indices@ == parse_ids(c, i as nat),
                decreases len - i,
            {
                let index = read_be_u64(bytes, 9 + 8 * i);
                assert(bytes@.subrange(9 + 8 * i, 9 + 8 * i + 8) =~= c.subrange(8 * i, 8 * i + 8));
                indices.push(index as usize);
                i = i + 1;
                assert(indices@ =~= parse_ids(c, i as nat));
            }
            Some(Response::SearchSuccess(indices))
        } else if kind == 2 {
            match read_text(bytes, 1) {
                Some(document) => Some(Response::RetrieveSuccess(document)),
                None => None,
            }
        } else if kind == 3 {
            Some(Response::Failure)
        } else {
            None
        }
    }
}

/// The indices `ids` in decimal, separated by a comma and a space.
pub open spec fn ids_text(ids: Seq<usize>) -> Seq<char>
    decreases ids.len(),
{
    if ids.len() == 0 {
        Seq::empty()
    } else if ids.len() == 1 {
        decimal(ids[0] as nat)
    } else {
        ids_text(ids.drop_last()) + ", "@ + decimal(ids.last() as nat)
    }
}

/// A document as a response shows it: whole when it has at most 100
/// characters, else its first 100 characters and `...`.
pub open spec fn preview(doc: Seq<char>) -> Seq<char> {
    if doc.len() > 100 {
        doc.subrange(0, 100) + "..."@
    } else {
        doc
    }
}

/// The text that shows a response to a person.
pub open spec fn response_text(r: ResponseView) -> Seq<char> {
    match r {
        ResponseView::PublishSuccess(index) => "PublishSuccess(Document ID: "@ + decimal(
            index as nat,
        ) + ")"@,
        ResponseView::SearchSuccess(ids) => "SearchSuccess(Document IDs: ["@ + ids_text(ids)
            + "])"@,
        ResponseView::RetrieveSuccess(doc) => "RetrieveSuccess(\""@ + preview(doc) + "\")"@,
        ResponseView::Failure => "Response: Failure"@,
    }
}

/// The number of decimal digits at the end of `t`.
pub open spec fn trailing_digits(t: Seq<char>) -> nat
    decreases t.len(),
{
    if t.len() == 0 || !is_digit(t.last()) {
        0
    } else {
        1 + trailing_digits(t.drop_last())
    }
}

/// The numbers that `t` lists in decimal, separated by a comma and a space,
/// read from the end; reading stops at the first piece that is not so
/// written.
pub open spec fn read_numbers(t: Seq<char>) -> Seq<nat>
    decreases t.len(),
{
    let k = trailing_digits(t);
    if t.len() == 0 || k == 0 || k > t.len() {
        Seq::empty()
    } else {
        let n = digits_value(t.subrange(t.len() - k, t.len() as int));
        let rest = t.subrange(0, t.len() - k);
        if rest.len() == 0 {
            seq![n]
        } else if rest.len() >= 2 && rest[rest.len() - 2] == ',' && rest[rest.len() - 1] == ' ' {
            read_numbers(rest.subrange(0, rest.len() - 2)).push(n)
        } else {
            Seq::empty()
        }
    }
}

proof fn lemma_trailing_digits(s: Seq<char>, d: Seq<char>)
    requires
        forall|i: int| 0 <= i < d.len() ==> is_digit(#[trigger] d[i]),
        s.len() == 0 || !is_digit(s.last()),
    ensures
        trailing_digits(s + d) == d.len(),
    decreases d.len(),
{
    if d.len() > 0 {
        assert((s + d).drop_last() =~= s + d.drop_last());
        lemma_trailing_digits(s, d.drop_last());
    } else {
        assert(s + d =~= s);
    }
}

/// Reading the list of indices as a search result shows it gives the
/// indices back, all of them and in order.
pub proof fn lemma_read_ids_text(ids: Seq<usize>)
    ensures
        read_numbers(ids_text(ids)) == ids.map_values(|x: usize| x as nat),
    decreases ids.len(),
{
    if ids.len() == 0 {
        assert(ids_text(ids).len() == 0);
        assert(ids.map_values(|x: usize| x as nat) =~= Seq::<nat>::empty());
    } else {
        let last = ids.last() as nat;
        let dec = decimal(last);
        lemma_decimal(last);
        let pre = if ids.len() == 1 {
            Seq::<char>::empty()
        } else {
            ids_text(ids.drop_last()) + ", "@
        };
        let t = ids_text(ids);
        if ids.len() == 1 {
            assert(t =~= pre + dec);
        } else {
            reveal_strlit(", ");
            assert(t =~= pre + dec);
            assert(pre.last() == ' ');
        }
        lemma_trailing_digits(pre, dec);
        assert(t.subrange(t.len() - dec.len(), t.len() as int) =~= dec);
        assert(t.subrange(0, t.len() - dec.len()) =~= pre);
        if ids.len() == 1 {
            assert(ids.map_values(|x: usize| x as nat) =~= seq![last]);
        } else {
            let init = ids.drop_last();
            lemma_read_ids_text(init);
            reveal_strlit(", ");
            assert(pre.subrange(0, pre.len() - 2) =~= ids_text(init));
            assert(pre[pre.len() - 2] == ',');
            assert(ids.map_values(|x: usize| x as nat) =~= init.map_values(|x: usize| x as nat).push(
                last,
            ));
        }
    }
}

/// A search result is shown as its kind and, between `[` and `])`, the list
/// of all its indices in decimal, in order.
pub proof fn lemma_shown_search(ids: Seq<usize>)
    ensures
        ({
            let s = response_text(ResponseView::SearchSuccess(ids));
            let p = "SearchSuccess(Document IDs: ["@;
            let q = "])"@;
            &&& s.len() >= p.len() + q.len()
            &&& s.subrange(0, p.len() as int) == p
            &&& s.subrange(s.len() - q.len(), s.len() as int) == q
            &&& read_numbers(s.subrange(p.len() as int, s.len() - q.len())) == ids.map_values(
                |x: usize| x as nat,
            )
        }),
{
    let s = response_text(ResponseView::SearchSuccess(ids));
    let p = "SearchSuccess(Document IDs: ["@;
    let q = "])"@;
    lemma_read_ids_text(ids);
    assert(s.subrange(0, p.len() as int) =~= p);
    assert(s.subrange(s.len() - q.len(), s.len() as int) =~= q);
    assert(s.subrange(p.len() as int, s.len() - q.len()) =~= ids_text(ids));
}

/// A published document is shown with its index in decimal, between
/// `PublishSuccess(Document ID: ` and `)`.
pub proof fn lemma_shown_publish(index: usize)
    ensures
        ({
            let s = response_text(ResponseView::PublishSuccess(index));
            let p = "PublishSuccess(Document ID: "@;
            let q = ")"@;
            &&& s.len() >= p.len() + q.len()
            &&& s.subrange(0, p.len() as int) == p
            &&& s.subrange(s.len() - q.len(), s.len() as int) == q
            &&& read_numbers(s.subrange(p.len() as int, s.len() - q.len())) == seq![index as nat]
        }),
{
    let s = response_text(ResponseView::PublishSuccess(index));
    let p = "PublishSuccess(Document ID: "@;
    let q = ")"@;
    lemma_read_ids_text(seq![index]);
    assert(ids_text(seq![index]) == decimal(index as nat));
    assert(seq![index].map_values(|x: usize| x as nat) =~= seq![index as nat]);
    assert(s.subrange(0, p.len() as int) =~= p);
    assert(s.subrange(s.len() - q.len(), s.len() as int) =~= q);
    assert(s.subrange(p.len() as int, s.len() - q.len()) =~= decimal(index as nat));
}

/// A retrieved document is shown between `RetrieveSuccess("` and `")`: whole
/// when it has at most 100 characters, else its first 100 characters and
/// `...`.
pub proof fn lemma_shown_document(doc: Seq<char>)
    ensures
        ({
            let s = response_text(ResponseView::RetrieveSuccess(doc));
            let p = "RetrieveSuccess(\""@;
            let q = "\")"@;
            let shown = s.subrange(p.len() as int, s.len() - q.len());
            &&& s.len() >= p.len() + q.len()
            &&& s.subrange(0, p.len() as int) == p
            &&& s.subrange(s.len() - q.len(), s.len() as int) == q
            &&& doc.len() <= 100 ==> shown == doc
            &&& doc.len() > 100 ==> shown.len() == 100 + "..."@.len() && shown.subrange(0, 100)
                == doc.subrange(0, 100) && shown.subrange(100, shown.len() as int) == "..."@
        }),
{
    let s = response_text(ResponseView::RetrieveSuccess(doc));
    let p = "RetrieveSuccess(\""@;
    let q = "\")"@;
    let shown = s.subrange(p.len() as int, s.len() - q.len());
    assert(s.subrange(0, p.len() as int) =~= p);
    assert(s.subrange(s.len() - q.len(), s.len() as int) =~= q);
    assert(shown =~= preview(doc));
    if doc.len() > 100 {
        assert(shown.subrange(0, 100) =~= doc.subrange(0, 100));
        assert(shown.subrange(100, shown.len() as int) =~= "..."@);
    }
}

impl Response {
    /// The text that shows the response to a person; a document is cut after
    /// its first 100 characters.
    pub fn to_string(&self) -> (text: String)
        ensures
            text@ == response_text(self@),
    {
        let mut text = String::new();
        match self {
            Response::PublishSuccess(id) => {
                text.append("PublishSuccess(Document ID: ");
                push_decimal(&mut text, *id);
                text.append(")");
                assert(text@ =~= response_text(self@));
            },
            Response::SearchSuccess(indices) => {
                text.append("SearchSuccess(Document IDs: [");
                let ghost head = text@;
                let mut i: usize = 0;
                while i < indices.len()
                    invariant
                        i <= indices@.len(),
                        text@ == head + ids_text(indices@.take(i as int)),
                    decreases indices@.len() - i,
                {
                    if i > 0 {
                        text.append(", ");
                    }
                    push_decimal(&mut text, indices[i]);
                    i = i + 1;
                    assert(indices@.take(i as int).drop_last() =~= indices@.take(i - 1));
                    assert(text@ =~= head + ids_text(indices@.take(i as int)));
                }
                assert(indices@.take(i as int) =~= indices@);
                text.append("])");
                assert(text@ =~= response_text(self@));
            },
            Response::RetrieveSuccess(content) => {
                text.append("RetrieveSuccess(\"");
                let c = content.as_str();
                if c.unicode_len() > 100 {
                    let head = c.substring_char(0, 100);
                    text.append(head);
                    text.append("...");
                    text.append("\")");
                    assert(text@ =~= response_text(self@));
                } else {
                    text.append(c);
                    text.append("\")");
                    assert(text@ =~= response_text(self@));
                }
            },
            Response::Failure => {
                text.append("Response: Failure");
                assert(text@ =~= response_text(self@));
            },
        }
        text
    }
}

/// What the bytes of a response say: the first names the kind (0 publish
/// success, 1 search success, 2 retrieve success, 3 failure); an index or a
/// count is eight bytes that denote it in base 256, most significant first; a
/// search result is the count of indices, then each index in order; a
/// document is the byte length of its UTF-8 encoding, then that encoding; a
/// failure is the kind byte alone.
pub proof fn lemma_response_encoding(r: ResponseView)
    requires
        response_fits(r),
    ensures
        ({
            let b = response_bytes(r);
            match r {
                ResponseView::PublishSuccess(index) => {
                    &&& b.len() == 9
                    &&& b[0] == 0
                    &&& be_number(b.subrange(1, 9)) == index
                },
                ResponseView::SearchSuccess(ids) => {
                    &&& b.len() == 9 + 8 * ids.len()
                    &&& b[0] == 1
                    &&& be_number(b.subrange(1, 9)) == ids.len()
                    &&& forall|i: int|
                        0 <= i < ids.len() ==> be_number(#[trigger] b.subrange(9 + 8 * i, 17 + 8 * i))
                            == ids[i]
                },
                ResponseView::RetrieveSuccess(doc) => {
                    &&& b.len() == 9 + encode_utf8(doc).len()
                    &&& b[0] == 2
                    &&& be_number(b.subrange(1, 9)) == encode_utf8(doc).len()
                    &&& b.subrange(9, b.len() as int) == encode_utf8(doc)
                },
                ResponseView::Failure => b == seq![3u8],
            }
        }),
{
    let b = response_bytes(r);
    match r {
        ResponseView::PublishSuccess(index) => {
            lemma_be_bytes_number(index as u64);
            assert(b.subrange(1, 9) =~= be_bytes(index as u64));
        },
        ResponseView::SearchSuccess(ids) => {
            lemma_be_bytes_number(ids.len() as u64);
            assert(b.subrange(1, 9) =~= be_bytes(ids.len() as u64));
            lemma_ids_bytes(ids);
            let c = ids_bytes(ids);
            assert forall|i: int| 0 <= i < ids.len() implies be_number(
                #[trigger] b.subrange(9 + 8 * i, 17 + 8 * i),
            ) == ids[i] by {
                assert(b.subrange(9 + 8 * i, 17 + 8 * i) =~= c.subrange(8 * i, 8 * i + 8));
                lemma_be_bytes_number(ids[i] as u64);
            }
        },
        ResponseView::RetrieveSuccess(doc) => {
            lemma_text_encoding(doc);
            let t = text_bytes(doc);
            assert(b.subrange(1, 9) =~= t.subrange(0, 8));
            assert(b.subrange(9, b.len() as int) =~= t.subrange(8, t.len() as int));
        },
        ResponseView::Failure => {},
    }
}

/// Decoding the encoding of a response gives the response back, whatever
/// bytes follow the encoding.
pub proof fn lemma_response_round_trip(r: ResponseView, rest: Seq<u8>)
    requires
        response_fits(r),
    ensures
        parse_response(response_bytes(r) + rest) == Some(r),
{
    let b = response_bytes(r) + rest;
    match r {
        ResponseView::PublishSuccess(index) => {
            lemma_be_value_of_bytes(index as u64);
            assert(be_value(b.drop_first()) == be_value(be_bytes(index as u64)));
        },
        ResponseView::SearchSuccess(ids) => {
            lemma_be_value_of_bytes(ids.len() as u64);
            assert(be_value(b.drop_first()) == be_value(be_bytes(ids.len() as u64)));
            lemma_ids_bytes(ids);
            let c = b.skip(9);
            assert(c =~= ids_bytes(ids) + rest);
            assert forall|i: int| 0 <= i < ids.len() implies #[trigger] parse_ids(c, ids.len())[i]
                == ids[i] by {
                assert(c.subrange(8 * i, 8 * i + 8) =~= ids_bytes(ids).subrange(8 * i, 8 * i + 8));
                lemma_be_value_of_bytes(ids[i] as u64);
            }
            assert(parse_ids(c, ids.len()) =~= ids);
        },
        ResponseView::RetrieveSuccess(doc) => {
            assert(b.drop_first() =~= text_bytes(doc) + rest);
            lemma_text_round_trip(doc, rest);
        },
        ResponseView::Failure => {},
    }
}

/// A response decoded from `b` is read from its own encoding, which `b`
/// starts with (on a target whose `usize` has 64 bits, as the format's indices
/// do).
pub proof fn lemma_response_prefix(b: Seq<u8>)
    requires
        usize::BITS == 64,
        parse_response(b) is Some,
    ensures
        response_fits(parse_response(b).unwrap()),
        response_bytes(parse_response(b).unwrap()).len() <= b.len(),
        b.subrange(0, response_bytes(parse_response(b).unwrap()).len() as int) == response_bytes(
            parse_response(b).unwrap(),
        ),
{
    let c = b.drop_first();
    if b[0] == 0 {
        assert(be_value(c.subrange(0, 8)) == be_value(c));
        lemma_be_bytes_of_value(c.subrange(0, 8));
        assert(b.subrange(0, 9) =~= seq![b[0]] + c.subrange(0, 8));
    } else if b[0] == 1 {
        let n = be_value(c) as nat;
        assert(be_value(c.subrange(0, 8)) == be_value(c));
        lemma_be_bytes_of_value(c.subrange(0, 8));
        lemma_parse_ids_prefix(b.skip(9), n);
        assert(parse_ids(b.skip(9), n).len() == n);
        assert(b.subrange(0, 9 + 8 * n as int) =~= seq![b[0]] + c.subrange(0, 8) + b.skip(
            9,
        ).subrange(0, 8 * n as int));
    } else if b[0] == 2 {
        lemma_text_prefix(c);
        let t = parse_text(c).unwrap();
        assert(b.subrange(0, 1 + text_bytes(t).len() as int) =~= seq![b[0]] + c.subrange(
            0,
            text_bytes(t).len() as int,
        ));
    } else {
        assert(b.subrange(0, 1) =~= seq![b[0]]);
    }
}

} // verus!
