//! The wire codec: requests and responses as tagged, length-prefixed byte
//! messages.
//!
//! Layout: a one-byte tag, then a payload fixed by the tag.  Text payloads
//! are an eight-byte big-endian byte count followed by that many bytes of
//! UTF-8; ids and id counts are eight big-endian bytes.  Decoding returns no
//! value on a truncated message, an unknown tag, a wrong declared length or
//! payload bytes that are not UTF-8; it never reads past the declared
//! lengths.

use vstd::prelude::*;
use vstd::utf8::{encode_utf8, valid_utf8, encode_utf8_valid_utf8, encode_utf8_decode_utf8};
use vstd::string::StringSliceAdditionalSpecFns;
use crate::bytes_be::{
    u64_be_bytes, u64_of_be_bytes, lemma_u64_be_round_trip, lemma_u64_be_bytes_of_value,
    lemma_u64_be_bytes_injective, u64_to_be_vec, u64_from_be_at,
};

verus! {

/// A request from a client to the server.
#[derive(Debug, PartialEq, Eq)]
pub enum Request {
    /// Add the document `doc` to the archive.
    Publish { doc: String },
    /// Search the archive for the word `word`.
    Search { word: String },
    /// Retrieve the document with the id `id` from the archive.
    Retrieve { id: usize },
}

/// A response from the server to a client.
#[derive(Debug, PartialEq, Eq)]
pub enum Response {
    /// The document was added to the archive under the returned id.
    PublishSuccess(usize),
    /// The ids of the documents containing the word, in ascending order.
    SearchSuccess(Vec<usize>),
    /// The retrieved document.
    RetrieveSuccess(String),
    /// The request failed.
    Failure,
}

/// The mathematical value of a `Request`.
pub enum RequestView {
    Publish { doc: Seq<char> },
    Search { word: Seq<char> },
    Retrieve { id: usize },
}

/// The mathematical value of a `Response`.
pub enum ResponseView {
    PublishSuccess(usize),
    SearchSuccess(Seq<usize>),
    RetrieveSuccess(Seq<char>),
    Failure,
}

impl View for Request {
    type V = RequestView;

    open spec fn view(&self) -> RequestView {
        match self {
            Request::Publish { doc } => RequestView::Publish { doc: doc@ },
            Request::Search { word } => RequestView::Search { word: word@ },
            Request::Retrieve { id } => RequestView::Retrieve { id: *id },
        }
    }
}

impl View for Response {
    type V = ResponseView;

    open spec fn view(&self) -> ResponseView {
        match self {
            Response::PublishSuccess(id) => ResponseView::PublishSuccess(*id),
            Response::SearchSuccess(ids) => ResponseView::SearchSuccess(ids@),
            Response::RetrieveSuccess(doc) => ResponseView::RetrieveSuccess(doc@),
            Response::Failure => ResponseView::Failure,
        }
    }
}

/// A tag byte followed by an eight-byte big-endian byte count and the
/// payload itself: the layout of every variable-length message body.
pub open spec fn framed(tag: u8, payload: Seq<u8>) -> Seq<u8> {
    seq![tag] + u64_be_bytes(payload.len() as u64) + payload
}

/// The eight-byte blocks of a list of ids, in order.
pub open spec fn ids_be_bytes(ids: Seq<usize>) -> Seq<u8>
    decreases ids.len(),
{
    if ids.len() == 0 {
        Seq::empty()
    } else {
        u64_be_bytes(ids[0] as u64) + ids_be_bytes(ids.drop_first())
    }
}

/// The encoding of a request: tag 0, 1 or 2, then the payload of the
/// variant.
pub open spec fn spec_encode_request(r: RequestView) -> Seq<u8> {
    match r {
        RequestView::Publish { doc } => framed(0, encode_utf8(doc)),
        RequestView::Search { word } => framed(1, encode_utf8(word)),
        RequestView::Retrieve { id } => seq![2u8] + u64_be_bytes(id as u64),
    }
}

/// The encoding of a response: tag 0, 1, 2 or 3, then the payload of the
/// variant.
pub open spec fn spec_encode_response(r: ResponseView) -> Seq<u8> {
    match r {
        ResponseView::PublishSuccess(id) => seq![0u8] + u64_be_bytes(id as u64),
        ResponseView::SearchSuccess(ids) => seq![1u8] + u64_be_bytes(ids.len() as u64)
            + ids_be_bytes(ids),
        ResponseView::RetrieveSuccess(doc) => framed(2, encode_utf8(doc)),
        ResponseView::Failure => seq![3u8],
    }
}

/// A request value whose lengths fit the wire format.  Every value built
/// from an actual `Request` satisfies this.
pub open spec fn request_wf(r: RequestView) -> bool {
    match r {
        RequestView::Publish { doc } => encode_utf8(doc).len() <= u64::MAX,
        RequestView::Search { word } => encode_utf8(word).len() <= u64::MAX,
        RequestView::Retrieve { id: _ } => true,
    }
}

/// A response value whose lengths fit the wire format.  Every value built
/// from an actual `Response` satisfies this.
pub open spec fn response_wf(r: ResponseView) -> bool {
    match r {
        ResponseView::PublishSuccess(_) => true,
        ResponseView::SearchSuccess(ids) => ids.len() <= u64::MAX,
        ResponseView::RetrieveSuccess(doc) => encode_utf8(doc).len() <= u64::MAX,
        ResponseView::Failure => true,
    }
}

/// Appends every byte of `b` to `out`.
fn push_all(out: &mut Vec<u8>, b: &[u8])
    ensures
        final(out)@ == old(out)@ + b@,
{
    let ghost start = out@;
    let mut i: usize = 0;
    while i < b.len()
        invariant
            i <= b@.len(),
            out@ == start + b@.take(i as int),
        decreases b@.len() - i,
    {
        out.push(b[i]);
        proof {
            assert(start + b@.take(i as int) + seq![b@[i as int]] =~= start + b@.take(
                i as int + 1,
            ));
        }
        i = i + 1;
    }
    proof {
        assert(b@.take(b@.len() as int) =~= b@);
    }
}

/// Builds a tag byte, the big-endian byte count of `text` and its UTF-8
/// bytes.
fn encode_text(tag: u8, text: &String) -> (r: Vec<u8>)
    ensures
        r@ == framed(tag, encode_utf8(text@)),
{
    let bytes = text.as_str().as_bytes();
    let n = bytes.len();
    let mut out: Vec<u8> = Vec::new();
    out.push(tag);
    let mut count = u64_to_be_vec(n as u64);
    out.append(&mut count);
    push_all(&mut out, bytes);
    proof {
        assert(out@ =~= framed(tag, encode_utf8(text@)));
    }
    out
}

impl Request {
    /// The bytes of this request on the wire.
    pub fn to_bytes(&self) -> (r: Vec<u8>)
        ensures
            r@ == spec_encode_request(self@),
    {
        match self {
            Request::Publish { doc } => encode_text(0, doc),
            Request::Search { word } => encode_text(1, word),
            Request::Retrieve { id } => {
                let mut out: Vec<u8> = Vec::new();
                out.push(2);
                let mut tail = u64_to_be_vec(*id as u64);
                out.append(&mut tail);
                proof {
                    assert(out@ =~= spec_encode_request(self@));
                }
                out
            },
        }
    }
}

impl Response {
    /// The bytes of this response on the wire.
    pub fn to_bytes(&self) -> (r: Vec<u8>)
        ensures
            r@ == spec_encode_response(self@),
    {
        match self {
            Response::PublishSuccess(id) => {
                let mut out: Vec<u8> = Vec::new();
                out.push(0);
                let mut tail = u64_to_be_vec(*id as u64);
                out.append(&mut tail);
                proof {
                    assert(out@ =~= spec_encode_response(self@));
                }
                out
            },
            Response::SearchSuccess(ids) => {
                let mut out: Vec<u8> = Vec::new();
                out.push(1);
                let mut count = u64_to_be_vec(ids.len() as u64);
                out.append(&mut count);
                let ghost head = out@;
                let mut j: usize = 0;
                while j < ids.len()
                    invariant
                        j <= ids@.len(),
                        out@ == head + ids_be_bytes(ids@.take(j as int)),
                    decreases ids@.len() - j,
                {
                    let mut block = u64_to_be_vec(ids[j] as u64);
                    out.append(&mut block);
                    proof {
                        lemma_ids_be_bytes_snoc(ids@.take(j as int), ids@[j as int]);
                        assert(ids@.take(j as int).push(ids@[j as int]) =~= ids@.take(
                            j as int + 1,
                        ));
                    }
                    j = j + 1;
                }
                proof {
                    assert(ids@.take(ids@.len() as int) =~= ids@);
                    assert(out@ =~= spec_encode_response(self@));
                }
                out
            },
            Response::RetrieveSuccess(doc) => encode_text(2, doc),
            Response::Failure => {
                let mut out: Vec<u8> = Vec::new();
                out.push(3);
                proof {
                    assert(out@ =~= spec_encode_response(self@));
                }
                out
            },
        }
    }
}

/// Relies on `std::str::from_utf8`: it returns `Ok` exactly when the bytes
/// are valid UTF-8, and the returned string slice views those same bytes.
#[verifier::external_body]
fn parse_utf8(bytes: &[u8]) -> (r: Option<&str>)
    ensures
        match r {
            Some(s) => s.spec_bytes() == bytes@,
            None => !valid_utf8(bytes@),
        },
{
    std::str::from_utf8(bytes).ok()
}

/// The encoding of `m` stands complete at the front of `bytes`.
pub open spec fn request_at_front(bytes: Seq<u8>, m: RequestView) -> bool {
    let e = spec_encode_request(m);
    e.len() <= bytes.len() && bytes.take(e.len() as int) == e
}

/// The encoding of `m` stands complete at the front of `bytes`.
pub open spec fn response_at_front(bytes: Seq<u8>, m: ResponseView) -> bool {
    let e = spec_encode_response(m);
    e.len() <= bytes.len() && bytes.take(e.len() as int) == e
}

/// After the tag, `bytes` carries the byte count of `t` and then its UTF-8
/// bytes, complete.
pub open spec fn text_payload_at(bytes: Seq<u8>, t: Seq<char>) -> bool {
    let p = encode_utf8(t);
    &&& 9 + p.len() <= bytes.len()
    &&& bytes.subrange(1, 9) == u64_be_bytes(p.len() as u64)
    &&& bytes.subrange(9, 9 + p.len() as int) == p
}

/// The pieces of a framed message, read back from the whole.
pub proof fn lemma_framed_parts(tag: u8, p: Seq<u8>)
    ensures
        framed(tag, p).len() == 9 + p.len(),
        framed(tag, p)[0] == tag,
        framed(tag, p).subrange(1, 9) == u64_be_bytes(p.len() as u64),
        framed(tag, p).subrange(9, 9 + p.len() as int) == p,
{
    assert(framed(tag, p).subrange(1, 9) =~= u64_be_bytes(p.len() as u64));
    assert(framed(tag, p).subrange(9, 9 + p.len() as int) =~= p);
}

/// The pieces of a tag byte followed by one big-endian integer.
pub proof fn lemma_tag_u64_parts(tag: u8, x: u64)
    ensures
        (seq![tag] + u64_be_bytes(x)).len() == 9,
        (seq![tag] + u64_be_bytes(x))[0] == tag,
        (seq![tag] + u64_be_bytes(x)).subrange(1, 9) == u64_be_bytes(x),
{
    assert((seq![tag] + u64_be_bytes(x)).subrange(1, 9) =~= u64_be_bytes(x));
}

/// Every request encoding takes at least nine bytes.
pub proof fn lemma_request_encoding_len(m: RequestView)
    ensures
        spec_encode_request(m).len() >= 9,
{
    match m {
        RequestView::Publish { doc } => lemma_framed_parts(0, encode_utf8(doc)),
        RequestView::Search { word } => lemma_framed_parts(1, encode_utf8(word)),
        RequestView::Retrieve { id } => lemma_tag_u64_parts(2, id as u64),
    }
}

/// Reads one length-prefixed text payload that follows a tag byte: the
/// declared byte count, then that many bytes of UTF-8.
fn read_text_payload(bytes: &[u8]) -> (r: Option<(String, usize)>)
    ensures
        match r {
            Some(sn) => {
                &&& 9 <= sn.1 <= bytes@.len()
                &&& text_payload_at(bytes@, sn.0@)
                &&& sn.1 == 9 + encode_utf8(sn.0@).len()
            },
            None => forall|t: Seq<char>| !text_payload_at(bytes@, t),
        },
{
    if bytes.len() < 9 {
        return None;
    }
    let declared = u64_from_be_at(bytes, 1);
    let rem = bytes.len() - 9;
    if declared > rem as u64 {
        proof {
            assert forall|t: Seq<char>| !text_payload_at(bytes@, t) by {
                if text_payload_at(bytes@, t) {
                    let p = encode_utf8(t);
                    assert(p.len() <= rem);
                    lemma_u64_be_round_trip(p.len() as u64);
                    assert(declared == p.len() as u64);
                }
            }
        }
        return None;
    }
    assert(declared <= rem as u64);
    let n = 9 + declared as usize;
    let payload = &bytes[9..n];
    assert(payload@ == bytes@.subrange(9, n as int));
    match parse_utf8(payload) {
        None => {
            proof {
                assert forall|t: Seq<char>| !text_payload_at(bytes@, t) by {
                    if text_payload_at(bytes@, t) {
                        let p = encode_utf8(t);
                        assert(p.len() <= rem);
                        lemma_u64_be_round_trip(p.len() as u64);
                        assert(declared == p.len() as u64);
                        assert(p.len() == n - 9);
                        assert(p == payload@);
                        encode_utf8_valid_utf8(t);
                    }
                }
            }
            None
        },
        Some(s) => {
            let owned = s.to_owned();
            proof {
                let p = encode_utf8(owned@);
                assert(p == payload@);
                assert(p.len() == declared);
                lemma_u64_be_bytes_of_value(bytes@.subrange(1, 9));
                assert(bytes@.subrange(1, 9) == u64_be_bytes(declared));
                assert(p.len() as u64 == declared);
                assert(bytes@.subrange(9, 9 + p.len() as int) == p);
            }
            Some((owned, n))
        },
    }
}

impl Request {
    /// Reads one complete request from the front of `bytes`; `r` also
    /// carries how many bytes the request took.  No value is returned when
    /// no complete request stands at the front, whether the bytes are
    /// truncated or malformed.
    pub fn read_from(bytes: &[u8]) -> (r: Option<(Request, usize)>)
        ensures
            match r {
                Some(vn) => {
                    &&& 0 < vn.1 <= bytes@.len()
                    &&& bytes@.take(vn.1 as int) == spec_encode_request(vn.0@)
                    &&& request_wf(vn.0@)
                },
                None => forall|m: RequestView| !request_at_front(bytes@, m),
            },
    {
        if bytes.len() == 0 {
            proof {
                assert forall|m: RequestView| !request_at_front(bytes@, m) by {
                    lemma_request_encoding_len(m);
                }
            }
            return None;
        }
        let tag = bytes[0];
        if tag == 0 || tag == 1 {
            match read_text_payload(bytes) {
                Some((text, n)) => {
                    let req = if tag == 0 {
                        Request::Publish { doc: text }
                    } else {
                        Request::Search { word: text }
                    };
                    proof {
                        let q = match req@ {
                            RequestView::Publish { doc } => encode_utf8(doc),
                            RequestView::Search { word } => encode_utf8(word),
                            RequestView::Retrieve { .. } => Seq::empty(),
                        };
                        lemma_framed_parts(tag, q);
                        assert(bytes@.take(n as int) =~= framed(tag, q));
                        assert(spec_encode_request(req@) == framed(tag, q));
                    }
                    Some((req, n))
                },
                None => {
                    proof {
                        assert forall|m: RequestView| !request_at_front(bytes@, m) by {
                            if request_at_front(bytes@, m) {
                                let e = spec_encode_request(m);
                                match m {
                                    RequestView::Publish { doc } => {
                                        lemma_framed_parts(0, encode_utf8(doc));
                                        assert(bytes@[0] == e[0]);
                                        assert(bytes@.subrange(1, 9) =~= e.subrange(1, 9));
                                        assert(bytes@.subrange(9, 9 + encode_utf8(doc).len() as int)
                                            =~= e.subrange(9, 9 + encode_utf8(doc).len() as int));
                                        assert(text_payload_at(bytes@, doc));
                                    },
                                    RequestView::Search { word } => {
                                        lemma_framed_parts(1, encode_utf8(word));
                                        assert(bytes@[0] == e[0]);
                                        assert(bytes@.subrange(1, 9) =~= e.subrange(1, 9));
                                        assert(bytes@.subrange(
                                            9,
                                            9 + encode_utf8(word).len() as int,
                                        ) =~= e.subrange(9, 9 + encode_utf8(word).len() as int));
                                        assert(text_payload_at(bytes@, word));
                                    },
                                    RequestView::Retrieve { id } => {
                                        lemma_tag_u64_parts(2, id as u64);
                                        assert(bytes@[0] == e[0]);
                                    },
                                }
                            }
                        }
                    }
                    None
                },
            }
        } else if tag == 2 {
            if bytes.len() < 9 {
                proof {
                    assert forall|m: RequestView| !request_at_front(bytes@, m) by {
                        if request_at_front(bytes@, m) {
                            let e = spec_encode_request(m);
                            lemma_request_encoding_len(m);
                            assert(bytes@[0] == e[0]);
                            match m {
                                RequestView::Publish { doc } => {
                                    lemma_framed_parts(0, encode_utf8(doc));
                                },
                                RequestView::Search { word } => {
                                    lemma_framed_parts(1, encode_utf8(word));
                                },
                                RequestView::Retrieve { id } => {
                                    lemma_tag_u64_parts(2, id as u64);
                                },
                            }
                        }
                    }
                }
                return None;
            }
            let id64 = u64_from_be_at(bytes, 1);
            if id64 > usize::MAX as u64 {
                proof {
                    assert forall|m: RequestView| !request_at_front(bytes@, m) by {
                        if request_at_front(bytes@, m) {
                            let e = spec_encode_request(m);
                            assert(bytes@[0] == e[0]);
                            match m {
                                RequestView::Publish { doc } => {
                                    lemma_framed_parts(0, encode_utf8(doc));
                                },
                                RequestView::Search { word } => {
                                    lemma_framed_parts(1, encode_utf8(word));
                                },
                                RequestView::Retrieve { id } => {
                                    lemma_tag_u64_parts(2, id as u64);
                                    assert(bytes@.subrange(1, 9) =~= e.subrange(1, 9));
                                    lemma_u64_be_round_trip(id as u64);
                                    assert(id64 == id as u64);
                                },
                            }
                        }
                    }
                }
                None
            } else {
                let id = id64 as usize;
                proof {
                    lemma_tag_u64_parts(2, id as u64);
                    assert(bytes@.subrange(1, 9) == u64_be_bytes(id64)) by {
                        lemma_u64_be_bytes_of_value(bytes@.subrange(1, 9));
                    }
                    assert(bytes@.take(9) =~= seq![2u8] + u64_be_bytes(id as u64));
                }
                Some((Request::Retrieve { id }, 9))
            }
        } else {
            proof {
                assert forall|m: RequestView| !request_at_front(bytes@, m) by {
                    if request_at_front(bytes@, m) {
                        let e = spec_encode_request(m);
                        assert(bytes@[0] == e[0]);
                        match m {
                            RequestView::Publish { doc } => {
                                lemma_framed_parts(0, encode_utf8(doc));
                            },
                            RequestView::Search { word } => {
                                lemma_framed_parts(1, encode_utf8(word));
                            },
                            RequestView::Retrieve { id } => {
                                lemma_tag_u64_parts(2, id as u64);
                            },
                        }
                    }
                }
            }
            None
        }
    }
}

/// True exactly when `bytes` opens with a byte that is no request tag.
/// Then no later bytes can complete a request either, and a connection
/// handler may close at once instead of waiting for more.
pub fn request_never_decodable(bytes: &[u8]) -> (r: bool)
    ensures
        r == (bytes@.len() > 0 && bytes@[0] != 0 && bytes@[0] != 1 && bytes@[0] != 2),
        r ==> forall|more: Seq<u8>, m: RequestView| !request_at_front(bytes@ + more, m),
{
    if bytes.len() > 0 && bytes[0] > 2 {
        proof {
            assert forall|more: Seq<u8>, m: RequestView| !request_at_front(bytes@ + more, m) by {
                if request_at_front(bytes@ + more, m) {
                    let e = spec_encode_request(m);
                    lemma_request_encoding_len(m);
                    assert((bytes@ + more)[0] == bytes@[0]);
                    assert((bytes@ + more)[0] == e[0]);
                    match m {
                        RequestView::Publish { doc } => {
                            lemma_framed_parts(0, encode_utf8(doc));
                        },
                        RequestView::Search { word } => {
                            lemma_framed_parts(1, encode_utf8(word));
                        },
                        RequestView::Retrieve { id } => {
                            lemma_tag_u64_parts(2, id as u64);
                        },
                    }
                }
            }
        }
        true
    } else {
        false
    }
}

/// True exactly when `bytes` opens with a byte that is no response tag.
/// Then no later bytes can complete a response either, and a client may
/// give up at once instead of waiting for more.
pub fn response_never_decodable(bytes: &[u8]) -> (r: bool)
    ensures
        r == (bytes@.len() > 0 && bytes@[0] != 0 && bytes@[0] != 1 && bytes@[0] != 2 && bytes@[0]
            != 3),
        r ==> forall|more: Seq<u8>, m: ResponseView| !response_at_front(bytes@ + more, m),
{
    if bytes.len() > 0 && bytes[0] > 3 {
        proof {
            assert forall|more: Seq<u8>, m: ResponseView| !response_at_front(bytes@ + more, m) by {
                if response_at_front(bytes@ + more, m) {
                    lemma_response_parts(m);
                    assert((bytes@ + more)[0] == bytes@[0]);
                    assert((bytes@ + more)[0] == spec_encode_response(m)[0]);
                }
            }
        }
        true
    } else {
        false
    }
}

impl Request {
    /// Decodes a byte string that holds exactly one request.  No value is
    /// returned when the bytes are not the encoding of any request: a
    /// truncated message, a wrong declared length, bytes that are not
    /// UTF-8, an unknown tag, or trailing bytes.
    pub fn from_bytes(bytes: &[u8]) -> (r: Option<Request>)
        ensures
            match r {
                Some(v) => bytes@ == spec_encode_request(v@) && request_wf(v@),
                None => forall|m: RequestView| bytes@ != spec_encode_request(m),
            },
    {
        match Self::read_from(bytes) {
            None => {
                proof {
                    assert forall|m: RequestView| bytes@ != spec_encode_request(m) by {
                        if bytes@ == spec_encode_request(m) {
                            assert(bytes@.take(spec_encode_request(m).len() as int) =~= bytes@);
                            assert(request_at_front(bytes@, m));
                        }
                    }
                }
                None
            },
            Some((v, n)) => {
                if n == bytes.len() {
                    proof {
                        assert(bytes@.take(n as int) =~= bytes@);
                    }
                    Some(v)
                } else {
                    proof {
                        assert forall|m: RequestView| bytes@ != spec_encode_request(m) by {
                            if bytes@ == spec_encode_request(m) {
                                lemma_request_wf_bounded(m);
                                lemma_request_truncation_safe(m, n as int);
                                assert(spec_encode_request(m).take(n as int)
                                    == spec_encode_request(v@));
                            }
                        }
                    }
                    None
                }
            },
        }
    }
}

/// A request whose encoding fits in memory has payload lengths that fit
/// the wire format.
pub proof fn lemma_request_wf_bounded(m: RequestView)
    requires
        spec_encode_request(m).len() <= usize::MAX,
    ensures
        request_wf(m),
{
    match m {
        RequestView::Publish { doc } => lemma_framed_parts(0, encode_utf8(doc)),
        RequestView::Search { word } => lemma_framed_parts(1, encode_utf8(word)),
        RequestView::Retrieve { id: _ } => {},
    }
}

/// Truncation safety: a strict prefix of a request's encoding is not the
/// encoding of any request, so decoding it yields no value.
pub proof fn lemma_request_truncation_safe(v: RequestView, k: int)
    requires
        request_wf(v),
        0 <= k < spec_encode_request(v).len(),
    ensures
        forall|m: RequestView| spec_encode_request(v).take(k) != spec_encode_request(m),
{
    let e = spec_encode_request(v);
    let pfx = e.take(k);
    assert forall|m: RequestView| pfx != spec_encode_request(m) by {
        if pfx == spec_encode_request(m) {
            let em = spec_encode_request(m);
            lemma_request_encoding_len(m);
            assert(pfx.len() == k);
            assert(k >= 9);
            assert(pfx[0] == e[0]);
            match v {
                RequestView::Publish { doc } => {
                    let pl = encode_utf8(doc).len() as int;
                    lemma_framed_parts(0, encode_utf8(doc));
                    match m {
                        RequestView::Publish { doc: doc2 } => {
                            let pm = encode_utf8(doc2).len() as int;
                            lemma_framed_parts(0, encode_utf8(doc2));
                            assert(pm == k - 9 && pm < pl);
                            assert(pfx.subrange(1, 9) =~= e.subrange(1, 9));
                            lemma_u64_be_bytes_injective(pl as u64, pm as u64);
                            assert(false);
                        },
                        RequestView::Search { word: word2 } => {
                            lemma_framed_parts(1, encode_utf8(word2));
                            assert(false);
                        },
                        RequestView::Retrieve { id: id2 } => {
                            lemma_tag_u64_parts(2, id2 as u64);
                            assert(false);
                        },
                    }
                },
                RequestView::Search { word } => {
                    let pl = encode_utf8(word).len() as int;
                    lemma_framed_parts(1, encode_utf8(word));
                    match m {
                        RequestView::Publish { doc: doc2 } => {
                            lemma_framed_parts(0, encode_utf8(doc2));
                            assert(false);
                        },
                        RequestView::Search { word: word2 } => {
                            let pm = encode_utf8(word2).len() as int;
                            lemma_framed_parts(1, encode_utf8(word2));
                            assert(pm == k - 9 && pm < pl);
                            assert(pfx.subrange(1, 9) =~= e.subrange(1, 9));
                            lemma_u64_be_bytes_injective(pl as u64, pm as u64);
                            assert(false);
                        },
                        RequestView::Retrieve { id: id2 } => {
                            lemma_tag_u64_parts(2, id2 as u64);
                            assert(false);
                        },
                    }
                },
                RequestView::Retrieve { id } => {
                    lemma_tag_u64_parts(2, id as u64);
                    assert(k < 9);
                    assert(false);
                },
            }
        }
    }
}

/// Round trip: two requests with the same encoding are the same request,
/// so decoding the bytes produced by encoding yields the original value.
pub proof fn lemma_request_encoding_injective(a: RequestView, b: RequestView)
    requires
        spec_encode_request(a) == spec_encode_request(b),
    ensures
        a == b,
{
    let ea = spec_encode_request(a);
    let eb = spec_encode_request(b);
    match a {
        RequestView::Publish { doc: d1 } => {
            lemma_framed_parts(0, encode_utf8(d1));
            match b {
                RequestView::Publish { doc: d2 } => {
                    lemma_framed_parts(0, encode_utf8(d2));
                    assert(encode_utf8(d1).len() == encode_utf8(d2).len());
                    assert(encode_utf8(d1) == encode_utf8(d2));
                    encode_utf8_decode_utf8(d1);
                    encode_utf8_decode_utf8(d2);
                },
                RequestView::Search { word: d2 } => {
                    lemma_framed_parts(1, encode_utf8(d2));
                    assert(ea[0] != eb[0]);
                },
                RequestView::Retrieve { id: i2 } => {
                    lemma_tag_u64_parts(2, i2 as u64);
                    assert(ea[0] != eb[0]);
                },
            }
        },
        RequestView::Search { word: d1 } => {
            lemma_framed_parts(1, encode_utf8(d1));
            match b {
                RequestView::Publish { doc: d2 } => {
                    lemma_framed_parts(0, encode_utf8(d2));
                    assert(ea[0] != eb[0]);
                },
                RequestView::Search { word: d2 } => {
                    lemma_framed_parts(1, encode_utf8(d2));
                    assert(encode_utf8(d1).len() == encode_utf8(d2).len());
                    assert(encode_utf8(d1) == encode_utf8(d2));
                    encode_utf8_decode_utf8(d1);
                    encode_utf8_decode_utf8(d2);
                },
                RequestView::Retrieve { id: i2 } => {
                    lemma_tag_u64_parts(2, i2 as u64);
                    assert(ea[0] != eb[0]);
                },
            }
        },
        RequestView::Retrieve { id: i1 } => {
            lemma_tag_u64_parts(2, i1 as u64);
            match b {
                RequestView::Publish { doc: d2 } => {
                    lemma_framed_parts(0, encode_utf8(d2));
                    assert(ea[0] != eb[0]);
                },
                RequestView::Search { word: d2 } => {
                    lemma_framed_parts(1, encode_utf8(d2));
                    assert(ea[0] != eb[0]);
                },
                RequestView::Retrieve { id: i2 } => {
                    lemma_tag_u64_parts(2, i2 as u64);
                    assert(ea.subrange(1, 9) == eb.subrange(1, 9));
                    lemma_u64_be_bytes_injective(i1 as u64, i2 as u64);
                },
            }
        },
    }
}

/// Appending one id appends its eight-byte block.
pub proof fn lemma_ids_be_bytes_snoc(ids: Seq<usize>, id: usize)
    ensures
        ids_be_bytes(ids.push(id)) == ids_be_bytes(ids) + u64_be_bytes(id as u64),
    decreases ids.len(),
{
    if ids.len() == 0 {
        assert(ids.push(id).drop_first() =~= Seq::<usize>::empty());
        assert(ids.push(id)[0] == id);
        assert(ids_be_bytes(ids.push(id)) == u64_be_bytes(id as u64) + ids_be_bytes(
            Seq::<usize>::empty(),
        ));
        assert(ids_be_bytes(ids.push(id)) =~= ids_be_bytes(ids) + u64_be_bytes(id as u64));
    } else {
        assert(ids.push(id).drop_first() =~= ids.drop_first().push(id));
        lemma_ids_be_bytes_snoc(ids.drop_first(), id);
        assert(ids.push(id)[0] == ids[0]);
        assert(ids_be_bytes(ids.push(id)) == u64_be_bytes(ids[0] as u64) + (ids_be_bytes(
            ids.drop_first(),
        ) + u64_be_bytes(id as u64)));
        assert(ids_be_bytes(ids.push(id)) =~= ids_be_bytes(ids) + u64_be_bytes(id as u64));
    }
}

/// The blocks of `ids` take eight bytes each.
pub proof fn lemma_ids_be_bytes_len(ids: Seq<usize>)
    ensures
        ids_be_bytes(ids).len() == 8 * ids.len(),
    decreases ids.len(),
{
    if ids.len() > 0 {
        lemma_ids_be_bytes_len(ids.drop_first());
    }
}

/// The block at position `j` holds the bytes of the id at position `j`.
pub proof fn lemma_ids_be_bytes_index(ids: Seq<usize>, j: int)
    requires
        0 <= j < ids.len(),
    ensures
        ids_be_bytes(ids).subrange(8 * j, 8 * j + 8) == u64_be_bytes(ids[j] as u64),
    decreases j,
{
    lemma_ids_be_bytes_len(ids);
    lemma_ids_be_bytes_len(ids.drop_first());
    if j == 0 {
        assert(ids_be_bytes(ids).subrange(0, 8) =~= u64_be_bytes(ids[0] as u64));
    } else {
        lemma_ids_be_bytes_index(ids.drop_first(), j - 1);
        assert(ids_be_bytes(ids).subrange(8 * j, 8 * j + 8) =~= ids_be_bytes(
            ids.drop_first(),
        ).subrange(8 * (j - 1), 8 * (j - 1) + 8));
    }
}

/// A byte string made of the blocks of `ids` is the encoding of `ids`.
pub proof fn lemma_ids_be_bytes_from_blocks(ids: Seq<usize>, s: Seq<u8>)
    requires
        s.len() == 8 * ids.len(),
        forall|j: int| 0 <= j < ids.len() ==> s.subrange(8 * j, 8 * j + 8) == u64_be_bytes(
            #[trigger] ids[j] as u64,
        ),
    ensures
        ids_be_bytes(ids) == s,
    decreases ids.len(),
{
    if ids.len() == 0 {
        assert(s =~= Seq::<u8>::empty());
    } else {
        let tail = s.skip(8);
        assert forall|j: int| 0 <= j < ids.drop_first().len() implies tail.subrange(
            8 * j,
            8 * j + 8,
        ) == u64_be_bytes(#[trigger] ids.drop_first()[j] as u64) by {
            assert(tail.subrange(8 * j, 8 * j + 8) =~= s.subrange(8 * (j + 1), 8 * (j + 1) + 8));
            assert(ids.drop_first()[j] == ids[j + 1]);
            assert(s.subrange(8 * (j + 1), 8 * (j + 1) + 8) == u64_be_bytes(ids[j + 1] as u64));
        }
        lemma_ids_be_bytes_from_blocks(ids.drop_first(), tail);
        assert(s.subrange(0, 8) == u64_be_bytes(ids[0] as u64));
        lemma_ids_be_bytes_len(ids.drop_first());
        assert(ids_be_bytes(ids) =~= s);
    }
}

/// Id lists of one length with the same blocks are the same list.
pub proof fn lemma_ids_be_bytes_injective(a: Seq<usize>, b: Seq<usize>)
    requires
        a.len() == b.len(),
        ids_be_bytes(a) == ids_be_bytes(b),
    ensures
        a == b,
{
    lemma_ids_be_bytes_len(a);
    lemma_ids_be_bytes_len(b);
    assert forall|j: int| 0 <= j < a.len() implies a[j] == b[j] by {
        lemma_ids_be_bytes_index(a, j);
        lemma_ids_be_bytes_index(b, j);
        lemma_u64_be_bytes_injective(a[j] as u64, b[j] as u64);
    }
    assert(a =~= b);
}

/// The pieces of every response encoding, read back from the whole.
pub proof fn lemma_response_parts(m: ResponseView)
    ensures
        spec_encode_response(m).len() >= 1,
        match m {
            ResponseView::PublishSuccess(id) => spec_encode_response(m).len() == 9
                && spec_encode_response(m)[0] == 0 && spec_encode_response(m).subrange(1, 9)
                == u64_be_bytes(id as u64),
            ResponseView::SearchSuccess(ids) => spec_encode_response(m).len() == 9 + 8 * ids.len()
                && spec_encode_response(m)[0] == 1 && spec_encode_response(m).subrange(1, 9)
                == u64_be_bytes(ids.len() as u64) && spec_encode_response(m).subrange(
                9,
                9 + 8 * ids.len() as int,
            ) == ids_be_bytes(ids),
            ResponseView::RetrieveSuccess(doc) => spec_encode_response(m).len() == 9 + encode_utf8(
                doc,
            ).len() && spec_encode_response(m)[0] == 2 && spec_encode_response(m).subrange(1, 9)
                == u64_be_bytes(encode_utf8(doc).len() as u64) && spec_encode_response(m).subrange(
                9,
                9 + encode_utf8(doc).len() as int,
            ) == encode_utf8(doc),
            ResponseView::Failure => spec_encode_response(m).len() == 1 && spec_encode_response(
                m,
            )[0] == 3,
        },
{
    match m {
        ResponseView::PublishSuccess(id) => {
            lemma_tag_u64_parts(0, id as u64);
        },
        ResponseView::SearchSuccess(ids) => {
            lemma_ids_be_bytes_len(ids);
            let e = spec_encode_response(m);
            assert(e.subrange(1, 9) =~= u64_be_bytes(ids.len() as u64));
            assert(e.subrange(9, 9 + 8 * ids.len() as int) =~= ids_be_bytes(ids));
        },
        ResponseView::RetrieveSuccess(doc) => {
            lemma_framed_parts(2, encode_utf8(doc));
        },
        ResponseView::Failure => {},
    }
}

impl Response {
    /// Reads one complete response from the front of `bytes`; `r` also
    /// carries how many bytes the response took.  No value is returned
    /// when no complete response stands at the front, whether the bytes
    /// are truncated or malformed.
    pub fn read_from(bytes: &[u8]) -> (r: Option<(Response, usize)>)
        ensures
            match r {
                Some(vn) => {
                    &&& 0 < vn.1 <= bytes@.len()
                    &&& bytes@.take(vn.1 as int) == spec_encode_response(vn.0@)
                    &&& response_wf(vn.0@)
                },
                None => forall|m: ResponseView| !response_at_front(bytes@, m),
            },
    {
        if bytes.len() == 0 {
            proof {
                assert forall|m: ResponseView| !response_at_front(bytes@, m) by {
                    lemma_response_parts(m);
                }
            }
            return None;
        }
        let tag = bytes[0];
        if tag == 0 {
            if bytes.len() < 9 {
                proof {
                    assert forall|m: ResponseView| !response_at_front(bytes@, m) by {
                        if response_at_front(bytes@, m) {
                            lemma_response_parts(m);
                            assert(bytes@[0] == spec_encode_response(m)[0]);
                        }
                    }
                }
                return None;
            }
            let id64 = u64_from_be_at(bytes, 1);
            if id64 > usize::MAX as u64 {
                proof {
                    assert forall|m: ResponseView| !response_at_front(bytes@, m) by {
                        if response_at_front(bytes@, m) {
                            let e = spec_encode_response(m);
                            lemma_response_parts(m);
                            assert(bytes@[0] == e[0]);
                            match m {
                                ResponseView::PublishSuccess(id) => {
                                    assert(bytes@.subrange(1, 9) =~= e.subrange(1, 9));
                                    lemma_u64_be_round_trip(id as u64);
                                    assert(id64 == id as u64);
                                },
                                _ => {},
                            }
                        }
                    }
                }
                None
            } else {
                let id = id64 as usize;
                proof {
                    lemma_tag_u64_parts(0, id as u64);
                    assert(bytes@.subrange(1, 9) == u64_be_bytes(id64)) by {
                        lemma_u64_be_bytes_of_value(bytes@.subrange(1, 9));
                    }
                    assert(bytes@.take(9) =~= seq![0u8] + u64_be_bytes(id as u64));
                }
                Some((Response::PublishSuccess(id), 9))
            }
        } else if tag == 1 {
            if bytes.len() < 9 {
                proof {
                    assert forall|m: ResponseView| !response_at_front(bytes@, m) by {
                        if response_at_front(bytes@, m) {
                            lemma_response_parts(m);
                            assert(bytes@[0] == spec_encode_response(m)[0]);
                        }
                    }
                }
                return None;
            }
            let count64 = u64_from_be_at(bytes, 1);
            let rem = bytes.len() - 9;
            if count64 > (rem / 8) as u64 {
                proof {
                    assert forall|m: ResponseView| !response_at_front(bytes@, m) by {
                        if response_at_front(bytes@, m) {
                            let e = spec_encode_response(m);
                            lemma_response_parts(m);
                            assert(bytes@[0] == e[0]);
                            match m {
                                ResponseView::SearchSuccess(ids_m) => {
                                    let k = ids_m.len() as int;
                                    assert(9 + 8 * k <= bytes@.len());
                                    assert(8 * k <= rem as int);
                                    assert(k <= rem as int / 8) by (nonlinear_arith)
                                        requires
                                            8 * k <= rem as int,
                                            0 <= rem as int,
                                    ;
                                    assert(bytes@.subrange(1, 9) =~= e.subrange(1, 9));
                                    lemma_u64_be_round_trip(k as u64);
                                    assert(count64 == k as u64);
                                },
                                _ => {},
                            }
                        }
                    }
                }
                return None;
            }
            let count = count64 as usize;
            proof {
                assert(8 * (rem as int / 8) <= rem as int) by (nonlinear_arith)
                    requires
                        0 <= rem as int,
                ;
            }
            let n = 9 + 8 * count;
            let mut ids: Vec<usize> = Vec::new();
            let mut j: usize = 0;
            while j < count
                invariant
                    j <= count,
                    count64 == count as u64,
                    n == 9 + 8 * count,
                    9 <= n <= bytes@.len(),
                    bytes@.len() <= usize::MAX,
                    bytes@[0] == 1,
                    count64 == u64_of_be_bytes(bytes@.subrange(1, 9)),
                    ids@.len() == j as int,
                    forall|q: int| 0 <= q < j as int ==> #[trigger] ids@[q] as u64
                        == u64_of_be_bytes(bytes@.subrange(9 + 8 * q, 17 + 8 * q)),
                decreases count - j,
            {
                let v = u64_from_be_at(bytes, 9 + 8 * j);
                if v > usize::MAX as u64 {
                    proof {
                        assert forall|m: ResponseView| !response_at_front(bytes@, m) by {
                            if response_at_front(bytes@, m) {
                                let e = spec_encode_response(m);
                                lemma_response_parts(m);
                                assert(bytes@[0] == e[0]);
                                match m {
                                    ResponseView::SearchSuccess(ids_m) => {
                                        let k = ids_m.len() as int;
                                        assert(9 + 8 * k <= bytes@.len());
                                        assert(k <= usize::MAX as int);
                                        assert(bytes@.subrange(1, 9) =~= e.subrange(1, 9));
                                        lemma_u64_be_round_trip(k as u64);
                                        assert(count64 == k as u64);
                                        assert(k == count as int);
                                        lemma_ids_be_bytes_index(ids_m, j as int);
                                        assert(bytes@.subrange(
                                            9 + 8 * (j as int),
                                            17 + 8 * (j as int),
                                        ) =~= ids_be_bytes(ids_m).subrange(
                                            8 * (j as int),
                                            8 * (j as int) + 8,
                                        ));
                                        lemma_u64_be_round_trip(ids_m[j as int] as u64);
                                        assert(v == ids_m[j as int] as u64);
                                    },
                                    _ => {},
                                }
                            }
                        }
                    }
                    return None;
                }
                ids.push(v as usize);
                j = j + 1;
            }
            proof {
                let s = bytes@.subrange(9, n as int);
                assert forall|q: int| 0 <= q < ids@.len() implies s.subrange(8 * q, 8 * q + 8)
                    == u64_be_bytes(#[trigger] ids@[q] as u64) by {
                    assert(s.subrange(8 * q, 8 * q + 8) =~= bytes@.subrange(
                        9 + 8 * q,
                        17 + 8 * q,
                    ));
                    lemma_u64_be_bytes_of_value(bytes@.subrange(9 + 8 * q, 17 + 8 * q));
                }
                lemma_ids_be_bytes_from_blocks(ids@, s);
                lemma_u64_be_bytes_of_value(bytes@.subrange(1, 9));
                assert(bytes@.subrange(1, 9) == u64_be_bytes(count64));
                let mv = ResponseView::SearchSuccess(ids@);
                lemma_response_parts(mv);
                assert(ids@.len() as u64 == count64);
                assert(spec_encode_response(mv).subrange(1, 9) == u64_be_bytes(count64));
                assert(bytes@.take(n as int) =~= spec_encode_response(mv));
            }
            Some((Response::SearchSuccess(ids), n))
        } else if tag == 2 {
            match read_text_payload(bytes) {
                Some((text, n)) => {
                    let resp = Response::RetrieveSuccess(text);
                    proof {
                        let q = match resp@ {
                            ResponseView::RetrieveSuccess(doc) => encode_utf8(doc),
                            _ => Seq::empty(),
                        };
                        lemma_framed_parts(2, q);
                        assert(bytes@.take(n as int) =~= framed(2, q));
                        assert(spec_encode_response(resp@) == framed(2, q));
                    }
                    Some((resp, n))
                },
                None => {
                    proof {
                        assert forall|m: ResponseView| !response_at_front(bytes@, m) by {
                            if response_at_front(bytes@, m) {
                                let e = spec_encode_response(m);
                                lemma_response_parts(m);
                                assert(bytes@[0] == e[0]);
                                match m {
                                    ResponseView::RetrieveSuccess(doc) => {
                                        assert(bytes@.subrange(1, 9) =~= e.subrange(1, 9));
                                        assert(bytes@.subrange(
                                            9,
                                            9 + encode_utf8(doc).len() as int,
                                        ) =~= e.subrange(9, 9 + encode_utf8(doc).len() as int));
                                        assert(text_payload_at(bytes@, doc));
                                    },
                                    _ => {},
                                }
                            }
                        }
                    }
                    None
                },
            }
        } else if tag == 3 {
            proof {
                assert(bytes@.take(1) =~= seq![3u8]);
            }
            Some((Response::Failure, 1))
        } else {
            proof {
                assert forall|m: ResponseView| !response_at_front(bytes@, m) by {
                    if response_at_front(bytes@, m) {
                        lemma_response_parts(m);
                        assert(bytes@[0] == spec_encode_response(m)[0]);
                    }
                }
            }
            None
        }
    }

    /// Decodes a byte string that holds exactly one response.  No value is
    /// returned when the bytes are not the encoding of any response: a
    /// truncated message, a wrong declared length or count, bytes that are
    /// not UTF-8, an unknown tag, or trailing bytes.
    pub fn from_bytes(bytes: &[u8]) -> (r: Option<Response>)
        ensures
            match r {
                Some(v) => bytes@ == spec_encode_response(v@) && response_wf(v@),
                None => forall|m: ResponseView| bytes@ != spec_encode_response(m),
            },
    {
        match Self::read_from(bytes) {
            None => {
                proof {
                    assert forall|m: ResponseView| bytes@ != spec_encode_response(m) by {
                        if bytes@ == spec_encode_response(m) {
                            assert(bytes@.take(spec_encode_response(m).len() as int) =~= bytes@);
                            assert(response_at_front(bytes@, m));
                        }
                    }
                }
                None
            },
            Some((v, n)) => {
                if n == bytes.len() {
                    proof {
                        assert(bytes@.take(n as int) =~= bytes@);
                    }
                    Some(v)
                } else {
                    proof {
                        assert forall|m: ResponseView| bytes@ != spec_encode_response(m) by {
                            if bytes@ == spec_encode_response(m) {
                                lemma_response_wf_bounded(m);
                                lemma_response_truncation_safe(m, n as int);
                                assert(spec_encode_response(m).take(n as int)
                                    == spec_encode_response(v@));
                            }
                        }
                    }
                    None
                }
            },
        }
    }
}

/// A response whose encoding fits in memory has lengths that fit the wire
/// format.
pub proof fn lemma_response_wf_bounded(m: ResponseView)
    requires
        spec_encode_response(m).len() <= usize::MAX,
    ensures
        response_wf(m),
{
    lemma_response_parts(m);
}

/// Truncation safety: a strict prefix of a response's encoding is not the
/// encoding of any response, so decoding it yields no value.
pub proof fn lemma_response_truncation_safe(v: ResponseView, k: int)
    requires
        response_wf(v),
        0 <= k < spec_encode_response(v).len(),
    ensures
        forall|m: ResponseView| spec_encode_response(v).take(k) != spec_encode_response(m),
{
    let e = spec_encode_response(v);
    let pfx = e.take(k);
    lemma_response_parts(v);
    assert forall|m: ResponseView| pfx != spec_encode_response(m) by {
        if pfx == spec_encode_response(m) {
            let em = spec_encode_response(m);
            lemma_response_parts(m);
            assert(pfx.len() == k);
            if k == 0 {
                assert(false);
            } else {
                assert(pfx[0] == e[0]);
                match v {
                    ResponseView::PublishSuccess(_) => {
                        match m {
                            ResponseView::PublishSuccess(_) => {
                                assert(k == 9);
                                assert(false);
                            },
                            _ => {
                                assert(false);
                            },
                        }
                    },
                    ResponseView::SearchSuccess(ids_v) => {
                        match m {
                            ResponseView::SearchSuccess(ids_m) => {
                                let kv = ids_v.len() as int;
                                let km = ids_m.len() as int;
                                assert(k == 9 + 8 * km);
                                assert(km < kv);
                                assert(pfx.subrange(1, 9) =~= e.subrange(1, 9));
                                lemma_u64_be_bytes_injective(kv as u64, km as u64);
                                assert(false);
                            },
                            _ => {
                                assert(false);
                            },
                        }
                    },
                    ResponseView::RetrieveSuccess(doc) => {
                        let pl = encode_utf8(doc).len() as int;
                        match m {
                            ResponseView::RetrieveSuccess(doc2) => {
                                let pm = encode_utf8(doc2).len() as int;
                                assert(k == 9 + pm);
                                assert(pm < pl);
                                assert(pfx.subrange(1, 9) =~= e.subrange(1, 9));
                                lemma_u64_be_bytes_injective(pl as u64, pm as u64);
                                assert(false);
                            },
                            _ => {
                                assert(false);
                            },
                        }
                    },
                    ResponseView::Failure => {
                        assert(false);
                    },
                }
            }
        }
    }
}

/// Round trip: two responses with the same encoding are the same
/// response, so decoding the bytes produced by encoding yields the
/// original value.
pub proof fn lemma_response_encoding_injective(a: ResponseView, b: ResponseView)
    requires
        spec_encode_response(a) == spec_encode_response(b),
    ensures
        a == b,
{
    let ea = spec_encode_response(a);
    let eb = spec_encode_response(b);
    lemma_response_parts(a);
    lemma_response_parts(b);
    match a {
        ResponseView::PublishSuccess(i1) => {
            match b {
                ResponseView::PublishSuccess(i2) => {
                    assert(ea.subrange(1, 9) == eb.subrange(1, 9));
                    lemma_u64_be_bytes_injective(i1 as u64, i2 as u64);
                },
                _ => {
                    assert(ea[0] == eb[0]);
                    assert(false);
                },
            }
        },
        ResponseView::SearchSuccess(ids1) => {
            match b {
                ResponseView::SearchSuccess(ids2) => {
                    assert(ids1.len() == ids2.len());
                    assert(ea.subrange(9, 9 + 8 * ids1.len() as int) == eb.subrange(
                        9,
                        9 + 8 * ids2.len() as int,
                    ));
                    lemma_ids_be_bytes_injective(ids1, ids2);
                },
                _ => {
                    assert(ea[0] == eb[0]);
                    assert(false);
                },
            }
        },
        ResponseView::RetrieveSuccess(d1) => {
            match b {
                ResponseView::RetrieveSuccess(d2) => {
                    assert(encode_utf8(d1).len() == encode_utf8(d2).len());
                    assert(encode_utf8(d1) == encode_utf8(d2));
                    encode_utf8_decode_utf8(d1);
                    encode_utf8_decode_utf8(d2);
                },
                _ => {
                    assert(ea[0] == eb[0]);
                    assert(false);
                },
            }
        },
        ResponseView::Failure => {
            match b {
                ResponseView::Failure => {},
                _ => {
                    assert(ea[0] == eb[0]);
                    assert(false);
                },
            }
        },
    }
}

} // verus!
