//! The request side: the request-line and header grammar, and a
//! parsed request that owns the connection's remaining input.

use crate::bytes::{
    ascii_bytes, ascii_vec, find_from, lower, spec_find, spec_line_len, spec_lower,
    spec_split, spec_strip_line_end, spec_trim, split, strip_line_end, subvec, trim,
    lemma_line_len, lemma_find_spec,
};
use crate::reader::spec_min;
use crate::headers::HeaderMap;
use crate::reader::ByteReader;
use crate::response::{Code, Content, Response};
use vstd::prelude::*;

verus! {

broadcast use crate::bytes::lemma_bytes_deep_view;

/// A request method; any other token is a parse failure.
#[derive(Debug, Copy, Clone, PartialEq, Eq, Structural)]
pub enum Method {
    GET,
    POST,
}

/// Failure to read the request line: its first token names no
/// supported method.
#[derive(Debug, Copy, Clone, PartialEq, Eq, Structural)]
pub enum ParseError {
    InvalidMethod,
}

/// The method a token denotes, if any; matching is exact and
/// case-sensitive.
pub open spec fn spec_method_of(tok: Seq<u8>) -> Option<Method> {
    if tok == ascii_bytes("GET"@) {
        Some(Method::GET)
    } else if tok == ascii_bytes("POST"@) {
        Some(Method::POST)
    } else {
        None
    }
}

impl Method {
    /// Reads a method token.
    pub fn try_from(value: &Vec<u8>) -> (r: Result<Method, ParseError>)
        ensures
            match r {
                Ok(m) => spec_method_of(value@) == Some(m),
                Err(_) => spec_method_of(value@) is None,
            },
    {
        proof {
            reveal_strlit("GET");
            reveal_strlit("POST");
        }
        let get = ascii_vec("GET");
        let post = ascii_vec("POST");
        if crate::bytes::bytes_eq(value, &get) {
            Ok(Method::GET)
        } else if crate::bytes::bytes_eq(value, &post) {
            Ok(Method::POST)
        } else {
            Err(ParseError::InvalidMethod)
        }
    }
}

/// The first line of `s`, its terminator removed.
pub open spec fn spec_first_line(s: Seq<u8>) -> Seq<u8> {
    spec_strip_line_end(s.take(spec_line_len(s)))
}

/// Everything after the first line of `s`.
pub open spec fn spec_rest_after_line(s: Seq<u8>) -> Seq<u8> {
    s.skip(spec_line_len(s))
}

/// The first space-separated token of the request line: the method.
pub open spec fn spec_method_token(s: Seq<u8>) -> Seq<u8> {
    spec_split(spec_first_line(s), 32)[0]
}

/// The second space-separated token of the request line: the target
/// URI; empty when missing.
pub open spec fn spec_uri(s: Seq<u8>) -> Seq<u8> {
    let toks = spec_split(spec_first_line(s), 32);
    if toks.len() >= 2 {
        toks[1]
    } else {
        Seq::empty()
    }
}

/// What a single trimmed header line contributes for the name `k`:
/// the line is split at its first colon, the name is trimmed and
/// lower-cased, the value is trimmed; a line without a colon
/// contributes nothing.
pub open spec fn spec_line_lookup(t: Seq<u8>, k: Seq<u8>) -> Option<Seq<u8>> {
    let f = spec_find(t, 58);
    if f == t.len() {
        None
    } else if spec_lower(spec_trim(t.take(f))) == k {
        Some(spec_trim(t.skip(f + 1)))
    } else {
        None
    }
}

/// `b` when it is a binding, else `a`: the later line wins.
pub open spec fn spec_override(a: Option<Seq<u8>>, b: Option<Seq<u8>>) -> Option<Seq<u8>> {
    if b is Some {
        b
    } else {
        a
    }
}

/// The value the header block at the start of `s` gives the
/// lower-cased name `k`: lines are read until a blank line or the
/// end of input; on duplicate names the later line wins.
pub open spec fn spec_headers_get(s: Seq<u8>, k: Seq<u8>) -> Option<Seq<u8>>
    decreases s.len(),
{
    if s.len() == 0 {
        None
    } else {
        let ll = spec_line_len(s);
        let t = spec_trim(s.take(ll));
        if t.len() == 0 {
            None
        } else {
            proof {
                lemma_line_len(s);
            }
            spec_override(spec_line_lookup(t, k), spec_headers_get(s.skip(ll), k))
        }
    }
}

/// The length of the header block at the start of `s`, the blank
/// line included when one occurs.
pub open spec fn spec_header_block_len(s: Seq<u8>) -> int
    decreases s.len(),
{
    if s.len() == 0 {
        0
    } else {
        let ll = spec_line_len(s);
        let t = spec_trim(s.take(ll));
        if t.len() == 0 {
            ll
        } else {
            proof {
                lemma_line_len(s);
            }
            ll + spec_header_block_len(s.skip(ll))
        }
    }
}

/// The header block never reaches past the end of the input.
pub proof fn lemma_header_block_len(s: Seq<u8>)
    ensures
        0 <= spec_header_block_len(s) <= s.len(),
    decreases s.len(),
{
    if s.len() == 0 {
    } else {
        let ll = spec_line_len(s);
        lemma_line_len(s);
        if spec_trim(s.take(ll)).len() == 0 {
        } else {
            lemma_header_block_len(s.skip(ll));
        }
    }
}

/// A parsed request: the method, the target URI, its slash-separated
/// segments, the header mapping, and the connection's unread input,
/// positioned at the first body byte.
pub struct Request {
    pub headers: HeaderMap,
    pub method: Method,
    pub uri: Vec<u8>,
    pub path: Vec<Vec<u8>>,
    pub body: ByteReader,
}

impl Request {
    /// Well-formedness of the header mapping and the body cursor.
    pub open spec fn wf(self) -> bool {
        &&& self.headers.wf()
        &&& self.body.wf()
    }

    /// The stored value under the (already lower-cased) name `k`.
    pub open spec fn spec_header_stored(self, k: Seq<u8>) -> Option<Seq<u8>> {
        self.headers.spec_get(k)
    }

    /// The value a lookup under `name` yields; lookups lower-case
    /// the name first.
    pub open spec fn spec_header(self, name: Seq<u8>) -> Option<Seq<u8>> {
        self.spec_header_stored(spec_lower(name))
    }

    /// Parses one request head from `input`: the request line, then
    /// header lines until a blank line, the cursor left at the first
    /// body byte. Fails exactly when the method token is unknown.
    pub fn new(input: ByteReader) -> (r: Result<Request, ParseError>)
        requires
            input.wf(),
        ensures
            match r {
                Ok(req) => {
                    let s = input.remaining();
                    let rest = spec_rest_after_line(s);
                    &&& req.wf()
                    &&& spec_method_of(spec_method_token(s)) == Some(req.method)
                    &&& req.uri@ == spec_uri(s)
                    &&& req.path.deep_view() == spec_split(spec_uri(s), 47)
                    &&& forall|k: Seq<u8>|
                        req.spec_header_stored(k) == spec_headers_get(rest, k)
                    &&& req.body.remaining() == rest.skip(spec_header_block_len(rest))
                },
                Err(_) => spec_method_of(spec_method_token(input.remaining())) is None,
            },
    {
        let ghost s = input.remaining();
        let mut input = input;
        let line_raw = input.read_line();
        let line = strip_line_end(&line_raw);
        proof {
            assert(line@ == spec_first_line(s));
        }
        let toks = split(&line, 32);
        proof {
            lemma_split_nonempty(line@, 32);
            assert(toks@.len() == toks.deep_view().len());
            assert(toks.deep_view()[0] == toks@[0]@);
        }
        let method = match Method::try_from(&toks[0]) {
            Ok(m) => m,
            Err(e) => {
                return Err(e);
            },
        };
        let uri: Vec<u8> = if toks.len() >= 2 {
            proof {
                assert(toks.deep_view()[1] == toks@[1]@);
            }
            let u = subvec(&toks[1], 0, toks[1].len());
            proof {
                assert(u@ =~= toks@[1]@);
            }
            u
        } else {
            Vec::new()
        };
        proof {
            assert(uri@ == spec_uri(s));
        }
        let path = split(&uri, 47);
        let mut hm = HeaderMap::new();
        let ghost rest0 = input.remaining();
        proof {
            assert(rest0 == spec_rest_after_line(s));
        }
        loop
            invariant_except_break
                input.wf(),
                hm.wf(),
                forall|k: Seq<u8>|
                    spec_override(
                        hm.spec_get(k),
                        spec_headers_get(input.remaining(), k),
                    ) == spec_headers_get(rest0, k),
                rest0.skip(spec_header_block_len(rest0)) == input.remaining().skip(
                    spec_header_block_len(input.remaining()),
                ),
            ensures
                input.wf(),
                hm.wf(),
                forall|k: Seq<u8>| hm.spec_get(k) == spec_headers_get(rest0, k),
                input.remaining() == rest0.skip(spec_header_block_len(rest0)),
            decreases input.remaining().len(),
        {
            let ghost rem = input.remaining();
            let ghost ll = spec_line_len(rem);
            let hline = input.read_line();
            let t = trim(&hline);
            proof {
                lemma_line_len(rem);
                assert(t@ == spec_trim(rem.take(ll)));
            }
            if t.len() == 0 {
                proof {
                    if rem.len() == 0 {
                        assert(rem.skip(ll) =~= rem);
                        assert(forall|k: Seq<u8>| spec_headers_get(rem, k) is None);
                        assert(spec_header_block_len(rem) == 0);
                        assert(input.remaining() == rem.skip(0));
                    } else {
                        assert(forall|k: Seq<u8>| spec_headers_get(rem, k) is None);
                        assert(spec_header_block_len(rem) == ll);
                    }
                    assert forall|k: Seq<u8>| hm.spec_get(k) == spec_headers_get(rest0, k) by {
                        assert(spec_override(hm.spec_get(k), spec_headers_get(rem, k))
                            == spec_headers_get(rest0, k));
                    }
                }
                break;
            }
            proof {
                assert(rem.len() > 0);
            }
            let ghost pre_hm = hm;
            let f = find_from(&t, 58, 0);
            if f < t.len() {
                let key_part = subvec(&t, 0, f);
                let key_raw = trim(&key_part);
                let key = lower(&key_raw);
                let value_part = subvec(&t, f + 1, t.len());
                let value = trim(&value_part);
                proof {
                    assert(t@.skip(0) =~= t@);
                    assert(t@.subrange(0, f as int) =~= t@.take(f as int));
                    assert(t@.subrange(f + 1, t@.len() as int) =~= t@.skip(f + 1));
                    assert(key@ == spec_lower(spec_trim(t@.take(f as int))));
                    assert(value@ == spec_trim(t@.skip(f + 1)));
                }
                hm.insert(key, value);
                proof {
                    assert forall|k: Seq<u8>|
                        hm.spec_get(k) == spec_override(
                            pre_hm.spec_get(k),
                            spec_line_lookup(t@, k),
                        ) by {
                        if k == spec_lower(spec_trim(t@.take(spec_find(t@, 58)))) {
                        } else {
                        }
                    }
                }
            } else {
                proof {
                    assert(t@.skip(0) =~= t@);
                    assert(spec_find(t@, 58) == t@.len());
                    assert forall|k: Seq<u8>|
                        hm.spec_get(k) == spec_override(
                            pre_hm.spec_get(k),
                            spec_line_lookup(t@, k),
                        ) by {}
                }
            }
            proof {
                lemma_header_block_len(rem.skip(ll));
                assert(spec_header_block_len(rem) == ll + spec_header_block_len(rem.skip(ll)));
                assert(rem.skip(spec_header_block_len(rem)) =~= rem.skip(ll).skip(
                    spec_header_block_len(rem.skip(ll)),
                ));
                assert forall|k: Seq<u8>|
                    spec_override(
                        hm.spec_get(k),
                        spec_headers_get(input.remaining(), k),
                    ) == spec_headers_get(rest0, k) by {
                    assert(spec_headers_get(rem, k) == spec_override(
                        spec_line_lookup(t@, k),
                        spec_headers_get(rem.skip(ll), k),
                    ));
                    assert(spec_override(pre_hm.spec_get(k), spec_headers_get(rem, k))
                        == spec_headers_get(rest0, k));
                }
            }
        }
        Ok(Request { headers: hm, method, uri, path, body: input })
    }

    /// Looks up a header value; the lookup is case-insensitive.
    pub fn get_header(&self, header: &Vec<u8>) -> (r: Option<&Vec<u8>>)
        requires
            self.wf(),
        ensures
            match r {
                Some(v) => self.spec_header(header@) == Some(v@),
                None => self.spec_header(header@) is None,
            },
    {
        let name = lower(header);
        self.headers.get(&name)
    }

    /// Copies the request body into `writer`, in chunks of at most
    /// 1024 bytes, until the input runs out or `expected_len` bytes
    /// have been moved; never more than `expected_len`.
    pub fn write_content(&mut self, writer: &mut Vec<u8>, expected_len: Option<u32>) -> (r: u32)
        requires
            old(self).wf(),
            old(self).body.remaining().len() <= u32::MAX,
        ensures
            final(self).wf(),
            final(self).headers == old(self).headers,
            final(self).method == old(self).method,
            final(self).uri == old(self).uri,
            final(self).path == old(self).path,
            ({
                let total = spec_min(
                    match expected_len {
                        Some(n) => n as int,
                        None => old(self).body.remaining().len() as int,
                    },
                    old(self).body.remaining().len() as int,
                );
                &&& r == total
                &&& final(writer)@ == old(writer)@ + old(self).body.remaining().take(total)
                &&& final(self).body.remaining() == old(self).body.remaining().skip(total)
            }),
            expected_len matches Some(n) ==> r <= n,
    {
        let limit: Option<usize> = match expected_len {
            Some(n) => Some(n as usize),
            None => None,
        };
        let moved = self.body.copy_up_to(writer, limit);
        moved as u32
    }

    /// The comma-separated encodings of the `Accept-Encoding`
    /// header, each trimmed and lower-cased; `None` when the header
    /// is absent.
    pub fn content_encodings(&self) -> (r: Option<Vec<Vec<u8>>>)
        requires
            self.wf(),
        ensures
            match r {
                Some(es) => {
                    &&& self.spec_header_stored(ascii_bytes("accept-encoding"@)) matches Some(v)
                        && es.deep_view() == spec_encodings(v)
                },
                None => self.spec_header_stored(ascii_bytes("accept-encoding"@)) is None,
            },
    {
        proof {
            reveal_strlit("accept-encoding");
        }
        let name = ascii_vec("accept-encoding");
        match self.headers.get(&name) {
            None => None,
            Some(val) => {
                let low = lower(val);
                let parts = split(&low, 44);
                let mut out: Vec<Vec<u8>> = Vec::new();
                let mut i: usize = 0;
                proof {
                    assert(parts@.len() == parts.deep_view().len());
                }
                while i < parts.len()
                    invariant
                        i <= parts.len(),
                        parts@.len() == parts.deep_view().len(),
                        out.deep_view() =~= parts.deep_view().map_values(
                            |e: Seq<u8>| spec_trim(e),
                        ).take(i as int),
                    decreases parts.len() - i,
                {
                    let ghost prev = out.deep_view();
                    let piece = trim(&parts[i]);
                    out.push(piece);
                    proof {
                        assert(parts.deep_view()[i as int] == parts@[i as int]@);
                        assert(out.deep_view() =~~= prev.push(piece@));
                        assert(out.deep_view() =~= parts.deep_view().map_values(
                            |e: Seq<u8>| spec_trim(e),
                        ).take(i as int + 1));
                    }
                    i = i + 1;
                }
                proof {
                    assert(out.deep_view() =~= spec_encodings(val@));
                }
                Some(out)
            },
        }
    }

    /// Whether the request's `Accept-Encoding` header offers the
    /// `gzip` token among its comma-separated values.
    pub open spec fn spec_gzip_requested(self) -> bool {
        match self.spec_header_stored(ascii_bytes("accept-encoding"@)) {
            Some(v) => spec_encodings(v).contains(ascii_bytes("gzip"@)),
            None => false,
        }
    }

    /// Consumes the request into a fresh response that compresses
    /// its body exactly when the request asked for gzip.
    pub fn response(self) -> (r: Response)
        requires
            self.wf(),
        ensures
            r.wf(),
            r.code == Code::Okay,
            r.gzip == self.spec_gzip_requested(),
            r.content matches Content::Text(t) && t@ == Seq::<u8>::empty(),
            r.headers.entries() == if self.spec_gzip_requested() {
                seq![
                    (ascii_bytes("Content-Encoding"@), ascii_bytes("gzip"@)),
                ]
            } else {
                Seq::<(Seq<u8>, Seq<u8>)>::empty()
            },
    {
        let gzip = match self.content_encodings() {
            None => false,
            Some(es) => {
                proof {
                    reveal_strlit("gzip");
                }
                let g = ascii_vec("gzip");
                contains_token(&es, &g)
            },
        };
        Response::new(gzip)
    }
}

/// Whether some element of `es` is exactly the byte string `tok`.
fn contains_token(es: &Vec<Vec<u8>>, tok: &Vec<u8>) -> (r: bool)
    ensures
        r == es.deep_view().contains(tok@),
{
    let mut i: usize = 0;
    proof {
        assert(es@.len() == es.deep_view().len());
    }
    while i < es.len()
        invariant
            i <= es.len(),
            es@.len() == es.deep_view().len(),
            forall|j: int| 0 <= j < i ==> es.deep_view()[j] != tok@,
        decreases es.len() - i,
    {
        proof {
            assert(es.deep_view()[i as int] == es@[i as int]@);
        }
        if crate::bytes::bytes_eq(&es[i], tok) {
            return true;
        }
        i = i + 1;
    }
    proof {
        if es.deep_view().contains(tok@) {
            let j = choose|j: int| 0 <= j < es.deep_view().len() && es.deep_view()[j] == tok@;
            assert(es.deep_view()[j] != tok@);
        }
    }
    false
}

/// Header lookup is case-insensitive: two names that agree up to
/// ASCII case read the same value.
pub proof fn lemma_header_lookup_case_insensitive(req: Request, a: Seq<u8>, b: Seq<u8>)
    requires
        spec_lower(a) == spec_lower(b),
    ensures
        req.spec_header(a) == req.spec_header(b),
{
}

/// The encodings a raw `Accept-Encoding` value offers: lower-cased,
/// split on commas, each token trimmed.
pub open spec fn spec_encodings(v: Seq<u8>) -> Seq<Seq<u8>> {
    spec_split(spec_lower(v), 44).map_values(|e: Seq<u8>| spec_trim(e))
}

/// Splitting yields at least one segment.
pub proof fn lemma_split_nonempty(s: Seq<u8>, c: u8)
    ensures
        spec_split(s, c).len() >= 1,
{
    lemma_find_spec(s, c);
    if spec_find(s, c) == s.len() {
    } else {
    }
}

} // verus!
