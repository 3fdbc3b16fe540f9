//! The response side: status codes, the response builder, and the
//! encoder that renders status line, header block, and body into
//! wire bytes, gzip-compressing the body when negotiated.

use crate::bytes::{ascii_bytes, ascii_vec, dec_u64, push_all, spec_dec, subvec};
use crate::headers::{spec_inserted, HeaderMap};
use vstd::prelude::*;

verus! {

/// A response status code.
#[derive(Debug, Clone, Copy, PartialEq, Eq, Structural)]
pub enum Code {
    Okay,
    Created,
    NotFound,
}

impl Code {
    /// The numeric status.
    pub open spec fn spec_num(self) -> u16 {
        match self {
            Code::Okay => 200,
            Code::Created => 201,
            Code::NotFound => 404,
        }
    }

    /// The fixed English reason phrase.
    pub open spec fn spec_reason(self) -> Seq<char> {
        match self {
            Code::Okay => "OK"@,
            Code::Created => "Created"@,
            Code::NotFound => "Not Found"@,
        }
    }

    /// The reason phrase for this status code.
    pub fn as_str(&self) -> (r: &'static str)
        ensures
            r@ == self.spec_reason(),
            r.is_ascii(),
    {
        proof {
            reveal_strlit("OK");
            reveal_strlit("Created");
            reveal_strlit("Not Found");
        }
        match self {
            Code::Okay => "OK",
            Code::Created => "Created",
            Code::NotFound => "Not Found",
        }
    }
}

impl From<Code> for u16 {
    /// The numeric status of a code.
    fn from(code: Code) -> (r: u16) {
        match code {
            Code::Okay => 200,
            Code::Created => 201,
            Code::NotFound => 404,
        }
    }
}

impl vstd::std_specs::convert::FromSpecImpl<Code> for u16 {
    open spec fn obeys_from_spec() -> bool {
        true
    }

    open spec fn from_spec(code: Code) -> u16 {
        code.spec_num()
    }
}

/// What the gzip encoder produces for the given input at the
/// default compression level.
pub uninterp spec fn gzip_of(data: Seq<u8>) -> Seq<u8>;

/// Relies on flate2's `bufread::GzEncoder` at the default level:
/// with the builder defaults (a zero modification time and a fixed
/// operating-system byte, chosen by flate2 for reproducibility) and
/// the pure-Rust backend, the compressed stream is a function of the
/// input bytes alone.
#[verifier::external_body]
fn gzip_compress(data: &Vec<u8>) -> (r: Vec<u8>)
    ensures
        r@ == gzip_of(data@),
{
    let mut encoder = flate2::bufread::GzEncoder::new(
        data.as_slice(),
        flate2::Compression::default(),
    );
    let mut out: Vec<u8> = Vec::new();
    match std::io::Read::read_to_end(&mut encoder, &mut out) {
        Ok(_) => out,
        // compressing from an in-memory slice cannot fail
        Err(_) => out,
    }
}

/// When gzip is negotiated, the wire body is exactly the gzip
/// encoding of the raw content, and the advertised `Content-Length`
/// is the compressed length, not the original one.
pub proof fn lemma_gzip_flush(r: Response)
    requires
        r.gzip,
    ensures
        r.spec_body() == gzip_of(r.raw_content()),
        r.spec_content_length() == gzip_of(r.raw_content()).len(),
        r.spec_flush() == r.spec_head() + gzip_of(r.raw_content()),
{
}

/// The header block starts with the line of its first entry.
proof fn lemma_render_headers_first(es: Seq<(Seq<u8>, Seq<u8>)>)
    requires
        es.len() >= 1,
    ensures
        spec_render_headers(es) == (es[0].0 + ascii_bytes(": "@) + es[0].1 + seq![13u8, 10u8])
            + spec_render_headers(es.drop_first()),
    decreases es.len(),
{
    let line = es[0].0 + ascii_bytes(": "@) + es[0].1 + seq![13u8, 10u8];
    if es.len() == 1 {
        assert(es.drop_last() =~= Seq::<(Seq<u8>, Seq<u8>)>::empty());
        assert(es.drop_first() =~= Seq::<(Seq<u8>, Seq<u8>)>::empty());
        assert(es.last() == es[0]);
        assert(spec_render_headers(es) =~= line + spec_render_headers(es.drop_first()));
    } else {
        lemma_render_headers_first(es.drop_last());
        assert(es.drop_last()[0] == es[0]);
        assert(es.drop_last().drop_first() =~= es.drop_first().drop_last());
        assert(es.drop_first().last() == es.last());
        assert(spec_render_headers(es.drop_first()) == spec_render_headers(
            es.drop_first().drop_last(),
        ) + es.last().0 + ascii_bytes(": "@) + es.last().1 + seq![13u8, 10u8]);
        assert(spec_render_headers(es) =~= line + spec_render_headers(es.drop_first()));
    }
}

/// When gzip is negotiated and the `Content-Encoding: gzip` header
/// stands first among the headers — as every response this library
/// builds has it — the rendered bytes contain the literal header
/// line announcing the encoding.
pub proof fn lemma_content_encoding_present(r: Response)
    requires
        r.gzip,
        r.headers.entries().len() >= 1,
        r.headers.entries()[0] == (ascii_bytes("Content-Encoding"@), ascii_bytes("gzip"@)),
    ensures
        ({
            let line = ascii_bytes("Content-Encoding"@) + ascii_bytes(": "@) + ascii_bytes(
                "gzip"@,
            ) + seq![13u8, 10u8];
            exists|i: int|
                0 <= i && i + line.len() <= r.spec_flush().len() && #[trigger] r.spec_flush()
                    .subrange(i, i + line.len()) == line
        }),
{
    let line = ascii_bytes("Content-Encoding"@) + ascii_bytes(": "@) + ascii_bytes("gzip"@)
        + seq![13u8, 10u8];
    let es = r.headers.entries();
    lemma_render_headers_first(es);
    let prefix = ascii_bytes("HTTP/1.1 "@) + spec_dec(r.code.spec_num() as nat) + seq![32u8]
        + ascii_bytes(r.code.spec_reason()) + seq![13u8, 10u8];
    let a = prefix.len() as int;
    assert(es[0].0 == ascii_bytes("Content-Encoding"@));
    assert(es[0].1 == ascii_bytes("gzip"@));
    assert(r.spec_flush().subrange(a, a + line.len()) =~= line);
    assert(0 <= a && a + line.len() <= r.spec_flush().len() && r.spec_flush().subrange(
        a,
        a + line.len(),
    ) == line);
}

/// A response body: in-memory text, or a byte source read out in
/// full with a caller-declared length.
pub enum Content {
    Text(Vec<u8>),
    Bytes(Vec<u8>, u64),
}

/// A response under construction: status code, headers, body
/// content, and whether the body is to be gzip-compressed.
pub struct Response {
    pub code: Code,
    pub content: Content,
    pub headers: HeaderMap,
    pub gzip: bool,
}

/// The header block: each entry as `Name: Value` with a line
/// terminator, in entry order.
pub open spec fn spec_render_headers(es: Seq<(Seq<u8>, Seq<u8>)>) -> Seq<u8>
    decreases es.len(),
{
    if es.len() == 0 {
        Seq::empty()
    } else {
        spec_render_headers(es.drop_last()) + es.last().0 + ascii_bytes(": "@) + es.last().1
            + seq![13u8, 10u8]
    }
}

impl Response {
    /// Well-formedness of the header mapping.
    pub open spec fn wf(self) -> bool {
        self.headers.wf()
    }

    /// The bytes the body holds before any compression.
    pub open spec fn raw_content(self) -> Seq<u8> {
        match self.content {
            Content::Text(t) => t@,
            Content::Bytes(b, _) => b@,
        }
    }

    /// The body bytes put on the wire.
    pub open spec fn spec_body(self) -> Seq<u8> {
        if self.gzip {
            gzip_of(self.raw_content())
        } else {
            self.raw_content()
        }
    }

    /// The advertised `Content-Length`: the compressed size under
    /// gzip; otherwise the text's exact length, or the declared
    /// length of a byte source.
    pub open spec fn spec_content_length(self) -> int {
        if self.gzip {
            gzip_of(self.raw_content()).len() as int
        } else {
            match self.content {
                Content::Text(t) => t@.len() as int,
                Content::Bytes(_, n) => n as int,
            }
        }
    }

    /// Everything before the body: status line, header block, the
    /// `Content-Length` header, and the blank line.
    pub open spec fn spec_head(self) -> Seq<u8> {
        ascii_bytes("HTTP/1.1 "@) + spec_dec(self.code.spec_num() as nat) + seq![32u8]
            + ascii_bytes(self.code.spec_reason()) + seq![13u8, 10u8] + spec_render_headers(
            self.headers.entries(),
        ) + ascii_bytes("Content-Length: "@) + spec_dec(self.spec_content_length() as nat)
            + seq![13u8, 10u8] + seq![13u8, 10u8]
    }

    /// The full wire encoding.
    pub open spec fn spec_flush(self) -> Seq<u8> {
        self.spec_head() + self.spec_body()
    }

    /// A fresh response: status 200, empty text content, and, when
    /// `gzip` is negotiated, the `Content-Encoding: gzip` header
    /// already present.
    pub fn new(gzip: bool) -> (r: Response)
        ensures
            r.wf(),
            r.code == Code::Okay,
            r.gzip == gzip,
            r.content matches Content::Text(t) && t@ == Seq::<u8>::empty(),
            r.headers.entries() == if gzip {
                seq![(ascii_bytes("Content-Encoding"@), ascii_bytes("gzip"@))]
            } else {
                Seq::<(Seq<u8>, Seq<u8>)>::empty()
            },
    {
        let mut headers = HeaderMap::new();
        if gzip {
            proof {
                reveal_strlit("Content-Encoding");
                reveal_strlit("gzip");
            }
            headers.insert(ascii_vec("Content-Encoding"), ascii_vec("gzip"));
            proof {
                assert(headers.entries() =~= seq![
                    (ascii_bytes("Content-Encoding"@), ascii_bytes("gzip"@)),
                ]);
            }
        }
        Response { code: Code::Okay, content: Content::Text(Vec::new()), headers, gzip }
    }

    /// Adds or overwrites a header.
    pub fn with_header(self, key: &Vec<u8>, value: &Vec<u8>) -> (r: Response)
        requires
            self.wf(),
        ensures
            r.wf(),
            r.code == self.code,
            r.gzip == self.gzip,
            r.content == self.content,
            spec_inserted(self.headers, key@, value@, r.headers),
    {
        let mut s = self;
        let k = subvec(key, 0, key.len());
        let v = subvec(value, 0, value.len());
        proof {
            assert(k@ =~= key@);
            assert(v@ =~= value@);
        }
        s.headers.insert(k, v);
        s
    }

    /// Sets the status code.
    pub fn with_code(self, code: Code) -> (r: Response)
        ensures
            r.code == code,
            r.gzip == self.gzip,
            r.content == self.content,
            r.headers == self.headers,
    {
        let mut s = self;
        s.code = code;
        s
    }

    /// Sets the body to in-memory text, discarding any previous
    /// content.
    pub fn with_content(self, content: &Vec<u8>) -> (r: Response)
        ensures
            r.code == self.code,
            r.gzip == self.gzip,
            r.headers == self.headers,
            r.content matches Content::Text(t) && t@ == content@,
    {
        let mut s = self;
        let c = subvec(content, 0, content.len());
        proof {
            assert(c@ =~= content@);
        }
        s.content = Content::Text(c);
        s
    }

    /// Sets the body to a byte source with a declared total length,
    /// discarding any previous content.
    pub fn with_content_reader(self, content: Vec<u8>, size: u64) -> (r: Response)
        ensures
            r.code == self.code,
            r.gzip == self.gzip,
            r.headers == self.headers,
            r.content matches Content::Bytes(b, n) && b@ == content@ && n == size,
    {
        let mut s = self;
        s.content = Content::Bytes(content, size);
        s
    }

    /// Renders the response into wire bytes: status line, each
    /// header, the `Content-Length` computed from the body put on
    /// the wire, a blank line, then the body, gzip-compressed when
    /// negotiated.
    pub fn flush(&self) -> (out: Vec<u8>)
        requires
            self.wf(),
        ensures
            out@ == self.spec_flush(),
    {
        let mut out: Vec<u8> = Vec::new();
        proof {
            reveal_strlit("HTTP/1.1 ");
        }
        push_all(&mut out, &ascii_vec("HTTP/1.1 "));
        let code_num: u16 = u16::from(self.code);
        push_all(&mut out, &dec_u64(code_num as u64));
        out.push(32);
        let ghost part_code = ascii_bytes("HTTP/1.1 "@) + spec_dec(self.code.spec_num() as nat)
            + seq![32u8];
        proof {
            assert(out@ =~= part_code);
        }
        push_all(&mut out, &ascii_vec(self.code.as_str()));
        out.push(13);
        out.push(10);
        let ghost part_status = part_code + ascii_bytes(self.code.spec_reason()) + seq![13u8, 10u8];
        proof {
            assert(out@ =~= part_status);
        }
        let ghost entries = self.headers.entries();
        proof {
            reveal_strlit(": ");
        }
        let sep = ascii_vec(": ");
        let n = self.headers.len();
        let mut i: usize = 0;
        while i < n
            invariant
                self.wf(),
                n == entries.len(),
                entries == self.headers.entries(),
                sep@ == ascii_bytes(": "@),
                i <= n,
                out@ == part_status + spec_render_headers(entries.take(i as int)),
            decreases n - i,
        {
            push_all(&mut out, self.headers.name_at(i));
            push_all(&mut out, &sep);
            push_all(&mut out, self.headers.value_at(i));
            out.push(13);
            out.push(10);
            proof {
                assert(entries.take(i as int + 1).drop_last() =~= entries.take(i as int));
                assert(entries.take(i as int + 1).last() == entries[i as int]);
                assert(out@ =~= part_status + spec_render_headers(entries.take(i as int + 1)));
            }
            i = i + 1;
        }
        proof {
            assert(entries.take(entries.len() as int) =~= entries);
        }
        let ghost part_headers = part_status + spec_render_headers(entries);
        let (body, clen): (Vec<u8>, u64) = match &self.content {
            Content::Text(t) => {
                if self.gzip {
                    let g = gzip_compress(t);
                    let n = g.len() as u64;
                    (g, n)
                } else {
                    let c = subvec(t, 0, t.len());
                    proof {
                        assert(c@ =~= t@);
                    }
                    let n = c.len() as u64;
                    (c, n)
                }
            },
            Content::Bytes(b, size) => {
                if self.gzip {
                    let g = gzip_compress(b);
                    let n = g.len() as u64;
                    (g, n)
                } else {
                    let c = subvec(b, 0, b.len());
                    proof {
                        assert(c@ =~= b@);
                    }
                    (c, *size)
                }
            },
        };
        proof {
            assert(body@ == self.spec_body());
            assert(clen as int == self.spec_content_length());
        }
        proof {
            reveal_strlit("Content-Length: ");
        }
        push_all(&mut out, &ascii_vec("Content-Length: "));
        push_all(&mut out, &dec_u64(clen));
        out.push(13);
        out.push(10);
        out.push(13);
        out.push(10);
        proof {
            assert(out@ =~= self.spec_head());
        }
        push_all(&mut out, &body);
        proof {
            assert(out@ =~= self.spec_flush());
        }
        out
    }
}

} // verus!
