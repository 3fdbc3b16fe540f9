//! The route dispatcher: the fixed table over (method, path
//! segments), the handlers' pure parts, and the helpers the
//! connection driver needs to frame a head and a file path.

use crate::bytes::{
    ascii_bytes, ascii_vec, bytes_eq, find_from, join, push_all, spec_find, spec_join, spec_trim,
    subvec, trim, lemma_find_spec,
};
use crate::request::Request;
use crate::request::Method;
use crate::response::{Code, Content, Response};
use vstd::prelude::*;

verus! {

broadcast use crate::bytes::lemma_bytes_deep_view;

/// GET with path `["", ""]`: the identity response.
pub open spec fn pat_root(m: Method, p: Seq<Seq<u8>>) -> bool {
    &&& m == Method::GET
    &&& p.len() == 2
    &&& p[0].len() == 0
    &&& p[1].len() == 0
}

/// GET with path `["", "user-agent"]`.
pub open spec fn pat_user_agent(m: Method, p: Seq<Seq<u8>>) -> bool {
    &&& m == Method::GET
    &&& p.len() == 2
    &&& p[0].len() == 0
    &&& p[1] == ascii_bytes("user-agent"@)
}

/// GET with path `["", "echo", ...]`.
pub open spec fn pat_echo(m: Method, p: Seq<Seq<u8>>) -> bool {
    &&& m == Method::GET
    &&& p.len() >= 2
    &&& p[0].len() == 0
    &&& p[1] == ascii_bytes("echo"@)
}

/// GET with path `["", "files", name]`.
pub open spec fn pat_file_get(m: Method, p: Seq<Seq<u8>>) -> bool {
    &&& m == Method::GET
    &&& p.len() == 3
    &&& p[0].len() == 0
    &&& p[1] == ascii_bytes("files"@)
}

/// POST with path `["", "files", name]`.
pub open spec fn pat_file_post(m: Method, p: Seq<Seq<u8>>) -> bool {
    &&& m == Method::POST
    &&& p.len() == 3
    &&& p[0].len() == 0
    &&& p[1] == ascii_bytes("files"@)
}

/// The outcome of routing: which handler runs, with what the
/// pattern extracted from the path.
pub enum Route {
    Root,
    UserAgent,
    Echo(Vec<u8>),
    FileGet(Vec<u8>),
    FilePost(Vec<u8>),
    NotFound,
}

/// Maps a method and path onto the fixed route table. Exactly the
/// five listed patterns are served; every other combination is
/// `NotFound`. An `Echo` route carries the remaining segments
/// rejoined with slashes; a file route carries the file's name.
pub fn dispatch(method: Method, path: &Vec<Vec<u8>>) -> (r: Route)
    ensures
        match r {
            Route::Root => pat_root(method, path.deep_view()),
            Route::UserAgent => pat_user_agent(method, path.deep_view()),
            Route::Echo(body) => pat_echo(method, path.deep_view()) && body@ == spec_join(
                path.deep_view().skip(2),
                47,
            ),
            Route::FileGet(name) => pat_file_get(method, path.deep_view()) && name@
                == path.deep_view()[2],
            Route::FilePost(name) => pat_file_post(method, path.deep_view()) && name@
                == path.deep_view()[2],
            Route::NotFound => {
                &&& !pat_root(method, path.deep_view())
                &&& !pat_user_agent(method, path.deep_view())
                &&& !pat_echo(method, path.deep_view())
                &&& !pat_file_get(method, path.deep_view())
                &&& !pat_file_post(method, path.deep_view())
            },
        },
{
    let ghost p = path.deep_view();
    proof {
        assert(path@.len() == p.len());
        reveal_strlit("user-agent");
        reveal_strlit("echo");
        reveal_strlit("files");
    }
    let n = path.len();
    if n < 1 || path[0].len() != 0 {
        proof {
            if n >= 1 {
                assert(p[0] == path@[0]@);
            }
        }
        return Route::NotFound;
    }
    proof {
        assert(p[0] == path@[0]@);
        assert(p[0].len() == 0);
    }
    let is_get = method == Method::GET;
    if is_get && n == 2 && path[1].len() == 0 {
        proof {
            assert(p[1] == path@[1]@);
        }
        return Route::Root;
    }
    if n >= 2 {
        proof {
            assert(p[1] == path@[1]@);
        }
        let ua = ascii_vec("user-agent");
        if is_get && n == 2 && bytes_eq(&path[1], &ua) {
            return Route::UserAgent;
        }
        let files = ascii_vec("files");
        if n == 3 && bytes_eq(&path[1], &files) {
            proof {
                assert(p[2] == path@[2]@);
            }
            let name = subvec(&path[2], 0, path[2].len());
            proof {
                assert(name@ =~= path@[2]@);
            }
            if is_get {
                return Route::FileGet(name);
            } else {
                return Route::FilePost(name);
            }
        }
        let echo = ascii_vec("echo");
        if is_get && bytes_eq(&path[1], &echo) {
            let mut rest: Vec<Vec<u8>> = Vec::new();
            let mut i: usize = 2;
            proof {
                assert(rest.deep_view() =~= p.skip(2).take(0));
            }
            while i < n
                invariant
                    2 <= i <= n,
                    n == path@.len(),
                    p == path.deep_view(),
                    p.len() == path@.len(),
                    rest.deep_view() == p.skip(2).take(i - 2),
                decreases n - i,
            {
                let ghost prev = rest.deep_view();
                let seg = subvec(&path[i], 0, path[i].len());
                proof {
                    assert(seg@ =~= path@[i as int]@);
                }
                rest.push(seg);
                proof {
                    assert(rest.deep_view() =~~= prev.push(seg@));
                    assert(p.skip(2)[i - 2] == p[i as int]);
                    assert(rest.deep_view() =~= p.skip(2).take(i - 2 + 1));
                }
                i = i + 1;
            }
            proof {
                assert(p.skip(2).take(n - 2) =~= p.skip(2));
            }
            let body = join(&rest, 47);
            return Route::Echo(body);
        }
    }
    Route::NotFound
}

/// The serving-directory path for a file name: the directory, a
/// slash, the name — used verbatim, with no traversal sanitizing.
pub fn file_path(dir: &Vec<u8>, name: &Vec<u8>) -> (r: Vec<u8>)
    ensures
        r@ == dir@ + seq![47u8] + name@,
{
    let mut r = subvec(dir, 0, dir.len());
    proof {
        assert(r@ =~= dir@);
    }
    r.push(47);
    proof {
        assert(r@ =~= dir@ + seq![47u8]);
    }
    push_all(&mut r, name);
    r
}

/// Whether a complete header block follows the first line of `s`:
/// lines are scanned after the first line feed until one trims to
/// empty; more input is needed otherwise.
pub open spec fn spec_block_complete(s: Seq<u8>) -> bool
    decreases s.len(),
{
    if spec_find(s, 10) == s.len() {
        false
    } else {
        let ll = spec_find(s, 10) + 1;
        let t = spec_trim(s.take(ll));
        if t.len() == 0 {
            true
        } else {
            proof {
                lemma_find_spec(s, 10);
            }
            spec_block_complete(s.skip(ll))
        }
    }
}

/// Whether `s` holds a full request head: a terminated request line
/// followed by a complete header block.
pub open spec fn spec_head_complete(s: Seq<u8>) -> bool {
    &&& spec_find(s, 10) < s.len()
    &&& spec_block_complete(s.skip(spec_find(s, 10) + 1))
}

/// Whether the bytes read so far hold a full request head, so that
/// parsing can start.
pub fn head_complete(data: &Vec<u8>) -> (r: bool)
    ensures
        r == spec_head_complete(data@),
{
    let first = find_from(data, 10, 0);
    proof {
        assert(data@.skip(0) =~= data@);
    }
    if first == data.len() {
        return false;
    }
    let mut pos: usize = first + 1;
    loop
        invariant
            pos <= data.len(),
            spec_head_complete(data@) == spec_block_complete(data@.skip(pos as int)),
        decreases data.len() - pos,
    {
        let ghost rest = data@.skip(pos as int);
        let k = find_from(data, 10, pos);
        proof {
            assert(spec_find(rest, 10) == k - pos);
        }
        if k == data.len() {
            proof {
                assert(!spec_block_complete(rest));
            }
            return false;
        }
        let line = subvec(data, pos, k + 1);
        let t = trim(&line);
        proof {
            assert(line@ =~= rest.take(k + 1 - pos));
        }
        if t.len() == 0 {
            proof {
                assert(spec_block_complete(rest));
            }
            return true;
        }
        proof {
            assert(data@.skip(k + 1) =~= rest.skip(k + 1 - pos));
        }
        pos = k + 1;
    }
}

/// The two header names the handlers write never collide.
proof fn lemma_ct_not_ce()
    ensures
        ascii_bytes("Content-Encoding"@) != ascii_bytes("Content-Type"@),
{
    reveal_strlit("Content-Encoding");
    reveal_strlit("Content-Type");
    assert("Content-Encoding"@.len() == 16);
    assert("Content-Type"@.len() == 12);
    assert(ascii_bytes("Content-Encoding"@).len() == 16);
    assert(ascii_bytes("Content-Type"@).len() == 12);
}

/// The identity response for the root route.
pub fn respond_root(req: Request) -> (r: Response)
    requires
        req.wf(),
    ensures
        r.wf(),
        r.code == Code::Okay,
        r.gzip == req.spec_gzip_requested(),
        r.raw_content() == Seq::<u8>::empty(),
        r.content is Text,
    {
    req.response()
}

/// The user-agent route: the request's `User-Agent` value as plain
/// text, empty when the header is absent.
pub fn respond_user_agent(req: Request) -> (r: Response)
    requires
        req.wf(),
    ensures
        r.wf(),
        r.code == Code::Okay,
        r.gzip == req.spec_gzip_requested(),
        r.content is Text,
        r.raw_content() == match req.spec_header(ascii_bytes("user-agent"@)) {
            Some(v) => v,
            None => Seq::<u8>::empty(),
        },
        r.headers.entries() == (if req.spec_gzip_requested() {
            seq![(ascii_bytes("Content-Encoding"@), ascii_bytes("gzip"@))]
        } else {
            Seq::<(Seq<u8>, Seq<u8>)>::empty()
        }).push((ascii_bytes("Content-Type"@), ascii_bytes("text/plain"@))),
{
    proof {
        reveal_strlit("user-agent");
        reveal_strlit("Content-Type");
        reveal_strlit("text/plain");
    }
    let name = ascii_vec("user-agent");
    let ua: Vec<u8> = match req.get_header(&name) {
        Some(v) => {
            let c = subvec(v, 0, v.len());
            proof {
                assert(c@ =~= v@);
            }
            c
        },
        None => Vec::new(),
    };
    let r = req.response().with_header(&ascii_vec("Content-Type"), &ascii_vec("text/plain"))
        .with_content(&ua);
    proof {
        lemma_ct_not_ce();
        assert(r.headers.entries() =~= (if r.gzip {
            seq![(ascii_bytes("Content-Encoding"@), ascii_bytes("gzip"@))]
        } else {
            Seq::<(Seq<u8>, Seq<u8>)>::empty()
        }).push((ascii_bytes("Content-Type"@), ascii_bytes("text/plain"@))));
    }
    r
}

/// The echo route: the joined remaining segments as plain text.
pub fn respond_echo(req: Request, content: &Vec<u8>) -> (r: Response)
    requires
        req.wf(),
    ensures
        r.wf(),
        r.code == Code::Okay,
        r.gzip == req.spec_gzip_requested(),
        r.content is Text,
        r.raw_content() == content@,
        r.headers.entries() == (if req.spec_gzip_requested() {
            seq![(ascii_bytes("Content-Encoding"@), ascii_bytes("gzip"@))]
        } else {
            Seq::<(Seq<u8>, Seq<u8>)>::empty()
        }).push((ascii_bytes("Content-Type"@), ascii_bytes("text/plain"@))),
{
    proof {
        reveal_strlit("Content-Type");
        reveal_strlit("text/plain");
    }
    let r = req.response().with_header(&ascii_vec("Content-Type"), &ascii_vec("text/plain"))
        .with_content(content);
    proof {
        lemma_ct_not_ce();
        assert(r.headers.entries() =~= (if r.gzip {
            seq![(ascii_bytes("Content-Encoding"@), ascii_bytes("gzip"@))]
        } else {
            Seq::<(Seq<u8>, Seq<u8>)>::empty()
        }).push((ascii_bytes("Content-Type"@), ascii_bytes("text/plain"@))));
    }
    r
}

/// The download route when the file exists: its bytes streamed as
/// an octet stream with the given total length.
pub fn respond_file_found(req: Request, data: Vec<u8>, size: u64) -> (r: Response)
    requires
        req.wf(),
    ensures
        r.wf(),
        r.code == Code::Okay,
        r.gzip == req.spec_gzip_requested(),
        r.content matches Content::Bytes(b, n) && b@ == data@ && n == size,
        r.headers.entries() == (if req.spec_gzip_requested() {
            seq![(ascii_bytes("Content-Encoding"@), ascii_bytes("gzip"@))]
        } else {
            Seq::<(Seq<u8>, Seq<u8>)>::empty()
        }).push((ascii_bytes("Content-Type"@), ascii_bytes("application/octet-stream"@))),
{
    proof {
        reveal_strlit("Content-Type");
        reveal_strlit("application/octet-stream");
    }
    let r = req.response().with_header(
        &ascii_vec("Content-Type"),
        &ascii_vec("application/octet-stream"),
    ).with_content_reader(data, size);
    proof {
        lemma_ct_not_ce();
        assert(r.headers.entries() =~= (if r.gzip {
            seq![(ascii_bytes("Content-Encoding"@), ascii_bytes("gzip"@))]
        } else {
            Seq::<(Seq<u8>, Seq<u8>)>::empty()
        }).push((ascii_bytes("Content-Type"@), ascii_bytes("application/octet-stream"@))));
    }
    r
}

/// The 404 response: an unmatched route or a missing file; empty
/// body, no body processing.
pub fn respond_not_found(req: Request) -> (r: Response)
    requires
        req.wf(),
    ensures
        r.wf(),
        r.code == Code::NotFound,
        r.gzip == req.spec_gzip_requested(),
        r.content is Text,
        r.raw_content() == Seq::<u8>::empty(),
{
    req.response().with_code(Code::NotFound)
}

/// The 201 response after an upload.
pub fn respond_created(req: Request) -> (r: Response)
    requires
        req.wf(),
    ensures
        r.wf(),
        r.code == Code::Created,
        r.gzip == req.spec_gzip_requested(),
        r.content is Text,
        r.raw_content() == Seq::<u8>::empty(),
{
    req.response().with_code(Code::Created)
}

} // verus!
