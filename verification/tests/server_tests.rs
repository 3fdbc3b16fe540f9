use minihttp::bytes::parse_u32;
use minihttp::reader::ByteReader;
use minihttp::request::{Method, ParseError, Request};
use minihttp::response::Code;
use minihttp::routes::{
    dispatch, file_path, head_complete, respond_created, respond_echo, respond_file_found,
    respond_not_found, respond_root, respond_user_agent, Route,
};

fn parse(raw: &[u8]) -> Request {
    Request::new(ByteReader::new(raw.to_vec())).expect("request should parse")
}

fn body_of(wire: &[u8]) -> (Vec<u8>, Vec<u8>) {
    let pos = wire
        .windows(4)
        .position(|w| w == b"\r\n\r\n")
        .expect("head terminator present");
    (wire[..pos + 4].to_vec(), wire[pos + 4..].to_vec())
}

#[test]
fn path_segments_nested() {
    let req = parse(b"GET /a/b/c HTTP/1.1\r\n\r\n");
    let want: Vec<Vec<u8>> = vec![b"".to_vec(), b"a".to_vec(), b"b".to_vec(), b"c".to_vec()];
    assert_eq!(req.path, want);
    assert_eq!(req.uri, b"/a/b/c".to_vec());
}

#[test]
fn path_segments_root() {
    let req = parse(b"GET / HTTP/1.1\r\n\r\n");
    let want: Vec<Vec<u8>> = vec![b"".to_vec(), b"".to_vec()];
    assert_eq!(req.path, want);
}

#[test]
fn header_lookup_case_insensitive() {
    let req = parse(b"GET / HTTP/1.1\r\nUser-Agent: foo\r\n\r\n");
    for name in [&b"user-agent"[..], &b"USER-AGENT"[..], &b"User-Agent"[..]] {
        let got = req.get_header(&name.to_vec());
        assert_eq!(got, Some(&b"foo".to_vec()));
    }
}

#[test]
fn header_split_on_first_colon() {
    let req = parse(b"GET / HTTP/1.1\r\nHost: a:b\r\n\r\n");
    assert_eq!(req.get_header(&b"host".to_vec()), Some(&b"a:b".to_vec()));
}

#[test]
fn header_without_colon_skipped_and_last_wins() {
    let req = parse(b"GET / HTTP/1.1\r\nnonsense line\r\nX-K: one\r\nX-K: two\r\n\r\n");
    assert_eq!(req.get_header(&b"x-k".to_vec()), Some(&b"two".to_vec()));
    assert_eq!(req.get_header(&b"nonsense line".to_vec()), None);
}

#[test]
fn unknown_method_is_parse_error() {
    let r = Request::new(ByteReader::new(b"BREW / HTCPCP/1.0\r\n\r\n".to_vec()));
    assert_eq!(r.err(), Some(ParseError::InvalidMethod));
    let r = Request::new(ByteReader::new(Vec::new()));
    assert_eq!(r.err(), Some(ParseError::InvalidMethod));
}

#[test]
fn echo_abc() {
    let req = parse(b"GET /echo/abc HTTP/1.1\r\n\r\n");
    assert!(matches!(req.method, Method::GET));
    let route = dispatch(req.method, &req.path);
    let content = match route {
        Route::Echo(c) => c,
        _ => panic!("expected the echo route"),
    };
    assert_eq!(content, b"abc".to_vec());
    let wire = respond_echo(req, &content).flush();
    assert_eq!(
        wire,
        b"HTTP/1.1 200 OK\r\nContent-Type: text/plain\r\nContent-Length: 3\r\n\r\nabc".to_vec()
    );
}

#[test]
fn echo_rejoins_segments() {
    let req = parse(b"GET /echo/a/b HTTP/1.1\r\n\r\n");
    match dispatch(req.method, &req.path) {
        Route::Echo(c) => assert_eq!(c, b"a/b".to_vec()),
        _ => panic!("expected the echo route"),
    }
}

#[test]
fn user_agent_route() {
    let req = parse(b"GET /user-agent HTTP/1.1\r\nUser-Agent: test-client\r\n\r\n");
    match dispatch(req.method, &req.path) {
        Route::UserAgent => {}
        _ => panic!("expected the user-agent route"),
    }
    let wire = respond_user_agent(req).flush();
    let (head, body) = body_of(&wire);
    assert_eq!(body, b"test-client".to_vec());
    assert!(head.starts_with(b"HTTP/1.1 200 OK\r\n"));
    assert_eq!(
        head,
        b"HTTP/1.1 200 OK\r\nContent-Type: text/plain\r\nContent-Length: 11\r\n\r\n".to_vec()
    );
}

#[test]
fn user_agent_absent_is_empty() {
    let req = parse(b"GET /user-agent HTTP/1.1\r\n\r\n");
    let wire = respond_user_agent(req).flush();
    let (_, body) = body_of(&wire);
    assert_eq!(body, Vec::<u8>::new());
}

#[test]
fn root_route_is_identity() {
    let req = parse(b"GET / HTTP/1.1\r\n\r\n");
    match dispatch(req.method, &req.path) {
        Route::Root => {}
        _ => panic!("expected the root route"),
    }
    let wire = respond_root(req).flush();
    assert_eq!(wire, b"HTTP/1.1 200 OK\r\nContent-Length: 0\r\n\r\n".to_vec());
}

#[test]
fn missing_file_is_404() {
    let req = parse(b"GET /files/absent.txt HTTP/1.1\r\n\r\n");
    match dispatch(req.method, &req.path) {
        Route::FileGet(name) => assert_eq!(name, b"absent.txt".to_vec()),
        _ => panic!("expected the file download route"),
    }
    let wire = respond_not_found(req).flush();
    assert_eq!(
        wire,
        b"HTTP/1.1 404 Not Found\r\nContent-Length: 0\r\n\r\n".to_vec()
    );
}

#[test]
fn unmatched_route_is_404_without_body_processing() {
    let mut req = parse(b"POST /echo/x HTTP/1.1\r\nContent-Length: 4\r\n\r\nbody");
    match dispatch(req.method, &req.path) {
        Route::NotFound => {}
        _ => panic!("expected no route"),
    }
    assert_eq!(req.body.remaining_len(), 4);
    let req2 = parse(b"GET /files HTTP/1.1\r\n\r\n");
    match dispatch(req2.method, &req2.path) {
        Route::NotFound => {}
        _ => panic!("expected no route"),
    }
    let wire = respond_not_found(req2).flush();
    assert_eq!(
        wire,
        b"HTTP/1.1 404 Not Found\r\nContent-Length: 0\r\n\r\n".to_vec()
    );
    // the 404 left the first request's body untouched
    assert_eq!(req.body.remaining_len(), 4);
    let mut sink: Vec<u8> = Vec::new();
    let moved = req.write_content(&mut sink, None);
    assert_eq!(moved, 4);
    assert_eq!(sink, b"body".to_vec());
}

#[test]
fn upload_then_download() {
    let mut req = parse(b"POST /files/f.txt HTTP/1.1\r\nContent-Length: 5\r\n\r\nhello");
    let name = match dispatch(req.method, &req.path) {
        Route::FilePost(name) => name,
        _ => panic!("expected the upload route"),
    };
    assert_eq!(name, b"f.txt".to_vec());
    let declared = req
        .get_header(&b"content-length".to_vec())
        .and_then(parse_u32);
    assert_eq!(declared, Some(5));
    let mut stored: Vec<u8> = Vec::new();
    let moved = req.write_content(&mut stored, declared);
    assert_eq!(moved, 5);
    assert_eq!(stored, b"hello".to_vec());
    let wire = respond_created(req).flush();
    assert_eq!(wire, b"HTTP/1.1 201 Created\r\nContent-Length: 0\r\n\r\n".to_vec());

    let req2 = parse(b"GET /files/f.txt HTTP/1.1\r\n\r\n");
    match dispatch(req2.method, &req2.path) {
        Route::FileGet(name) => assert_eq!(name, b"f.txt".to_vec()),
        _ => panic!("expected the download route"),
    }
    let size = stored.len() as u64;
    let wire2 = respond_file_found(req2, stored, size).flush();
    assert_eq!(
        wire2,
        b"HTTP/1.1 200 OK\r\nContent-Type: application/octet-stream\r\nContent-Length: 5\r\n\r\nhello"
            .to_vec()
    );
}

#[test]
fn write_content_never_exceeds_declared_length() {
    let mut req = parse(b"POST /files/f HTTP/1.1\r\nContent-Length: 5\r\n\r\nhello-and-much-more");
    let mut sink: Vec<u8> = Vec::new();
    let moved = req.write_content(&mut sink, Some(5));
    assert_eq!(moved, 5);
    assert_eq!(sink, b"hello".to_vec());
    assert_eq!(req.body.remaining_len(), b"-and-much-more".len());
}

#[test]
fn write_content_stops_at_input_end() {
    let mut req = parse(b"POST /files/f HTTP/1.1\r\nContent-Length: 10\r\n\r\nhi");
    let mut sink: Vec<u8> = Vec::new();
    let moved = req.write_content(&mut sink, Some(10));
    assert_eq!(moved, 2);
    assert_eq!(sink, b"hi".to_vec());
}

#[test]
fn gzip_round_trip() {
    let req = parse(b"GET /echo/abc HTTP/1.1\r\nAccept-Encoding: gzip\r\n\r\n");
    let content = match dispatch(req.method, &req.path) {
        Route::Echo(c) => c,
        _ => panic!("expected the echo route"),
    };
    let wire = respond_echo(req, &content).flush();
    let (head, body) = body_of(&wire);
    let head_text = String::from_utf8(head.clone()).unwrap();
    assert!(head_text.contains("Content-Encoding: gzip\r\n"));
    assert!(head_text.contains(&format!("Content-Length: {}\r\n", body.len())));
    // the compressed body is not the original text
    assert_ne!(body, b"abc".to_vec());
    let mut decoder = flate2::read::GzDecoder::new(body.as_slice());
    let mut plain: Vec<u8> = Vec::new();
    std::io::Read::read_to_end(&mut decoder, &mut plain).expect("valid gzip stream");
    assert_eq!(plain, b"abc".to_vec());
}

#[test]
fn gzip_negotiation_is_case_insensitive_and_token_based() {
    let req = parse(b"GET / HTTP/1.1\r\nAccept-Encoding: deflate, GZIP\r\n\r\n");
    let encodings = req.content_encodings().expect("header present");
    assert_eq!(encodings, vec![b"deflate".to_vec(), b"gzip".to_vec()]);
    let wire = respond_root(req).flush();
    let (head, body) = body_of(&wire);
    assert!(String::from_utf8(head).unwrap().contains("Content-Encoding: gzip\r\n"));
    let mut decoder = flate2::read::GzDecoder::new(body.as_slice());
    let mut plain: Vec<u8> = Vec::new();
    std::io::Read::read_to_end(&mut decoder, &mut plain).expect("valid gzip stream");
    assert_eq!(plain, Vec::<u8>::new());
}

#[test]
fn no_gzip_without_token() {
    let req = parse(b"GET /echo/abc HTTP/1.1\r\nAccept-Encoding: deflate\r\n\r\n");
    let content = match dispatch(req.method, &req.path) {
        Route::Echo(c) => c,
        _ => panic!("expected the echo route"),
    };
    let wire = respond_echo(req, &content).flush();
    let (_, body) = body_of(&wire);
    assert_eq!(body, b"abc".to_vec());
}

#[test]
fn status_codes_and_reasons() {
    assert_eq!(u16::from(Code::Okay), 200);
    assert_eq!(u16::from(Code::Created), 201);
    assert_eq!(u16::from(Code::NotFound), 404);
    assert_eq!(Code::Okay.as_str(), "OK");
    assert_eq!(Code::Created.as_str(), "Created");
    assert_eq!(Code::NotFound.as_str(), "Not Found");
}

#[test]
fn decimal_parsing() {
    assert_eq!(parse_u32(&b"123".to_vec()), Some(123));
    assert_eq!(parse_u32(&b"+7".to_vec()), Some(7));
    assert_eq!(parse_u32(&b"0".to_vec()), Some(0));
    assert_eq!(parse_u32(&b"4294967295".to_vec()), Some(u32::MAX));
    assert_eq!(parse_u32(&b"4294967296".to_vec()), None);
    assert_eq!(parse_u32(&b"".to_vec()), None);
    assert_eq!(parse_u32(&b"+".to_vec()), None);
    assert_eq!(parse_u32(&b"12a".to_vec()), None);
    assert_eq!(parse_u32(&b" 5".to_vec()), None);
}

#[test]
fn head_completion() {
    assert!(!head_complete(&b"GET / HTTP/1.1\r\n".to_vec()));
    assert!(!head_complete(&b"GET / HTTP/1.1\r\nHost: x\r\n".to_vec()));
    assert!(head_complete(&b"GET / HTTP/1.1\r\n\r\n".to_vec()));
    assert!(head_complete(&b"GET / HTTP/1.1\r\nHost: x\r\n\r\npartial body".to_vec()));
    assert!(!head_complete(&b"".to_vec()));
}

#[test]
fn file_paths_join_with_slash() {
    assert_eq!(
        file_path(&b"/srv/data".to_vec(), &b"f.txt".to_vec()),
        b"/srv/data/f.txt".to_vec()
    );
}

#[test]
fn reader_lines_and_bounded_copy() {
    let mut r = ByteReader::new(b"one\r\ntwo\nrest-of-data".to_vec());
    assert_eq!(r.read_line(), b"one\r\n".to_vec());
    assert_eq!(r.read_line(), b"two\n".to_vec());
    let mut sink: Vec<u8> = Vec::new();
    assert_eq!(r.copy_up_to(&mut sink, Some(4)), 4);
    assert_eq!(sink, b"rest".to_vec());
    assert_eq!(r.copy_up_to(&mut sink, None), b"-of-data".len());
    assert_eq!(sink, b"rest-of-data".to_vec());
    assert_eq!(r.read_line(), Vec::<u8>::new());
}

#[test]
fn body_can_arrive_after_the_head() {
    let reader = ByteReader::new(b"POST /files/f HTTP/1.1\r\nContent-Length: 8\r\n\r\nfirs".to_vec());
    let mut req = Request::new(reader).expect("request should parse");
    req.body.feed(&b"tlast".to_vec());
    let mut sink: Vec<u8> = Vec::new();
    let moved = req.write_content(&mut sink, Some(8));
    assert_eq!(moved, 8);
    assert_eq!(sink, b"firstlas".to_vec());
}
