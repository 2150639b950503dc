use minihttp::auth::{base64_decode, decode_basic_auth};
use minihttp::chunked::ChunkDecoder;
use minihttp::connection::{Action, Connection, Event, Phase};
use minihttp::headers::{parse_header_bytes, parse_headers};
use minihttp::message::{decimal, request_info, response_to_bytes};
use minihttp::router::{content_type_of, file_response, route, ContentType, Dispatch, Response, Status};

fn reply_of(d: Dispatch) -> Response {
    match d {
        Dispatch::Reply(r) => r,
        Dispatch::ServeFile(p) => panic!("unexpected file route {:?}", p),
    }
}

fn written(a: Action) -> Vec<u8> {
    match a {
        Action::Write(b) => b,
        other => panic!("expected a write, got {:?}", other),
    }
}

fn text(b: &[u8]) -> String {
    String::from_utf8(b.to_vec()).unwrap()
}

#[test]
fn headers_simple_and_case_insensitive() {
    let h = parse_headers("GET / HTTP/1.1\r\nHost: example.com\r\nX-Token:  abc  \r\n\r\nbody");
    assert_eq!(h.len(), 2);
    assert_eq!(h.get(b"host").unwrap(), &vec![b"example.com".to_vec()]);
    assert_eq!(h.first(b"x-token").unwrap(), &b"abc".to_vec());
    assert!(h.get(b"Host").is_none());
}

#[test]
fn headers_duplicates_accumulate() {
    let h = parse_headers("GET / HTTP/1.1\r\nAccept: a\r\naccept: b\r\nACCEPT: c\r\n\r\n");
    assert_eq!(h.get(b"accept").unwrap(), &vec![b"a".to_vec(), b"b".to_vec(), b"c".to_vec()]);
}

#[test]
fn headers_folded_lines_concatenate() {
    let h = parse_headers("GET / HTTP/1.1\r\nX-Long: first\r\n  second \r\n\tthird\r\nHost: h\r\n\r\n");
    assert_eq!(h.first(b"x-long").unwrap(), &b"firstsecondthird".to_vec());
    assert_eq!(h.first(b"host").unwrap(), &b"h".to_vec());
}

#[test]
fn headers_malformed_lines_skipped() {
    let h = parse_headers("GET / HTTP/1.1\r\nnot a header\r\n  orphan\r\nA: 1\r\n\r\nB: 2\r\n");
    assert_eq!(h.len(), 1);
    assert_eq!(h.first(b"a").unwrap(), &b"1".to_vec());
    assert!(h.get(b"b").is_none());
}

#[test]
fn headers_empty_input() {
    assert_eq!(parse_headers("").len(), 0);
    assert_eq!(parse_header_bytes(b"GET / HTTP/1.1").len(), 0);
}

#[test]
fn headers_value_keeps_later_colons() {
    let h = parse_headers("GET / HTTP/1.1\nHost: localhost:7878\n\n");
    assert_eq!(h.first(b"host").unwrap(), &b"localhost:7878".to_vec());
}

const STREAM: &[u8] = b"4\r\nWiki\r\n5\r\npedia\r\nE\r\n in\r\n\r\nchunks.\r\n0\r\n\r\n";

#[test]
fn chunked_whole_stream() {
    let d = ChunkDecoder::new(STREAM);
    assert!(d.is_done());
    assert_eq!(d.body(), &b"Wikipedia in\r\n\r\nchunks.".to_vec());
}

#[test]
fn chunked_byte_by_byte() {
    let mut d = ChunkDecoder::new(&[]);
    let mut finished_at = None;
    for (i, b) in STREAM.iter().enumerate() {
        d.feed(&[*b]);
        if d.is_done() && finished_at.is_none() {
            finished_at = Some(i + 1);
        }
    }
    // the closing size line ends decoding; its trailing CRLF is not awaited
    assert_eq!(finished_at, Some(STREAM.len() - 2));
    assert_eq!(d.into_body(), b"Wikipedia in\r\n\r\nchunks.".to_vec());
}

#[test]
fn chunked_split_inside_size_and_payload() {
    let mut d = ChunkDecoder::new(b"0");
    d.feed(b"A\r\n0123");
    assert!(!d.is_done());
    d.feed(b"456789\r\n0\r");
    assert!(!d.is_done());
    d.feed(b"\n\r\n");
    assert!(d.is_done());
    assert_eq!(d.body(), &b"0123456789".to_vec());
}

#[test]
fn chunked_size_spellings() {
    let d = ChunkDecoder::new(b"00A\r\n0123456789\r\n1f\r\n0123456789abcdef0123456789abcde\r\n000\r\n\r\n");
    assert!(d.is_done());
    assert_eq!(d.body(), &b"01234567890123456789abcdef0123456789abcde".to_vec());
}

#[test]
fn chunked_bad_size_line_stops() {
    let d = ChunkDecoder::new(b"3\r\nabc\r\nzz\r\nmore\r\n");
    assert!(d.is_done());
    assert_eq!(d.body(), &b"abc".to_vec());
}

#[test]
fn chunked_short_stream_keeps_what_arrived() {
    let d = ChunkDecoder::new(b"3\r\nabc\r\n5\r\nxy");
    assert!(!d.is_done());
    assert_eq!(d.body(), &b"abc".to_vec());
}

#[test]
fn user_route_scenarios() {
    let ok = reply_of(route(b"GET", b"/user/42", b""));
    assert_eq!(ok.status, Status::Success);
    assert_eq!(ok.status.code(), 200);
    assert_eq!(ok.body, b"You requested user 42".to_vec());
    let bad = reply_of(route(b"GET", b"/user/abc", b""));
    assert_eq!(bad.status.code(), 400);
    assert_eq!(bad.body, b"Invalid user ID".to_vec());
    let empty = reply_of(route(b"GET", b"/user/", b""));
    assert_eq!(empty.status.code(), 400);
}

#[test]
fn static_traversal_refused() {
    let r = reply_of(route(b"GET", b"/static/../secret.txt", b""));
    assert_eq!(r.status.code(), 400);
    assert_eq!(r.body, b"Invalid path".to_vec());
    let r = reply_of(route(b"GET", b"/static/a/..b", b""));
    assert_eq!(r.body, b"Invalid path".to_vec());
}

#[test]
fn static_path_asks_for_file() {
    match route(b"GET", b"/static/css/site.css", b"") {
        Dispatch::ServeFile(p) => assert_eq!(p, b"css/site.css".to_vec()),
        other => panic!("expected a file, got {:?}", other),
    }
}

#[test]
fn delete_route_ignores_body() {
    let r = reply_of(route(b"DELETE", b"/delete", b"anything at all"));
    assert_eq!(r.status.code(), 200);
    assert_eq!(r.body, b"Delete request processed.".to_vec());
}

#[test]
fn fixed_and_mutation_routes() {
    let r = reply_of(route(b"GET", b"/", b""));
    assert_eq!(r.content_type, ContentType::Html);
    assert_eq!(r.body, b"<h1>Welcome to Rust low-level server</h1>".to_vec());
    assert_eq!(reply_of(route(b"GET", b"/hello", b"")).body, b"Hello!".to_vec());
    let api = reply_of(route(b"GET", b"/api", b""));
    assert_eq!(api.content_type, ContentType::Json);
    assert_eq!(api.body, br#"{"message": "This is JSON"}"#.to_vec());
    let post = reply_of(route(b"POST", b"/submit", b"  name=x \r\n"));
    assert_eq!(post.body, b"Received POST data: name=x".to_vec());
    let put = reply_of(route(b"PUT", b"/update", b"\tv=2"));
    assert_eq!(put.body, b"Updated data: v=2".to_vec());
}

#[test]
fn unmatched_routes_are_not_found() {
    let r = reply_of(route(b"PATCH", b"/", b""));
    assert_eq!(r.status.code(), 404);
    assert_eq!(r.body, b"Not Found".to_vec());
    assert_eq!(reply_of(route(b"POST", b"/hello", b"")).status, Status::NotFound);
    assert_eq!(reply_of(route(b"GET", b"/delete", b"")).status, Status::NotFound);
}

#[test]
fn content_types_by_extension() {
    assert_eq!(content_type_of(b"index.html"), ContentType::Html);
    assert_eq!(content_type_of(b"a/b.css"), ContentType::Css);
    assert_eq!(content_type_of(b"app.js"), ContentType::JavaScript);
    assert_eq!(content_type_of(b"d.json"), ContentType::Json);
    assert_eq!(content_type_of(b"p.png"), ContentType::Png);
    assert_eq!(content_type_of(b"p.jpg"), ContentType::Jpeg);
    assert_eq!(content_type_of(b"p.jpeg"), ContentType::Jpeg);
    assert_eq!(content_type_of(b"g.gif"), ContentType::Gif);
    assert_eq!(content_type_of(b"i.svg"), ContentType::Svg);
    assert_eq!(content_type_of(b"r.txt"), ContentType::PlainText);
    assert_eq!(content_type_of(b"archive.tar.gz"), ContentType::OctetStream);
    assert_eq!(content_type_of(b".html"), ContentType::OctetStream);
    assert_eq!(content_type_of(b"dir.html/file"), ContentType::OctetStream);
    assert_eq!(content_type_of(b"HTML.HTML"), ContentType::OctetStream);
    assert_eq!(text(&ContentType::Svg.mime()), "image/svg+xml");
}

#[test]
fn file_response_found_and_missing() {
    let r = file_response(b"x.txt", Some(b"hi".to_vec()));
    assert_eq!(r.status.code(), 200);
    assert_eq!(r.content_type, ContentType::PlainText);
    assert_eq!(r.body, b"hi".to_vec());
    let m = file_response(b"x.txt", None);
    assert_eq!(m.status.code(), 404);
    assert_eq!(m.body, b"File not found".to_vec());
}

#[test]
fn response_bytes_exact() {
    let r = reply_of(route(b"GET", b"/hello", b""));
    assert_eq!(
        text(&response_to_bytes(&r, false)),
        "HTTP/1.1 200 OK\r\nContent-Type: text/plain\r\nContent-Length: 6\r\nConnection: close\r\n\r\nHello!"
    );
    let r = reply_of(route(b"GET", b"/nowhere", b""));
    assert_eq!(
        text(&response_to_bytes(&r, true)),
        "HTTP/1.1 404 NOT FOUND\r\nContent-Type: text/plain\r\nContent-Length: 9\r\nConnection: keep-alive\r\n\r\nNot Found"
    );
}

#[test]
fn decimal_digits() {
    assert_eq!(decimal(0), b"0".to_vec());
    assert_eq!(decimal(7), b"7".to_vec());
    assert_eq!(decimal(1234567), b"1234567".to_vec());
}

#[test]
fn request_info_reads_line_headers_and_body() {
    let i = request_info(b"POST  /submit HTTP/1.1\r\nConnection: Keep-Alive\r\nTransfer-Encoding: CHUNKED\r\n\r\nrest");
    assert_eq!(i.method, b"POST".to_vec());
    assert_eq!(i.path, b"/submit".to_vec());
    assert!(i.keep_alive);
    assert!(i.chunked);
    assert_eq!(i.rest, b"rest".to_vec());
    let j = request_info(b"GET /x HTTP/1.1\r\nConnection: close\r\n");
    assert!(!j.keep_alive);
    assert!(!j.chunked);
    assert!(j.rest.is_empty());
}

#[test]
fn keep_alive_then_close() {
    let mut c = Connection::new();
    assert_eq!(c.phase(), Phase::Reading);
    let first = c.step(Event::Received(b"GET /hello HTTP/1.1\r\nConnection: keep-alive\r\n\r\n".to_vec()));
    assert!(text(&written(first)).ends_with("Connection: keep-alive\r\n\r\nHello!"));
    assert!(matches!(c.step(Event::Written), Action::Read));
    let second = c.step(Event::Received(b"GET /hello HTTP/1.1\r\n\r\n".to_vec()));
    assert!(text(&written(second)).contains("Connection: close\r\n"));
    assert!(matches!(c.step(Event::Written), Action::Close));
    assert_eq!(c.phase(), Phase::Closed);
}

#[test]
fn immediate_eof_closes_without_response() {
    let mut c = Connection::new();
    assert!(matches!(c.step(Event::Received(Vec::new())), Action::Close));
    assert_eq!(c.phase(), Phase::Closed);
    let mut d = Connection::new();
    assert!(matches!(d.step(Event::ReadFailed), Action::Close));
}

#[test]
fn connection_user_scenarios() {
    let mut c = Connection::new();
    let out = written(c.step(Event::Received(b"GET /user/42 HTTP/1.1\r\n\r\n".to_vec())));
    assert!(text(&out).starts_with("HTTP/1.1 200 OK\r\n"));
    assert!(text(&out).ends_with("\r\n\r\nYou requested user 42"));
    let mut c = Connection::new();
    let out = written(c.step(Event::Received(b"GET /user/abc HTTP/1.1\r\n\r\n".to_vec())));
    assert!(text(&out).starts_with("HTTP/1.1 400 BAD REQUEST\r\n"));
    assert!(text(&out).ends_with("Invalid user ID"));
}

#[test]
fn connection_traversal_never_reads_a_file() {
    let mut c = Connection::new();
    let out = written(c.step(Event::Received(b"GET /static/../etc/passwd HTTP/1.1\r\n\r\n".to_vec())));
    assert!(text(&out).ends_with("Invalid path"));
    assert_eq!(c.phase(), Phase::Writing);
}

#[test]
fn connection_static_file_flow() {
    let mut c = Connection::new();
    match c.step(Event::Received(b"GET /static/page.html HTTP/1.1\r\n\r\n".to_vec())) {
        Action::ReadFile(p) => assert_eq!(p, b"page.html".to_vec()),
        other => panic!("expected a file read, got {:?}", other),
    }
    assert_eq!(c.phase(), Phase::ReadingFile);
    let out = written(c.step(Event::FileRead(Some(b"<p>x</p>".to_vec()))));
    assert_eq!(
        text(&out),
        "HTTP/1.1 200 OK\r\nContent-Type: text/html\r\nContent-Length: 8\r\nConnection: close\r\n\r\n<p>x</p>"
    );
}

#[test]
fn connection_delete_with_body_and_keep_alive() {
    let mut c = Connection::new();
    let out = written(c.step(Event::Received(
        b"DELETE /delete HTTP/1.1\r\nConnection: keep-alive\r\n\r\nsome body".to_vec(),
    )));
    assert!(text(&out).starts_with("HTTP/1.1 200 OK\r\n"));
    assert!(text(&out).ends_with("Delete request processed."));
    assert!(c.keep_alive());
}

#[test]
fn connection_chunked_body_over_reads() {
    let mut c = Connection::new();
    let a = c.step(Event::Received(
        b"POST /submit HTTP/1.1\r\nTransfer-Encoding: chunked\r\n\r\n5\r\nhel".to_vec(),
    ));
    assert!(matches!(a, Action::Read));
    assert_eq!(c.phase(), Phase::ReadingBody);
    assert!(matches!(c.step(Event::Received(b"lo\r\n6\r\n worl".to_vec())), Action::Read));
    let out = written(c.step(Event::Received(b"d\r\n0\r\n\r\n".to_vec())));
    assert!(text(&out).ends_with("Received POST data: hello world"));
}

#[test]
fn connection_chunked_cut_short_uses_what_arrived() {
    let mut c = Connection::new();
    c.step(Event::Received(b"PUT /update HTTP/1.1\r\nTransfer-Encoding: chunked\r\n\r\n3\r\nabc\r\n9\r\nxy".to_vec()));
    let out = written(c.step(Event::Received(Vec::new())));
    assert!(text(&out).ends_with("Updated data: abc"));
}

#[test]
fn write_failure_closes() {
    let mut c = Connection::new();
    written(c.step(Event::Received(b"GET / HTTP/1.1\r\nConnection: keep-alive\r\n\r\n".to_vec())));
    assert!(matches!(c.step(Event::WriteFailed), Action::Close));
    assert_eq!(c.phase(), Phase::Closed);
}

#[test]
fn base64_decoding() {
    assert_eq!(base64_decode("aGVsbG8=").unwrap(), b"hello".to_vec());
    assert_eq!(base64_decode("TWFu").unwrap(), b"Man".to_vec());
    assert_eq!(base64_decode("TWE").unwrap(), b"Ma".to_vec());
    assert_eq!(base64_decode("").unwrap(), Vec::<u8>::new());
    assert_eq!(base64_decode("+/+/").unwrap(), vec![0xfb, 0xff, 0xbf]);
    assert_eq!(base64_decode("TQ==junk!").unwrap(), b"M".to_vec());
    assert!(base64_decode("a*b").is_none());
    assert!(base64_decode("aé").is_none());
}

#[test]
fn basic_auth_decoding() {
    assert_eq!(
        decode_basic_auth("Basic dXNlcjpwYXNz"),
        Some(("user".to_string(), "pass".to_string()))
    );
    assert_eq!(
        decode_basic_auth("Basic   YTpiOmM=  "),
        Some(("a".to_string(), "b:c".to_string()))
    );
    assert_eq!(decode_basic_auth("basic dXNlcjpwYXNz"), None);
    assert_eq!(decode_basic_auth("Basic dXNlcg=="), None);
    assert_eq!(decode_basic_auth("Basic !!"), None);
    // 0xff is no UTF-8
    assert_eq!(decode_basic_auth("Basic /zph"), None);
}

#[test]
fn headers_trim_unicode_whitespace() {
    let h = parse_headers("GET / HTTP/1.1\r\nA:1\u{a0}\r\n\u{3000}B \u{2003}: \u{85}two\u{2029}\r\n\r\n");
    assert_eq!(h.first(b"a").unwrap(), &b"1".to_vec());
    // a line that starts with U+3000 is no continuation: its name is trimmed
    assert_eq!(h.len(), 2);
    assert_eq!(h.first(b"b").unwrap(), &b"two".to_vec());
}

#[test]
fn headers_folded_unicode_whitespace() {
    let h = parse_headers("GET / HTTP/1.1\r\nA:1\r\n x\u{a0}\r\n\t\u{1680}y\u{202f}\r\n\r\n");
    assert_eq!(h.first(b"a").unwrap(), &b"1xy".to_vec());
}

#[test]
fn basic_auth_trims_unicode_whitespace() {
    assert_eq!(
        decode_basic_auth("Basic dTpw\u{a0}"),
        Some(("u".to_string(), "p".to_string()))
    );
    assert_eq!(
        decode_basic_auth("Basic \u{3000}dTpw\u{205f}"),
        Some(("u".to_string(), "p".to_string()))
    );
}

#[test]
fn post_echo_trims_unicode_whitespace() {
    let body = "\u{2028} data \u{a0}".as_bytes();
    let r = reply_of(route(b"POST", b"/submit", body));
    assert_eq!(r.body, b"Received POST data: data".to_vec());
    // a non-breaking space inside the text stays
    let r = reply_of(route(b"PUT", b"/update", "a\u{a0}b".as_bytes()));
    assert_eq!(r.body, "Updated data: a\u{a0}b".as_bytes().to_vec());
}

#[test]
fn request_line_splits_on_unicode_whitespace() {
    let i = request_info("GET\u{a0}/hello\u{2003}HTTP/1.1\r\n\r\n".as_bytes());
    assert_eq!(i.method, b"GET".to_vec());
    assert_eq!(i.path, b"/hello".to_vec());
}

#[test]
fn chunk_size_line_trims_unicode_whitespace() {
    let d = ChunkDecoder::new("\u{a0}3\u{3000}\r\nabc\r\n0\r\n\r\n".as_bytes());
    assert!(d.is_done());
    assert_eq!(d.body(), &b"abc".to_vec());
}
