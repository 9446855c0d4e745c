use http_server::error::HttpError;
use http_server::reader::WireReader;
use http_server::request::{
    get_headers, get_headers_with, parse_header_line, parse_request_method, parse_start_line,
    parse_version, read_body, HeaderPolicy, HttpRequest, HttpVersion, RequestMethod,
};

fn reader(bytes: &[u8]) -> WireReader {
    WireReader::new(bytes.to_vec())
}

fn parse(bytes: &[u8]) -> Result<HttpRequest, HttpError> {
    HttpRequest::from_reader(&mut reader(bytes))
}

#[test]
fn read_line_returns_the_line_without_its_terminator() {
    let mut r = reader(b"first\r\nsecond\r\n");
    assert_eq!(r.read_line(), Ok("first".to_string()));
    assert_eq!(r.available(), 8);
    assert_eq!(r.read_line(), Ok("second".to_string()));
    assert_eq!(r.available(), 0);
    assert_eq!(r.read_line(), Err(HttpError::TransportError));
}

#[test]
fn read_line_needs_both_bytes_of_the_terminator() {
    let mut r = reader(b"only a line feed\nand a return\rthen the end");
    assert_eq!(r.read_line(), Err(HttpError::TransportError));
    assert_eq!(r.available(), 42);
    let mut r = reader(b"a\rb\nc\r\nrest");
    assert_eq!(r.read_line(), Ok("a\rb\nc".to_string()));
    assert_eq!(r.available(), 4);
}

#[test]
fn read_line_on_an_empty_line() {
    let mut r = reader(b"\r\nx");
    assert_eq!(r.read_line(), Ok(String::new()));
    assert_eq!(r.available(), 1);
}

#[test]
fn read_exact_takes_exactly_what_was_asked() {
    let mut r = reader(b"hello world");
    assert_eq!(r.read_exact(5), Ok(b"hello".to_vec()));
    assert_eq!(r.read_exact(0), Ok(Vec::new()));
    assert_eq!(r.read_exact(7), Err(HttpError::TransportError));
    assert_eq!(r.available(), 6);
    assert_eq!(r.read_exact(6), Ok(b" world".to_vec()));
    assert_eq!(r.available(), 0);
}

#[test]
fn reads_do_not_lose_bytes_between_calls() {
    let mut r = reader(b"line\r\nbodyrest\r\n");
    assert_eq!(r.read_line(), Ok("line".to_string()));
    assert_eq!(r.read_exact(4), Ok(b"body".to_vec()));
    assert_eq!(r.read_line(), Ok("rest".to_string()));
}

#[test]
fn methods_are_resolved_by_exact_name() {
    assert_eq!(parse_request_method("GET"), Ok(RequestMethod::GET));
    assert_eq!(parse_request_method("POST"), Ok(RequestMethod::POST));
    assert_eq!(parse_request_method("PUT"), Ok(RequestMethod::PUT));
    assert_eq!(parse_request_method("PATCH"), Ok(RequestMethod::PATCH));
    assert_eq!(parse_request_method("DELETE"), Ok(RequestMethod::DELETE));
    assert_eq!(parse_request_method("get"), Err(HttpError::UnknownMethod));
    assert_eq!(parse_request_method("HEAD"), Err(HttpError::UnknownMethod));
    assert_eq!(parse_request_method(""), Err(HttpError::UnknownMethod));
    assert_eq!(parse_request_method("GETS"), Err(HttpError::UnknownMethod));
}

#[test]
fn versions_are_two_numbers_after_the_prefix() {
    assert_eq!(parse_version("HTTP/1.1"), Ok(HttpVersion { major: 1, minor: 1 }));
    assert_eq!(parse_version("HTTP/1.0"), Ok(HttpVersion { major: 1, minor: 0 }));
    assert_eq!(parse_version("HTTP/2.10"), Ok(HttpVersion { major: 2, minor: 10 }));
    assert_eq!(
        parse_version("HTTP/4294967295.0"),
        Ok(HttpVersion { major: 4294967295, minor: 0 })
    );
}

#[test]
fn malformed_versions_are_rejected() {
    for word in [
        "HTTP/1",
        "HTTP/1.",
        "HTTP/.1",
        "HTTP/",
        "HTTP/1.1.1",
        "HTTP/one.one",
        "HTTP/+1.1",
        "HTTP/1.-1",
        "http/1.1",
        "HTTX/1.1",
        "1.1",
        "",
        "HTTP/4294967296.0",
        "HTTP/1.99999999999999999999999999",
    ] {
        assert_eq!(parse_version(word), Err(HttpError::MalformedVersion));
    }
}

#[test]
fn start_line_gives_method_path_and_version() {
    assert_eq!(
        parse_start_line("GET /index.html HTTP/1.1"),
        Ok((RequestMethod::GET, "/index.html".to_string(), HttpVersion { major: 1, minor: 1 }))
    );
    assert_eq!(
        parse_start_line("POST /files/a HTTP/1.1"),
        Ok((RequestMethod::POST, "/files/a".to_string(), HttpVersion { major: 1, minor: 1 }))
    );
}

#[test]
fn start_line_splits_on_any_run_of_whitespace() {
    assert_eq!(
        parse_start_line("  GET \t /a\x0b\x0cHTTP/1.1  "),
        Ok((RequestMethod::GET, "/a".to_string(), HttpVersion { major: 1, minor: 1 }))
    );
}

#[test]
fn start_line_ignores_words_after_the_third() {
    assert_eq!(
        parse_start_line("GET / HTTP/1.1 and more"),
        Ok((RequestMethod::GET, "/".to_string(), HttpVersion { major: 1, minor: 1 }))
    );
}

#[test]
fn start_line_with_fewer_than_three_words_is_malformed() {
    assert_eq!(parse_start_line(""), Err(HttpError::MalformedStartLine));
    assert_eq!(parse_start_line("   "), Err(HttpError::MalformedStartLine));
    assert_eq!(parse_start_line("GET"), Err(HttpError::MalformedStartLine));
    assert_eq!(parse_start_line("GET /"), Err(HttpError::MalformedStartLine));
    assert_eq!(parse_start_line("BREW /"), Err(HttpError::MalformedStartLine));
}

#[test]
fn start_line_errors_come_in_order() {
    assert_eq!(parse_start_line("BREW / HTTP/x"), Err(HttpError::UnknownMethod));
    assert_eq!(parse_start_line("GET / HTTP/x"), Err(HttpError::MalformedVersion));
}

#[test]
fn header_line_splits_at_the_first_separator() {
    assert_eq!(
        parse_header_line("Host: localhost:4221"),
        Some(("Host".to_string(), "localhost:4221".to_string()))
    );
    assert_eq!(parse_header_line("A: b: c"), Some(("A".to_string(), "b: c".to_string())));
    assert_eq!(parse_header_line(": "), Some((String::new(), String::new())));
    assert_eq!(parse_header_line("Name: "), Some(("Name".to_string(), String::new())));
    assert_eq!(parse_header_line(" Name:  v "), Some((" Name".to_string(), " v ".to_string())));
}

#[test]
fn header_line_without_separator_gives_nothing() {
    assert_eq!(parse_header_line("Host:localhost"), None);
    assert_eq!(parse_header_line("Host"), None);
    assert_eq!(parse_header_line("Host:"), None);
    assert_eq!(parse_header_line(""), None);
}

#[test]
fn headers_are_read_up_to_the_empty_line() {
    let mut r = reader(b"Host: a\r\nUser-Agent: b\r\n\r\nbody");
    let headers = get_headers(&mut r).unwrap();
    assert_eq!(headers.len(), 2);
    assert_eq!(headers.get("Host"), Some(&"a".to_string()));
    assert_eq!(headers.get("User-Agent"), Some(&"b".to_string()));
    assert_eq!(headers.get("host"), None);
    assert_eq!(r.available(), 4);
}

#[test]
fn repeated_header_takes_the_last_value_and_keeps_its_place() {
    let mut r = reader(b"A: 1\r\nB: 2\r\nA: 3\r\n\r\n");
    let headers = get_headers(&mut r).unwrap();
    assert_eq!(headers.len(), 2);
    assert_eq!(headers.name_at(0), &"A".to_string());
    assert_eq!(headers.value_at(0), &"3".to_string());
    assert_eq!(headers.name_at(1), &"B".to_string());
    assert_eq!(headers.value_at(1), &"2".to_string());
}

#[test]
fn header_lines_without_separator_are_skipped_by_default() {
    let mut r = reader(b"A: 1\r\nnonsense\r\nB: 2\r\n\r\n");
    let headers = get_headers(&mut r).unwrap();
    assert_eq!(headers.len(), 2);
    assert!(headers.contains("A"));
    assert!(headers.contains("B"));
    assert!(!headers.contains("nonsense"));
}

#[test]
fn header_lines_without_separator_are_rejected_on_demand() {
    let mut r = reader(b"A: 1\r\nnonsense\r\nB: 2\r\n\r\n");
    let res = get_headers_with(&mut r, HeaderPolicy::Reject);
    assert_eq!(res.err(), Some(HttpError::MalformedHeaderLine));
    assert_eq!(r.available(), 8);
    let mut r = reader(b"A: 1\r\nB: 2\r\n\r\n");
    let headers = get_headers_with(&mut r, HeaderPolicy::Reject).unwrap();
    assert_eq!(headers.len(), 2);
}

#[test]
fn headers_that_never_end_are_a_transport_error() {
    let mut r = reader(b"A: 1\r\nB: 2\r\n");
    assert_eq!(get_headers(&mut r).err(), Some(HttpError::TransportError));
    let mut r = reader(b"A: 1\r\nB: 2");
    assert_eq!(get_headers(&mut r).err(), Some(HttpError::TransportError));
    assert_eq!(r.available(), 4);
    let mut r = reader(b"");
    assert_eq!(get_headers(&mut r).err(), Some(HttpError::TransportError));
}

#[test]
fn get_request_is_parsed() {
    let req = parse(b"GET /echo/abc HTTP/1.1\r\nHost: localhost\r\nAccept: */*\r\n\r\n").unwrap();
    assert_eq!(req.method, RequestMethod::GET);
    assert_eq!(req.path, "/echo/abc");
    assert_eq!(req.version, HttpVersion { major: 1, minor: 1 });
    assert_eq!(req.headers.len(), 2);
    assert_eq!(req.headers.get("Host"), Some(&"localhost".to_string()));
    assert_eq!(req.headers.get("Accept"), Some(&"*/*".to_string()));
    assert_eq!(req.body, None);
}

#[test]
fn well_formed_start_lines_keep_method_and_path() {
    for (method, name) in [(RequestMethod::GET, "GET"), (RequestMethod::POST, "POST")] {
        for path in ["/", "/a/b/c", "/files/report.txt", "*", "/q?x=1&y=2"] {
            let wire = format!("{} {} HTTP/1.1\r\n\r\n", name, path);
            let req = parse(wire.as_bytes()).unwrap();
            assert_eq!(req.method, method);
            assert_eq!(req.path, path);
        }
    }
}

#[test]
fn get_never_has_a_body() {
    let mut r = reader(b"GET / HTTP/1.1\r\nContent-Length: 4\r\n\r\nbody");
    let req = HttpRequest::from_reader(&mut r).unwrap();
    assert_eq!(req.body, None);
    assert_eq!(r.available(), 4);
}

#[test]
fn post_reads_the_declared_number_of_bytes() {
    let mut r = reader(b"POST /files/a HTTP/1.1\r\nContent-Length: 5\r\n\r\nhello and more");
    let req = HttpRequest::from_reader(&mut r).unwrap();
    assert_eq!(req.method, RequestMethod::POST);
    assert_eq!(req.body, Some(b"hello".to_vec()));
    assert_eq!(r.available(), 9);
}

#[test]
fn post_with_zero_length_has_an_empty_body() {
    let req = parse(b"POST /files/a HTTP/1.1\r\nContent-Length: 0\r\n\r\n").unwrap();
    assert_eq!(req.body, Some(Vec::new()));
}

#[test]
fn post_without_a_length_has_no_body() {
    let mut r = reader(b"POST /files/a HTTP/1.1\r\nHost: x\r\n\r\nhello");
    let req = HttpRequest::from_reader(&mut r).unwrap();
    assert_eq!(req.body, None);
    assert_eq!(r.available(), 5);
}

#[test]
fn post_with_a_length_that_is_no_number_has_no_body() {
    for value in ["five", "", "-1", "1.5", " 5", "5 ", "0x10", "99999999999999999999999999"] {
        let wire = format!("POST /f HTTP/1.1\r\nContent-Length: {}\r\n\r\nhello", value);
        let req = parse(wire.as_bytes()).unwrap();
        assert_eq!(req.body, None);
    }
}

#[test]
fn post_length_may_carry_a_plus_sign() {
    let req = parse(b"POST /f HTTP/1.1\r\nContent-Length: +3\r\n\r\nabcdef").unwrap();
    assert_eq!(req.body, Some(b"abc".to_vec()));
}

#[test]
fn post_length_name_is_case_sensitive() {
    let req = parse(b"POST /f HTTP/1.1\r\ncontent-length: 3\r\n\r\nabc").unwrap();
    assert_eq!(req.body, None);
}

#[test]
fn post_body_cut_short_is_a_transport_error() {
    let mut r = reader(b"POST /f HTTP/1.1\r\nContent-Length: 10\r\n\r\nhello");
    assert_eq!(HttpRequest::from_reader(&mut r).err(), Some(HttpError::TransportError));
    assert_eq!(r.available(), 5);
}

#[test]
fn other_methods_are_not_implemented() {
    for name in ["PUT", "PATCH", "DELETE"] {
        let wire = format!("{} /f HTTP/1.1\r\nContent-Length: 2\r\n\r\nhi", name);
        assert_eq!(parse(wire.as_bytes()).err(), Some(HttpError::NotImplemented));
    }
}

#[test]
fn request_without_a_line_is_a_transport_error() {
    assert_eq!(parse(b"").err(), Some(HttpError::TransportError));
    assert_eq!(parse(b"GET / HTTP/1.1").err(), Some(HttpError::TransportError));
    assert_eq!(parse(b"GET / HTTP/1.1\n\n").err(), Some(HttpError::TransportError));
}

#[test]
fn request_with_a_short_start_line_is_malformed() {
    assert_eq!(parse(b"\r\n\r\n").err(), Some(HttpError::MalformedStartLine));
    assert_eq!(parse(b"GET\r\n\r\n").err(), Some(HttpError::MalformedStartLine));
    assert_eq!(parse(b"GET /\r\n\r\n").err(), Some(HttpError::MalformedStartLine));
    let mut r = reader(b"GET /\r\nHost: x\r\n\r\n");
    assert_eq!(HttpRequest::from_reader(&mut r).err(), Some(HttpError::MalformedStartLine));
    assert_eq!(r.available(), 11);
}

#[test]
fn request_with_unknown_method_or_bad_version_fails() {
    assert_eq!(parse(b"FETCH / HTTP/1.1\r\n\r\n").err(), Some(HttpError::UnknownMethod));
    assert_eq!(parse(b"GET / HTTP/1\r\n\r\n").err(), Some(HttpError::MalformedVersion));
    assert_eq!(parse(b"GET / FTP/1.1\r\n\r\n").err(), Some(HttpError::MalformedVersion));
}

#[test]
fn strict_requests_reject_bad_header_lines() {
    let wire = b"GET / HTTP/1.1\r\nHost localhost\r\n\r\n";
    let lenient = HttpRequest::from_reader_with(&mut reader(wire), HeaderPolicy::Skip).unwrap();
    assert_eq!(lenient.headers.len(), 0);
    let strict = HttpRequest::from_reader_with(&mut reader(wire), HeaderPolicy::Reject);
    assert_eq!(strict.err(), Some(HttpError::MalformedHeaderLine));
}

#[test]
fn read_body_follows_method_and_headers() {
    let req = parse(b"POST /f HTTP/1.1\r\nContent-Length: 2\r\n\r\nhi").unwrap();
    let mut r = reader(b"abcdef");
    assert_eq!(read_body(&mut r, RequestMethod::GET, &req.headers), Ok(None));
    assert_eq!(read_body(&mut r, RequestMethod::POST, &req.headers), Ok(Some(b"ab".to_vec())));
    assert_eq!(read_body(&mut r, RequestMethod::PUT, &req.headers), Err(HttpError::NotImplemented));
    assert_eq!(r.available(), 4);
}

#[test]
fn line_that_is_not_utf8_is_a_transport_error() {
    let mut r = reader(b"caf\xc3\xa9\r\nbad\xff\r\nrest\r\n");
    assert_eq!(r.read_line(), Ok("caf\u{e9}".to_string()));
    assert_eq!(r.read_line(), Err(HttpError::TransportError));
    assert_eq!(r.available(), 12);
    assert_eq!(parse(b"GET /\xff HTTP/1.1\r\n\r\n").err(), Some(HttpError::TransportError));
    assert_eq!(
        parse(b"GET / HTTP/1.1\r\nX: \xc3\r\n\r\n").err(),
        Some(HttpError::TransportError)
    );
    assert_eq!(parse(b"\x80 / HTTP/1.1\r\n\r\n").err(), Some(HttpError::TransportError));
}

#[test]
fn text_beyond_ascii_is_kept_as_it_is() {
    let req = parse("GET /caf\u{e9}/\u{4e16}\u{754c} HTTP/1.1\r\nX-N\u{e4}me: v\u{e4}lue: \u{1f600}\r\n\r\n".as_bytes())
        .unwrap();
    assert_eq!(req.path, "/caf\u{e9}/\u{4e16}\u{754c}");
    assert_eq!(req.headers.get("X-N\u{e4}me"), Some(&"v\u{e4}lue: \u{1f600}".to_string()));
    assert_eq!(
        parse_header_line("\u{e9}: \u{e8}"),
        Some(("\u{e9}".to_string(), "\u{e8}".to_string()))
    );
    assert_eq!(
        parse_start_line("GET \u{e9}\u{e9} HTTP/1.1"),
        Ok((RequestMethod::GET, "\u{e9}\u{e9}".to_string(), HttpVersion { major: 1, minor: 1 }))
    );
}

#[test]
fn body_need_not_be_utf8() {
    let req = parse(b"POST /f HTTP/1.1\r\nContent-Length: 3\r\n\r\n\xff\xfe\x00").unwrap();
    assert_eq!(req.body, Some(vec![0xff, 0xfe, 0x00]));
}
