use flate2::read::GzDecoder;
use http_server::error::HttpError;
use http_server::reader::WireReader;
use http_server::request::get_headers;
use http_server::response::{status_text_for, ContentType, HttpResponse};
use std::io::Read;

fn gunzip(stream: &[u8]) -> Vec<u8> {
    let mut out = Vec::new();
    GzDecoder::new(stream).read_to_end(&mut out).unwrap();
    out
}

fn split_head(wire: &[u8]) -> (String, Vec<u8>) {
    let at = wire.windows(4).position(|w| w == b"\r\n\r\n").unwrap();
    (String::from_utf8(wire[..at + 2].to_vec()).unwrap(), wire[at + 4..].to_vec())
}

#[test]
fn new_response_is_200_without_headers_or_body() {
    let res = HttpResponse::new();
    assert_eq!(res.status_code, 200);
    assert_eq!(res.status_text, "OK");
    assert_eq!(res.headers.len(), 0);
    assert_eq!(res.body, None);
    let res = HttpResponse::default();
    assert_eq!(res.status_code, 200);
    assert_eq!(res.headers.len(), 0);
    assert_eq!(res.body, None);
}

#[test]
fn status_text_table() {
    assert_eq!(status_text_for(200), "OK");
    assert_eq!(status_text_for(201), "Created");
    assert_eq!(status_text_for(400), "Bad Request");
    assert_eq!(status_text_for(401), "Unauthorized");
    assert_eq!(status_text_for(404), "Not Found");
}

#[test]
fn status_text_of_unknown_codes_is_the_sentinel() {
    for code in [0u16, 1, 100, 199, 202, 204, 301, 399, 402, 403, 405, 500, 65535] {
        assert_eq!(status_text_for(code), "UNKNOWN STATUS");
    }
}

#[test]
fn status_text_is_the_same_on_every_call() {
    for code in 0u16..1000 {
        assert_eq!(status_text_for(code), status_text_for(code));
    }
    let mut res = HttpResponse::new();
    res.set_status_code(404);
    let once = res.status_text.clone();
    res.set_status_code(404);
    assert_eq!(res.status_text, once);
    assert_eq!(res.status_code, 404);
}

#[test]
fn set_status_code_sets_code_and_text() {
    let mut res = HttpResponse::new();
    res.set_status_code(201);
    assert_eq!(res.status_code, 201);
    assert_eq!(res.status_text, "Created");
    res.set_status_code(418);
    assert_eq!(res.status_code, 418);
    assert_eq!(res.status_text, "UNKNOWN STATUS");
}

#[test]
fn status_line_carries_the_text_of_the_response() {
    let mut res = HttpResponse::new();
    res.status_code = 299;
    res.status_text = "Fine".to_string();
    assert_eq!(
        res.write_to_buffer(),
        Ok(b"HTTP/1.1 299 Fine\r\nContent-Length: 0\r\n\r\n".to_vec())
    );
    res.set_status_code(299);
    assert_eq!(
        res.write_to_buffer(),
        Ok(b"HTTP/1.1 299 UNKNOWN STATUS\r\nContent-Length: 0\r\n\r\n".to_vec())
    );
}

#[test]
fn set_header_overwrites_in_place() {
    let mut res = HttpResponse::new();
    res.set_header("X-One", "1");
    res.set_header("X-Two", "2");
    res.set_header("X-One", "3");
    assert_eq!(res.headers.len(), 2);
    assert_eq!(res.headers.get("X-One"), Some(&"3".to_string()));
    assert_eq!(res.headers.get("X-Two"), Some(&"2".to_string()));
    assert_eq!(res.headers.name_at(0), &"X-One".to_string());
    assert_eq!(res.headers.get("x-one"), None);
}

#[test]
fn content_type_strings() {
    assert_eq!(ContentType::TextPlain.to_string(), "text/plain");
    assert_eq!(ContentType::OctetStream.to_string(), "application/octet-stream");
    assert_eq!(ContentType::TextPlain.as_str(), "text/plain");
    assert_eq!(ContentType::OctetStream.as_str(), "application/octet-stream");
}

#[test]
fn set_content_type_sets_the_header() {
    let mut res = HttpResponse::new();
    res.set_content_type(ContentType::TextPlain);
    assert_eq!(res.headers.get("Content-Type"), Some(&"text/plain".to_string()));
    res.set_content_type(ContentType::OctetStream);
    assert_eq!(res.headers.get("Content-Type"), Some(&"application/octet-stream".to_string()));
    assert_eq!(res.headers.len(), 1);
}

#[test]
fn set_body_replaces_and_append_body_extends() {
    let mut res = HttpResponse::new();
    res.set_body(b"abc".to_vec());
    assert_eq!(res.body, Some(b"abc".to_vec()));
    assert_eq!(res.append_body(b"def".to_vec()), Ok(()));
    assert_eq!(res.body, Some(b"abcdef".to_vec()));
    assert_eq!(res.append_body(Vec::new()), Ok(()));
    assert_eq!(res.body, Some(b"abcdef".to_vec()));
    res.set_body(b"x".to_vec());
    assert_eq!(res.body, Some(b"x".to_vec()));
}

#[test]
fn append_body_without_a_body_fails() {
    let mut res = HttpResponse::new();
    res.set_header("A", "b");
    assert_eq!(res.append_body(b"abc".to_vec()), Err(HttpError::MissingBody));
    assert_eq!(res.body, None);
    assert_eq!(res.status_code, 200);
    assert_eq!(res.headers.len(), 1);
}

#[test]
fn file_content_becomes_an_octet_stream_body() {
    let mut res = HttpResponse::new();
    res.set_file_content(Ok(b"\x00\x01data".to_vec()));
    assert_eq!(res.status_code, 200);
    assert_eq!(res.body, Some(b"\x00\x01data".to_vec()));
    assert_eq!(res.headers.get("Content-Type"), Some(&"application/octet-stream".to_string()));
}

#[test]
fn file_failure_becomes_404() {
    for e in [HttpError::FileNotFound, HttpError::FileIOError] {
        let mut res = HttpResponse::new();
        res.set_file_content(Err(e));
        assert_eq!(res.status_code, 404);
        assert_eq!(res.status_text, "Not Found");
        assert_eq!(res.body, None);
        assert_eq!(res.headers.len(), 0);
    }
}

#[test]
fn response_without_body_has_length_zero() {
    let res = HttpResponse::new();
    assert_eq!(res.write_to_buffer(), Ok(b"HTTP/1.1 200 OK\r\nContent-Length: 0\r\n\r\n".to_vec()));
    let mut res = HttpResponse::new();
    res.set_status_code(404);
    assert_eq!(
        res.write_to_buffer(),
        Ok(b"HTTP/1.1 404 Not Found\r\nContent-Length: 0\r\n\r\n".to_vec())
    );
    res.set_status_code(201);
    assert_eq!(
        res.write_to_buffer(),
        Ok(b"HTTP/1.1 201 Created\r\nContent-Length: 0\r\n\r\n".to_vec())
    );
    res.set_status_code(503);
    assert_eq!(
        res.write_to_buffer(),
        Ok(b"HTTP/1.1 503 UNKNOWN STATUS\r\nContent-Length: 0\r\n\r\n".to_vec())
    );
}

#[test]
fn response_without_body_keeps_its_headers() {
    let mut res = HttpResponse::new();
    res.set_header("X-A", "1");
    res.set_header("Content-Encoding", "gzip");
    assert_eq!(
        res.write_to_buffer(),
        Ok(b"HTTP/1.1 200 OK\r\nX-A: 1\r\nContent-Encoding: gzip\r\nContent-Length: 0\r\n\r\n".to_vec())
    );
}

#[test]
fn body_gets_the_default_content_type() {
    let mut res = HttpResponse::new();
    res.set_body(b"abc123".to_vec());
    assert_eq!(
        res.write_to_buffer(),
        Ok(b"HTTP/1.1 200 OK\r\nContent-Type: text/plain\r\nContent-Length: 6\r\n\r\nabc123".to_vec())
    );
}

#[test]
fn empty_body_is_still_a_body() {
    let mut res = HttpResponse::new();
    res.set_body(Vec::new());
    assert_eq!(
        res.write_to_buffer(),
        Ok(b"HTTP/1.1 200 OK\r\nContent-Type: text/plain\r\nContent-Length: 0\r\n\r\n".to_vec())
    );
}

#[test]
fn explicit_content_type_replaces_the_default() {
    let mut res = HttpResponse::new();
    res.set_content_type(ContentType::OctetStream);
    res.set_body(b"xy".to_vec());
    assert_eq!(
        res.write_to_buffer(),
        Ok(b"HTTP/1.1 200 OK\r\nContent-Type: application/octet-stream\r\nContent-Length: 2\r\n\r\nxy"
            .to_vec())
    );
}

#[test]
fn headers_go_out_in_the_order_they_were_first_set() {
    let mut res = HttpResponse::new();
    res.set_header("B", "2");
    res.set_header("A", "1");
    res.set_header("B", "3");
    res.set_body(b"!".to_vec());
    assert_eq!(
        res.write_to_buffer(),
        Ok(b"HTTP/1.1 200 OK\r\nB: 3\r\nA: 1\r\nContent-Type: text/plain\r\nContent-Length: 1\r\n\r\n!"
            .to_vec())
    );
}

#[test]
fn handler_supplied_content_length_is_dropped() {
    let mut res = HttpResponse::new();
    res.set_header("Content-Length", "999");
    res.set_header("X-A", "1");
    res.set_body(b"four".to_vec());
    assert_eq!(
        res.write_to_buffer(),
        Ok(b"HTTP/1.1 200 OK\r\nX-A: 1\r\nContent-Type: text/plain\r\nContent-Length: 4\r\n\r\nfour"
            .to_vec())
    );
    let mut res = HttpResponse::new();
    res.set_header("Content-Length", "999");
    assert_eq!(res.write_to_buffer(), Ok(b"HTTP/1.1 200 OK\r\nContent-Length: 0\r\n\r\n".to_vec()));
}

#[test]
fn content_length_is_written_in_decimal() {
    let mut res = HttpResponse::new();
    res.set_body(vec![b'x'; 1234]);
    let wire = res.write_to_buffer().unwrap();
    let (head, body) = split_head(&wire);
    assert_eq!(head, "HTTP/1.1 200 OK\r\nContent-Type: text/plain\r\nContent-Length: 1234\r\n");
    assert_eq!(body, vec![b'x'; 1234]);
}

#[test]
fn encoded_body_is_gzip_and_length_is_of_the_stream() {
    let mut res = HttpResponse::new();
    res.set_body(b"abc123".to_vec());
    res.set_header("Content-Encoding", "gzip");
    let wire = res.write_to_buffer().unwrap();
    let (head, body) = split_head(&wire);
    assert_eq!(
        head,
        format!(
            "HTTP/1.1 200 OK\r\nContent-Encoding: gzip\r\nContent-Type: text/plain\r\nContent-Length: {}\r\n",
            body.len()
        )
    );
    assert_ne!(body, b"abc123".to_vec());
    assert_eq!(&body[..2], &[0x1f, 0x8b]);
    assert_eq!(gunzip(&body), b"abc123".to_vec());
}

#[test]
fn encoded_body_is_the_same_on_every_call() {
    let mut res = HttpResponse::new();
    res.set_body(vec![7u8; 5000]);
    res.set_header("Content-Encoding", "gzip");
    let first = res.write_to_buffer().unwrap();
    let second = res.write_to_buffer().unwrap();
    assert_eq!(first, second);
    let (_, body) = split_head(&first);
    assert!(body.len() < 5000);
    assert_eq!(gunzip(&body), vec![7u8; 5000]);
}

#[test]
fn any_content_encoding_value_compresses() {
    let mut res = HttpResponse::new();
    res.set_body(b"payload".to_vec());
    res.set_header("Content-Encoding", "identity");
    let wire = res.write_to_buffer().unwrap();
    let (_, body) = split_head(&wire);
    assert_eq!(gunzip(&body), b"payload".to_vec());
}

#[test]
fn frame_puts_the_given_payload_on_the_wire() {
    let mut res = HttpResponse::new();
    res.set_header("Content-Encoding", "gzip");
    res.set_body(b"ignored by frame".to_vec());
    assert_eq!(
        res.frame(Some(b"zz")),
        b"HTTP/1.1 200 OK\r\nContent-Encoding: gzip\r\nContent-Type: text/plain\r\nContent-Length: 2\r\n\r\nzz"
            .to_vec()
    );
    assert_eq!(
        res.frame(None),
        b"HTTP/1.1 200 OK\r\nContent-Encoding: gzip\r\nContent-Length: 0\r\n\r\n".to_vec()
    );
}

#[test]
fn serialized_body_can_be_read_back_by_its_length() {
    for body in [&b""[..], b"a", b"hello world", b"line\r\nbreaks\r\n\r\ninside", &[0u8, 255, 13, 10]] {
        let mut res = HttpResponse::new();
        res.set_header("X-Trace", "on");
        res.set_body(body.to_vec());
        let wire = res.write_to_buffer().unwrap();
        let mut reader = WireReader::new(wire);
        assert_eq!(reader.read_line(), Ok("HTTP/1.1 200 OK".to_string()));
        let headers = get_headers(&mut reader).unwrap();
        let length = headers.get("Content-Length").unwrap();
        assert_eq!(length, &body.len().to_string());
        assert_eq!(reader.read_exact(body.len()), Ok(body.to_vec()));
        assert_eq!(reader.available(), 0);
    }
}
