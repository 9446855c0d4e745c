//! The request parser: from the bytes of a connection to a structured request.
//!
//! A request is a start line of three words (method, path, version), header lines up
//! to an empty line, and, for `POST` with a declared length, a body of exactly that
//! many bytes. Every line ends with CRLF and is valid UTF-8; the body is any bytes.

use crate::bytes::{bytes_eq, find, first_occurrence, is_first_occurrence,
    is_printable, lemma_first_occurrence_found, lemma_first_occurrence_is, lit, occurs_at,
    starts_with};
use crate::decimal::{all_digits, digits_value, parse_digits, parse_usize,
    parse_usize_spec};
use crate::error::HttpError;
use crate::headers::{distinct_names, lemma_no_names, lemma_upsert_distinct, lookup, upsert,
    Entries, Headers};
use crate::reader::{crlf, lemma_single_line_without_cr, lemma_split_line_shrinks,
    lemma_text_line_of, single_line, text_line, WireReader};
use crate::text::{is_space, is_word, lemma_tokens_are_text, lemma_tokens_leading_space,
    lemma_tokens_leading_word, split_whitespace, tokens, views};
use crate::utf8::{lemma_text_after_ascii, lemma_text_cut_at_ascii, text_of};
use vstd::prelude::*;
use vstd::utf8::{encode_utf8, encode_utf8_valid_utf8, valid_utf8, valid_utf8_concat};

verus! {

/// The request methods that the parser knows.
#[derive(Debug, Clone, Copy, PartialEq, Eq, Structural)]
pub enum RequestMethod {
    GET,
    POST,
    PUT,
    PATCH,
    DELETE,
}

/// A protocol version: the two numbers of `HTTP/<major>.<minor>`.
#[derive(Debug, Clone, Copy, PartialEq, Eq, Structural)]
pub struct HttpVersion {
    pub major: u32,
    pub minor: u32,
}

/// What the parser does with a header line that holds no `": "`.
#[derive(Debug, Clone, Copy, PartialEq, Eq, Structural)]
pub enum HeaderPolicy {
    /// Pass over the line and go on.
    Skip,
    /// Fail with `MalformedHeaderLine`.
    Reject,
}

/// A parsed request.
#[derive(Debug, Clone)]
pub struct HttpRequest {
    pub method: RequestMethod,
    pub path: String,
    pub version: HttpVersion,
    pub headers: Headers,
    pub body: Option<Vec<u8>>,
}

/// The mathematical model of a request. The path and the headers are modelled by
/// their bytes.
pub struct RequestView {
    pub method: RequestMethod,
    pub path: Seq<u8>,
    pub version: HttpVersion,
    pub headers: Entries,
    pub body: Option<Seq<u8>>,
}

/// The model of an optional byte string.
pub open spec fn body_view(body: Option<Vec<u8>>) -> Option<Seq<u8>> {
    match body {
        Some(bytes) => Some(bytes@),
        None => None,
    }
}

impl View for HttpRequest {
    type V = RequestView;

    open spec fn view(&self) -> RequestView {
        RequestView {
            method: self.method,
            path: encode_utf8(self.path@),
            version: self.version,
            headers: self.headers.entries(),
            body: body_view(self.body),
        }
    }
}

/// The method that the word `word` names.
pub open spec fn method_of(word: Seq<u8>) -> Option<RequestMethod> {
    if word == lit("GET") {
        Some(RequestMethod::GET)
    } else if word == lit("POST") {
        Some(RequestMethod::POST)
    } else if word == lit("PUT") {
        Some(RequestMethod::PUT)
    } else if word == lit("PATCH") {
        Some(RequestMethod::PATCH)
    } else if word == lit("DELETE") {
        Some(RequestMethod::DELETE)
    } else {
        None
    }
}

/// The number that `s` denotes, where `s` is one or more digits and the number fits
/// 32 bits.
pub open spec fn version_number(s: Seq<u8>) -> Option<u32> {
    if s.len() > 0 && all_digits(s) && digits_value(s) <= u32::MAX {
        Some(digits_value(s) as u32)
    } else {
        None
    }
}

/// The version that the word `word` names: `HTTP/`, a number, a dot, a number.
pub open spec fn version_of(word: Seq<u8>) -> Option<HttpVersion> {
    if lit("HTTP/").is_prefix_of(word) {
        let numbers = word.skip(lit("HTTP/").len() as int);
        match first_occurrence(numbers, lit(".")) {
            Some(dot) => match (
                version_number(numbers.take(dot)),
                version_number(numbers.skip(dot + lit(".").len())),
            ) {
                (Some(major), Some(minor)) => Some(HttpVersion { major, minor }),
                _ => None,
            },
            None => None,
        }
    } else {
        None
    }
}

/// What a start line holds: the method, the path and the version, taken from its first
/// three words. Words after the third are ignored.
pub open spec fn start_line_of(line: Seq<u8>) -> Result<
    (RequestMethod, Seq<u8>, HttpVersion),
    HttpError,
> {
    let words = tokens(line);
    if words.len() < 3 {
        Err(HttpError::MalformedStartLine)
    } else {
        match method_of(words[0]) {
            None => Err(HttpError::UnknownMethod),
            Some(method) => match version_of(words[2]) {
                None => Err(HttpError::MalformedVersion),
                Some(version) => Ok((method, words[1], version)),
            },
        }
    }
}

/// The separator between a header's name and its value: a colon and a space.
pub open spec fn header_separator() -> Seq<u8> {
    seq![58u8, 32u8]
}

/// The name and the value that a header line holds: what stands before and after the
/// first `": "`. `None` where the line holds no `": "`.
pub open spec fn header_of(line: Seq<u8>) -> Option<(Seq<u8>, Seq<u8>)> {
    match first_occurrence(line, header_separator()) {
        Some(k) => Some((line.take(k), line.skip(k + 2))),
        None => None,
    }
}

/// The outcome of reading header lines from `input` into `acc`, and the input that is
/// left. Reading stops after the first empty line. It fails where the input ends
/// before that or holds a line that is not valid UTF-8, and, under
/// `HeaderPolicy::Reject`, at a line that holds no `": "`.
pub open spec fn headers_of(input: Seq<u8>, acc: Entries, policy: HeaderPolicy) -> (
    Result<Entries, HttpError>,
    Seq<u8>,
)
    decreases input.len(),
    via headers_of_decreases
{
    match text_line(input) {
        None => (Err(HttpError::TransportError), input),
        Some((line, rest)) => if line.len() == 0 {
            (Ok(acc), rest)
        } else {
            match header_of(line) {
                Some((name, value)) => headers_of(rest, upsert(acc, name, value), policy),
                None => if policy == HeaderPolicy::Reject {
                    (Err(HttpError::MalformedHeaderLine), rest)
                } else {
                    headers_of(rest, acc, policy)
                },
            }
        },
    }
}

#[via_fn]
proof fn headers_of_decreases(input: Seq<u8>, acc: Entries, policy: HeaderPolicy) {
    lemma_split_line_shrinks(input);
}

/// The body length that the headers declare: the value of `Content-Length`, where it
/// is there and is a number in decimal notation that fits the machine word.
pub open spec fn declared_length(headers: Entries) -> Option<usize> {
    match lookup(headers, lit("Content-Length")) {
        Some(value) => parse_usize_spec(value),
        None => None,
    }
}

/// The outcome of reading the body of a request with the given method and headers from
/// `input`, and the input that is left. `GET` has no body. `POST` has a body of the
/// declared length, and none where no length is declared. The other methods fail.
pub open spec fn body_of(method: RequestMethod, headers: Entries, input: Seq<u8>) -> (
    Result<Option<Seq<u8>>, HttpError>,
    Seq<u8>,
) {
    match method {
        RequestMethod::GET => (Ok(None), input),
        RequestMethod::POST => match declared_length(headers) {
            None => (Ok(None), input),
            Some(n) => if n <= input.len() {
                (Ok(Some(input.take(n as int))), input.skip(n as int))
            } else {
                (Err(HttpError::TransportError), input)
            },
        },
        _ => (Err(HttpError::NotImplemented), input),
    }
}

/// The outcome of reading one request from `input`, and the input that is left.
pub open spec fn request_of(input: Seq<u8>, policy: HeaderPolicy) -> (
    Result<RequestView, HttpError>,
    Seq<u8>,
) {
    match text_line(input) {
        None => (Err(HttpError::TransportError), input),
        Some((line, after_line)) => match start_line_of(line) {
            Err(e) => (Err(e), after_line),
            Ok((method, path, version)) => match headers_of(after_line, Seq::empty(), policy) {
                (Err(e), rest) => (Err(e), rest),
                (Ok(headers), after_headers) => match body_of(method, headers, after_headers) {
                    (Err(e), rest) => (Err(e), rest),
                    (Ok(body), rest) => (
                        Ok(RequestView { method, path, version, headers, body }),
                        rest,
                    ),
                },
            },
        },
    }
}

fn method_from(word: &[u8]) -> (res: Result<RequestMethod, HttpError>)
    ensures
        match method_of(word@) {
            Some(m) => res == Ok::<RequestMethod, HttpError>(m),
            None => res == Err::<RequestMethod, HttpError>(HttpError::UnknownMethod),
        },
{
    if bytes_eq(word, "GET".as_bytes()) {
        Ok(RequestMethod::GET)
    } else if bytes_eq(word, "POST".as_bytes()) {
        Ok(RequestMethod::POST)
    } else if bytes_eq(word, "PUT".as_bytes()) {
        Ok(RequestMethod::PUT)
    } else if bytes_eq(word, "PATCH".as_bytes()) {
        Ok(RequestMethod::PATCH)
    } else if bytes_eq(word, "DELETE".as_bytes()) {
        Ok(RequestMethod::DELETE)
    } else {
        Err(HttpError::UnknownMethod)
    }
}

/// Resolves a method name.
pub fn parse_request_method(method: &str) -> (res: Result<RequestMethod, HttpError>)
    ensures
        match method_of(lit(method)) {
            Some(m) => res == Ok::<RequestMethod, HttpError>(m),
            None => res == Err::<RequestMethod, HttpError>(HttpError::UnknownMethod),
        },
{
    method_from(method.as_bytes())
}

fn parse_version_number(s: &[u8]) -> (out: Option<u32>)
    ensures
        out == version_number(s@),
{
    match parse_digits(s) {
        Some(n) => if n <= 0xffff_ffff {
            Some(n as u32)
        } else {
            None
        },
        None => None,
    }
}

fn version_from(word: &[u8]) -> (res: Result<HttpVersion, HttpError>)
    ensures
        match version_of(word@) {
            Some(v) => res == Ok::<HttpVersion, HttpError>(v),
            None => res == Err::<HttpVersion, HttpError>(HttpError::MalformedVersion),
        },
{
    let prefix = "HTTP/".as_bytes();
    let dot_bytes = ".".as_bytes();
    proof {
        reveal_strlit(".");
        vstd::string::is_ascii_spec_bytes(".");
        assert(lit(".").len() == 1);
    }
    if !starts_with(word, prefix) {
        return Err(HttpError::MalformedVersion);
    }
    let numbers = vstd::slice::slice_subrange(word, prefix.len(), word.len());
    assert(numbers@ == word@.skip(lit("HTTP/").len() as int));
    proof {
        lemma_first_occurrence_found(numbers@, lit("."));
    }
    match find(numbers, dot_bytes) {
        Some(dot) => {
            let major = parse_version_number(vstd::slice::slice_subrange(numbers, 0, dot));
            let minor = parse_version_number(
                vstd::slice::slice_subrange(numbers, dot + 1, numbers.len()),
            );
            match (major, minor) {
                (Some(major), Some(minor)) => Ok(HttpVersion { major, minor }),
                _ => Err(HttpError::MalformedVersion),
            }
        },
        None => Err(HttpError::MalformedVersion),
    }
}

/// Resolves a version word of the form `HTTP/<major>.<minor>`.
pub fn parse_version(word: &str) -> (res: Result<HttpVersion, HttpError>)
    ensures
        match version_of(lit(word)) {
            Some(v) => res == Ok::<HttpVersion, HttpError>(v),
            None => res == Err::<HttpVersion, HttpError>(HttpError::MalformedVersion),
        },
{
    version_from(word.as_bytes())
}

/// Parses a start line, given without its terminator.
pub fn parse_start_line(line: &str) -> (res: Result<(RequestMethod, String, HttpVersion), HttpError>)
    ensures
        match start_line_of(lit(line)) {
            Ok((method, path, version)) => {
                &&& res matches Ok(parts)
                &&& parts.0 == method
                &&& encode_utf8(parts.1@) == path
                &&& parts.2 == version
            },
            Err(e) => res matches Err(err) && err == e,
        },
{
    let words = split_whitespace(line.as_bytes());
    if words.len() < 3 {
        return Err(HttpError::MalformedStartLine);
    }
    assert(views(words@)[0] == words@[0]@);
    assert(views(words@)[1] == words@[1]@);
    assert(views(words@)[2] == words@[2]@);
    let method = match method_from(words[0].as_slice()) {
        Ok(m) => m,
        Err(e) => {
            return Err(e);
        },
    };
    let version = match version_from(words[2].as_slice()) {
        Ok(v) => v,
        Err(e) => {
            return Err(e);
        },
    };
    proof {
        encode_utf8_valid_utf8(line@);
        lemma_tokens_are_text(lit(line));
    }
    let path = text_of(words[1].as_slice());
    Ok((method, path, version))
}

/// Parses a header line, given without its terminator, into name and value.
pub fn parse_header_line(line: &str) -> (res: Option<(String, String)>)
    ensures
        match header_of(lit(line)) {
            Some((name, value)) => {
                &&& res matches Some(pair)
                &&& encode_utf8(pair.0@) == name
                &&& encode_utf8(pair.1@) == value
            },
            None => res is None,
        },
{
    let bytes = line.as_bytes();
    proof {
        reveal_strlit(": ");
        vstd::string::is_ascii_spec_bytes(": ");
        assert(lit(": ") == header_separator());
        lemma_first_occurrence_found(bytes@, header_separator());
        encode_utf8_valid_utf8(line@);
    }
    match find(bytes, ": ".as_bytes()) {
        Some(k) => {
            let end: usize = bytes.len();
            assert(occurs_at(bytes@, header_separator(), k as int));
            assert(k + 2 <= end);
            let name = vstd::slice::slice_subrange(bytes, 0, k);
            let value = vstd::slice::slice_subrange(bytes, k + 2, end);
            proof {
                let tail = bytes@.skip(k as int);
                assert(bytes@.subrange(k as int, k + 2)[0] == bytes@[k as int]);
                assert(bytes@.subrange(k as int, k + 2)[1] == bytes@[k + 1]);
                lemma_text_cut_at_ascii(bytes@, k as int);
                assert(tail[0] == bytes@[k as int]);
                lemma_text_after_ascii(tail);
                assert(tail.skip(1)[0] == bytes@[k + 1]);
                lemma_text_after_ascii(tail.skip(1));
                assert(tail.skip(1).skip(1) =~= bytes@.skip(k + 2));
                assert(name@ =~= bytes@.take(k as int));
                assert(value@ =~= bytes@.skip(k + 2));
            }
            Some((text_of(name), text_of(value)))
        },
        None => None,
    }
}

/// Reads header lines up to and including the empty line, passing over lines that
/// hold no `": "`.
pub fn get_headers(buf: &mut WireReader) -> (res: Result<Headers, HttpError>)
    ensures
        final(buf).remaining() == headers_of(
            old(buf).remaining(),
            Seq::empty(),
            HeaderPolicy::Skip,
        ).1,
        match headers_of(old(buf).remaining(), Seq::empty(), HeaderPolicy::Skip).0 {
            Ok(entries) => res matches Ok(headers) && headers.entries() == entries,
            Err(e) => res matches Err(err) && err == e,
        },
        res matches Ok(headers) ==> distinct_names(headers.entries()),
{
    get_headers_with(buf, HeaderPolicy::Skip)
}

/// Reads header lines up to and including the empty line. `policy` says what to do
/// with a line that holds no `": "`.
pub fn get_headers_with(buf: &mut WireReader, policy: HeaderPolicy) -> (res: Result<
    Headers,
    HttpError,
>)
    ensures
        final(buf).remaining() == headers_of(old(buf).remaining(), Seq::empty(), policy).1,
        match headers_of(old(buf).remaining(), Seq::empty(), policy).0 {
            Ok(entries) => res matches Ok(headers) && headers.entries() == entries,
            Err(e) => res matches Err(err) && err == e,
        },
        res matches Ok(headers) ==> distinct_names(headers.entries()),
{
    let mut headers = Headers::new();
    loop
        invariant
            distinct_names(headers.entries()),
            headers_of(old(buf).remaining(), Seq::empty(), policy) == headers_of(
                buf.remaining(),
                headers.entries(),
                policy,
            ),
        decreases buf.remaining().len(),
    {
        proof {
            lemma_split_line_shrinks(buf.remaining());
        }
        let line = match buf.read_line() {
            Ok(line) => line,
            Err(e) => {
                return Err(e);
            },
        };
        if line.as_str().as_bytes().len() == 0 {
            return Ok(headers);
        }
        match parse_header_line(line.as_str()) {
            Some((name, value)) => {
                headers.insert(name.as_str(), value.as_str());
            },
            None => {
                if policy == HeaderPolicy::Reject {
                    return Err(HttpError::MalformedHeaderLine);
                }
            },
        }
    }
}

/// Reads the body that a request with the given method and headers carries.
pub fn read_body(buf: &mut WireReader, method: RequestMethod, headers: &Headers) -> (res: Result<
    Option<Vec<u8>>,
    HttpError,
>)
    ensures
        final(buf).remaining() == body_of(method, headers.entries(), old(buf).remaining()).1,
        match body_of(method, headers.entries(), old(buf).remaining()).0 {
            Ok(body) => res matches Ok(bytes) && body_view(bytes) == body,
            Err(e) => res matches Err(err) && err == e,
        },
{
    match method {
        RequestMethod::GET => Ok(None),
        RequestMethod::POST => {
            let declared = match headers.get("Content-Length") {
                Some(value) => parse_usize(value.as_str().as_bytes()),
                None => None,
            };
            match declared {
                Some(n) => match buf.read_exact(n) {
                    Ok(bytes) => Ok(Some(bytes)),
                    Err(e) => Err(e),
                },
                None => Ok(None),
            }
        },
        _ => Err(HttpError::NotImplemented),
    }
}

impl HttpRequest {
    /// Reads one request, passing over header lines that hold no `": "`.
    pub fn from_reader(buf: &mut WireReader) -> (res: Result<HttpRequest, HttpError>)
        ensures
            final(buf).remaining() == request_of(old(buf).remaining(), HeaderPolicy::Skip).1,
            match request_of(old(buf).remaining(), HeaderPolicy::Skip).0 {
                Ok(request) => res matches Ok(req) && req@ == request,
                Err(e) => res matches Err(err) && err == e,
            },
            res matches Ok(req) ==> distinct_names(req@.headers),
    {
        HttpRequest::from_reader_with(buf, HeaderPolicy::Skip)
    }

    /// Reads one request. `policy` says what to do with a header line that holds no
    /// `": "`.
    pub fn from_reader_with(buf: &mut WireReader, policy: HeaderPolicy) -> (res: Result<
        HttpRequest,
        HttpError,
    >)
        ensures
            final(buf).remaining() == request_of(old(buf).remaining(), policy).1,
            match request_of(old(buf).remaining(), policy).0 {
                Ok(request) => res matches Ok(req) && req@ == request,
                Err(e) => res matches Err(err) && err == e,
            },
            res matches Ok(req) ==> distinct_names(req@.headers),
    {
        proof {
            lemma_request_of_distinct(buf.remaining(), policy);
        }
        let line = match buf.read_line() {
            Ok(line) => line,
            Err(e) => {
                return Err(e);
            },
        };
        let (method, path, version) = match parse_start_line(line.as_str()) {
            Ok(parts) => parts,
            Err(e) => {
                return Err(e);
            },
        };
        let headers = match get_headers_with(buf, policy) {
            Ok(headers) => headers,
            Err(e) => {
                return Err(e);
            },
        };
        let body = match read_body(buf, method, &headers) {
            Ok(body) => body,
            Err(e) => {
                return Err(e);
            },
        };
        Ok(HttpRequest { method, path, version, headers, body })
    }
}

/// The name of a method, as it stands in a start line.
pub open spec fn method_name(method: RequestMethod) -> Seq<u8> {
    match method {
        RequestMethod::GET => lit("GET"),
        RequestMethod::POST => lit("POST"),
        RequestMethod::PUT => lit("PUT"),
        RequestMethod::PATCH => lit("PATCH"),
        RequestMethod::DELETE => lit("DELETE"),
    }
}

/// The start line of a request for `path` with the given method, in version 1.1.
pub open spec fn start_line(method: RequestMethod, path: Seq<u8>) -> Seq<u8> {
    method_name(method) + lit(" ") + path + lit(" ") + lit("HTTP/1.1")
}

/// Version 1.1 of the protocol.
pub open spec fn version_1_1() -> HttpVersion {
    HttpVersion { major: 1, minor: 1 }
}

/// The name of every method is a word, and names that method.
pub proof fn lemma_method_names(method: RequestMethod)
    ensures
        is_word(method_name(method)),
        is_printable(method_name(method)),
        method_of(method_name(method)) == Some(method),
{
    reveal_strlit("GET");
    reveal_strlit("POST");
    reveal_strlit("PUT");
    reveal_strlit("PATCH");
    reveal_strlit("DELETE");
    vstd::string::is_ascii_spec_bytes("GET");
    vstd::string::is_ascii_spec_bytes("POST");
    vstd::string::is_ascii_spec_bytes("PUT");
    vstd::string::is_ascii_spec_bytes("PATCH");
    vstd::string::is_ascii_spec_bytes("DELETE");
    assert(lit("GET") =~= seq![71u8, 69u8, 84u8]);
    assert(lit("POST") =~= seq![80u8, 79u8, 83u8, 84u8]);
    assert(lit("PUT") =~= seq![80u8, 85u8, 84u8]);
    assert(lit("PATCH") =~= seq![80u8, 65u8, 84u8, 67u8, 72u8]);
    assert(lit("DELETE") =~= seq![68u8, 69u8, 76u8, 69u8, 84u8, 69u8]);
    assert(lit("PUT")[0] != lit("GET")[0]);
}

/// The word `HTTP/1.1` names version 1.1.
pub proof fn lemma_version_word()
    ensures
        is_word(lit("HTTP/1.1")),
        is_printable(lit("HTTP/1.1")),
        version_of(lit("HTTP/1.1")) == Some(version_1_1()),
{
    reveal_strlit("HTTP/1.1");
    reveal_strlit("HTTP/");
    reveal_strlit(".");
    vstd::string::is_ascii_spec_bytes("HTTP/1.1");
    vstd::string::is_ascii_spec_bytes("HTTP/");
    vstd::string::is_ascii_spec_bytes(".");
    let word = lit("HTTP/1.1");
    assert(word =~= seq![72u8, 84u8, 84u8, 80u8, 47u8, 49u8, 46u8, 49u8]);
    assert(lit("HTTP/") =~= seq![72u8, 84u8, 84u8, 80u8, 47u8]);
    assert(lit(".") =~= seq![46u8]);
    assert(word.subrange(0, 5) =~= lit("HTTP/"));
    let numbers = word.skip(5);
    assert(numbers =~= seq![49u8, 46u8, 49u8]);
    assert(numbers.subrange(1, 2) =~= lit("."));
    assert(!occurs_at(numbers, lit("."), 0)) by {
        assert(numbers.subrange(0, 1)[0] == 49);
    }
    assert(is_first_occurrence(numbers, lit("."), 1));
    lemma_first_occurrence_is(numbers, lit("."), 1);
    let one = seq![49u8];
    assert(numbers.take(1) =~= one);
    assert(numbers.skip(2) =~= one);
    assert(one.drop_last().len() == 0);
    assert(digits_value(one.drop_last()) == 0);
    assert(digits_value(one) == 1);
}

/// A start line made of a method's name, a path that is one word, and `HTTP/1.1`,
/// with single spaces between them, parses to that method, that path and version 1.1.
pub proof fn lemma_start_line_parses(method: RequestMethod, path: Seq<u8>)
    requires
        is_word(path),
    ensures
        start_line_of(start_line(method, path)) == Ok::<
            (RequestMethod, Seq<u8>, HttpVersion),
            HttpError,
        >((method, path, version_1_1())),
{
    lemma_method_names(method);
    lemma_version_word();
    reveal_strlit(" ");
    vstd::string::is_ascii_spec_bytes(" ");
    let space = lit(" ");
    assert(space =~= seq![32u8]);
    let name = method_name(method);
    let version = lit("HTTP/1.1");
    let line = start_line(method, path);
    let after_name = space + (path + (space + version));
    let after_path = space + version;
    assert(line =~= name + after_name);
    lemma_tokens_leading_word(name, after_name);
    lemma_tokens_leading_space(space, path + after_path);
    lemma_tokens_leading_word(path, after_path);
    lemma_tokens_leading_space(space, version);
    assert(version + Seq::<u8>::empty() =~= version);
    lemma_tokens_leading_word(version, Seq::empty());
    assert(tokens(Seq::<u8>::empty()) =~= Seq::<Seq<u8>>::empty());
    assert(tokens(line) =~= seq![name, path, version]);
}

/// A start line with fewer than three words is malformed, and no other is.
pub proof fn lemma_short_start_line(line: Seq<u8>)
    ensures
        tokens(line).len() < 3 <==> start_line_of(line) == Err::<
            (RequestMethod, Seq<u8>, HttpVersion),
            HttpError,
        >(HttpError::MalformedStartLine),
{
}

/// A request whose first line has fewer than three words fails as malformed, whatever
/// follows that line.
pub proof fn lemma_short_start_line_fails(input: Seq<u8>, policy: HeaderPolicy)
    requires
        text_line(input) is Some,
        tokens(text_line(input).unwrap().0).len() < 3,
    ensures
        request_of(input, policy).0 == Err::<RequestView, HttpError>(
            HttpError::MalformedStartLine,
        ),
{
}

/// A start line made as `start_line` makes it, for a path that is one word of text,
/// is text and holds no line terminator.
pub proof fn lemma_start_line_single(method: RequestMethod, path: Seq<u8>)
    requires
        is_word(path),
        valid_utf8(path),
    ensures
        single_line(start_line(method, path)),
        valid_utf8(start_line(method, path)),
{
    assert(valid_utf8(start_line(method, path))) by {
        let name = method_name(method);
        assert(valid_utf8(name)) by {
            encode_utf8_valid_utf8("GET"@);
            encode_utf8_valid_utf8("POST"@);
            encode_utf8_valid_utf8("PUT"@);
            encode_utf8_valid_utf8("PATCH"@);
            encode_utf8_valid_utf8("DELETE"@);
        }
        encode_utf8_valid_utf8(" "@);
        encode_utf8_valid_utf8("HTTP/1.1"@);
        valid_utf8_concat(name, lit(" "));
        valid_utf8_concat(name + lit(" "), path);
        valid_utf8_concat(name + lit(" ") + path, lit(" "));
        valid_utf8_concat(name + lit(" ") + path + lit(" "), lit("HTTP/1.1"));
    }
    lemma_method_names(method);
    lemma_version_word();
    reveal_strlit(" ");
    vstd::string::is_ascii_spec_bytes(" ");
    let space = lit(" ");
    assert(space =~= seq![32u8]);
    let name = method_name(method);
    let version = lit("HTTP/1.1");
    let line = start_line(method, path);
    assert forall|i: int| 0 <= i < line.len() implies line[i] != 13 by {
        if i < name.len() {
            assert(line[i] == name[i]);
            assert(!is_space(name[i]));
        } else if i < name.len() + 1 {
            assert(line[i] == space[i - name.len()]);
        } else if i < name.len() + 1 + path.len() {
            assert(line[i] == path[i - name.len() - 1]);
            assert(!is_space(path[i - name.len() - 1]));
        } else if i < name.len() + 1 + path.len() + 1 {
            assert(line[i] == space[i - name.len() - 1 - path.len()]);
        } else {
            assert(line[i] == version[i - name.len() - path.len() - 2]);
            assert(!is_space(version[i - name.len() - path.len() - 2]));
        }
    }
    lemma_single_line_without_cr(line);
}

/// A `GET` or `POST` request whose start line is made as `start_line` makes it, for a
/// path that is one word of text, parses to that method and that path, or fails while its
/// headers or its body are read. Where nothing but the blank line follows the start
/// line, it parses to a request without headers and without body.
pub proof fn lemma_request_keeps_method_and_path(
    method: RequestMethod,
    path: Seq<u8>,
    rest: Seq<u8>,
    policy: HeaderPolicy,
)
    requires
        method == RequestMethod::GET || method == RequestMethod::POST,
        is_word(path),
        valid_utf8(path),
    ensures
        match request_of(start_line(method, path) + crlf() + rest, policy).0 {
            Ok(request) => {
                &&& request.method == method
                &&& request.path == path
                &&& request.version == version_1_1()
            },
            Err(e) => e == HttpError::TransportError || e == HttpError::MalformedHeaderLine,
        },
        rest == crlf() ==> request_of(start_line(method, path) + crlf() + rest, policy) == (
            Ok::<RequestView, HttpError>(
                RequestView {
                    method,
                    path,
                    version: version_1_1(),
                    headers: Seq::empty(),
                    body: None,
                },
            ),
            Seq::<u8>::empty(),
        ),
{
    let line = start_line(method, path);
    lemma_start_line_single(method, path);
    lemma_text_line_of(line, rest);
    lemma_start_line_parses(method, path);
    lemma_headers_of_outcome(rest, Seq::empty(), policy);
    if rest == crlf() {
        assert(Seq::<u8>::empty() + crlf() + Seq::<u8>::empty() =~= crlf());
        lemma_single_line_without_cr(Seq::empty());
        lemma_text_line_of(Seq::empty(), Seq::empty());
        lemma_no_names(lit("Content-Length"));
        assert(headers_of(rest, Seq::empty(), policy) == (
            Ok::<Entries, HttpError>(Seq::empty()),
            Seq::<u8>::empty(),
        ));
    }
}

/// Headers read into a collection without repeated names hold no name twice.
pub proof fn lemma_headers_of_distinct(input: Seq<u8>, acc: Entries, policy: HeaderPolicy)
    requires
        distinct_names(acc),
    ensures
        headers_of(input, acc, policy).0 matches Ok(headers) ==> distinct_names(headers),
    decreases input.len(),
{
    lemma_split_line_shrinks(input);
    match text_line(input) {
        None => {},
        Some((line, rest)) => {
            if line.len() != 0 {
                match header_of(line) {
                    Some((name, value)) => {
                        lemma_upsert_distinct(acc, name, value);
                        lemma_headers_of_distinct(rest, upsert(acc, name, value), policy);
                    },
                    None => {
                        if policy != HeaderPolicy::Reject {
                            lemma_headers_of_distinct(rest, acc, policy);
                        }
                    },
                }
            }
        },
    }
}

/// A request that was read holds no header name twice.
pub proof fn lemma_request_of_distinct(input: Seq<u8>, policy: HeaderPolicy)
    ensures
        request_of(input, policy).0 matches Ok(request) ==> distinct_names(request.headers),
{
    match text_line(input) {
        None => {},
        Some((line, after_line)) => {
            lemma_headers_of_distinct(after_line, Seq::empty(), policy);
        },
    }
}

/// Reading headers fails only where the input ends too early, or, under
/// `HeaderPolicy::Reject`, at a line without separator.
pub proof fn lemma_headers_of_outcome(input: Seq<u8>, acc: Entries, policy: HeaderPolicy)
    ensures
        match headers_of(input, acc, policy).0 {
            Ok(_) => true,
            Err(e) => e == HttpError::TransportError || (policy == HeaderPolicy::Reject && e
                == HttpError::MalformedHeaderLine),
        },
    decreases input.len(),
{
    lemma_split_line_shrinks(input);
    match text_line(input) {
        None => {},
        Some((line, rest)) => {
            if line.len() != 0 {
                match header_of(line) {
                    Some((name, value)) => {
                        lemma_headers_of_outcome(rest, upsert(acc, name, value), policy);
                    },
                    None => {
                        if policy != HeaderPolicy::Reject {
                            lemma_headers_of_outcome(rest, acc, policy);
                        }
                    },
                }
            }
        },
    }
}

} // verus!
