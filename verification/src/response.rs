//! The response model and its serializer.
//!
//! A response is a status code, headers and an optional body. Its wire form is the
//! status line, the headers, and a `Content-Length` that the serializer computes
//! itself: a header of that name set by a handler never reaches the wire.

use crate::bytes::{append_bytes, bytes_eq, is_printable, lit};
use crate::decimal::{decimal, is_digit, lemma_decimal_digits, to_decimal};
use crate::error::HttpError;
use crate::gzip::{gzip, gzip_encoded};
use crate::headers::{has_name, lemma_position_exists, lemma_upsert_lookup, position, upsert,
    Entries, Headers};
use crate::reader::crlf;
use crate::request::{body_view, header_separator};
use vstd::prelude::*;
use vstd::utf8::encode_utf8;

verus! {

/// The content types that a handler can set.
#[derive(Debug, Clone, Copy, PartialEq, Eq, Structural)]
pub enum ContentType {
    TextPlain,
    OctetStream,
}

impl ContentType {
    /// The MIME string of the content type.
    pub open spec fn mime(self) -> &'static str {
        match self {
            ContentType::TextPlain => "text/plain",
            ContentType::OctetStream => "application/octet-stream",
        }
    }

    /// The MIME string of the content type.
    pub fn as_str(&self) -> (text: &'static str)
        ensures
            text@ == self.mime()@,
            lit(text) == lit(self.mime()),
    {
        match self {
            ContentType::TextPlain => "text/plain",
            ContentType::OctetStream => "application/octet-stream",
        }
    }

    /// The MIME string of the content type, as an owned string.
    pub fn to_string(&self) -> (text: String)
        ensures
            text@ == self.mime()@,
    {
        self.as_str().to_owned()
    }
}

/// The text that goes with a status code. A code outside the table gets the
/// sentinel `UNKNOWN STATUS`.
pub open spec fn status_text(code: u16) -> &'static str {
    if code == 200 {
        "OK"
    } else if code == 201 {
        "Created"
    } else if code == 400 {
        "Bad Request"
    } else if code == 401 {
        "Unauthorized"
    } else if code == 404 {
        "Not Found"
    } else {
        "UNKNOWN STATUS"
    }
}

/// Looks up the text that goes with a status code.
pub fn status_text_for(code: u16) -> (text: &'static str)
    ensures
        text@ == status_text(code)@,
        lit(text) == lit(status_text(code)),
{
    if code == 200 {
        "OK"
    } else if code == 201 {
        "Created"
    } else if code == 400 {
        "Bad Request"
    } else if code == 401 {
        "Unauthorized"
    } else if code == 404 {
        "Not Found"
    } else {
        "UNKNOWN STATUS"
    }
}

/// The status of a response to a request for a file that could not be read.
pub const FILE_NOT_FOUND_STATUS: u16 = 404;

/// A response under construction.
#[derive(Debug, Clone)]
pub struct HttpResponse {
    pub status_code: u16,
    pub status_text: String,
    pub headers: Headers,
    pub body: Option<Vec<u8>>,
}

/// The mathematical model of a response. The status text is modelled by its bytes.
pub struct ResponseView {
    pub status_code: u16,
    pub status_text: Seq<u8>,
    pub headers: Entries,
    pub body: Option<Seq<u8>>,
}

impl View for HttpResponse {
    type V = ResponseView;

    open spec fn view(&self) -> ResponseView {
        ResponseView {
            status_code: self.status_code,
            status_text: encode_utf8(self.status_text@),
            headers: self.headers.entries(),
            body: body_view(self.body),
        }
    }
}

impl ResponseView {
    /// The response with its status set to `code`, and its status text to the text
    /// that goes with `code`.
    pub open spec fn with_status(self, code: u16) -> ResponseView {
        ResponseView { status_code: code, status_text: lit(status_text(code)), ..self }
    }

    /// Whether the status text is the one that goes with the status code, as it is
    /// in every response that got its status from `set_status_code`.
    pub open spec fn is_consistent(self) -> bool {
        self.status_text == lit(status_text(self.status_code))
    }
}

/// The response that a handler starts from: status 200 with its text, no headers, no
/// body.
pub open spec fn fresh_response() -> ResponseView {
    ResponseView { status_code: 200, status_text: lit("OK"), headers: Seq::empty(), body: None }
}

/// The status line of a response with the given code and text.
pub open spec fn status_line(code: u16, text: Seq<u8>) -> Seq<u8> {
    lit("HTTP/1.1 ") + decimal(code as nat) + lit(" ") + text + crlf()
}

/// One header as it goes on the wire.
pub open spec fn header_line(name: Seq<u8>, value: Seq<u8>) -> Seq<u8> {
    name + header_separator() + value + crlf()
}

/// The header lines of a response, in the order of its entries. An entry named
/// `Content-Length` gives no line.
pub open spec fn header_lines(entries: Entries) -> Seq<u8>
    decreases entries.len(),
{
    if entries.len() == 0 {
        Seq::empty()
    } else {
        let last = entries.last();
        header_lines(entries.drop_last()) + if last.0 == lit("Content-Length") {
            Seq::empty()
        } else {
            header_line(last.0, last.1)
        }
    }
}

/// What follows the header lines of a response: `Content-Type: text/plain` where there
/// is a payload and no content type is set, `Content-Length` with the length of the
/// payload (zero without one), the blank line, and the payload.
pub open spec fn framing(entries: Entries, payload: Option<Seq<u8>>) -> Seq<u8> {
    match payload {
        None => header_line(lit("Content-Length"), decimal(0)) + crlf(),
        Some(bytes) => (if has_name(entries, lit("Content-Type")) {
            Seq::empty()
        } else {
            header_line(lit("Content-Type"), lit("text/plain"))
        }) + header_line(lit("Content-Length"), decimal(bytes.len())) + crlf() + bytes,
    }
}

/// The wire form of a response whose body goes out as `payload`.
pub open spec fn wire_format(response: ResponseView, payload: Option<Seq<u8>>) -> Seq<u8> {
    status_line(response.status_code, response.status_text) + header_lines(response.headers)
        + framing(response.headers, payload)
}

/// Whether the body of a response is compressed on its way out: it has a body and a
/// `Content-Encoding` header.
pub open spec fn is_compressed(response: ResponseView) -> bool {
    response.body is Some && has_name(response.headers, lit("Content-Encoding"))
}

/// Whether a response cannot be serialized: its body is to be compressed, and the
/// encoder fails on it.
pub open spec fn compression_fails(response: ResponseView) -> bool {
    is_compressed(response) && gzip_encoded(response.body.unwrap()) is None
}

/// The bytes that go out as the body of a response: the body itself, or its gzip
/// stream where the response is compressed.
pub open spec fn payload_of(response: ResponseView) -> Option<Seq<u8>> {
    match response.body {
        None => None,
        Some(body) => if is_compressed(response) {
            gzip_encoded(body)
        } else {
            Some(body)
        },
    }
}

/// The wire form of a response that can be serialized.
pub open spec fn serialized(response: ResponseView) -> Seq<u8> {
    wire_format(response, payload_of(response))
}

fn append_line_end(out: &mut Vec<u8>)
    ensures
        final(out)@ == old(out)@ + crlf(),
{
    proof {
        reveal_strlit("\r\n");
        vstd::string::is_ascii_spec_bytes("\r\n");
        assert(lit("\r\n") =~= crlf());
    }
    append_bytes(out, "\r\n".as_bytes());
}

fn append_header_line(out: &mut Vec<u8>, name: &[u8], value: &[u8])
    ensures
        final(out)@ == old(out)@ + header_line(name@, value@),
{
    proof {
        reveal_strlit(": ");
        vstd::string::is_ascii_spec_bytes(": ");
        assert(lit(": ") =~= header_separator());
    }
    append_bytes(out, name);
    append_bytes(out, ": ".as_bytes());
    append_bytes(out, value);
    append_line_end(out);
    assert(final(out)@ =~= old(out)@ + header_line(name@, value@));
}

impl HttpResponse {
    /// A response with status 200, no headers and no body.
    pub fn new() -> (response: HttpResponse)
        ensures
            response@ == fresh_response(),
    {
        HttpResponse {
            status_code: 200,
            status_text: "OK".to_owned(),
            headers: Headers::new(),
            body: None,
        }
    }

    /// Sets the status code, and with it the status text.
    pub fn set_status_code(&mut self, code: u16)
        ensures
            final(self)@ == old(self)@.with_status(code),
    {
        self.status_code = code;
        self.status_text = status_text_for(code).to_owned();
    }

    /// Sets the header `key` to `val`, overwriting a value set before.
    pub fn set_header(&mut self, key: &str, val: &str)
        ensures
            final(self)@ == (ResponseView {
                headers: upsert(old(self)@.headers, lit(key), lit(val)),
                ..old(self)@
            }),
    {
        self.headers.insert(key, val);
    }

    /// Sets the `Content-Type` header to the MIME string of `content_type`.
    pub fn set_content_type(&mut self, content_type: ContentType)
        ensures
            final(self)@ == (ResponseView {
                headers: upsert(
                    old(self)@.headers,
                    lit("Content-Type"),
                    lit(content_type.mime()),
                ),
                ..old(self)@
            }),
    {
        self.set_header("Content-Type", content_type.as_str());
    }

    /// Replaces the body.
    pub fn set_body(&mut self, body: Vec<u8>)
        ensures
            final(self)@ == (ResponseView { body: Some(body@), ..old(self)@ }),
    {
        self.body = Some(body);
    }

    /// Appends `body` to the body that the response has. Fails, and changes nothing,
    /// where the response has no body.
    pub fn append_body(&mut self, body: Vec<u8>) -> (res: Result<(), HttpError>)
        ensures
            match old(self)@.body {
                Some(before) => {
                    &&& res is Ok
                    &&& final(self)@ == (ResponseView { body: Some(before + body@), ..old(self)@ })
                },
                None => {
                    &&& res == Err::<(), HttpError>(HttpError::MissingBody)
                    &&& final(self)@ == old(self)@
                },
            },
    {
        match self.body.take() {
            Some(mut bytes) => {
                append_bytes(&mut bytes, body.as_slice());
                self.body = Some(bytes);
                Ok(())
            },
            None => Err(HttpError::MissingBody),
        }
    }

    /// Fills the response from the outcome of reading a file: on success the content
    /// becomes the body, with content type `application/octet-stream`; on failure
    /// the status becomes `FILE_NOT_FOUND_STATUS`.
    pub fn set_file_content(&mut self, content: Result<Vec<u8>, HttpError>)
        ensures
            final(self)@ == file_content_set(old(self)@, content),
    {
        match content {
            Ok(data) => {
                self.set_body(data);
                self.set_content_type(ContentType::OctetStream);
            },
            Err(_) => {
                self.set_status_code(FILE_NOT_FOUND_STATUS);
            },
        }
    }

    /// Puts the response on the wire around the given payload: the status line, the
    /// headers, the computed `Content-Length`, the blank line and the payload.
    pub fn frame(&self, payload: Option<&[u8]>) -> (out: Vec<u8>)
        ensures
            out@ == wire_format(
                self@,
                match payload {
                    Some(bytes) => Some(bytes@),
                    None => None,
                },
            ),
    {
        let mut out: Vec<u8> = Vec::new();
        append_bytes(&mut out, "HTTP/1.1 ".as_bytes());
        append_bytes(&mut out, to_decimal(self.status_code as usize).as_slice());
        append_bytes(&mut out, " ".as_bytes());
        append_bytes(&mut out, self.status_text.as_str().as_bytes());
        append_line_end(&mut out);
        let ghost status = status_line(self.status_code, self@.status_text);
        assert(out@ == status);
        let ghost entries = self.headers.entries();
        let count = self.headers.len();
        let mut i: usize = 0;
        assert(entries.take(0) == Seq::<(Seq<u8>, Seq<u8>)>::empty());
        assert(out@ + Seq::<u8>::empty() == out@);
        while i < count
            invariant
                i <= count,
                count == entries.len(),
                entries == self.headers.entries(),
                out@ == status + header_lines(entries.take(i as int)),
            decreases count - i,
        {
            let name = self.headers.name_at(i);
            let value = self.headers.value_at(i);
            let ghost before = out@;
            if !bytes_eq(name.as_str().as_bytes(), "Content-Length".as_bytes()) {
                append_header_line(&mut out, name.as_str().as_bytes(), value.as_str().as_bytes());
            } else {
                assert(out@ == before + Seq::<u8>::empty());
            }
            proof {
                let next = entries.take(i + 1);
                assert(next.drop_last() == entries.take(i as int));
                assert(next.last() == entries[i as int]);
                assert(out@ == status + header_lines(next));
            }
            i += 1;
        }
        assert(entries.take(count as int) == entries);
        let ghost head = out@;
        match payload {
            Some(bytes) => {
                if !self.headers.contains("Content-Type") {
                    append_header_line(
                        &mut out,
                        "Content-Type".as_bytes(),
                        "text/plain".as_bytes(),
                    );
                } else {
                    assert(out@ == head + Seq::<u8>::empty());
                }
                append_header_line(
                    &mut out,
                    "Content-Length".as_bytes(),
                    to_decimal(bytes.len()).as_slice(),
                );
                append_line_end(&mut out);
                append_bytes(&mut out, bytes);
                assert(out@ =~= head + framing(entries, Some(bytes@)));
            },
            None => {
                append_header_line(&mut out, "Content-Length".as_bytes(), to_decimal(0).as_slice());
                append_line_end(&mut out);
                assert(out@ =~= head + framing(entries, None));
            },
        }
        out
    }

    /// Serializes the response. The body goes out as it is, or as its gzip stream where
    /// a `Content-Encoding` header is set. Fails where the body is to be compressed and
    /// the encoder fails on it, and nowhere else.
    pub fn write_to_buffer(&self) -> (res: Result<Vec<u8>, HttpError>)
        ensures
            match res {
                Ok(out) => !compression_fails(self@) && out@ == serialized(self@),
                Err(e) => compression_fails(self@) && e == HttpError::EncodingFailed,
            },
    {
        match &self.body {
            Some(body) => {
                if self.headers.contains("Content-Encoding") {
                    match gzip(body.as_slice()) {
                        Ok(stream) => Ok(self.frame(Some(stream.as_slice()))),
                        Err(_) => Err(HttpError::EncodingFailed),
                    }
                } else {
                    Ok(self.frame(Some(body.as_slice())))
                }
            },
            None => Ok(self.frame(None)),
        }
    }
}

/// A response after the outcome of reading a file was put into it.
pub open spec fn file_content_set(
    response: ResponseView,
    content: Result<Vec<u8>, HttpError>,
) -> ResponseView {
    match content {
        Ok(data) => ResponseView {
            headers: upsert(
                response.headers,
                lit("Content-Type"),
                lit(ContentType::OctetStream.mime()),
            ),
            body: Some(data@),
            ..response
        },
        Err(_) => response.with_status(FILE_NOT_FOUND_STATUS),
    }
}

impl Default for HttpResponse {
    fn default() -> (response: HttpResponse)
        ensures
            response@ == fresh_response(),
    {
        HttpResponse::new()
    }
}

/// A code outside the table gets the sentinel text.
pub proof fn lemma_status_text_sentinel(code: u16)
    requires
        code != 200 && code != 201 && code != 400 && code != 401 && code != 404,
    ensures
        status_text(code)@ == "UNKNOWN STATUS"@,
        lit(status_text(code)) == lit("UNKNOWN STATUS"),
{
}

/// Setting a status code a second time changes nothing: code and text are those of
/// the first time. A response that got its status this way is consistent.
pub proof fn lemma_set_status_code_twice(response: ResponseView, code: u16)
    ensures
        response.with_status(code).with_status(code) == response.with_status(code),
        response.with_status(code).is_consistent(),
{
}

/// The status line of a code with its text holds printable characters only, up to
/// its terminator.
pub proof fn lemma_status_line_printable(code: u16)
    ensures
        status_line(code, lit(status_text(code))).len() >= 2,
        is_printable(
            status_line(code, lit(status_text(code))).take(
                status_line(code, lit(status_text(code))).len() - 2,
            ),
        ),
{
    reveal_strlit("HTTP/1.1 ");
    reveal_strlit(" ");
    reveal_strlit("OK");
    reveal_strlit("Created");
    reveal_strlit("Bad Request");
    reveal_strlit("Unauthorized");
    reveal_strlit("Not Found");
    reveal_strlit("UNKNOWN STATUS");
    vstd::string::is_ascii_spec_bytes("HTTP/1.1 ");
    vstd::string::is_ascii_spec_bytes(" ");
    vstd::string::is_ascii_spec_bytes("OK");
    vstd::string::is_ascii_spec_bytes("Created");
    vstd::string::is_ascii_spec_bytes("Bad Request");
    vstd::string::is_ascii_spec_bytes("Unauthorized");
    vstd::string::is_ascii_spec_bytes("Not Found");
    vstd::string::is_ascii_spec_bytes("UNKNOWN STATUS");
    let prefix = lit("HTTP/1.1 ");
    let digits = decimal(code as nat);
    let space = lit(" ");
    let text = lit(status_text(code));
    assert(is_printable(prefix));
    assert(is_printable(space));
    assert(is_printable(text));
    lemma_decimal_digits(code as nat);
    assert(is_printable(digits)) by {
        assert forall|i: int| 0 <= i < digits.len() implies 32 <= #[trigger] digits[i] < 127 by {
            assert(is_digit(digits[i]));
        }
    }
    let line = status_line(code, text);
    let head = line.take(line.len() - 2);
    assert(head =~= prefix + digits + space + text);
    assert forall|i: int| 0 <= i < head.len() implies 32 <= #[trigger] head[i] < 127 by {
        if i < prefix.len() {
            assert(head[i] == prefix[i]);
        } else if i < prefix.len() + digits.len() {
            assert(head[i] == digits[i - prefix.len()]);
        } else if i < prefix.len() + digits.len() + space.len() {
            assert(head[i] == space[i - prefix.len() - digits.len()]);
        } else {
            assert(head[i] == text[i - prefix.len() - digits.len() - space.len()]);
        }
    }
}

/// The header lines of two lists of entries, one after the other, are the header lines
/// of the two lists joined.
pub proof fn lemma_header_lines_concat(a: Entries, b: Entries)
    ensures
        header_lines(a + b) == header_lines(a) + header_lines(b),
    decreases b.len(),
{
    if b.len() == 0 {
        assert(a + b =~= a);
        assert(header_lines(a) + header_lines(b) =~= header_lines(a));
    } else {
        assert((a + b).drop_last() =~= a + b.drop_last());
        assert((a + b).last() == b.last());
        lemma_header_lines_concat(a, b.drop_last());
        let line = if b.last().0 == lit("Content-Length") {
            Seq::<u8>::empty()
        } else {
            header_line(b.last().0, b.last().1)
        };
        assert(header_lines(a + b) == header_lines(a + b.drop_last()) + line);
        assert(header_lines(b) == header_lines(b.drop_last()) + line);
        assert(header_lines(a) + header_lines(b.drop_last()) + line =~= header_lines(a) + (
        header_lines(b.drop_last()) + line));
    }
}

/// The header lines of a single entry: nothing for `Content-Length`, one line for any
/// other name.
pub proof fn lemma_header_lines_single(name: Seq<u8>, value: Seq<u8>)
    ensures
        header_lines(seq![(name, value)]) == if name == lit("Content-Length") {
            Seq::<u8>::empty()
        } else {
            header_line(name, value)
        },
{
    let one = seq![(name, value)];
    assert(one.drop_last() =~= Seq::<(Seq<u8>, Seq<u8>)>::empty());
    assert(one.last() == (name, value));
    assert(header_lines(one.drop_last()) =~= Seq::<u8>::empty());
    assert(Seq::<u8>::empty() + header_line(name, value) =~= header_line(name, value));
}

/// The names `Content-Length`, `Content-Type` and `Content-Encoding` differ.
pub proof fn lemma_content_names_differ()
    ensures
        lit("Content-Length") != lit("Content-Type"),
        lit("Content-Length") != lit("Content-Encoding"),
        lit("Content-Type") != lit("Content-Encoding"),
{
    reveal_strlit("Content-Length");
    reveal_strlit("Content-Type");
    reveal_strlit("Content-Encoding");
    vstd::string::is_ascii_spec_bytes("Content-Length");
    vstd::string::is_ascii_spec_bytes("Content-Type");
    vstd::string::is_ascii_spec_bytes("Content-Encoding");
    assert(lit("Content-Length").len() == 14);
    assert(lit("Content-Type").len() == 12);
    assert(lit("Content-Encoding").len() == 16);
}

/// A `Content-Length` set by a handler never reaches the wire: the response is
/// serialized as if it had not been set.
pub proof fn lemma_content_length_is_dropped(response: ResponseView, value: Seq<u8>)
    ensures
        serialized(
            ResponseView {
                headers: upsert(response.headers, lit("Content-Length"), value),
                ..response
            },
        ) == serialized(response),
{
    let name = lit("Content-Length");
    let before = response.headers;
    let after = upsert(before, name, value);
    lemma_content_names_differ();
    lemma_upsert_lookup(before, name, value, lit("Content-Type"));
    lemma_upsert_lookup(before, name, value, lit("Content-Encoding"));
    lemma_header_lines_single(name, value);
    if has_name(before, name) {
        lemma_position_exists(before, name);
        let p = position(before, name);
        let left = before.take(p);
        let right = before.skip(p + 1);
        assert(before =~= left + seq![before[p]] + right);
        assert(after =~= left + seq![(name, value)] + right);
        lemma_header_lines_single(before[p].0, before[p].1);
        assert(seq![before[p]] =~= seq![(before[p].0, before[p].1)]);
        lemma_header_lines_concat(left, seq![before[p]]);
        lemma_header_lines_concat(left + seq![before[p]], right);
        lemma_header_lines_concat(left, seq![(name, value)]);
        lemma_header_lines_concat(left + seq![(name, value)], right);
    } else {
        lemma_header_lines_concat(before, seq![(name, value)]);
        assert(after =~= before + seq![(name, value)]);
        assert(header_lines(before) + Seq::<u8>::empty() =~= header_lines(before));
    }
    assert(header_lines(after) == header_lines(before));
}

/// A response without body ends with `Content-Length: 0` and the blank line.
pub proof fn lemma_without_body_length_is_zero(response: ResponseView)
    requires
        response.body is None,
    ensures
        serialized(response) == status_line(response.status_code, response.status_text)
            + header_lines(response.headers) + lit("Content-Length: 0\r\n\r\n"),
{
    reveal_strlit("Content-Length: 0\r\n\r\n");
    reveal_strlit("Content-Length");
    vstd::string::is_ascii_spec_bytes("Content-Length: 0\r\n\r\n");
    vstd::string::is_ascii_spec_bytes("Content-Length");
    assert(decimal(0) =~= seq![48u8]);
    assert(framing(response.headers, None) =~= lit("Content-Length: 0\r\n\r\n"));
}

/// A response with a body and a `Content-Encoding` header, where it can be serialized,
/// ends with the length of the gzip stream of its body, the blank line, and that
/// stream.
pub proof fn lemma_compressed_length(response: ResponseView)
    requires
        is_compressed(response),
        !compression_fails(response),
    ensures
        payload_of(response) == gzip_encoded(response.body.unwrap()),
        serialized(response) == status_line(response.status_code, response.status_text)
            + header_lines(response.headers) + (if has_name(response.headers, lit("Content-Type")) {
            Seq::<u8>::empty()
        } else {
            header_line(lit("Content-Type"), lit("text/plain"))
        }) + header_line(
            lit("Content-Length"),
            decimal(gzip_encoded(response.body.unwrap()).unwrap().len()),
        ) + crlf() + gzip_encoded(response.body.unwrap()).unwrap(),
{
    let stream = gzip_encoded(response.body.unwrap()).unwrap();
    let head = status_line(response.status_code, response.status_text) + header_lines(
        response.headers,
    );
    let typed = if has_name(response.headers, lit("Content-Type")) {
        Seq::<u8>::empty()
    } else {
        header_line(lit("Content-Type"), lit("text/plain"))
    };
    let length = header_line(lit("Content-Length"), decimal(stream.len()));
    assert(head + (typed + length + crlf() + stream) =~= head + typed + length + crlf() + stream);
}

} // verus!
