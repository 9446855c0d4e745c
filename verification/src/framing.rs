//! Framing: a receiver that reads a serialized response line by line, and then as many
//! bytes as `Content-Length` says, gets the body that was sent.

use crate::bytes::{free_of, is_first_occurrence, is_printable, lemma_first_occurrence_found,
    lemma_first_occurrence_is, lit, occurs_at};
use crate::decimal::{decimal, is_digit, lemma_decimal_digits, lemma_parse_decimal_roundtrip};
use crate::error::HttpError;
use crate::headers::{has_name, lemma_upsert_lookup, lookup, upsert, Entries};
use crate::reader::{crlf, lemma_single_line_concat, lemma_single_line_without_cr,
    lemma_text_line_of, single_line, text_line};
use crate::utf8::{is_ascii_bytes, lemma_ascii_is_text};
use crate::request::{body_of, declared_length, header_of, header_separator, headers_of,
    HeaderPolicy, RequestMethod};
use crate::response::{framing, header_line, header_lines, lemma_header_lines_concat,
    lemma_header_lines_single, lemma_status_line_printable, serialized, status_line, ResponseView};
use vstd::prelude::*;
use vstd::utf8::{encode_utf8_valid_utf8, valid_utf8, valid_utf8_concat};

verus! {

/// Whether `s` is text that fits on one line: valid UTF-8 without line terminator.
pub open spec fn is_line(s: Seq<u8>) -> bool {
    single_line(s) && valid_utf8(s)
}

/// Whether every header that goes on the wire holds text without line terminator, in
/// its name and in its value.
pub open spec fn headers_on_single_lines(entries: Entries) -> bool {
    forall|i: int|
        0 <= i < entries.len() && (#[trigger] entries[i]).0 != lit("Content-Length")
            ==> is_line(entries[i].0) && is_line(entries[i].1)
}

/// A header put on one line is read back as a header. Where its name holds no colon,
/// it is read back as it was written.
pub proof fn lemma_header_line_read_back(name: Seq<u8>, value: Seq<u8>)
    ensures
        header_of(name + header_separator() + value) is Some,
        free_of(name, 58) ==> header_of(name + header_separator() + value) == Some(
            (name, value),
        ),
{
    let sep = header_separator();
    let line = name + sep + value;
    let n = name.len() as int;
    assert(line.subrange(n, n + 2) =~= sep);
    assert(occurs_at(line, sep, n));
    lemma_first_occurrence_found(line, sep);
    if free_of(name, 58) {
        assert forall|j: int| 0 <= j < n implies !occurs_at(line, sep, j) by {
            if occurs_at(line, sep, j) {
                assert(line.subrange(j, j + 2)[0] == line[j]);
                assert(line[j] == name[j]);
            }
        }
        assert(is_first_occurrence(line, sep, n));
        lemma_first_occurrence_is(line, sep, n);
        assert(line.take(n) =~= name);
        assert(line.skip(n + 2) =~= value);
    }
}

/// A header whose name and value are lines goes on the wire as one line that is not
/// empty.
proof fn lemma_header_on_one_line(name: Seq<u8>, value: Seq<u8>)
    requires
        is_line(name),
        is_line(value),
    ensures
        is_line(name + header_separator() + value),
        (name + header_separator() + value).len() > 0,
{
    let sep = header_separator();
    assert(is_ascii_bytes(sep));
    lemma_ascii_is_text(sep);
    valid_utf8_concat(name, sep);
    valid_utf8_concat(name + sep, value);
    assert forall|i: int| 0 <= i < sep.len() implies sep[i] != 13 by {}
    lemma_single_line_without_cr(sep);
    lemma_single_line_concat(name, sep);
    assert((name + sep).last() == sep[1]);
    lemma_single_line_concat(name + sep, value);
}

/// The name and the value that a receiver reads from the line of a header.
pub open spec fn read_back(name: Seq<u8>, value: Seq<u8>) -> (Seq<u8>, Seq<u8>) {
    header_of(name + header_separator() + value).unwrap()
}

/// A receiver that reads the line of a header whose name and value hold no line
/// terminator takes it for one header, and goes on with what follows the line.
proof fn lemma_read_header_line(
    name: Seq<u8>,
    value: Seq<u8>,
    acc: Entries,
    tail: Seq<u8>,
    policy: HeaderPolicy,
)
    requires
        is_line(name),
        is_line(value),
    ensures
        headers_of(header_line(name, value) + tail, acc, policy) == headers_of(
            tail,
            upsert(acc, read_back(name, value).0, read_back(name, value).1),
            policy,
        ),
        free_of(name, 58) ==> read_back(name, value) == (name, value),
{
    let line = name + header_separator() + value;
    assert(header_line(name, value) + tail =~= line + crlf() + tail);
    lemma_header_on_one_line(name, value);
    lemma_text_line_of(line, tail);
    lemma_header_line_read_back(name, value);
}

/// A receiver that reads the blank line has read all headers, and stands before the
/// body.
proof fn lemma_read_blank_line(acc: Entries, body: Seq<u8>, policy: HeaderPolicy)
    ensures
        headers_of(crlf() + body, acc, policy) == (Ok::<Entries, HttpError>(acc), body),
{
    assert(crlf() + body =~= Seq::<u8>::empty() + crlf() + body);
    lemma_single_line_without_cr(Seq::empty());
    lemma_text_line_of(Seq::empty(), body);
}

/// The headers that a receiver has gathered, starting from `acc`, after it has read
/// the header lines of `entries`.
spec fn reread(entries: Entries, acc: Entries) -> Entries
    decreases entries.len(),
{
    if entries.len() == 0 {
        acc
    } else {
        let first = entries[0];
        let rest = entries.drop_first();
        if first.0 == lit("Content-Length") {
            reread(rest, acc)
        } else {
            match header_of(first.0 + header_separator() + first.1) {
                Some((name, value)) => reread(rest, upsert(acc, name, value)),
                None => reread(rest, acc),
            }
        }
    }
}

/// Reading the header lines of `entries` leaves the receiver before what follows them.
proof fn lemma_headers_reread(entries: Entries, acc: Entries, tail: Seq<u8>, policy: HeaderPolicy)
    requires
        headers_on_single_lines(entries),
    ensures
        headers_of(header_lines(entries) + tail, acc, policy) == headers_of(
            tail,
            reread(entries, acc),
            policy,
        ),
    decreases entries.len(),
{
    if entries.len() == 0 {
        assert(header_lines(entries) + tail =~= tail);
    } else {
        let first = entries[0];
        let rest = entries.drop_first();
        assert(entries =~= seq![first] + rest);
        lemma_header_lines_concat(seq![first], rest);
        lemma_header_lines_single(first.0, first.1);
        assert(seq![first] =~= seq![(first.0, first.1)]);
        assert forall|i: int|
            0 <= i < rest.len() && (#[trigger] rest[i]).0 != lit(
                "Content-Length",
            ) implies is_line(rest[i].0) && is_line(rest[i].1) by {
            assert(rest[i] == entries[i + 1]);
        }
        if first.0 == lit("Content-Length") {
            assert(header_lines(entries) + tail =~= header_lines(rest) + tail);
            lemma_headers_reread(rest, acc, tail, policy);
        } else {
            let after = header_lines(rest) + tail;
            assert(header_lines(entries) + tail =~= header_line(first.0, first.1) + after);
            lemma_read_header_line(first.0, first.1, acc, after, policy);
            lemma_header_line_read_back(first.0, first.1);
            let (name, value) = read_back(first.0, first.1);
            lemma_headers_reread(rest, upsert(acc, name, value), tail, policy);
        }
    }
}

/// The literal header names and values of the serializer hold no line terminator, and
/// `Content-Length` holds no colon.
proof fn lemma_framing_literals()
    ensures
        is_line(lit("Content-Type")),
        is_line(lit("text/plain")),
        is_line(lit("Content-Length")),
        free_of(lit("Content-Length"), 58),
{
    encode_utf8_valid_utf8("Content-Type"@);
    encode_utf8_valid_utf8("text/plain"@);
    encode_utf8_valid_utf8("Content-Length"@);
    reveal_strlit("Content-Type");
    reveal_strlit("text/plain");
    reveal_strlit("Content-Length");
    vstd::string::is_ascii_spec_bytes("Content-Type");
    vstd::string::is_ascii_spec_bytes("text/plain");
    vstd::string::is_ascii_spec_bytes("Content-Length");
    assert(lit("Content-Type") =~= seq![
        67u8, 111u8, 110u8, 116u8, 101u8, 110u8, 116u8, 45u8, 84u8, 121u8, 112u8, 101u8,
    ]);
    assert(lit("text/plain") =~= seq![
        116u8, 101u8, 120u8, 116u8, 47u8, 112u8, 108u8, 97u8, 105u8, 110u8,
    ]);
    assert(lit("Content-Length") =~= seq![
        67u8, 111u8, 110u8, 116u8, 101u8, 110u8, 116u8, 45u8, 76u8, 101u8, 110u8, 103u8, 116u8,
        104u8,
    ]);
    assert(is_printable(lit("Content-Type")));
    assert(is_printable(lit("text/plain")));
    assert(is_printable(lit("Content-Length")));
    lemma_printable_single_line(lit("Content-Type"));
    lemma_printable_single_line(lit("text/plain"));
    lemma_printable_single_line(lit("Content-Length"));
}

/// What follows the header lines of a response with a body is read as headers that
/// declare the length of the body, up to the body.
proof fn lemma_read_framing(entries: Entries, body: Seq<u8>, acc: Entries, policy: HeaderPolicy)
    ensures
        headers_of(framing(entries, Some(body)), acc, policy).0 matches Ok(headers)
            && lookup(headers, lit("Content-Length")) == Some(decimal(body.len())),
        headers_of(framing(entries, Some(body)), acc, policy).1 == body,
{
    lemma_framing_literals();
    let length_name = lit("Content-Length");
    let length_value = decimal(body.len());
    lemma_decimal_digits(body.len());
    assert forall|i: int| 0 <= i < length_value.len() implies length_value[i] != 13
        && length_value[i] < 128 by {
        assert(is_digit(length_value[i]));
    }
    lemma_single_line_without_cr(length_value);
    lemma_ascii_is_text(length_value);
    let after_length = crlf() + body;
    let typed = if has_name(entries, lit("Content-Type")) {
        acc
    } else {
        upsert(
            acc,
            read_back(lit("Content-Type"), lit("text/plain")).0,
            read_back(lit("Content-Type"), lit("text/plain")).1,
        )
    };
    let length_part = header_line(length_name, length_value) + after_length;
    assert(headers_of(framing(entries, Some(body)), acc, policy) == headers_of(
        length_part,
        typed,
        policy,
    )) by {
        if has_name(entries, lit("Content-Type")) {
            assert(framing(entries, Some(body)) =~= length_part);
        } else {
            assert(framing(entries, Some(body)) =~= header_line(
                lit("Content-Type"),
                lit("text/plain"),
            ) + length_part);
            lemma_read_header_line(
                lit("Content-Type"),
                lit("text/plain"),
                acc,
                length_part,
                policy,
            );
        }
    }
    lemma_read_header_line(length_name, length_value, typed, after_length, policy);
    let gathered = upsert(typed, length_name, length_value);
    lemma_read_blank_line(gathered, body, policy);
    lemma_upsert_lookup(typed, length_name, length_value, length_name);
}

/// Printable characters are text on one line.
proof fn lemma_printable_single_line(s: Seq<u8>)
    requires
        is_printable(s),
    ensures
        is_line(s),
{
    assert forall|i: int| 0 <= i < s.len() implies s[i] != 13 && s[i] < 128 by {
        assert(32 <= s[i]);
    }
    lemma_single_line_without_cr(s);
    lemma_ascii_is_text(s);
}

/// A response with a body and without `Content-Encoding`, serialized and read back as a
/// receiver reads it, gives its body: the first line is the status line; the header
/// lines end at the blank line; the headers read declare the length of the body; and
/// what is left after the blank line is the body, byte for byte, so that reading the
/// declared number of bytes takes all of it.
///
/// This holds of responses whose status text is that of their status code and whose
/// headers, as far as they go on the wire, hold text without line terminator in name
/// and value: a line terminator there splits a header line in two.
pub proof fn lemma_body_round_trip(response: ResponseView, policy: HeaderPolicy)
    requires
        response.is_consistent(),
        response.body is Some,
        !has_name(response.headers, lit("Content-Encoding")),
        headers_on_single_lines(response.headers),
        response.body.unwrap().len() <= usize::MAX,
    ensures
        ({
            let wire = serialized(response);
            let body = response.body.unwrap();
            &&& text_line(wire) matches Some(first)
            &&& first.0 + crlf() == status_line(response.status_code, response.status_text)
            &&& headers_of(first.1, Seq::empty(), policy).0 matches Ok(headers)
            &&& lookup(headers, lit("Content-Length")) == Some(decimal(body.len()))
            &&& declared_length(headers) == Some(body.len() as usize)
            &&& headers_of(first.1, Seq::empty(), policy).1 == body
            &&& body_of(RequestMethod::POST, headers, body) == (
                Ok::<Option<Seq<u8>>, HttpError>(Some(body)),
                Seq::<u8>::empty(),
            )
        }),
{
    let wire = serialized(response);
    let body = response.body.unwrap();
    let entries = response.headers;
    let code = response.status_code;
    lemma_status_line_printable(code);
    let line = status_line(code, response.status_text);
    let status = line.take(line.len() - 2);
    assert(status + crlf() =~= line);
    lemma_printable_single_line(status);
    let frame = framing(entries, Some(body));
    let after_status = header_lines(entries) + frame;
    assert(wire =~= status + crlf() + after_status);
    lemma_text_line_of(status, after_status);
    lemma_headers_reread(entries, Seq::empty(), frame, policy);
    lemma_read_framing(entries, body, reread(entries, Seq::empty()), policy);
    lemma_parse_decimal_roundtrip(body.len() as usize);
    assert(body.take(body.len() as int) =~= body);
    assert(body.skip(body.len() as int) =~= Seq::<u8>::empty());
}

} // verus!
