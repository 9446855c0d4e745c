//! The wire reader: reads of lines of text and of blocks of fixed length over the bytes
//! of a connection.

use crate::bytes::{copy_range, find, first_occurrence, is_first_occurrence,
    lemma_first_occurrence_found, lemma_first_occurrence_is, lit, occurs_at};
use crate::error::HttpError;
use crate::utf8::text_from;
use vstd::prelude::*;
use vstd::utf8::{encode_utf8, valid_utf8};

verus! {

/// The line terminator: carriage return, line feed.
pub open spec fn crlf() -> Seq<u8> {
    seq![13u8, 10u8]
}

/// The first line of `s`, without its terminator, and what follows the terminator.
/// `None` where `s` holds no terminator.
pub open spec fn split_line(s: Seq<u8>) -> Option<(Seq<u8>, Seq<u8>)> {
    match first_occurrence(s, crlf()) {
        Some(k) => Some((s.take(k), s.skip(k + 2))),
        None => None,
    }
}

/// The first line of `s` as text, without its terminator, and what follows the
/// terminator. `None` where `s` holds no terminator, or the line is not valid UTF-8.
pub open spec fn text_line(s: Seq<u8>) -> Option<(Seq<u8>, Seq<u8>)> {
    match split_line(s) {
        Some((line, rest)) => if valid_utf8(line) {
            Some((line, rest))
        } else {
            None
        },
        None => None,
    }
}

/// What follows the first line of `s` is shorter than `s`.
pub proof fn lemma_split_line_shrinks(s: Seq<u8>)
    ensures
        match split_line(s) {
            Some((line, rest)) => line.len() + 2 + rest.len() == s.len(),
            None => true,
        },
{
    lemma_first_occurrence_found(s, crlf());
}

/// Whether `s` holds no line terminator.
pub open spec fn single_line(s: Seq<u8>) -> bool {
    forall|k: int| !occurs_at(s, crlf(), k)
}

/// A string without carriage return holds no line terminator.
pub proof fn lemma_single_line_without_cr(s: Seq<u8>)
    requires
        forall|i: int| 0 <= i < s.len() ==> s[i] != 13,
    ensures
        single_line(s),
{
    assert forall|k: int| !occurs_at(s, crlf(), k) by {
        if occurs_at(s, crlf(), k) {
            assert(s.subrange(k, k + 2)[0] == s[k]);
        }
    }
}

/// Two strings without line terminator, put together, hold none, unless the first
/// ends with a carriage return and the second begins with a line feed.
pub proof fn lemma_single_line_concat(a: Seq<u8>, b: Seq<u8>)
    requires
        single_line(a),
        single_line(b),
        a.len() == 0 || b.len() == 0 || a.last() != 13 || b[0] != 10,
    ensures
        single_line(a + b),
{
    let s = a + b;
    assert forall|k: int| !occurs_at(s, crlf(), k) by {
        if occurs_at(s, crlf(), k) {
            assert(s.subrange(k, k + 2)[0] == s[k]);
            assert(s.subrange(k, k + 2)[1] == s[k + 1]);
            if k + 2 <= a.len() {
                assert(a.subrange(k, k + 2) =~= crlf());
                assert(occurs_at(a, crlf(), k));
            } else if k >= a.len() {
                assert(b.subrange(k - a.len(), k - a.len() + 2) =~= crlf());
                assert(occurs_at(b, crlf(), k - a.len()));
            } else {
                assert(s[k] == a.last());
                assert(s[k + 1] == b[0]);
            }
        }
    }
}

/// A line without terminator inside, followed by a terminator, is read back as it is,
/// and what follows the terminator is left.
pub proof fn lemma_split_line_of(line: Seq<u8>, rest: Seq<u8>)
    requires
        single_line(line),
    ensures
        split_line(line + crlf() + rest) == Some((line, rest)),
{
    let s = line + crlf() + rest;
    let n = line.len() as int;
    assert(s.subrange(n, n + 2) =~= crlf());
    assert forall|j: int| 0 <= j < n implies !occurs_at(s, crlf(), j) by {
        if occurs_at(s, crlf(), j) {
            assert(s.subrange(j, j + 2)[0] == s[j]);
            assert(s.subrange(j, j + 2)[1] == s[j + 1]);
            if j + 2 <= n {
                assert(line.subrange(j, j + 2) =~= crlf());
                assert(occurs_at(line, crlf(), j));
            } else {
                assert(s[j + 1] == crlf()[0]);
            }
        }
    }
    assert(is_first_occurrence(s, crlf(), n));
    lemma_first_occurrence_is(s, crlf(), n);
    assert(s.take(n) =~= line);
    assert(s.skip(n + 2) =~= rest);
}

/// A line of text without terminator inside, followed by a terminator, is read back as
/// it is, and what follows the terminator is left.
pub proof fn lemma_text_line_of(line: Seq<u8>, rest: Seq<u8>)
    requires
        single_line(line),
        valid_utf8(line),
    ensures
        text_line(line + crlf() + rest) == Some((line, rest)),
{
    lemma_split_line_of(line, rest);
}

/// A cursor over the bytes received on a connection. Reads consume bytes from the
/// front; no byte is lost or read twice.
#[derive(Debug)]
pub struct WireReader {
    data: Vec<u8>,
    pos: usize,
}

impl WireReader {
    #[verifier::type_invariant]
    spec fn in_bounds(self) -> bool {
        self.pos <= self.data@.len()
    }

    /// The bytes that have not been read yet.
    pub closed spec fn remaining(&self) -> Seq<u8> {
        self.data@.skip(self.pos as int)
    }

    /// A reader over `data`, with nothing read yet.
    pub fn new(data: Vec<u8>) -> (reader: WireReader)
        ensures
            reader.remaining() == data@,
    {
        let reader = WireReader { data, pos: 0 };
        assert(reader.data@.skip(0) == reader.data@);
        reader
    }

    /// The number of bytes that have not been read yet.
    pub fn available(&self) -> (n: usize)
        ensures
            n == self.remaining().len(),
    {
        proof {
            use_type_invariant(self);
        }
        self.data.len() - self.pos
    }

    /// Reads one line of text terminated by CRLF and returns it without the terminator.
    /// Fails, and consumes nothing, where no terminator is left or the line is not
    /// valid UTF-8.
    pub fn read_line(&mut self) -> (res: Result<String, HttpError>)
        ensures
            match text_line(old(self).remaining()) {
                Some((line, rest)) => {
                    &&& res matches Ok(text)
                    &&& encode_utf8(text@) == line
                    &&& final(self).remaining() == rest
                },
                None => {
                    &&& res == Err::<String, HttpError>(HttpError::TransportError)
                    &&& final(self).remaining() == old(self).remaining()
                },
            },
    {
        proof {
            reveal_strlit("\r\n");
            vstd::string::is_ascii_spec_bytes("\r\n");
            assert(lit("\r\n") == crlf());
            lemma_first_occurrence_found(self.remaining(), crlf());
            use_type_invariant(&*self);
        }
        let rest = vstd::slice::slice_subrange(self.data.as_slice(), self.pos, self.data.len());
        assert(rest@ == self.remaining());
        match find(rest, "\r\n".as_bytes()) {
            Some(k) => {
                let line = vstd::slice::slice_subrange(rest, 0, k);
                assert(line@ == rest@.take(k as int));
                match text_from(line) {
                    Some(text) => {
                        assert(rest@.skip(k + 2) == self.data@.skip(self.pos + k + 2));
                        self.pos = self.pos + k + 2;
                        Ok(text)
                    },
                    None => Err(HttpError::TransportError),
                }
            },
            None => Err(HttpError::TransportError),
        }
    }

    /// Reads exactly `n` bytes. Fails, and consumes nothing, where fewer are left.
    pub fn read_exact(&mut self, n: usize) -> (res: Result<Vec<u8>, HttpError>)
        ensures
            n <= old(self).remaining().len() ==> {
                &&& res matches Ok(bytes)
                &&& bytes@ == old(self).remaining().take(n as int)
                &&& final(self).remaining() == old(self).remaining().skip(n as int)
            },
            n > old(self).remaining().len() ==> {
                &&& res == Err::<Vec<u8>, HttpError>(HttpError::TransportError)
                &&& final(self).remaining() == old(self).remaining()
            },
    {
        proof {
            use_type_invariant(&*self);
        }
        if n > self.data.len() - self.pos {
            return Err(HttpError::TransportError);
        }
        let bytes = copy_range(self.data.as_slice(), self.pos, self.pos + n);
        assert(bytes@ == self.remaining().take(n as int));
        assert(self.data@.skip(self.pos + n) == self.remaining().skip(n as int));
        self.pos = self.pos + n;
        Ok(bytes)
    }
}

} // verus!
