//! Text on the wire: which byte strings are UTF-8, and how they become strings.

use crate::bytes::lit;
use vstd::prelude::*;
use vstd::utf8::{encode_utf8, is_char_boundary, is_char_boundary_iff_not_is_continuation_byte,
    is_char_boundary_start_end_of_seq, partial_valid_utf8, partial_valid_utf8_extend_ascii_block,
    valid_utf8, valid_utf8_split};

verus! {

#[verifier::external_type_specification]
#[verifier::external_body]
pub struct ExUtf8Error(core::str::Utf8Error);

/// Reads `bytes` as a string.
///
/// Trusted: the body calls `core::str::from_utf8`. The contract claims what its
/// documentation says: the call succeeds on the byte strings that are valid UTF-8 and
/// on no others, and the string it gives has exactly those bytes.
#[verifier::external_body]
pub(crate) fn str_from_utf8(bytes: &[u8]) -> (res: Result<&str, core::str::Utf8Error>)
    ensures
        match res {
            Ok(text) => valid_utf8(bytes@) && lit(text) == bytes@,
            Err(_) => !valid_utf8(bytes@),
        },
{
    core::str::from_utf8(bytes)
}

/// Reads `bytes` as a string, where they are valid UTF-8.
pub fn text_from(bytes: &[u8]) -> (out: Option<String>)
    ensures
        match out {
            Some(text) => valid_utf8(bytes@) && encode_utf8(text@) == bytes@,
            None => !valid_utf8(bytes@),
        },
{
    match str_from_utf8(bytes) {
        Ok(text) => Some(text.to_owned()),
        Err(_) => None,
    }
}

/// Reads as a string bytes that are known to be valid UTF-8.
pub(crate) fn text_of(bytes: &[u8]) -> (out: String)
    requires
        valid_utf8(bytes@),
    ensures
        encode_utf8(out@) == bytes@,
{
    match str_from_utf8(bytes) {
        Ok(text) => text.to_owned(),
        // Never taken: the bytes are valid.
        Err(_) => String::new(),
    }
}

/// Whether every byte of `s` is an ASCII character.
pub open spec fn is_ascii_bytes(s: Seq<u8>) -> bool {
    forall|i: int| 0 <= i < s.len() ==> #[trigger] s[i] < 128
}

/// ASCII characters are valid UTF-8.
pub proof fn lemma_ascii_is_text(s: Seq<u8>)
    requires
        is_ascii_bytes(s),
    ensures
        valid_utf8(s),
{
    assert(s.subrange(0, 0) =~= Seq::<u8>::empty());
    assert(partial_valid_utf8(s, 0));
    partial_valid_utf8_extend_ascii_block(s, 0, s.len() as int);
    assert(s.subrange(0, s.len() as int) =~= s);
}

/// Text that begins with an ASCII character is text without that character too.
pub proof fn lemma_text_after_ascii(s: Seq<u8>)
    requires
        valid_utf8(s),
        s.len() > 0,
        s[0] < 128,
    ensures
        valid_utf8(s.skip(1)),
{
    assert(s.skip(1) =~= s.subrange(1, s.len() as int));
}

/// Text cut before an ASCII character gives text on both sides.
pub proof fn lemma_text_cut_at_ascii(s: Seq<u8>, k: int)
    requires
        valid_utf8(s),
        0 <= k <= s.len(),
        k < s.len() ==> s[k] < 128,
    ensures
        valid_utf8(s.take(k)),
        valid_utf8(s.skip(k)),
{
    if k < s.len() {
        is_char_boundary_iff_not_is_continuation_byte(s, k);
    } else {
        is_char_boundary_start_end_of_seq(s);
    }
    assert(is_char_boundary(s, k));
    valid_utf8_split(s, k);
    assert(s.take(k) =~= s.subrange(0, k));
    assert(s.skip(k) =~= s.subrange(k, s.len() as int));
}

} // verus!
