//! Splitting byte strings: words between whitespace, fields between separators,
//! and trimming.

use crate::bytes::{copy_range, first_occurrence, is_first_occurrence,
    lemma_first_occurrence_found, lemma_first_occurrence_is, lemma_first_occurrence_none,
    occurs_at};
use crate::utf8::{lemma_text_after_ascii, lemma_text_cut_at_ascii};
use vstd::prelude::*;
use vstd::utf8::valid_utf8;

verus! {

/// Whether `b` is ASCII whitespace: space, tab, line feed, vertical tab, form feed or
/// carriage return.
pub open spec fn is_space(b: u8) -> bool {
    b == 32 || (9 <= b && b <= 13)
}

/// Whether `b` is ASCII whitespace.
pub fn is_space_byte(b: u8) -> (yes: bool)
    ensures
        yes == is_space(b),
{
    b == 32 || (9 <= b && b <= 13)
}

/// The views of a vector of byte strings.
pub open spec fn views(v: Seq<Vec<u8>>) -> Seq<Seq<u8>> {
    v.map_values(|t: Vec<u8>| t@)
}

/// The length of the longest prefix of `s` that holds no whitespace.
pub open spec fn word_len(s: Seq<u8>) -> nat
    decreases s.len(),
{
    if s.len() == 0 || is_space(s[0]) {
        0
    } else {
        1 + word_len(s.drop_first())
    }
}

/// A word is no longer than the string it starts.
pub proof fn lemma_word_len_bound(s: Seq<u8>)
    ensures
        word_len(s) <= s.len(),
    decreases s.len(),
{
    if s.len() > 0 && !is_space(s[0]) {
        lemma_word_len_bound(s.drop_first());
    }
}

/// The words of `s`: its maximal runs of bytes that are not whitespace, in order.
pub open spec fn tokens(s: Seq<u8>) -> Seq<Seq<u8>>
    decreases s.len(),
    via tokens_decreases
{
    if s.len() == 0 {
        Seq::empty()
    } else if is_space(s[0]) {
        tokens(s.drop_first())
    } else {
        seq![s.take(word_len(s) as int)] + tokens(s.skip(word_len(s) as int))
    }
}

#[via_fn]
proof fn tokens_decreases(s: Seq<u8>) {
    lemma_word_len_bound(s);
}

/// Where the first `n` bytes of `s` hold no whitespace and whitespace or the end follows,
/// the first word of `s` has length `n`.
pub proof fn lemma_word_len_is(s: Seq<u8>, n: int)
    requires
        0 <= n <= s.len(),
        forall|k: int| 0 <= k < n ==> !is_space(#[trigger] s[k]),
        n == s.len() || is_space(s[n]),
    ensures
        word_len(s) == n,
    decreases n,
{
    if n > 0 {
        let rest = s.drop_first();
        assert forall|k: int| 0 <= k < n - 1 implies !is_space(#[trigger] rest[k]) by {
            assert(rest[k] == s[k + 1]);
        }
        lemma_word_len_is(rest, n - 1);
    }
}

/// Whether `s` is a word: not empty, and without whitespace.
pub open spec fn is_word(s: Seq<u8>) -> bool {
    s.len() > 0 && forall|i: int| 0 <= i < s.len() ==> !is_space(#[trigger] s[i])
}

/// A word at the start of a string, followed by whitespace or by nothing, is the first
/// of its words.
pub proof fn lemma_tokens_leading_word(word: Seq<u8>, tail: Seq<u8>)
    requires
        is_word(word),
        tail.len() == 0 || is_space(tail[0]),
    ensures
        tokens(word + tail) == seq![word] + tokens(tail),
{
    let s = word + tail;
    let n = word.len() as int;
    assert forall|k: int| 0 <= k < n implies !is_space(#[trigger] s[k]) by {
        assert(s[k] == word[k]);
    }
    if tail.len() > 0 {
        assert(s[n] == tail[0]);
    }
    lemma_word_len_is(s, n);
    assert(s[0] == word[0]);
    assert(s.take(n) =~= word);
    assert(s.skip(n) =~= tail);
}

/// Whitespace at the start of a string adds nothing to its words.
pub proof fn lemma_tokens_leading_space(space: Seq<u8>, tail: Seq<u8>)
    requires
        forall|i: int| 0 <= i < space.len() ==> is_space(#[trigger] space[i]),
    ensures
        tokens(space + tail) == tokens(tail),
    decreases space.len(),
{
    if space.len() == 0 {
        assert(space + tail =~= tail);
    } else {
        let s = space + tail;
        assert(s[0] == space[0]);
        assert(s.drop_first() =~= space.drop_first() + tail);
        assert forall|i: int| 0 <= i < space.drop_first().len() implies is_space(
            #[trigger] space.drop_first()[i],
        ) by {
            assert(space.drop_first()[i] == space[i + 1]);
        }
        lemma_tokens_leading_space(space.drop_first(), tail);
    }
}

/// The words of a text are texts.
pub proof fn lemma_tokens_are_text(s: Seq<u8>)
    requires
        valid_utf8(s),
    ensures
        forall|k: int| 0 <= k < tokens(s).len() ==> valid_utf8(#[trigger] tokens(s)[k]),
    decreases s.len(),
{
    if s.len() == 0 {
        assert(tokens(s).len() == 0);
    } else if is_space(s[0]) {
        lemma_text_after_ascii(s);
        assert(s.drop_first() =~= s.skip(1));
        lemma_tokens_are_text(s.drop_first());
        assert(tokens(s) == tokens(s.drop_first()));
    } else {
        lemma_word_len_bound(s);
        let n = word_len(s) as int;
        lemma_word_end(s);
        lemma_text_cut_at_ascii(s, n);
        lemma_tokens_are_text(s.skip(n));
        let rest = tokens(s.skip(n));
        assert(tokens(s) == seq![s.take(n)] + rest);
        assert forall|k: int| 0 <= k < tokens(s).len() implies valid_utf8(
            #[trigger] tokens(s)[k],
        ) by {
            if k > 0 {
                assert(tokens(s)[k] == rest[k - 1]);
            } else {
                assert(tokens(s)[0] == s.take(n));
            }
        }
    }
}

/// Whitespace or the end follows the first word of a string.
pub proof fn lemma_word_end(s: Seq<u8>)
    ensures
        word_len(s) <= s.len(),
        word_len(s) < s.len() ==> is_space(s[word_len(s) as int]),
    decreases s.len(),
{
    if s.len() > 0 && !is_space(s[0]) {
        lemma_word_end(s.drop_first());
        if word_len(s) < s.len() {
            assert(s.drop_first()[word_len(s.drop_first()) as int] == s[word_len(s) as int]);
        }
    }
}

/// Splits `s` into its words.
pub fn split_whitespace(s: &[u8]) -> (out: Vec<Vec<u8>>)
    ensures
        views(out@) == tokens(s@),
{
    let mut out: Vec<Vec<u8>> = Vec::new();
    let mut i: usize = 0;
    assert(s@.skip(0) == s@);
    assert(views(out@) + tokens(s@) == tokens(s@));
    while i < s.len()
        invariant
            i <= s.len(),
            tokens(s@) == views(out@) + tokens(s@.skip(i as int)),
        decreases s.len() - i,
    {
        let ghost rest = s@.skip(i as int);
        assert(rest[0] == s@[i as int]);
        if is_space_byte(s[i]) {
            assert(rest.drop_first() == s@.skip(i + 1));
            i += 1;
        } else {
            let mut j: usize = i + 1;
            while j < s.len() && !is_space_byte(s[j])
                invariant
                    i < j <= s.len(),
                    forall|k: int| i <= k < j ==> !is_space(#[trigger] s@[k]),
                decreases s.len() - j,
            {
                j += 1;
            }
            let word = copy_range(s, i, j);
            proof {
                assert forall|k: int| 0 <= k < j - i implies !is_space(#[trigger] rest[k]) by {
                    assert(rest[k] == s@[i + k]);
                }
                lemma_word_len_is(rest, j - i);
                assert(rest.take(j - i) == s@.subrange(i as int, j as int));
                assert(rest.skip(j - i) == s@.skip(j as int));
                assert(views(out@.push(word)) == views(out@).push(word@));
                assert(tokens(rest) == seq![word@] + tokens(s@.skip(j as int)));
                assert(views(out@).push(word@) + tokens(s@.skip(j as int)) == views(out@) + (
                seq![word@] + tokens(s@.skip(j as int))));
            }
            out.push(word);
            i = j;
        }
    }
    assert(views(out@) + Seq::<Seq<u8>>::empty() == views(out@));
    out
}

/// `s` without the whitespace at its start.
pub open spec fn trim_start(s: Seq<u8>) -> Seq<u8>
    decreases s.len(),
{
    if s.len() > 0 && is_space(s[0]) {
        trim_start(s.drop_first())
    } else {
        s
    }
}

/// `s` without the whitespace at its end.
pub open spec fn trim_end(s: Seq<u8>) -> Seq<u8>
    decreases s.len(),
{
    if s.len() > 0 && is_space(s.last()) {
        trim_end(s.drop_last())
    } else {
        s
    }
}

/// `s` without the whitespace at its start and at its end.
pub open spec fn trim(s: Seq<u8>) -> Seq<u8> {
    trim_end(trim_start(s))
}

/// Copies `s` without the whitespace at its start and at its end.
pub fn trimmed(s: &[u8]) -> (out: Vec<u8>)
    ensures
        out@ == trim(s@),
{
    let mut i: usize = 0;
    assert(s@.skip(0) == s@);
    while i < s.len() && is_space_byte(s[i])
        invariant
            i <= s.len(),
            trim_start(s@) == trim_start(s@.skip(i as int)),
        decreases s.len() - i,
    {
        assert(s@.skip(i as int)[0] == s@[i as int]);
        assert(s@.skip(i as int).drop_first() == s@.skip(i + 1));
        i += 1;
    }
    proof {
        if i < s.len() {
            assert(s@.skip(i as int)[0] == s@[i as int]);
        }
        assert(trim_start(s@) == s@.skip(i as int));
    }
    let mut j: usize = s.len();
    assert(s@.subrange(i as int, j as int) == s@.skip(i as int));
    while j > i && is_space_byte(s[j - 1])
        invariant
            i <= j <= s.len(),
            trim(s@) == trim_end(s@.subrange(i as int, j as int)),
        decreases j,
    {
        assert(s@.subrange(i as int, j as int).last() == s@[j - 1]);
        assert(s@.subrange(i as int, j as int).drop_last() == s@.subrange(i as int, j - 1));
        j -= 1;
    }
    proof {
        if j > i {
            assert(s@.subrange(i as int, j as int).last() == s@[j - 1]);
        }
    }
    copy_range(s, i, j)
}

/// The fields of `s`: the stretches between occurrences of the byte `sep`, in order.
/// A string without `sep` is one field; an empty string is one empty field.
pub open spec fn fields(s: Seq<u8>, sep: u8) -> Seq<Seq<u8>>
    decreases s.len(),
    via fields_decreases
{
    match first_occurrence(s, seq![sep]) {
        Some(k) => seq![s.take(k)] + fields(s.skip(k + 1), sep),
        None => seq![s],
    }
}

#[via_fn]
proof fn fields_decreases(s: Seq<u8>, sep: u8) {
    lemma_first_occurrence_found(s, seq![sep]);
}

/// Splits `s` into its fields.
pub fn split_fields(s: &[u8], sep: u8) -> (out: Vec<Vec<u8>>)
    ensures
        views(out@) == fields(s@, sep),
{
    let mut out: Vec<Vec<u8>> = Vec::new();
    let mut start: usize = 0;
    let mut i: usize = 0;
    assert(s@.skip(0) == s@);
    assert(views(out@) + fields(s@, sep) == fields(s@, sep));
    while i < s.len()
        invariant
            start <= i <= s.len(),
            fields(s@, sep) == views(out@) + fields(s@.skip(start as int), sep),
            forall|k: int| start <= k < i ==> s@[k] != sep,
        decreases s.len() - i,
    {
        if s[i] == sep {
            let field = copy_range(s, start, i);
            proof {
                let rest = s@.skip(start as int);
                let at = i - start;
                assert(rest.subrange(at, at + 1) == seq![sep]);
                assert forall|j: int| 0 <= j < at implies !occurs_at(rest, seq![sep], j) by {
                    if occurs_at(rest, seq![sep], j) {
                        assert(rest.subrange(j, j + 1)[0] == rest[j]);
                        assert(rest[j] == s@[start + j]);
                    }
                }
                assert(is_first_occurrence(rest, seq![sep], at));
                lemma_first_occurrence_is(rest, seq![sep], at);
                assert(rest.take(at) == field@);
                assert(rest.skip(at + 1) == s@.skip(i + 1));
                assert(views(out@.push(field)) == views(out@).push(field@));
                assert(views(out@).push(field@) + fields(s@.skip(i + 1), sep) == views(out@) + (
                seq![field@] + fields(s@.skip(i + 1), sep)));
            }
            out.push(field);
            start = i + 1;
        }
        i += 1;
    }
    let field = copy_range(s, start, s.len());
    proof {
        let rest = s@.skip(start as int);
        assert forall|j: int| !occurs_at(rest, seq![sep], j) by {
            if occurs_at(rest, seq![sep], j) {
                assert(rest.subrange(j, j + 1)[0] == rest[j]);
                assert(rest[j] == s@[start + j]);
            }
        }
        lemma_first_occurrence_none(rest, seq![sep]);
        assert(field@ == rest);
        assert(views(out@.push(field)) == views(out@).push(field@));
        assert(views(out@).push(field@) == views(out@) + seq![field@]);
    }
    out.push(field);
    out
}

} // verus!
