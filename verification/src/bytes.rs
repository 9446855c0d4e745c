//! Byte-string utilities shared by the parser, the serializer and the router.
//!
//! Everything that travels over the wire is a byte string. The functions here
//! copy, compare, search and split byte strings, and convert between numbers
//! and their decimal notation.

use vstd::prelude::*;
use vstd::string::StringSliceAdditionalSpecFns;

verus! {

/// The bytes of a string, as they go on the wire.
pub open spec fn lit(s: &str) -> Seq<u8> {
    s.spec_bytes()
}

/// Whether every byte of `s` is a printable ASCII character or a space.
pub open spec fn is_printable(s: Seq<u8>) -> bool {
    forall|i: int| 0 <= i < s.len() ==> 32 <= #[trigger] s[i] < 127
}

/// Whether no byte of `s` is `b`.
pub open spec fn free_of(s: Seq<u8>, b: u8) -> bool {
    forall|i: int| 0 <= i < s.len() ==> #[trigger] s[i] != b
}

/// Appends `src` to `dst`.
pub fn append_bytes(dst: &mut Vec<u8>, src: &[u8])
    ensures
        final(dst)@ == old(dst)@ + src@,
{
    let mut i: usize = 0;
    while i < src.len()
        invariant
            i <= src.len(),
            dst@ == old(dst)@ + src@.take(i as int),
        decreases src.len() - i,
    {
        dst.push(src[i]);
        i += 1;
    }
    assert(src@.take(src.len() as int) == src@);
}

/// Copies `s[from..to]` into a fresh vector.
pub(crate) fn copy_range(s: &[u8], from: usize, to: usize) -> (out: Vec<u8>)
    requires
        from <= to <= s@.len(),
    ensures
        out@ == s@.subrange(from as int, to as int),
{
    let mut out: Vec<u8> = Vec::new();
    let mut i: usize = from;
    while i < to
        invariant
            from <= i <= to <= s.len(),
            out@ == s@.subrange(from as int, i as int),
        decreases to - i,
    {
        out.push(s[i]);
        i += 1;
    }
    out
}

/// Copies `s` into a fresh vector.
pub fn copy_bytes(s: &[u8]) -> (out: Vec<u8>)
    ensures
        out@ == s@,
{
    let out = copy_range(s, 0, s.len());
    assert(s@.subrange(0, s@.len() as int) == s@);
    out
}

/// Whether two byte strings are equal.
pub fn bytes_eq(a: &[u8], b: &[u8]) -> (same: bool)
    ensures
        same == (a@ == b@),
{
    if a.len() != b.len() {
        return false;
    }
    let mut i: usize = 0;
    while i < a.len()
        invariant
            i <= a.len(),
            a.len() == b.len(),
            a@.take(i as int) == b@.take(i as int),
        decreases a.len() - i,
    {
        if a[i] != b[i] {
            return false;
        }
        assert(a@.take(i + 1) == a@.take(i as int).push(a@[i as int]));
        assert(b@.take(i + 1) == b@.take(i as int).push(b@[i as int]));
        i += 1;
    }
    assert(a@.take(a.len() as int) == a@);
    assert(b@.take(b.len() as int) == b@);
    true
}

/// Whether `pat` stands in `s` at index `k`.
pub open spec fn occurs_at(s: Seq<u8>, pat: Seq<u8>, k: int) -> bool {
    &&& 0 <= k
    &&& k + pat.len() <= s.len()
    &&& s.subrange(k, k + pat.len()) == pat
}

/// Whether `k` is the index of the first occurrence of `pat` in `s`.
pub open spec fn is_first_occurrence(s: Seq<u8>, pat: Seq<u8>, k: int) -> bool {
    &&& occurs_at(s, pat, k)
    &&& forall|j: int| 0 <= j < k ==> !occurs_at(s, pat, j)
}

/// The index of the first occurrence of `pat` in `s`, if there is one.
pub open spec fn first_occurrence(s: Seq<u8>, pat: Seq<u8>) -> Option<int> {
    if exists|k: int| occurs_at(s, pat, k) {
        Some(choose|k: int| is_first_occurrence(s, pat, k))
    } else {
        None
    }
}

/// A first occurrence is the first occurrence.
pub proof fn lemma_first_occurrence_is(s: Seq<u8>, pat: Seq<u8>, k: int)
    requires
        is_first_occurrence(s, pat, k),
    ensures
        first_occurrence(s, pat) == Some(k),
{
    let c = choose|c: int| is_first_occurrence(s, pat, c);
    assert(is_first_occurrence(s, pat, c));
    if c < k {
        assert(!occurs_at(s, pat, c));
    }
    if k < c {
        assert(!occurs_at(s, pat, k));
    }
}

/// The first occurrence, where there is one, is an occurrence with none before it.
pub proof fn lemma_first_occurrence_found(s: Seq<u8>, pat: Seq<u8>)
    ensures
        match first_occurrence(s, pat) {
            Some(k) => is_first_occurrence(s, pat, k),
            None => forall|j: int| !occurs_at(s, pat, j),
        },
{
    if exists|k: int| occurs_at(s, pat, k) {
        let w = choose|k: int| occurs_at(s, pat, k);
        lemma_least_occurrence(s, pat, w);
    }
}

/// Where `pat` occurs at `k`, it has a first occurrence at or before `k`.
proof fn lemma_least_occurrence(s: Seq<u8>, pat: Seq<u8>, k: int)
    requires
        occurs_at(s, pat, k),
    ensures
        exists|m: int| is_first_occurrence(s, pat, m),
    decreases k,
{
    if exists|j: int| 0 <= j < k && occurs_at(s, pat, j) {
        let j = choose|j: int| 0 <= j < k && occurs_at(s, pat, j);
        lemma_least_occurrence(s, pat, j);
    } else {
        assert(is_first_occurrence(s, pat, k));
    }
}

/// Where `pat` occurs nowhere, there is no first occurrence.
pub proof fn lemma_first_occurrence_none(s: Seq<u8>, pat: Seq<u8>)
    requires
        forall|j: int| !occurs_at(s, pat, j),
    ensures
        first_occurrence(s, pat) is None,
{
}

/// Whether `s` begins with `prefix`.
pub fn starts_with(s: &[u8], prefix: &[u8]) -> (yes: bool)
    ensures
        yes == prefix@.is_prefix_of(s@),
{
    if prefix.len() > s.len() {
        return false;
    }
    let mut i: usize = 0;
    while i < prefix.len()
        invariant
            i <= prefix.len() <= s.len(),
            forall|j: int| 0 <= j < i ==> s@[j] == prefix@[j],
        decreases prefix.len() - i,
    {
        if s[i] != prefix[i] {
            return false;
        }
        i += 1;
    }
    assert(prefix@ == s@.subrange(0, prefix@.len() as int));
    true
}

/// Whether `pat` stands in `s` at index `k`.
pub fn matches_at(s: &[u8], pat: &[u8], k: usize) -> (yes: bool)
    ensures
        yes == occurs_at(s@, pat@, k as int),
{
    if pat.len() > s.len() || k > s.len() - pat.len() {
        return false;
    }
    let mut i: usize = 0;
    while i < pat.len()
        invariant
            i <= pat.len(),
            k + pat.len() <= s.len(),
            forall|j: int| 0 <= j < i ==> s@[k + j] == pat@[j],
        decreases pat.len() - i,
    {
        if s[k + i] != pat[i] {
            assert(s@.subrange(k as int, k + pat@.len())[i as int] == s@[k + i]);
            return false;
        }
        i += 1;
    }
    assert(s@.subrange(k as int, k + pat@.len()) == pat@);
    true
}

/// The index of the first occurrence of `pat` in `s`.
pub fn find(s: &[u8], pat: &[u8]) -> (at: Option<usize>)
    ensures
        match at {
            Some(k) => first_occurrence(s@, pat@) == Some(k as int),
            None => first_occurrence(s@, pat@) is None,
        },
{
    if pat.len() > s.len() {
        proof {
            lemma_first_occurrence_none(s@, pat@);
        }
        return None;
    }
    let last: usize = s.len() - pat.len();
    let mut k: usize = 0;
    loop
        invariant
            k <= last,
            last == s.len() - pat.len(),
            pat.len() <= s.len(),
            forall|j: int| 0 <= j < k ==> !occurs_at(s@, pat@, j),
        ensures
            forall|j: int| !occurs_at(s@, pat@, j),
        decreases last - k,
    {
        if matches_at(s, pat, k) {
            proof {
                lemma_first_occurrence_is(s@, pat@, k as int);
            }
            return Some(k);
        }
        if k == last {
            break;
        }
        k += 1;
    }
    proof {
        lemma_first_occurrence_none(s@, pat@);
    }
    None
}

} // verus!
