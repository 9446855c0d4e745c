//! Header collections: an ordered list of name and value pairs in which a name, once
//! set, keeps its place and takes the value written last.
//!
//! Names and values are strings, modelled by their bytes; names are case-sensitive. A
//! lookup answers with the entry of that name; an insertion overwrites that entry
//! where it exists and appends where it does not, so a collection holds each name
//! once.

use crate::bytes::{bytes_eq, lit};
use vstd::prelude::*;
use vstd::utf8::encode_utf8;

verus! {

/// The mathematical model of a header collection: the pairs of name and value, in order.
pub type Entries = Seq<(Seq<u8>, Seq<u8>)>;

/// Whether `i` is the index of the first entry of `entries` that is named `name`.
pub open spec fn is_position(entries: Entries, name: Seq<u8>, i: int) -> bool {
    &&& 0 <= i < entries.len()
    &&& entries[i].0 == name
    &&& forall|j: int| 0 <= j < i ==> (#[trigger] entries[j]).0 != name
}

/// Whether some entry of `entries` is named `name`.
pub open spec fn has_name(entries: Entries, name: Seq<u8>) -> bool {
    exists|i: int| 0 <= i < entries.len() && (#[trigger] entries[i]).0 == name
}

/// The index of the first entry named `name`, where there is one.
pub open spec fn position(entries: Entries, name: Seq<u8>) -> int {
    choose|i: int| is_position(entries, name, i)
}

/// The value of the first entry named `name`.
pub open spec fn lookup(entries: Entries, name: Seq<u8>) -> Option<Seq<u8>> {
    if has_name(entries, name) {
        Some(entries[position(entries, name)].1)
    } else {
        None
    }
}

/// `entries` after `name` was set to `value`: the first entry of that name is
/// overwritten in place, or a new entry is added at the end.
pub open spec fn upsert(entries: Entries, name: Seq<u8>, value: Seq<u8>) -> Entries {
    if has_name(entries, name) {
        entries.update(position(entries, name), (name, value))
    } else {
        entries.push((name, value))
    }
}

/// Whether no two entries share a name.
pub open spec fn distinct_names(entries: Entries) -> bool {
    forall|i: int, j: int|
        0 <= i < j < entries.len() ==> (#[trigger] entries[i]).0 != (#[trigger] entries[j]).0
}

/// The mapping from names to values that `entries` stands for.
pub open spec fn as_map(entries: Entries) -> Map<Seq<u8>, Seq<u8>> {
    Map::new(
        |name: Seq<u8>| has_name(entries, name),
        |name: Seq<u8>| entries[position(entries, name)].1,
    )
}

/// An empty collection holds no name.
pub proof fn lemma_no_names(name: Seq<u8>)
    ensures
        !has_name(Seq::empty(), name),
        lookup(Seq::empty(), name) is None,
{
}

/// The index of the first entry of a name is its position.
pub proof fn lemma_position_is(entries: Entries, name: Seq<u8>, i: int)
    requires
        is_position(entries, name, i),
    ensures
        has_name(entries, name),
        position(entries, name) == i,
        lookup(entries, name) == Some(entries[i].1),
{
    let c = position(entries, name);
    assert(is_position(entries, name, c));
    if c < i {
        assert(entries[c].0 != name);
    }
    if i < c {
        assert(entries[i].0 != name);
    }
}

/// A name that occurs has a first occurrence.
pub proof fn lemma_position_exists(entries: Entries, name: Seq<u8>)
    requires
        has_name(entries, name),
    ensures
        is_position(entries, name, position(entries, name)),
{
    let w = choose|i: int| 0 <= i < entries.len() && (#[trigger] entries[i]).0 == name;
    lemma_first_named(entries, name, w);
}

proof fn lemma_first_named(entries: Entries, name: Seq<u8>, k: int)
    requires
        0 <= k < entries.len(),
        entries[k].0 == name,
    ensures
        exists|i: int| is_position(entries, name, i),
    decreases k,
{
    if exists|j: int| 0 <= j < k && (#[trigger] entries[j]).0 == name {
        let j = choose|j: int| 0 <= j < k && (#[trigger] entries[j]).0 == name;
        lemma_first_named(entries, name, j);
    } else {
        assert(is_position(entries, name, k));
    }
}

/// One header: a name and its value.
#[derive(Debug, Clone)]
pub struct Header {
    pub name: String,
    pub value: String,
}

/// An ordered collection of headers, in which no name occurs twice.
#[derive(Debug)]
pub struct Headers {
    entries: Vec<Header>,
}

impl Headers {
    /// The pairs of name and value that the collection holds, in order, each as the
    /// bytes that go on the wire.
    pub closed spec fn entries(&self) -> Entries {
        self.entries@.map_values(|h: Header| (encode_utf8(h.name@), encode_utf8(h.value@)))
    }

    /// No name occurs twice in a collection.
    #[verifier::type_invariant]
    spec fn holds_each_name_once(self) -> bool {
        distinct_names(self.entries())
    }

    /// An empty collection.
    pub fn new() -> (out: Headers)
        ensures
            out.entries() == Seq::<(Seq<u8>, Seq<u8>)>::empty(),
    {
        let out = Headers { entries: Vec::new() };
        assert(out.entries() == Seq::<(Seq<u8>, Seq<u8>)>::empty());
        out
    }

    /// The number of entries. No two of them share a name.
    pub fn len(&self) -> (n: usize)
        ensures
            n == self.entries().len(),
            distinct_names(self.entries()),
    {
        proof {
            use_type_invariant(self);
        }
        self.entries.len()
    }

    /// The name of the entry at index `i`.
    pub fn name_at(&self, i: usize) -> (name: &String)
        requires
            i < self.entries().len(),
        ensures
            encode_utf8(name@) == self.entries()[i as int].0,
    {
        &self.entries[i].name
    }

    /// The value of the entry at index `i`.
    pub fn value_at(&self, i: usize) -> (value: &String)
        requires
            i < self.entries().len(),
        ensures
            encode_utf8(value@) == self.entries()[i as int].1,
    {
        &self.entries[i].value
    }

    /// The index of the first entry named `name`.
    pub fn index_of(&self, name: &str) -> (at: Option<usize>)
        ensures
            match at {
                Some(i) => is_position(self.entries(), lit(name), i as int),
                None => !has_name(self.entries(), lit(name)),
            },
    {
        let mut i: usize = 0;
        while i < self.entries.len()
            invariant
                i <= self.entries.len(),
                forall|j: int| 0 <= j < i ==> (#[trigger] self.entries()[j]).0 != lit(name),
            decreases self.entries.len() - i,
        {
            if bytes_eq(self.entries[i].name.as_str().as_bytes(), name.as_bytes()) {
                return Some(i);
            }
            i += 1;
        }
        None
    }

    /// Whether some entry is named `name`.
    pub fn contains(&self, name: &str) -> (yes: bool)
        ensures
            yes == has_name(self.entries(), lit(name)),
    {
        match self.index_of(name) {
            Some(i) => {
                proof {
                    lemma_position_is(self.entries(), lit(name), i as int);
                }
                true
            },
            None => false,
        }
    }

    /// The value of the first entry named `name`.
    pub fn get(&self, name: &str) -> (value: Option<&String>)
        ensures
            match value {
                Some(v) => lookup(self.entries(), lit(name)) == Some(encode_utf8(v@)),
                None => lookup(self.entries(), lit(name)) is None,
            },
    {
        match self.index_of(name) {
            Some(i) => {
                proof {
                    lemma_position_is(self.entries(), lit(name), i as int);
                }
                Some(&self.entries[i].value)
            },
            None => None,
        }
    }

    /// Sets `name` to `value`: overwrites the entry of that name, or adds one at the end.
    pub fn insert(&mut self, name: &str, value: &str)
        ensures
            final(self).entries() == upsert(old(self).entries(), lit(name), lit(value)),
            as_map(final(self).entries()) == as_map(old(self).entries()).insert(
                lit(name),
                lit(value),
            ),
            distinct_names(final(self).entries()),
    {
        let header = Header { name: name.to_owned(), value: value.to_owned() };
        proof {
            use_type_invariant(&*self);
            lemma_upsert_map(self.entries(), lit(name), lit(value));
            lemma_upsert_distinct(self.entries(), lit(name), lit(value));
        }
        let found = self.index_of(name);
        let ghost before = self.entries();
        let mut entries: Vec<Header> = Vec::new();
        core::mem::swap(&mut entries, &mut self.entries);
        match found {
            Some(i) => {
                proof {
                    lemma_position_is(before, lit(name), i as int);
                }
                entries[i] = header;
            },
            None => {
                entries.push(header);
            },
        }
        assert(entries@.map_values(|h: Header| (encode_utf8(h.name@), encode_utf8(h.value@)))
            =~= upsert(before, lit(name), lit(value)));
        self.entries = entries;
    }
}

impl Clone for Headers {
    fn clone(&self) -> (out: Headers)
        ensures
            out.entries() == self.entries(),
    {
        let mut entries: Vec<Header> = Vec::new();
        let mut i: usize = 0;
        while i < self.entries.len()
            invariant
                i <= self.entries.len(),
                entries@.map_values(|h: Header| (encode_utf8(h.name@), encode_utf8(h.value@)))
                    == self.entries().take(i as int),
            decreases self.entries.len() - i,
        {
            let header = Header {
                name: self.entries[i].name.clone(),
                value: self.entries[i].value.clone(),
            };
            let ghost copied = entries@.map_values(
                |h: Header| (encode_utf8(h.name@), encode_utf8(h.value@)),
            );
            entries.push(header);
            proof {
                let now = entries@.map_values(
                    |h: Header| (encode_utf8(h.name@), encode_utf8(h.value@)),
                );
                let pair = (encode_utf8(header.name@), encode_utf8(header.value@));
                assert(self.entries()[i as int] == pair);
                assert(now =~= copied.push(pair));
                assert(self.entries().take(i + 1) =~= self.entries().take(i as int).push(
                    self.entries()[i as int],
                ));
            }
            i += 1;
        }
        proof {
            use_type_invariant(self);
            assert(self.entries().take(self.entries.len() as int) =~= self.entries());
        }
        Headers { entries }
    }
}

/// After `name` was set to `value`, a lookup of `name` gives `value`, and a lookup of
/// any other name gives what it gave before.
pub proof fn lemma_upsert_lookup(entries: Entries, name: Seq<u8>, value: Seq<u8>, other: Seq<u8>)
    ensures
        lookup(upsert(entries, name, value), name) == Some(value),
        other != name ==> lookup(upsert(entries, name, value), other) == lookup(entries, other),
        has_name(upsert(entries, name, value), other) == (other == name || has_name(
            entries,
            other,
        )),
{
    let after = upsert(entries, name, value);
    if has_name(entries, name) {
        lemma_position_exists(entries, name);
        let p = position(entries, name);
        assert(after[p] == (name, value));
        assert forall|j: int| 0 <= j < p implies (#[trigger] after[j]).0 != name by {
            assert(after[j] == entries[j]);
        }
        assert(is_position(after, name, p));
        lemma_position_is(after, name, p);
        if other != name {
            if has_name(entries, other) {
                lemma_position_exists(entries, other);
                let q = position(entries, other);
                assert(after[q] == entries[q]);
                assert forall|j: int| 0 <= j < q implies (#[trigger] after[j]).0 != other by {
                    if j != p {
                        assert(after[j] == entries[j]);
                    }
                }
                assert(is_position(after, other, q));
                lemma_position_is(after, other, q);
            } else {
                if has_name(after, other) {
                    let w = choose|i: int| 0 <= i < after.len() && (#[trigger] after[i]).0 == other;
                    assert(w != p);
                    assert(after[w] == entries[w]);
                    assert(entries[w].0 == other);
                }
            }
        }
    } else {
        let p = entries.len() as int;
        assert(after[p] == (name, value));
        assert forall|j: int| 0 <= j < p implies (#[trigger] after[j]).0 != name by {
            assert(after[j] == entries[j]);
        }
        assert(is_position(after, name, p));
        lemma_position_is(after, name, p);
        if other != name {
            if has_name(entries, other) {
                lemma_position_exists(entries, other);
                let q = position(entries, other);
                assert(after[q] == entries[q]);
                assert forall|j: int| 0 <= j < q implies (#[trigger] after[j]).0 != other by {
                    assert(after[j] == entries[j]);
                }
                assert(is_position(after, other, q));
                lemma_position_is(after, other, q);
            } else {
                if has_name(after, other) {
                    let w = choose|i: int| 0 <= i < after.len() && (#[trigger] after[i]).0 == other;
                    assert(w != p);
                    assert(after[w] == entries[w]);
                    assert(entries[w].0 == other);
                }
            }
        }
    }
}

/// Setting a name changes the mapping as an insertion into a map does: last write wins.
pub proof fn lemma_upsert_map(entries: Entries, name: Seq<u8>, value: Seq<u8>)
    ensures
        as_map(upsert(entries, name, value)) == as_map(entries).insert(name, value),
{
    let after = upsert(entries, name, value);
    let left = as_map(after);
    let right = as_map(entries).insert(name, value);
    assert forall|k: Seq<u8>| left.dom().contains(k) == right.dom().contains(k) by {
        lemma_upsert_lookup(entries, name, value, k);
    }
    assert forall|k: Seq<u8>| #[trigger] left.dom().contains(k) implies left[k] == right[k] by {
        lemma_upsert_lookup(entries, name, value, k);
    }
    assert(left =~= right);
}

/// Setting a name in a collection of distinct names leaves the names distinct.
pub proof fn lemma_upsert_distinct(entries: Entries, name: Seq<u8>, value: Seq<u8>)
    requires
        distinct_names(entries),
    ensures
        distinct_names(upsert(entries, name, value)),
{
    let after = upsert(entries, name, value);
    if has_name(entries, name) {
        lemma_position_exists(entries, name);
        let p = position(entries, name);
        assert forall|i: int, j: int| 0 <= i < j < after.len() implies (#[trigger] after[i]).0 != (
        #[trigger] after[j]).0 by {
            assert(after[i].0 == entries[i].0);
            assert(after[j].0 == entries[j].0);
        }
    } else {
        assert forall|i: int, j: int| 0 <= i < j < after.len() implies (#[trigger] after[i]).0 != (
        #[trigger] after[j]).0 by {
            assert(after[i] == entries[i]);
            if j < entries.len() {
                assert(after[j] == entries[j]);
            }
        }
    }
}

} // verus!
