//! An ordered key-value namespace held in memory: byte-string keys, each with
//! one value, walked in ascending byte order of the keys.

use crate::storage::byte_order::{
    comes_before, lemma_precedes_asymmetric, lemma_precedes_irreflexive, lemma_precedes_total,
    lemma_precedes_transitive, precedes,
};
use vstd::prelude::*;

verus! {

/// The entries as plain values: for each, its key and its value.
pub open spec fn plain_entries(entries: Seq<(Vec<u8>, Vec<u8>)>) -> Seq<(Seq<u8>, Seq<u8>)> {
    Seq::new(entries.len(), |i: int| (entries[i].0@, entries[i].1@))
}

/// The key of the entry at `i`.
pub open spec fn key_at(entries: Seq<(Seq<u8>, Seq<u8>)>, i: int) -> Seq<u8> {
    entries[i].0
}

/// Each entry's key comes strictly before the keys of all later entries.
pub open spec fn ascending(entries: Seq<(Seq<u8>, Seq<u8>)>) -> bool {
    forall|i: int, j: int|
        0 <= i < j < entries.len() ==> precedes(
            #[trigger] key_at(entries, i),
            #[trigger] key_at(entries, j),
        )
}

/// Some entry has the key `key`.
pub open spec fn holds_key(entries: Seq<(Seq<u8>, Seq<u8>)>, key: Seq<u8>) -> bool {
    exists|i: int| 0 <= i < entries.len() && #[trigger] key_at(entries, i) == key
}

/// Where the entry with the key `key` stands.
pub open spec fn place_of(entries: Seq<(Seq<u8>, Seq<u8>)>, key: Seq<u8>) -> int {
    choose|i: int| 0 <= i < entries.len() && #[trigger] key_at(entries, i) == key
}

/// The entries as a map from key to value.
pub open spec fn entries_map(entries: Seq<(Seq<u8>, Seq<u8>)>) -> Map<Seq<u8>, Seq<u8>> {
    Map::new(
        |key: Seq<u8>| holds_key(entries, key),
        |key: Seq<u8>| entries[place_of(entries, key)].1,
    )
}

/// In an ascending sequence no key stands twice, so each entry is the one
/// that the map has for its key.
pub proof fn lemma_entry_in_map(entries: Seq<(Seq<u8>, Seq<u8>)>, i: int)
    requires
        ascending(entries),
        0 <= i < entries.len(),
    ensures
        entries_map(entries).contains_key(entries[i].0),
        entries_map(entries)[entries[i].0] == entries[i].1,
        place_of(entries, entries[i].0) == i,
{
    let key = key_at(entries, i);
    let at = place_of(entries, key);
    lemma_precedes_irreflexive(key);
    if at < i {
        assert(precedes(key_at(entries, at), key_at(entries, i)));
    } else if i < at {
        assert(precedes(key_at(entries, i), key_at(entries, at)));
    }
}

/// Every key of the map belongs to an entry.
pub proof fn lemma_map_key_has_entry(entries: Seq<(Seq<u8>, Seq<u8>)>, key: Seq<u8>)
    requires
        entries_map(entries).contains_key(key),
    ensures
        0 <= place_of(entries, key) < entries.len(),
        entries[place_of(entries, key)] == (key, entries_map(entries)[key]),
{
    let at = place_of(entries, key);
    assert(key_at(entries, at) == key);
}

/// A new entry put between the smaller and the larger keys keeps the order
/// and adds its key to the map.
pub proof fn lemma_insert_entry(
    entries: Seq<(Seq<u8>, Seq<u8>)>,
    at: int,
    key: Seq<u8>,
    value: Seq<u8>,
)
    requires
        ascending(entries),
        0 <= at <= entries.len(),
        forall|j: int| 0 <= j < at ==> precedes(#[trigger] key_at(entries, j), key),
        forall|j: int| at <= j < entries.len() ==> precedes(key, #[trigger] key_at(entries, j)),
    ensures
        ascending(entries.insert(at, (key, value))),
        entries_map(entries.insert(at, (key, value))) == entries_map(entries).insert(key, value),
{
    let after = entries.insert(at, (key, value));
    assert forall|i: int, j: int| 0 <= i < j < after.len() implies precedes(
        #[trigger] key_at(after, i),
        #[trigger] key_at(after, j),
    ) by {
        let before_i = if i < at { i } else { i - 1 };
        let before_j = if j < at { j } else { j - 1 };
        if i == at {
            assert(precedes(key, key_at(entries, before_j)));
        } else if j == at {
            assert(precedes(key_at(entries, before_i), key));
        } else {
            assert(precedes(key_at(entries, before_i), key_at(entries, before_j)));
        }
    }
    let old_map = entries_map(entries);
    let new_map = entries_map(after);
    let target = old_map.insert(key, value);
    assert(key_at(after, at) == key);
    lemma_entry_in_map(after, at);
    assert forall|q: Seq<u8>| #[trigger] target.contains_key(q) implies new_map.contains_key(q)
        && new_map[q] == target[q] by {
        if q != key {
            let p = place_of(entries, q);
            assert(key_at(entries, p) == q);
            let moved = if p < at { p } else { p + 1 };
            assert(key_at(after, moved) == q);
            lemma_entry_in_map(after, moved);
            lemma_entry_in_map(entries, p);
        }
    }
    assert forall|q: Seq<u8>| #[trigger] new_map.contains_key(q) implies target.contains_key(q) by {
        if q != key {
            let p = place_of(after, q);
            assert(key_at(after, p) == q);
            let origin = if p < at { p } else { p - 1 };
            assert(key_at(entries, origin) == q);
        }
    }
    assert(new_map =~= target);
}

/// A new value for the entry at `at` keeps the order and replaces the value
/// in the map.
pub proof fn lemma_replace_entry(entries: Seq<(Seq<u8>, Seq<u8>)>, at: int, value: Seq<u8>)
    requires
        ascending(entries),
        0 <= at < entries.len(),
    ensures
        ascending(entries.update(at, (entries[at].0, value))),
        entries_map(entries.update(at, (entries[at].0, value))) == entries_map(entries).insert(
            entries[at].0,
            value,
        ),
{
    let key = entries[at].0;
    let after = entries.update(at, (key, value));
    assert forall|i: int, j: int| 0 <= i < j < after.len() implies precedes(
        #[trigger] key_at(after, i),
        #[trigger] key_at(after, j),
    ) by {
        assert(precedes(key_at(entries, i), key_at(entries, j)));
    }
    let old_map = entries_map(entries);
    let new_map = entries_map(after);
    let target = old_map.insert(key, value);
    assert(key_at(after, at) == key);
    lemma_entry_in_map(after, at);
    assert forall|q: Seq<u8>| #[trigger] target.contains_key(q) implies new_map.contains_key(q)
        && new_map[q] == target[q] by {
        if q != key {
            let p = place_of(entries, q);
            assert(key_at(entries, p) == q);
            assert(key_at(after, p) == q);
            lemma_entry_in_map(after, p);
            lemma_entry_in_map(entries, p);
        }
    }
    assert forall|q: Seq<u8>| #[trigger] new_map.contains_key(q) implies target.contains_key(q) by {
        if q != key {
            let p = place_of(after, q);
            assert(key_at(after, p) == q);
            assert(key_at(entries, p) == q);
        }
    }
    assert(new_map =~= target);
}

/// Taking the entry at `at` out keeps the order and takes its key out of the
/// map.
pub proof fn lemma_remove_entry(entries: Seq<(Seq<u8>, Seq<u8>)>, at: int)
    requires
        ascending(entries),
        0 <= at < entries.len(),
    ensures
        ascending(entries.remove(at)),
        entries_map(entries.remove(at)) == entries_map(entries).remove(entries[at].0),
{
    let key = entries[at].0;
    let after = entries.remove(at);
    assert forall|i: int, j: int| 0 <= i < j < after.len() implies precedes(
        #[trigger] key_at(after, i),
        #[trigger] key_at(after, j),
    ) by {
        let before_i = if i < at { i } else { i + 1 };
        let before_j = if j < at { j } else { j + 1 };
        assert(precedes(key_at(entries, before_i), key_at(entries, before_j)));
    }
    let old_map = entries_map(entries);
    let new_map = entries_map(after);
    let target = old_map.remove(key);
    lemma_entry_in_map(entries, at);
    assert forall|q: Seq<u8>| #[trigger] target.contains_key(q) implies new_map.contains_key(q)
        && new_map[q] == target[q] by {
        let p = place_of(entries, q);
        assert(key_at(entries, p) == q);
        let moved = if p < at { p } else { p - 1 };
        assert(key_at(after, moved) == q);
        lemma_entry_in_map(after, moved);
        lemma_entry_in_map(entries, p);
    }
    assert forall|q: Seq<u8>| #[trigger] new_map.contains_key(q) implies target.contains_key(q) by {
        let p = place_of(after, q);
        assert(key_at(after, p) == q);
        let origin = if p < at { p } else { p + 1 };
        assert(key_at(entries, origin) == q);
        lemma_entry_in_map(entries, origin);
    }
    assert(new_map =~= target);
}

/// Two ascending sequences with the same map agree on their first `n`
/// entries.
proof fn lemma_same_map_same_prefix(
    a: Seq<(Seq<u8>, Seq<u8>)>,
    b: Seq<(Seq<u8>, Seq<u8>)>,
    n: nat,
)
    requires
        ascending(a),
        ascending(b),
        entries_map(a) == entries_map(b),
        n <= a.len(),
    ensures
        n <= b.len(),
        forall|i: int| 0 <= i < n ==> a[i] == b[i],
    decreases n,
{
    if n > 0 {
        let last = (n - 1) as int;
        lemma_same_map_same_prefix(a, b, (n - 1) as nat);
        lemma_entry_in_map(a, last);
        let key = a[last].0;
        lemma_map_key_has_entry(b, key);
        let j = place_of(b, key);
        lemma_entry_in_map(b, j);
        lemma_precedes_irreflexive(key);
        if j < last {
            assert(a[j] == b[j]);
            assert(precedes(key_at(a, j), key_at(a, last)));
        } else if j > last {
            lemma_entry_in_map(b, last);
            let other = b[last].0;
            assert(precedes(key_at(b, last), key_at(b, j)));
            lemma_map_key_has_entry(a, other);
            let l = place_of(a, other);
            lemma_precedes_irreflexive(other);
            if l < last {
                assert(a[l] == b[l]);
                assert(precedes(key_at(b, l), key_at(b, last)));
            } else if l > last {
                assert(precedes(key_at(a, last), key_at(a, l)));
                lemma_precedes_asymmetric(other, key);
            }
        }
        assert(a[last] == b[last]);
    }
}

/// The order of a walk depends on what is stored alone: two ascending
/// sequences that hold the same entries are one sequence. So the order in
/// which entries were put leaves no trace.
pub proof fn lemma_listing_determined(a: Seq<(Seq<u8>, Seq<u8>)>, b: Seq<(Seq<u8>, Seq<u8>)>)
    requires
        ascending(a),
        ascending(b),
        entries_map(a) == entries_map(b),
    ensures
        a == b,
{
    lemma_same_map_same_prefix(a, b, a.len());
    lemma_same_map_same_prefix(b, a, b.len());
    assert(a =~= b);
}

/// The namespace: a set of entries with distinct keys, kept in ascending
/// byte order of the keys.
pub struct Namespace {
    entries: Vec<(Vec<u8>, Vec<u8>)>,
}

impl View for Namespace {
    type V = Map<Seq<u8>, Seq<u8>>;

    /// The namespace as a map from key to value.
    open spec fn view(&self) -> Map<Seq<u8>, Seq<u8>> {
        entries_map(self.listing())
    }
}

impl Namespace {
    /// The entries in the order in which a walk from the start meets them.
    pub closed spec fn listing(&self) -> Seq<(Seq<u8>, Seq<u8>)> {
        plain_entries(self.entries@)
    }

    /// The entries stand in ascending order of their keys.
    #[verifier::type_invariant]
    spec fn well_formed(&self) -> bool {
        ascending(self.listing())
    }

    /// An empty namespace.
    pub fn new() -> (r: Self)
        ensures
            r.listing() == Seq::<(Seq<u8>, Seq<u8>)>::empty(),
            r@ == Map::<Seq<u8>, Seq<u8>>::empty(),
    {
        let r = Namespace { entries: Vec::new() };
        assert(r.listing() =~= Seq::<(Seq<u8>, Seq<u8>)>::empty());
        assert(r@ =~= Map::<Seq<u8>, Seq<u8>>::empty());
        r
    }

    /// How many entries there are.
    pub fn len(&self) -> (n: usize)
        ensures
            n == self.listing().len(),
    {
        self.entries.len()
    }

    /// The entries, in ascending order of their keys.
    pub fn entries(&self) -> (r: &Vec<(Vec<u8>, Vec<u8>)>)
        ensures
            plain_entries(r@) == self.listing(),
            ascending(self.listing()),
    {
        proof {
            use_type_invariant(self);
        }
        &self.entries
    }

    /// The first place whose key does not come before `key`.
    fn place_for(&self, key: &[u8]) -> (at: usize)
        ensures
            at <= self.listing().len(),
            forall|j: int| 0 <= j < at ==> precedes(#[trigger] key_at(self.listing(), j), key@),
            at < self.listing().len() ==> !precedes(key_at(self.listing(), at as int), key@),
    {
        let mut at: usize = 0;
        while at < self.entries.len()
            invariant
                at <= self.entries@.len(),
                forall|j: int| 0 <= j < at ==> precedes(#[trigger] key_at(self.listing(), j), key@),
            decreases self.entries@.len() - at,
        {
            if !comes_before(self.entries[at].0.as_slice(), key) {
                return at;
            }
            at += 1;
        }
        at
    }

    /// Stores `value` under `key`, in place of what was stored under it.
    pub fn put(&mut self, key: Vec<u8>, value: Vec<u8>)
        ensures
            final(self)@ == old(self)@.insert(key@, value@),
    {
        proof {
            use_type_invariant(&*self);
        }
        let at = self.place_for(key.as_slice());
        let ghost before = self.listing();
        let replaces = at < self.entries.len() && !comes_before(
            key.as_slice(),
            self.entries[at].0.as_slice(),
        );
        let mut entries: Vec<(Vec<u8>, Vec<u8>)> = Vec::new();
        assert(ascending(plain_entries(entries@)));
        core::mem::swap(&mut self.entries, &mut entries);
        if replaces {
            proof {
                lemma_precedes_total(key@, key_at(before, at as int));
                lemma_replace_entry(before, at as int, value@);
                assert(plain_entries(entries@.update(at as int, (key, value))) =~= before.update(
                    at as int,
                    (key@, value@),
                ));
            }
            entries.set(at, (key, value));
        } else {
            proof {
                assert forall|j: int| at <= j < before.len() implies precedes(
                    key@,
                    #[trigger] key_at(before, j),
                ) by {
                    lemma_precedes_total(key@, key_at(before, at as int));
                    if j > at {
                        assert(precedes(key_at(before, at as int), key_at(before, j)));
                        lemma_precedes_transitive(
                            key@,
                            key_at(before, at as int),
                            key_at(before, j),
                        );
                    }
                }
                lemma_insert_entry(before, at as int, key@, value@);
                assert(plain_entries(entries@.insert(at as int, (key, value))) =~= before.insert(
                    at as int,
                    (key@, value@),
                ));
            }
            entries.insert(at, (key, value));
        }
        core::mem::swap(&mut self.entries, &mut entries);
    }

    /// Takes out what is stored under `key`, if anything is.
    pub fn delete(&mut self, key: &[u8])
        ensures
            final(self)@ == old(self)@.remove(key@),
    {
        proof {
            use_type_invariant(&*self);
        }
        let at = self.place_for(key);
        let ghost before = self.listing();
        if at < self.entries.len() && !comes_before(key, self.entries[at].0.as_slice()) {
            let mut entries: Vec<(Vec<u8>, Vec<u8>)> = Vec::new();
            assert(ascending(plain_entries(entries@)));
            core::mem::swap(&mut self.entries, &mut entries);
            proof {
                lemma_precedes_total(key@, key_at(before, at as int));
                lemma_remove_entry(before, at as int);
                assert(plain_entries(entries@.remove(at as int)) =~= before.remove(at as int));
            }
            entries.remove(at);
            core::mem::swap(&mut self.entries, &mut entries);
        } else {
            proof {
                assert forall|j: int| 0 <= j < before.len() implies key_at(before, j) != key@ by {
                    lemma_precedes_irreflexive(key@);
                    if j > at {
                        assert(precedes(key_at(before, at as int), key_at(before, j)));
                        lemma_precedes_transitive(
                            key@,
                            key_at(before, at as int),
                            key_at(before, j),
                        );
                    }
                }
                assert(!holds_key(before, key@));
                assert(self@ =~= self@.remove(key@));
            }
        }
    }
}

} // verus!
