//! An association list keyed by byte strings and kept in ascending key order.
//!
//! The model of a map is the sequence of its `(key, value)` pairs. The order
//! is part of the model: walks over a map, and pages cut from it, follow it.

use crate::bytes::{compare_bytes, lemma_lex_transitive, lemma_lex_trichotomy, lex_lt, KeyOrder};
use vstd::prelude::*;

verus! {

/// Each key comes strictly before the keys that follow it.
pub open spec fn keys_sorted<T>(s: Seq<(Seq<u8>, T)>) -> bool {
    forall|i: int, j: int| 0 <= i < j < s.len() ==> lex_lt(#[trigger] s[i].0, #[trigger] s[j].0)
}

/// The number of leading pairs whose key comes before `key`. In a sorted
/// sequence this is where `key` stands, or where it would be inserted.
pub open spec fn rank<T>(s: Seq<(Seq<u8>, T)>, key: Seq<u8>) -> int
    decreases s.len(),
{
    if s.len() == 0 || !lex_lt(s[0].0, key) {
        0
    } else {
        1 + rank(s.drop_first(), key)
    }
}

/// Whether some pair has the key `key`.
pub open spec fn contains_key<T>(s: Seq<(Seq<u8>, T)>, key: Seq<u8>) -> bool {
    rank(s, key) < s.len() && s[rank(s, key)].0 == key
}

/// The value held under `key`, if any.
pub open spec fn lookup<T>(s: Seq<(Seq<u8>, T)>, key: Seq<u8>) -> Option<T> {
    if contains_key(s, key) {
        Some(s[rank(s, key)].1)
    } else {
        None
    }
}

/// The sequence with `value` under `key`: in place of the old value, or as a
/// new pair at the key's rank.
pub open spec fn put<T>(s: Seq<(Seq<u8>, T)>, key: Seq<u8>, value: T) -> Seq<(Seq<u8>, T)> {
    if contains_key(s, key) {
        s.update(rank(s, key), (key, value))
    } else {
        s.insert(rank(s, key), (key, value))
    }
}

/// The sequence without the pair of `key`.
pub open spec fn del<T>(s: Seq<(Seq<u8>, T)>, key: Seq<u8>) -> Seq<(Seq<u8>, T)> {
    if contains_key(s, key) {
        s.remove(rank(s, key))
    } else {
        s
    }
}

/// The rank is an index or the length; the keys before it come before `key`,
/// and the key at it does not.
pub proof fn lemma_rank_bounds<T>(s: Seq<(Seq<u8>, T)>, key: Seq<u8>)
    ensures
        0 <= rank(s, key) <= s.len(),
        forall|j: int| 0 <= j < rank(s, key) ==> lex_lt(#[trigger] s[j].0, key),
        rank(s, key) < s.len() ==> !lex_lt(s[rank(s, key)].0, key),
    decreases s.len(),
{
    if s.len() > 0 && lex_lt(s[0].0, key) {
        let t = s.drop_first();
        lemma_rank_bounds(t, key);
        assert forall|j: int| 0 <= j < rank(s, key) implies lex_lt(#[trigger] s[j].0, key) by {
            if j > 0 {
                assert(s[j] == t[j - 1]);
            }
        }
        if rank(s, key) < s.len() {
            assert(s[rank(s, key)] == t[rank(t, key)]);
        }
    }
}

/// An index with the two properties of the rank is the rank.
pub proof fn lemma_rank_unique<T>(s: Seq<(Seq<u8>, T)>, key: Seq<u8>, i: int)
    requires
        0 <= i <= s.len(),
        forall|j: int| 0 <= j < i ==> lex_lt(#[trigger] s[j].0, key),
        i < s.len() ==> !lex_lt(s[i].0, key),
    ensures
        rank(s, key) == i,
    decreases s.len(),
{
    if i > 0 {
        let t = s.drop_first();
        assert(lex_lt(s[0].0, key));
        assert forall|j: int| 0 <= j < i - 1 implies lex_lt(#[trigger] t[j].0, key) by {
            assert(t[j] == s[j + 1]);
        }
        if i - 1 < t.len() {
            assert(t[i - 1] == s[i]);
        }
        lemma_rank_unique(t, key, i - 1);
    }
}

/// In a sorted sequence the rank of a key that is present is its index.
pub proof fn lemma_rank_of_present<T>(s: Seq<(Seq<u8>, T)>, i: int)
    requires
        keys_sorted(s),
        0 <= i < s.len(),
    ensures
        rank(s, s[i].0) == i,
        contains_key(s, s[i].0),
        lookup(s, s[i].0) == Some(s[i].1),
{
    crate::bytes::lemma_lex_irreflexive(s[i].0);
    lemma_rank_unique(s, s[i].0, i);
}

/// In a sorted sequence no key from the rank on comes before `key`.
pub proof fn lemma_rank_splits<T>(s: Seq<(Seq<u8>, T)>, key: Seq<u8>)
    requires
        keys_sorted(s),
    ensures
        forall|j: int| rank(s, key) <= j < s.len() ==> !lex_lt(#[trigger] s[j].0, key),
        forall|j: int|
            rank(s, key) <= j < s.len() && s[rank(s, key)].0 == key && j != rank(s, key)
                ==> lex_lt(key, #[trigger] s[j].0),
{
    lemma_rank_bounds(s, key);
    let r = rank(s, key);
    assert forall|j: int| r <= j < s.len() implies !lex_lt(#[trigger] s[j].0, key) by {
        if j > r && lex_lt(s[j].0, key) {
            lemma_lex_transitive(s[r].0, s[j].0, key);
        }
    }
}

/// Putting a value keeps the keys sorted.
pub proof fn lemma_put_sorted<T>(s: Seq<(Seq<u8>, T)>, key: Seq<u8>, value: T)
    requires
        keys_sorted(s),
    ensures
        keys_sorted(put(s, key, value)),
{
    lemma_rank_bounds(s, key);
    lemma_rank_splits(s, key);
    let r = rank(s, key);
    let t = put(s, key, value);
    assert forall|i: int, j: int| 0 <= i < j < t.len() implies lex_lt(
        #[trigger] t[i].0,
        #[trigger] t[j].0,
    ) by {
        if contains_key(s, key) {
            // the keys are those of `s`
            assert(t[i].0 == s[i].0 && t[j].0 == s[j].0);
        } else {
            // the pairs of `s` from the rank on have moved up by one
            let si = if i < r { i } else { i - 1 };
            let sj = if j < r { j } else { j - 1 };
            if i == r {
                lemma_lex_trichotomy(s[sj].0, key);
            } else if j == r {
                assert(t[i] == s[si]);
            } else {
                assert(t[i] == s[si] && t[j] == s[sj]);
            }
        }
    }
}

/// Deleting a key keeps the keys sorted.
pub proof fn lemma_del_sorted<T>(s: Seq<(Seq<u8>, T)>, key: Seq<u8>)
    requires
        keys_sorted(s),
    ensures
        keys_sorted(del(s, key)),
{
    lemma_rank_bounds(s, key);
    let r = rank(s, key);
    let t = del(s, key);
    if contains_key(s, key) {
        assert forall|i: int, j: int| 0 <= i < j < t.len() implies lex_lt(
            #[trigger] t[i].0,
            #[trigger] t[j].0,
        ) by {
            // the pairs of `s` behind the rank have moved down by one
            let si = if i < r { i } else { i + 1 };
            let sj = if j < r { j } else { j + 1 };
            assert(t[i] == s[si] && t[j] == s[sj]);
        }
    }
}

/// A key that no pair has is not found.
pub proof fn lemma_lookup_absent<T>(s: Seq<(Seq<u8>, T)>, key: Seq<u8>)
    requires
        forall|i: int| 0 <= i < s.len() ==> (#[trigger] s[i]).0 != key,
    ensures
        !contains_key(s, key),
        lookup(s, key) is None,
{
    lemma_rank_bounds(s, key);
}

/// In a sorted sequence a key that is not found is the key of no pair.
pub proof fn lemma_absent_everywhere<T>(s: Seq<(Seq<u8>, T)>, key: Seq<u8>)
    requires
        keys_sorted(s),
        !contains_key(s, key),
    ensures
        forall|i: int| 0 <= i < s.len() ==> (#[trigger] s[i]).0 != key,
{
    assert forall|i: int| 0 <= i < s.len() implies (#[trigger] s[i]).0 != key by {
        if s[i].0 == key {
            lemma_rank_of_present(s, i);
        }
    }
}

/// After a put, the key that was put holds the value, and every other key
/// holds what it held.
pub proof fn lemma_lookup_put<T>(s: Seq<(Seq<u8>, T)>, key: Seq<u8>, value: T, other: Seq<u8>)
    requires
        keys_sorted(s),
    ensures
        lookup(put(s, key, value), other) == if other == key {
            Some(value)
        } else {
            lookup(s, other)
        },
{
    lemma_put_sorted(s, key, value);
    lemma_rank_bounds(s, key);
    lemma_rank_bounds(s, other);
    let r = rank(s, key);
    let t = put(s, key, value);
    if other == key {
        assert(t[r] == (key, value));
        lemma_rank_of_present(t, r);
    } else if contains_key(s, other) {
        let j = rank(s, other);
        let moved = if !contains_key(s, key) && j >= r {
            j + 1
        } else {
            j
        };
        assert(t[moved] == s[j]);
        lemma_rank_of_present(t, moved);
    } else {
        lemma_absent_everywhere(s, other);
        assert forall|i: int| 0 <= i < t.len() implies (#[trigger] t[i]).0 != other by {
            if contains_key(s, key) {
                if i != r {
                    assert(t[i] == s[i]);
                }
            } else {
                if i < r {
                    assert(t[i] == s[i]);
                } else if i > r {
                    assert(t[i] == s[i - 1]);
                }
            }
        }
        lemma_lookup_absent(t, other);
    }
}

/// After a delete, the key that was deleted is not found, and every other key
/// holds what it held.
pub proof fn lemma_lookup_del<T>(s: Seq<(Seq<u8>, T)>, key: Seq<u8>, other: Seq<u8>)
    requires
        keys_sorted(s),
    ensures
        lookup(del(s, key), other) == if other == key {
            None
        } else {
            lookup(s, other)
        },
{
    lemma_del_sorted(s, key);
    lemma_rank_bounds(s, key);
    lemma_rank_bounds(s, other);
    let r = rank(s, key);
    let t = del(s, key);
    if !contains_key(s, key) {
        // nothing is deleted
    } else if other == key {
        assert forall|i: int| 0 <= i < t.len() implies (#[trigger] t[i]).0 != other by {
            let si = if i < r { i } else { i + 1 };
            assert(t[i] == s[si]);
            if s[si].0 == key {
                lemma_rank_of_present(s, si);
            }
        }
        lemma_lookup_absent(t, other);
    } else if contains_key(s, other) {
        let j = rank(s, other);
        let moved = if j > r { j - 1 } else { j };
        assert(t[moved] == s[j]);
        lemma_rank_of_present(t, moved);
    } else {
        lemma_absent_everywhere(s, other);
        assert forall|i: int| 0 <= i < t.len() implies (#[trigger] t[i]).0 != other by {
            let si = if i < r { i } else { i + 1 };
            assert(t[i] == s[si]);
        }
        lemma_lookup_absent(t, other);
    }
}

/// What holds of the pair that is put, and of every pair under another key,
/// holds of every pair after the put.
pub proof fn lemma_put_all<T>(
    s: Seq<(Seq<u8>, T)>,
    key: Seq<u8>,
    value: T,
    holds: spec_fn((Seq<u8>, T)) -> bool,
)
    requires
        keys_sorted(s),
        holds((key, value)),
        forall|j: int| 0 <= j < s.len() && s[j].0 != key ==> holds(#[trigger] s[j]),
    ensures
        forall|i: int| 0 <= i < put(s, key, value).len() ==> holds(#[trigger] put(s, key, value)[i]),
{
    lemma_rank_bounds(s, key);
    let r = rank(s, key);
    let t = put(s, key, value);
    assert forall|i: int| 0 <= i < t.len() implies holds(#[trigger] t[i]) by {
        if contains_key(s, key) {
            if i != r {
                assert(t[i] == s[i]);
                if s[i].0 == key {
                    lemma_rank_of_present(s, i);
                }
            }
        } else {
            lemma_absent_everywhere(s, key);
            if i < r {
                assert(t[i] == s[i]);
            } else if i > r {
                assert(t[i] == s[i - 1]);
            }
        }
    }
}

/// What holds of every pair under another key holds of every pair after the
/// delete.
pub proof fn lemma_del_all<T>(
    s: Seq<(Seq<u8>, T)>,
    key: Seq<u8>,
    holds: spec_fn((Seq<u8>, T)) -> bool,
)
    requires
        keys_sorted(s),
        forall|j: int| 0 <= j < s.len() && s[j].0 != key ==> holds(#[trigger] s[j]),
    ensures
        forall|i: int| 0 <= i < del(s, key).len() ==> holds(#[trigger] del(s, key)[i]),
{
    lemma_rank_bounds(s, key);
    let r = rank(s, key);
    let t = del(s, key);
    assert forall|i: int| 0 <= i < t.len() implies holds(#[trigger] t[i]) by {
        if contains_key(s, key) {
            let si = if i < r { i } else { i + 1 };
            assert(t[i] == s[si]);
            if s[si].0 == key {
                lemma_rank_of_present(s, si);
            }
        } else {
            lemma_absent_everywhere(s, key);
        }
    }
}

/// Replacing the value of a pair keeps the keys sorted.
pub proof fn lemma_update_sorted<T>(s: Seq<(Seq<u8>, T)>, i: int, value: T)
    requires
        keys_sorted(s),
        0 <= i < s.len(),
    ensures
        keys_sorted(s.update(i, (s[i].0, value))),
        s.update(i, (s[i].0, value)) == put(s, s[i].0, value),
{
    let t = s.update(i, (s[i].0, value));
    assert forall|a: int, b: int| 0 <= a < b < t.len() implies lex_lt(
        #[trigger] t[a].0,
        #[trigger] t[b].0,
    ) by {
        assert(t[a].0 == s[a].0);
        assert(t[b].0 == s[b].0);
    }
    lemma_rank_of_present(s, i);
}

/// Keys of which each comes before the next are sorted.
pub proof fn lemma_adjacent_sorted<T>(s: Seq<(Seq<u8>, T)>)
    requires
        forall|a: int| 0 < a < s.len() ==> lex_lt(#[trigger] s[a - 1].0, s[a].0),
    ensures
        keys_sorted(s),
    decreases s.len(),
{
    if s.len() > 1 {
        let t = s.drop_last();
        assert forall|a: int| 0 < a < t.len() implies lex_lt(#[trigger] t[a - 1].0, t[a].0) by {
            assert(t[a - 1] == s[a - 1]);
            assert(t[a] == s[a]);
        }
        lemma_adjacent_sorted(t);
        assert forall|i: int, j: int| 0 <= i < j < s.len() implies lex_lt(
            #[trigger] s[i].0,
            #[trigger] s[j].0,
        ) by {
            let last = s.len() - 1;
            if j < last {
                assert(t[i] == s[i]);
                assert(t[j] == s[j]);
            } else if i < last - 1 {
                assert(t[i] == s[i]);
                assert(t[last - 1] == s[last - 1]);
                lemma_lex_transitive(s[i].0, s[last - 1].0, s[last].0);
            }
        }
    }
}

/// A map from byte strings to values, held in ascending key order.
#[derive(Debug, PartialEq, Eq)]
pub struct SortedMap<V> {
    pub entries: Vec<(Vec<u8>, V)>,
}

impl<V: View> View for SortedMap<V> {
    type V = Seq<(Seq<u8>, V::V)>;

    open spec fn view(&self) -> Seq<(Seq<u8>, V::V)> {
        self.entries@.map_values(|e: (Vec<u8>, V)| (e.0@, e.1@))
    }
}

impl<V: View> SortedMap<V> {
    /// The keys are in strictly ascending order.
    pub open spec fn wf(&self) -> bool {
        keys_sorted(self@)
    }

    /// A map without pairs.
    pub fn new() -> (r: Self)
        ensures
            r@ == Seq::<(Seq<u8>, V::V)>::empty(),
            r.wf(),
    {
        let r = SortedMap { entries: Vec::new() };
        assert(r@ =~= Seq::<(Seq<u8>, V::V)>::empty());
        r
    }

    /// Whether the keys are in strictly ascending order.
    pub fn is_sorted(&self) -> (r: bool)
        ensures
            r == self.wf(),
    {
        let mut i: usize = 1;
        while i < self.entries.len()
            invariant
                1 <= i,
                forall|a: int| 0 < a < i && a < self@.len() ==> lex_lt(
                    #[trigger] self@[a - 1].0,
                    self@[a].0,
                ),
            decreases self.entries.len() - i,
        {
            match compare_bytes(&self.entries[i - 1].0, &self.entries[i].0) {
                KeyOrder::Before => {},
                _ => {
                    proof {
                        lemma_lex_trichotomy(self@[i - 1].0, self@[i as int].0);
                    }
                    return false;
                },
            }
            i += 1;
        }
        proof {
            lemma_adjacent_sorted(self@);
        }
        true
    }

    /// The number of pairs.
    pub fn len(&self) -> (r: usize)
        ensures
            r == self@.len(),
    {
        self.entries.len()
    }

    /// The key of the pair at `i`.
    pub fn key_at(&self, i: usize) -> (r: &Vec<u8>)
        requires
            i < self@.len(),
        ensures
            r@ == self@[i as int].0,
    {
        &self.entries[i].0
    }

    /// The value of the pair at `i`.
    pub fn value_at(&self, i: usize) -> (r: &V)
        requires
            i < self@.len(),
        ensures
            r@ == self@[i as int].1,
    {
        &self.entries[i].1
    }

    /// The rank of `key`, and whether the key is present.
    pub fn find(&self, key: &Vec<u8>) -> (r: (usize, bool))
        ensures
            r.0 == rank(self@, key@),
            r.1 == contains_key(self@, key@),
            r.0 <= self@.len(),
    {
        let mut i: usize = 0;
        while i < self.entries.len()
            invariant
                i <= self.entries.len(),
                forall|j: int| 0 <= j < i ==> lex_lt(#[trigger] self@[j].0, key@),
            decreases self.entries.len() - i,
        {
            let order = compare_bytes(&self.entries[i].0, key);
            match order {
                KeyOrder::Before => {},
                KeyOrder::Same => {
                    proof {
                        lemma_lex_trichotomy(self@[i as int].0, key@);
                        lemma_rank_unique(self@, key@, i as int);
                    }
                    return (i, true);
                },
                KeyOrder::After => {
                    proof {
                        lemma_lex_trichotomy(self@[i as int].0, key@);
                        lemma_rank_unique(self@, key@, i as int);
                    }
                    return (i, false);
                },
            }
            i += 1;
        }
        proof {
            lemma_rank_unique(self@, key@, i as int);
        }
        (i, false)
    }

    /// Exchanges the value of the pair at `i` with `value`.
    pub fn swap_value_at(&mut self, i: usize, value: &mut V)
        requires
            i < old(self)@.len(),
        ensures
            final(self)@ == old(self)@.update(i as int, (old(self)@[i as int].0, old(value)@)),
            final(value)@ == old(self)@[i as int].1,
            old(self).wf() ==> final(self).wf(),
    {
        let (key, mut held) = self.entries.remove(i);
        std::mem::swap(&mut held, value);
        self.entries.insert(i, (key, held));
        assert(self@ =~= old(self)@.update(i as int, (old(self)@[i as int].0, old(value)@)));
        proof {
            if old(self).wf() {
                lemma_update_sorted(old(self)@, i as int, old(value)@);
            }
        }
    }

    /// Whether `key` is present.
    pub fn contains(&self, key: &Vec<u8>) -> (r: bool)
        ensures
            r == contains_key(self@, key@),
    {
        self.find(key).1
    }

    /// The value held under `key`, if any.
    pub fn get(&self, key: &Vec<u8>) -> (r: Option<&V>)
        ensures
            r is Some <==> contains_key(self@, key@),
            r is Some ==> Some(r->0@) == lookup(self@, key@),
    {
        let (i, found) = self.find(key);
        if found {
            Some(&self.entries[i].1)
        } else {
            None
        }
    }

    /// Puts `value` under `key`, in place of the value that was there, if any.
    pub fn insert(&mut self, key: Vec<u8>, value: V)
        requires
            old(self).wf(),
        ensures
            final(self)@ == put(old(self)@, key@, value@),
            final(self).wf(),
    {
        let (i, found) = self.find(&key);
        proof {
            lemma_put_sorted(self@, key@, value@);
        }
        if found {
            let _ = self.entries.remove(i);
        }
        self.entries.insert(i, (key, value));
        assert(self@ =~= put(old(self)@, key@, value@));
    }

    /// Takes the pair of `key` out, and returns its value if there was one.
    pub fn remove(&mut self, key: &Vec<u8>) -> (r: Option<V>)
        requires
            old(self).wf(),
        ensures
            final(self)@ == del(old(self)@, key@),
            final(self).wf(),
            r is Some <==> contains_key(old(self)@, key@),
            r is Some ==> Some(r->0@) == lookup(old(self)@, key@),
    {
        let (i, found) = self.find(key);
        proof {
            lemma_del_sorted(self@, key@);
        }
        if found {
            let e = self.entries.remove(i);
            assert(self@ =~= del(old(self)@, key@));
            Some(e.1)
        } else {
            None
        }
    }
}

} // verus!
