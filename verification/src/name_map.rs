//! A map from names to values that keeps its entries in the order of the
//! names, so that walking it visits them in that order.

use crate::text::{lemma_name_lt_connected, lemma_name_lt_transitive, name_less, name_lt};
use vstd::prelude::*;

verus! {

/// Whether the names of `s` strictly increase (so that none occurs twice).
pub open spec fn sorted<V>(s: Seq<(Seq<char>, V)>) -> bool {
    forall|i: int, j: int| 0 <= i < j < s.len() ==> name_lt(#[trigger] s[i].0, #[trigger] s[j].0)
}

/// How many leading entries of `s` have a name before `key`: where `key`
/// stands, or would stand, in a sorted `s`.
pub open spec fn rank<V>(s: Seq<(Seq<char>, V)>, key: Seq<char>) -> int
    decreases s.len(),
{
    if s.len() > 0 && name_lt(s[0].0, key) {
        1 + rank(s.drop_first(), key)
    } else {
        0
    }
}

/// Whether `s` has an entry under `key`.
pub open spec fn has_key<V>(s: Seq<(Seq<char>, V)>, key: Seq<char>) -> bool {
    rank(s, key) < s.len() && s[rank(s, key)].0 == key
}

/// The value that a sorted `s` holds under `key`.
pub open spec fn lookup<V>(s: Seq<(Seq<char>, V)>, key: Seq<char>) -> Option<V> {
    if has_key(s, key) {
        Some(s[rank(s, key)].1)
    } else {
        None
    }
}

/// `s` with `value` under `key`: in place of the entry of that name, or as a
/// new entry where the order puts it.
pub open spec fn upsert<V>(s: Seq<(Seq<char>, V)>, key: Seq<char>, value: V) -> Seq<
    (Seq<char>, V),
> {
    if has_key(s, key) {
        s.update(rank(s, key), (key, value))
    } else {
        s.insert(rank(s, key), (key, value))
    }
}

/// `s` without the entry under `key`, if it has one.
pub open spec fn without<V>(s: Seq<(Seq<char>, V)>, key: Seq<char>) -> Seq<(Seq<char>, V)> {
    if has_key(s, key) {
        s.remove(rank(s, key))
    } else {
        s
    }
}

/// The rank is the one index that has only earlier names before it and no
/// earlier name at it.
pub proof fn lemma_rank<V>(s: Seq<(Seq<char>, V)>, key: Seq<char>)
    ensures
        0 <= rank(s, key) <= s.len(),
        forall|j: int| 0 <= j < rank(s, key) ==> name_lt(#[trigger] s[j].0, key),
        rank(s, key) < s.len() ==> !name_lt(s[rank(s, key)].0, key),
    decreases s.len(),
{
    if s.len() > 0 && name_lt(s[0].0, key) {
        let t = s.drop_first();
        lemma_rank(t, key);
        assert forall|j: int| 0 <= j < rank(s, key) implies name_lt(#[trigger] s[j].0, key) by {
            if j > 0 {
                assert(s[j] == t[j - 1]);
            }
        }
        if rank(s, key) < s.len() {
            assert(s[rank(s, key)] == t[rank(t, key)]);
        }
    }
}

/// An index that has only earlier names before it and no earlier name at it
/// is the rank.
pub proof fn lemma_rank_is<V>(s: Seq<(Seq<char>, V)>, key: Seq<char>, i: int)
    requires
        0 <= i <= s.len(),
        forall|j: int| 0 <= j < i ==> name_lt(#[trigger] s[j].0, key),
        i < s.len() ==> !name_lt(s[i].0, key),
    ensures
        rank(s, key) == i,
    decreases s.len(),
{
    if i > 0 {
        let t = s.drop_first();
        assert(name_lt(s[0].0, key));
        assert forall|j: int| 0 <= j < i - 1 implies name_lt(#[trigger] t[j].0, key) by {
            assert(t[j] == s[j + 1]);
        }
        if i - 1 < t.len() {
            assert(t[i - 1] == s[i]);
        }
        lemma_rank_is(t, key, i - 1);
    }
}

/// In a sorted sequence a name stands at its rank, and nowhere else.
pub proof fn lemma_rank_of_entry<V>(s: Seq<(Seq<char>, V)>, i: int)
    requires
        sorted(s),
        0 <= i < s.len(),
    ensures
        rank(s, s[i].0) == i,
        has_key(s, s[i].0),
        lookup(s, s[i].0) == Some(s[i].1),
{
    crate::text::lemma_name_lt_irreflexive(s[i].0);
    lemma_rank_is(s, s[i].0, i);
}

/// Putting a value under a name keeps the order, sets that name and leaves
/// every other name as it was.
pub proof fn lemma_upsert<V>(s: Seq<(Seq<char>, V)>, key: Seq<char>, value: V)
    requires
        sorted(s),
    ensures
        sorted(upsert(s, key, value)),
        lookup(upsert(s, key, value), key) == Some(value),
        forall|other: Seq<char>|
            other != key ==> #[trigger] lookup(upsert(s, key, value), other) == lookup(s, other),
{
    let p = rank(s, key);
    let u = upsert(s, key, value);
    lemma_rank(s, key);
    if has_key(s, key) {
        assert forall|i: int, j: int| 0 <= i < j < u.len() implies name_lt(
            #[trigger] u[i].0,
            #[trigger] u[j].0,
        ) by {
            assert(u[i].0 == s[i].0);
            assert(u[j].0 == s[j].0);
        }
    } else {
        if p < s.len() {
            lemma_name_lt_connected(s[p].0, key);
        }
        assert forall|i: int, j: int| 0 <= i < j < u.len() implies name_lt(
            #[trigger] u[i].0,
            #[trigger] u[j].0,
        ) by {
            if j < p {
                assert(u[i] == s[i] && u[j] == s[j]);
            } else if j == p {
                assert(u[i] == s[i]);
            } else if i < p {
                assert(u[i] == s[i] && u[j] == s[j - 1]);
                if j - 1 > p {
                    assert(name_lt(s[p].0, s[j - 1].0));
                    lemma_name_lt_transitive(key, s[p].0, s[j - 1].0);
                }
                lemma_name_lt_transitive(s[i].0, key, s[j - 1].0);
            } else if i == p {
                assert(u[j] == s[j - 1]);
                if j - 1 > p {
                    assert(name_lt(s[p].0, s[j - 1].0));
                    lemma_name_lt_transitive(key, s[p].0, s[j - 1].0);
                }
            } else {
                assert(u[i] == s[i - 1] && u[j] == s[j - 1]);
            }
        }
    }
    assert(u[p] == (key, value));
    lemma_rank_of_entry(u, p);
    assert forall|other: Seq<char>| other != key implies #[trigger] lookup(u, other) == lookup(
        s,
        other,
    ) by {
        lemma_rank(s, other);
        lemma_rank(u, other);
        let q = rank(s, other);
        if has_key(s, key) {
            assert forall|j: int| 0 <= j < q implies name_lt(#[trigger] u[j].0, other) by {
                assert(u[j].0 == s[j].0);
            }
            if q < u.len() {
                assert(u[q].0 == s[q].0);
            }
            lemma_rank_is(u, other, q);
        } else {
            lemma_name_lt_connected(other, key);
            if name_lt(other, key) {
                // `other` stands before the new entry.
                if q > p {
                    assert(name_lt(s[p].0, other));
                    if p < s.len() {
                        lemma_name_lt_connected(s[p].0, key);
                        lemma_name_lt_transitive(key, s[p].0, other);
                        lemma_name_lt_connected(other, key);
                    }
                }
                assert(q <= p);
                assert forall|j: int| 0 <= j < q implies name_lt(#[trigger] u[j].0, other) by {
                    assert(u[j] == s[j]);
                }
                if q < p {
                    assert(u[q] == s[q]);
                } else {
                    assert(u[q] == (key, value));
                    lemma_name_lt_connected(key, other);
                }
                lemma_rank_is(u, other, q);
                if q == p {
                    if q < s.len() {
                        // s[p] is not before `key`, so it is after `other`.
                        lemma_name_lt_connected(s[p].0, key);
                        lemma_name_lt_transitive(other, key, s[p].0);
                        crate::text::lemma_name_lt_irreflexive(other);
                    }
                }
            } else {
                // `other` stands after the new entry.
                assert(name_lt(key, other));
                if q < p {
                    assert(name_lt(s[q].0, key));
                    lemma_name_lt_transitive(s[q].0, key, other);
                }
                assert(q >= p);
                assert forall|j: int| 0 <= j < q + 1 implies name_lt(#[trigger] u[j].0, other) by {
                    if j < p {
                        assert(u[j] == s[j]);
                    } else if j > p {
                        assert(u[j] == s[j - 1]);
                    }
                }
                if q + 1 < u.len() {
                    assert(u[q + 1] == s[q]);
                }
                lemma_rank_is(u, other, q + 1);
            }
        }
    }
}

/// Putting a value under a name that comes after all names appends it.
pub proof fn lemma_upsert_last<V>(s: Seq<(Seq<char>, V)>, key: Seq<char>, value: V)
    requires
        forall|i: int| 0 <= i < s.len() ==> name_lt(#[trigger] s[i].0, key),
    ensures
        !has_key(s, key),
        upsert(s, key, value) == s.push((key, value)),
{
    lemma_rank_is(s, key, s.len() as int);
    assert(upsert(s, key, value) =~= s.push((key, value)));
}

/// After putting a value under a name, every entry is the new one or an old
/// one, and every old entry of another name is still there.
pub proof fn lemma_upsert_entries<V>(s: Seq<(Seq<char>, V)>, key: Seq<char>, value: V)
    ensures
        forall|i: int|
            0 <= i < upsert(s, key, value).len() ==> (#[trigger] upsert(s, key, value)[i]) == (
                key,
                value,
            ) || s.contains(upsert(s, key, value)[i]),
        forall|j: int|
            0 <= j < s.len() && (#[trigger] s[j]).0 != key ==> upsert(s, key, value).contains(
                s[j],
            ),
        upsert(s, key, value).contains((key, value)),
{
    let p = rank(s, key);
    let u = upsert(s, key, value);
    lemma_rank(s, key);
    assert(u[p] == (key, value));
    assert forall|i: int| 0 <= i < u.len() implies (#[trigger] u[i]) == (key, value) || s.contains(
        u[i],
    ) by {
        if has_key(s, key) {
            if i != p {
                assert(u[i] == s[i]);
            }
        } else if i < p {
            assert(u[i] == s[i]);
        } else if i > p {
            assert(u[i] == s[i - 1]);
        }
    }
    assert forall|j: int| 0 <= j < s.len() && (#[trigger] s[j]).0 != key implies u.contains(
        s[j],
    ) by {
        if has_key(s, key) {
            assert(u[j] == s[j]);
        } else if j < p {
            assert(u[j] == s[j]);
        } else {
            assert(u[j + 1] == s[j]);
        }
    }
}

/// Taking a name out keeps the order, removes that name and leaves every other
/// name as it was.
pub proof fn lemma_without<V>(s: Seq<(Seq<char>, V)>, key: Seq<char>)
    requires
        sorted(s),
    ensures
        sorted(without(s, key)),
        lookup(without(s, key), key) == None::<V>,
        forall|other: Seq<char>|
            other != key ==> #[trigger] lookup(without(s, key), other) == lookup(s, other),
{
    let p = rank(s, key);
    let u = without(s, key);
    lemma_rank(s, key);
    if has_key(s, key) {
        assert forall|i: int, j: int| 0 <= i < j < u.len() implies name_lt(
            #[trigger] u[i].0,
            #[trigger] u[j].0,
        ) by {
            assert(u[i] == if i < p { s[i] } else { s[i + 1] });
            assert(u[j] == if j < p { s[j] } else { s[j + 1] });
        }
        assert forall|j: int| 0 <= j < p implies name_lt(#[trigger] u[j].0, key) by {
            assert(u[j] == s[j]);
        }
        if p < u.len() {
            assert(u[p] == s[p + 1]);
            assert(name_lt(s[p].0, s[p + 1].0));
            lemma_name_lt_connected(key, u[p].0);
        }
        lemma_rank_is(u, key, p);
        assert forall|other: Seq<char>| other != key implies #[trigger] lookup(u, other)
            == lookup(s, other) by {
            lemma_rank(s, other);
            let q = rank(s, other);
            lemma_name_lt_connected(other, key);
            if q <= p {
                assert forall|j: int| 0 <= j < q implies name_lt(#[trigger] u[j].0, other) by {
                    assert(u[j] == s[j]);
                }
                if q < p {
                    assert(u[q] == s[q]);
                    lemma_rank_is(u, other, q);
                } else {
                    // q == p: `key` is not before `other`, so `other` is before `key`.
                    if q < u.len() {
                        assert(u[q] == s[q + 1]);
                        if name_lt(s[q + 1].0, other) {
                            assert(name_lt(s[q].0, s[q + 1].0));
                            lemma_name_lt_transitive(key, s[q + 1].0, other);
                        }
                    }
                    lemma_rank_is(u, other, q);
                }
            } else {
                assert forall|j: int| 0 <= j < q - 1 implies name_lt(#[trigger] u[j].0, other) by {
                    if j < p {
                        assert(u[j] == s[j]);
                    } else {
                        assert(u[j] == s[j + 1]);
                    }
                }
                if q - 1 < u.len() {
                    assert(u[q - 1] == s[q]);
                }
                lemma_rank_is(u, other, q - 1);
            }
        }
    }
}

/// The entries of `s` with `f` applied to each value.
pub open spec fn map_entries<V, W>(s: Seq<(Seq<char>, V)>, f: spec_fn(V) -> W) -> Seq<
    (Seq<char>, W),
> {
    Seq::new(s.len(), |i: int| (s[i].0, f(s[i].1)))
}

/// The names of `s`, each with a value that says nothing.
pub open spec fn key_set<V>(s: Seq<(Seq<char>, V)>) -> Seq<(Seq<char>, ())> {
    map_entries(s, |v: V| ())
}

/// Applying a function to the values moves no name.
pub proof fn lemma_map_entries<V, W>(s: Seq<(Seq<char>, V)>, f: spec_fn(V) -> W, key: Seq<char>)
    ensures
        rank(map_entries(s, f), key) == rank(s, key),
        has_key(map_entries(s, f), key) == has_key(s, key),
        sorted(map_entries(s, f)) == sorted(s),
{
    let t = map_entries(s, f);
    lemma_rank(s, key);
    assert forall|j: int| 0 <= j < rank(s, key) implies name_lt(#[trigger] t[j].0, key) by {
        assert(t[j].0 == s[j].0);
    }
    lemma_rank_is(t, key, rank(s, key));
    if sorted(s) {
        assert forall|i: int, j: int| 0 <= i < j < t.len() implies name_lt(
            #[trigger] t[i].0,
            #[trigger] t[j].0,
        ) by {
            assert(name_lt(s[i].0, s[j].0));
        }
    }
    if sorted(t) {
        assert forall|i: int, j: int| 0 <= i < j < s.len() implies name_lt(
            #[trigger] s[i].0,
            #[trigger] s[j].0,
        ) by {
            assert(name_lt(t[i].0, t[j].0));
        }
    }
}

/// Putting a value under a name and then applying a function to the values
/// is putting the function's value under that name.
pub proof fn lemma_map_entries_upsert<V, W>(
    s: Seq<(Seq<char>, V)>,
    f: spec_fn(V) -> W,
    key: Seq<char>,
    value: V,
)
    ensures
        map_entries(upsert(s, key, value), f) == upsert(map_entries(s, f), key, f(value)),
{
    lemma_map_entries(s, f, key);
    lemma_rank(s, key);
    assert(map_entries(upsert(s, key, value), f) =~= upsert(map_entries(s, f), key, f(value)));
}

/// A map from names to values, held in the order of the names.
#[derive(Clone, Debug, PartialEq)]
pub struct NameMap<V> {
    entries: Vec<(String, V)>,
}

impl<V> View for NameMap<V> {
    type V = Seq<(Seq<char>, V)>;

    /// The entries in the order of their names.
    closed spec fn view(&self) -> Seq<(Seq<char>, V)> {
        Seq::new(self.entries@.len(), |i: int| (self.entries@[i].0@, self.entries@[i].1))
    }
}

impl<V> NameMap<V> {
    /// The names strictly increase.
    pub open spec fn wf(&self) -> bool {
        sorted(self@)
    }

    /// A map without entries.
    pub fn new() -> (m: Self)
        ensures
            m@ == Seq::<(Seq<char>, V)>::empty(),
            m.wf(),
    {
        let m = NameMap { entries: Vec::new() };
        assert(m@ =~= Seq::<(Seq<char>, V)>::empty());
        m
    }

    /// The number of entries.
    pub fn len(&self) -> (n: usize)
        ensures
            n == self@.len(),
    {
        self.entries.len()
    }

    /// Whether the map has no entry.
    pub fn is_empty(&self) -> (b: bool)
        ensures
            b == (self@.len() == 0),
    {
        self.entries.len() == 0
    }

    /// The name of the entry at position `i`.
    pub fn key(&self, i: usize) -> (k: &String)
        requires
            i < self@.len(),
        ensures
            k@ == self@[i as int].0,
    {
        &self.entries[i].0
    }

    /// The value of the entry at position `i`.
    pub fn value(&self, i: usize) -> (v: &V)
        requires
            i < self@.len(),
        ensures
            *v == self@[i as int].1,
    {
        &self.entries[i].1
    }

    /// Where `key` stands or would stand.
    fn rank_of(&self, key: &str) -> (p: usize)
        ensures
            p == rank(self@, key@),
            p <= self@.len(),
    {
        let mut i: usize = 0;
        while i < self.entries.len() && name_less(self.entries[i].0.as_str(), key)
            invariant
                i <= self.entries@.len(),
                forall|j: int| 0 <= j < i ==> name_lt(#[trigger] self@[j].0, key@),
            decreases self.entries@.len() - i,
        {
            i += 1;
        }
        proof {
            lemma_rank_is(self@, key@, i as int);
        }
        i
    }

    /// The position of the entry under `key`.
    pub fn position(&self, key: &str) -> (r: Option<usize>)
        ensures
            r is Some <==> has_key(self@, key@),
            r matches Some(p) ==> p == rank(self@, key@) && p < self@.len(),
    {
        let p = self.rank_of(key);
        if p < self.entries.len() && str_equal(self.entries[p].0.as_str(), key) {
            Some(p)
        } else {
            None
        }
    }

    /// Whether there is an entry under `key`.
    pub fn contains_key(&self, key: &str) -> (b: bool)
        ensures
            b == has_key(self@, key@),
    {
        self.position(key).is_some()
    }

    /// The value under `key`.
    pub fn get(&self, key: &str) -> (r: Option<&V>)
        ensures
            r matches Some(v) ==> lookup(self@, key@) == Some(*v),
            r is None ==> lookup(self@, key@) is None,
    {
        match self.position(key) {
            Some(p) => Some(&self.entries[p].1),
            None => None,
        }
    }

    /// Puts `value` under `key`, in place of what was there.
    pub fn insert(&mut self, key: String, value: V)
        requires
            old(self).wf(),
        ensures
            final(self)@ == upsert(old(self)@, key@, value),
            final(self).wf(),
    {
        let p = self.rank_of(key.as_str());
        let found = p < self.entries.len() && str_equal(self.entries[p].0.as_str(), key.as_str());
        proof {
            lemma_upsert(self@, key@, value);
        }
        if found {
            self.entries.set(p, (key, value));
        } else {
            self.entries.insert(p, (key, value));
        }
        assert(self@ =~= upsert(old(self)@, key@, value));
    }

    /// Puts `value` under `key` at the end. The name must come after all
    /// names of the map.
    pub(crate) fn push_last(&mut self, key: String, value: V)
        requires
            old(self).wf(),
            forall|i: int| 0 <= i < old(self)@.len() ==> name_lt(#[trigger] old(self)@[i].0, key@),
        ensures
            final(self)@ == old(self)@.push((key@, value)),
            final(self).wf(),
    {
        self.entries.push((key, value));
        assert(self@ =~= old(self)@.push((key@, value)));
        assert forall|i: int, j: int| 0 <= i < j < self@.len() implies name_lt(
            #[trigger] self@[i].0,
            #[trigger] self@[j].0,
        ) by {
            assert(self@[i] == old(self)@[i]);
            if j < old(self)@.len() {
                assert(self@[j] == old(self)@[j]);
            }
        }
    }

    /// Takes out the entry under `key`, if there is one.
    pub fn remove(&mut self, key: &str)
        requires
            old(self).wf(),
        ensures
            final(self)@ == without(old(self)@, key@),
            final(self).wf(),
    {
        proof {
            lemma_without(self@, key@);
        }
        match self.position(key) {
            Some(p) => {
                let _ = self.entries.remove(p);
            },
            None => {},
        }
        assert(self@ =~= without(old(self)@, key@));
    }
}

/// Whether two names are the same.
pub fn str_equal(a: &str, b: &str) -> (r: bool)
    ensures
        r == (a@ == b@),
{
    let lt = name_less(a, b);
    let gt = name_less(b, a);
    proof {
        lemma_name_lt_connected(a@, b@);
        crate::text::lemma_name_lt_irreflexive(a@);
    }
    !lt && !gt
}

} // verus!
