//! Series by key.
//!
//! The entries stand in the order of their keys and no key stands twice, so two maps that hold the
//! same series are the same entry by entry.
use vstd::prelude::*;

use crate::text::{self, comes_before};

verus! {

/// A map from the key of a series to what was read of it.
#[derive(Debug, PartialEq)]
pub struct SeriesMap<V> {
    entries: Vec<(String, V)>,
}

/// Whether each key of `keys` comes strictly before all that follow it.
pub open spec fn ascending(keys: Seq<Seq<char>>) -> bool {
    forall|i: int, j: int|
        0 <= i < j < keys.len() ==> text::precedes(#[trigger] keys[i], #[trigger] keys[j])
}

impl<V> SeriesMap<V> {
    /// The keys, in order.
    pub closed spec fn keys(&self) -> Seq<Seq<char>> {
        self.entries@.map_values(|entry: (String, V)| entry.0@)
    }

    /// What stands at index `i`.
    pub closed spec fn at(&self, i: int) -> V {
        self.entries@[i].1
    }

    #[verifier::type_invariant]
    spec fn in_order(&self) -> bool {
        ascending(self.keys())
    }
}

impl<V: View> View for SeriesMap<V> {
    type V = Map<Seq<char>, V::V>;

    open spec fn view(&self) -> Map<Seq<char>, V::V> {
        Map::new(
            |key: Seq<char>| self.keys().contains(key),
            |key: Seq<char>| self.at(self.keys().index_of(key))@,
        )
    }
}

/// A key stands at one index only.
proof fn lemma_one_index(keys: Seq<Seq<char>>, i: int)
    requires
        ascending(keys),
        0 <= i < keys.len(),
    ensures
        keys.contains(keys[i]),
        keys.index_of(keys[i]) == i,
{
    let j = keys.index_of(keys[i]);
    assert(keys.contains(keys[i]));
    assert(0 <= j < keys.len() && keys[j] == keys[i]);
    text::lemma_precedes_orders(keys[i], keys[i], keys[i]);
}

/// Two maps that hold the same series hold them in the same order.
pub proof fn law_same_series_same_keys(a: Seq<Seq<char>>, b: Seq<Seq<char>>)
    requires
        ascending(a),
        ascending(b),
        a.to_set() == b.to_set(),
    ensures
        a == b,
    decreases a.len(),
{
    if a.len() == 0 {
        if b.len() > 0 {
            assert(b.to_set().contains(b[0]));
            assert(a.to_set().contains(b[0]));
        }
        assert(a =~= b);
    } else {
        assert(a.to_set().contains(a.last()));
        assert(b.to_set().contains(a.last()));
        assert(b.len() > 0);
        let i = b.index_of(a.last());
        assert(b.to_set().contains(b.last()));
        assert(a.to_set().contains(b.last()));
        let j = a.index_of(b.last());
        text::lemma_precedes_orders(a.last(), b.last(), a.last());
        if i < b.len() - 1 {
            assert(text::precedes(b[i], b[b.len() - 1]));
        }
        if j < a.len() - 1 {
            assert(text::precedes(a[j], a[a.len() - 1]));
        }
        assert(a.last() == b.last());
        let (c, d) = (a.drop_last(), b.drop_last());
        assert(ascending(c)) by {
            assert forall|p: int, q: int| 0 <= p < q < c.len() implies text::precedes(
                #[trigger] c[p],
                #[trigger] c[q],
            ) by {
                assert(text::precedes(a[p], a[q]));
            }
        }
        assert(ascending(d)) by {
            assert forall|p: int, q: int| 0 <= p < q < d.len() implies text::precedes(
                #[trigger] d[p],
                #[trigger] d[q],
            ) by {
                assert(text::precedes(b[p], b[q]));
            }
        }
        assert forall|key: Seq<char>| c.to_set().contains(key) == d.to_set().contains(key) by {
            lemma_drop_last_set(a, key);
            lemma_drop_last_set(b, key);
        }
        assert(c.to_set() =~= d.to_set());
        law_same_series_same_keys(c, d);
        assert(a =~= c.push(a.last()));
        assert(b =~= d.push(b.last()));
    }
}

/// All keys but the last.
proof fn lemma_drop_last_set(a: Seq<Seq<char>>, key: Seq<char>)
    requires
        ascending(a),
        a.len() > 0,
    ensures
        a.drop_last().to_set().contains(key) == (a.to_set().contains(key) && key != a.last()),
{
    let c = a.drop_last();
    if c.contains(key) {
        let i = c.index_of(key);
        assert(a[i] == key);
        assert(text::precedes(a[i], a[a.len() - 1]));
        text::lemma_precedes_orders(key, key, key);
    }
    if a.contains(key) && key != a.last() {
        let i = a.index_of(key);
        assert(c[i] == key);
    }
}

impl<V: Clone> Clone for SeriesMap<V> {
    fn clone(&self) -> (map: SeriesMap<V>)
        ensures
            map.keys() == self.keys(),
            forall|i: int|
                0 <= i < self.keys().len() ==> cloned::<V>(self.at(i), #[trigger] map.at(i)),
    {
        let mut entries: Vec<(String, V)> = Vec::new();
        let mut i: usize = 0;
        while i < self.entries.len()
            invariant
                i <= self.entries.len(),
                entries.len() == i,
                forall|j: int|
                    0 <= j < i ==> (#[trigger] entries@[j]).0@ == self.entries@[j].0@ && cloned::<V>(
                        self.entries@[j].1,
                        entries@[j].1,
                    ),
            decreases self.entries.len() - i,
        {
            entries.push((self.entries[i].0.clone(), self.entries[i].1.clone()));
            i = i + 1;
        }
        proof {
            use_type_invariant(self);
            assert(entries@.map_values(|entry: (String, V)| entry.0@) =~= self.keys());
        }
        SeriesMap { entries }
    }
}

impl<V: View> SeriesMap<V> {
    /// No series.
    pub fn new() -> (map: SeriesMap<V>)
        ensures
            map@ == Map::<Seq<char>, V::V>::empty(),
    {
        let map = SeriesMap { entries: Vec::new() };
        assert(map@ =~= Map::<Seq<char>, V::V>::empty());
        map
    }

    /// How many series there are.
    pub fn len(&self) -> (n: usize)
        ensures
            n == self.keys().len(),
            n == self@.dom().len(),
            ascending(self.keys()),
            self.keys().to_set() == self@.dom(),
            forall|i: int|
                0 <= i < n ==> self@.contains_key(#[trigger] self.keys()[i])
                    && self@[self.keys()[i]] == self.at(i)@,
    {
        proof {
            use_type_invariant(self);
            let keys = self.keys();
            assert(keys.to_set() =~= self@.dom());
            assert(keys.no_duplicates()) by {
                assert forall|i: int, j: int|
                    0 <= i < keys.len() && 0 <= j < keys.len() && i != j implies keys[i]
                    != keys[j] by {
                    lemma_one_index(keys, i);
                    lemma_one_index(keys, j);
                }
            }
            keys.unique_seq_to_set();
            assert forall|i: int| 0 <= i < keys.len() implies self@.contains_key(
                #[trigger] keys[i],
            ) && self@[keys[i]] == self.at(i)@ by {
                lemma_one_index(keys, i);
            }
        }
        self.entries.len()
    }

    /// Whether there is none.
    pub fn is_empty(&self) -> (yes: bool)
        ensures
            yes == (self@ == Map::<Seq<char>, V::V>::empty()),
    {
        proof {
            if self.entries@.len() > 0 {
                assert(self.keys().contains(self.keys()[0]));
                assert(self@.contains_key(self.keys()[0]));
            } else {
                assert(self@ =~= Map::<Seq<char>, V::V>::empty());
            }
        }
        self.entries.len() == 0
    }

    /// The key at index `i`.
    pub fn key_at(&self, i: usize) -> (key: &String)
        requires
            i < self.keys().len(),
        ensures
            key@ == self.keys()[i as int],
    {
        &self.entries[i].0
    }

    /// What stands at index `i`.
    pub fn value_at(&self, i: usize) -> (value: &V)
        requires
            i < self.keys().len(),
        ensures
            *value == self.at(i as int),
    {
        &self.entries[i].1
    }

    /// The index of the first key that does not come before `key`.
    fn place(&self, key: &str) -> (i: usize)
        ensures
            i <= self.keys().len(),
            forall|j: int| 0 <= j < i ==> text::precedes(#[trigger] self.keys()[j], key@),
            i < self.keys().len() ==> !text::precedes(self.keys()[i as int], key@),
    {
        let mut i: usize = 0;
        while i < self.entries.len() && comes_before(self.entries[i].0.as_str(), key)
            invariant
                i <= self.entries.len(),
                forall|j: int|
                    0 <= j < i ==> text::precedes(#[trigger] self.keys()[j], key@),
            decreases self.entries.len() - i,
        {
            assert(self.keys()[i as int] == self.entries@[i as int].0@);
            i = i + 1;
        }
        i
    }

    /// The series of `key`.
    pub fn get(&self, key: &str) -> (value: Option<&V>)
        ensures
            value is Some == self@.contains_key(key@),
            value is Some ==> value->0@ == self@[key@],
    {
        let i = self.place(key);
        proof {
            use_type_invariant(self);
            self.lemma_place(key@, i as int);
        }
        if i < self.entries.len() && same_str(self.entries[i].0.as_str(), key) {
            Some(&self.entries[i].1)
        } else {
            None
        }
    }

    /// A key is at the place where it would go, or nowhere.
    proof fn lemma_place(&self, key: Seq<char>, i: int)
        requires
            ascending(self.keys()),
            0 <= i <= self.keys().len(),
            forall|j: int| 0 <= j < i ==> text::precedes(#[trigger] self.keys()[j], key),
            i < self.keys().len() ==> !text::precedes(self.keys()[i], key),
        ensures
            self@.contains_key(key) == (i < self.keys().len() && self.keys()[i] == key),
            self@.contains_key(key) ==> self@[key] == self.at(i)@,
            forall|j: int|
                i < j < self.keys().len() ==> text::precedes(key, #[trigger] self.keys()[j]),
            i < self.keys().len() && self.keys()[i] != key ==> text::precedes(
                key,
                self.keys()[i],
            ),
    {
        let keys = self.keys();
        if i < keys.len() {
            text::lemma_precedes_orders(keys[i], key, keys[i]);
        }
        assert forall|j: int| i < j < keys.len() implies text::precedes(
            key,
            #[trigger] keys[j],
        ) by {
            assert(text::precedes(keys[i], keys[j]));
            text::lemma_precedes_orders(key, keys[i], keys[j]);
        }
        text::lemma_precedes_orders(key, key, key);
        if keys.contains(key) {
            let j = keys.index_of(key);
            assert(keys[j] == key);
            assert(j == i);
        }
        if i < keys.len() && keys[i] == key {
            lemma_one_index(keys, i);
        }
    }

    /// Take the series of `key` out.
    pub fn take(&mut self, key: &str) -> (value: Option<V>)
        ensures
            value is Some == old(self)@.contains_key(key@),
            value is Some ==> value->0@ == old(self)@[key@],
            final(self)@ == old(self)@.remove(key@),
    {
        let i = self.place(key);
        proof {
            use_type_invariant(&*self);
            self.lemma_place(key@, i as int);
        }
        if i < self.entries.len() && same_str(self.entries[i].0.as_str(), key) {
            let ghost before = *self;
            let mut entries: Vec<(String, V)> = Vec::new();
            std::mem::swap(&mut entries, &mut self.entries);
            let (_, value) = entries.remove(i);
            let ghost keys = entries@.map_values(|entry: (String, V)| entry.0@);
            proof {
                assert(keys =~= before.keys().remove(i as int));
                assert(ascending(keys)) by {
                    assert forall|p: int, q: int|
                        0 <= p < q < keys.len() implies text::precedes(
                        #[trigger] keys[p],
                        #[trigger] keys[q],
                    ) by {
                        let (p1, q1) = (
                            if p < i {
                                p
                            } else {
                                p + 1
                            },
                            if q < i {
                                q
                            } else {
                                q + 1
                            },
                        );
                        assert(text::precedes(before.keys()[p1], before.keys()[q1]));
                    }
                }
            }
            self.entries = entries;
            proof {
                lemma_removed(before, *self, i as int);
            }
            Some(value)
        } else {
            assert(self@ =~= self@.remove(key@));
            None
        }
    }

    /// Set the series of `key`.
    pub fn insert(&mut self, key: String, value: V)
        ensures
            final(self)@ == old(self)@.insert(key@, value@),
    {
        let _ = self.take(key.as_str());
        let i = self.place(key.as_str());
        let ghost before = *self;
        proof {
            use_type_invariant(&*self);
            self.lemma_place(key@, i as int);
        }
        let mut entries: Vec<(String, V)> = Vec::new();
        std::mem::swap(&mut entries, &mut self.entries);
        entries.insert(i, (key, value));
        let ghost keys = entries@.map_values(|entry: (String, V)| entry.0@);
        proof {
            assert(keys =~= before.keys().insert(i as int, key@));
            assert(ascending(keys)) by {
                assert forall|p: int, q: int| 0 <= p < q < keys.len() implies text::precedes(
                    #[trigger] keys[p],
                    #[trigger] keys[q],
                ) by {
                    let (p1, q1) = (
                        if p < i {
                            p
                        } else {
                            p - 1
                        },
                        if q < i {
                            q
                        } else {
                            q - 1
                        },
                    );
                    if p != i && q != i {
                        assert(text::precedes(before.keys()[p1], before.keys()[q1]));
                    } else if p == i {
                        assert(keys[q] == before.keys()[q1]);
                    } else {
                        assert(keys[p] == before.keys()[p1]);
                    }
                }
            }
        }
        self.entries = entries;
        proof {
            assert(self.keys() == keys);
            assert(self.at(i as int) == value);
            assert(before.keys() =~= self.keys().remove(i as int));
            lemma_removed(*self, before, i as int);
            lemma_one_index(keys, i as int);
            assert(before@ == self@.remove(key@));
            assert(self@.contains_key(key@) && self@[key@] == value@);
            assert(self@ =~= before@.insert(key@, value@));
        }
    }
}

/// One entry less is one key less.
proof fn lemma_removed<V: View>(more: SeriesMap<V>, less: SeriesMap<V>, i: int)
    requires
        ascending(more.keys()),
        ascending(less.keys()),
        0 <= i < more.keys().len(),
        less.keys() == more.keys().remove(i),
        forall|j: int|
            0 <= j < less.keys().len() ==> #[trigger] less.at(j) == more.at(
                if j < i {
                    j
                } else {
                    j + 1
                },
            ),
    ensures
        less@ == more@.remove(more.keys()[i]),
{
    let (a, b) = (more.keys(), less.keys());
    let gone = a[i];
    assert forall|key: Seq<char>| less@.contains_key(key) == more@.remove(gone).contains_key(key) by {
        if b.contains(key) {
            let j = b.index_of(key);
            let k = if j < i {
                j
            } else {
                j + 1
            };
            assert(a[k] == key);
            lemma_one_index(a, k);
            lemma_one_index(a, i);
        }
        if a.contains(key) && key != gone {
            let k = a.index_of(key);
            assert(b[if k < i {
                k
            } else {
                k - 1
            }] == key);
        }
    }
    assert forall|key: Seq<char>| less@.contains_key(key) implies less@[key] == more@.remove(
        gone,
    )[key] by {
        let j = b.index_of(key);
        assert(b[j] == key);
        let k = if j < i {
            j
        } else {
            j + 1
        };
        assert(a[k] == key);
        lemma_one_index(a, k);
        lemma_one_index(b, j);
        assert(less.at(j) == more.at(k));
    }
    assert(less@ =~= more@.remove(gone));
}

/// Whether two strings are the same.
fn same_str(s: &str, t: &str) -> (same: bool)
    ensures
        same == (s@ == t@),
{
    if comes_before(s, t) || comes_before(t, s) {
        proof {
            text::lemma_precedes_orders(s@, s@, s@);
            text::lemma_precedes_orders(t@, t@, t@);
        }
        false
    } else {
        proof {
            text::lemma_precedes_orders(s@, t@, s@);
        }
        true
    }
}

} // verus!
