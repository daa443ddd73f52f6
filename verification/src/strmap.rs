//! A map from strings, which keeps its keys in the order they came.

use crate::text::same_text;
use vstd::prelude::*;

verus! {

/// One key of a [`StrMap`] and its value.
#[derive(Debug, Clone, PartialEq, Eq)]
pub struct Entry<V> {
    pub key: String,
    pub value: V,
}

/// A map from strings to values. Each key occurs once, and keys keep the order
/// in which they were first inserted.
#[derive(Debug, Clone, PartialEq, Eq)]
pub struct StrMap<V> {
    entries: Vec<Entry<V>>,
}

impl<V> StrMap<V> {
    /// The keys, in order.
    pub closed spec fn keys(&self) -> Seq<Seq<char>> {
        Seq::new(self.entries@.len(), |i: int| self.entries@[i].key@)
    }

    /// The values, in the order of their keys.
    pub closed spec fn values(&self) -> Seq<V> {
        Seq::new(self.entries@.len(), |i: int| self.entries@[i].value)
    }

    /// No key occurs twice.
    pub open spec fn wf(&self) -> bool {
        &&& self.keys().no_duplicates()
        &&& self.values().len() == self.keys().len()
    }

    /// Whether `k` is a key.
    pub open spec fn has(&self, k: Seq<char>) -> bool {
        self.keys().contains(k)
    }

    /// The value of the key `k`.
    pub open spec fn at(&self, k: Seq<char>) -> V {
        self.values()[self.keys().index_of(k)]
    }

    /// The value of `k`, if it is a key.
    pub open spec fn find(&self, k: Seq<char>) -> Option<V> {
        if self.has(k) {
            Some(self.at(k))
        } else {
            None
        }
    }

    /// Each key has the value that stands at its place.
    pub proof fn lemma_at(&self, i: int)
        requires
            self.wf(),
            0 <= i < self.keys().len(),
        ensures
            self.has(self.keys()[i]),
            self.at(self.keys()[i]) == self.values()[i],
    {
        assert(self.keys().contains(self.keys()[i]));
        assert(self.keys().index_of(self.keys()[i]) == i);
    }

    /// An empty map.
    pub fn new() -> (m: Self)
        ensures
            m.wf(),
            m.keys() == Seq::<Seq<char>>::empty(),
            m.values() == Seq::<V>::empty(),
    {
        let m = StrMap { entries: Vec::new() };
        assert(m.keys() =~= Seq::<Seq<char>>::empty());
        assert(m.values() =~= Seq::<V>::empty());
        m
    }

    /// How many keys there are.
    pub fn len(&self) -> (n: usize)
        ensures
            n == self.keys().len(),
            n == self.values().len(),
    {
        self.entries.len()
    }

    /// Whether the map has no entries.
    pub fn is_empty(&self) -> (b: bool)
        ensures
            b == (self.keys().len() == 0),
    {
        self.entries.len() == 0
    }

    /// The `i`-th key.
    pub fn key_at(&self, i: usize) -> (k: &str)
        requires
            i < self.keys().len(),
        ensures
            k@ == self.keys()[i as int],
    {
        self.entries[i].key.as_str()
    }

    /// The value of the `i`-th key.
    pub fn value_at(&self, i: usize) -> (v: &V)
        requires
            i < self.values().len(),
        ensures
            *v == self.values()[i as int],
    {
        &self.entries[i].value
    }

    fn position(&self, key: &str) -> (found: Option<usize>)
        requires
            self.wf(),
        ensures
            match found {
                Some(i) => i < self.entries@.len() && self.keys()[i as int] == key@ && self.has(
                    key@,
                ) && self.keys().index_of(key@) == i,
                None => !self.has(key@),
            },
    {
        let mut i: usize = 0;
        while i < self.entries.len()
            invariant
                self.wf(),
                i <= self.entries@.len(),
                forall|j: int| 0 <= j < i ==> self.keys()[j] != key@,
            decreases self.entries.len() - i,
        {
            if same_text(self.entries[i].key.as_str(), key) {
                assert(self.keys()[i as int] == key@);
                proof {
                    self.lemma_at(i as int);
                }
                return Some(i);
            }
            i += 1;
        }
        None
    }

    /// The value of `key`.
    pub fn get(&self, key: &str) -> (found: Option<&V>)
        requires
            self.wf(),
        ensures
            match found {
                Some(v) => self.find(key@) == Some(*v),
                None => self.find(key@) is None,
            },
    {
        match self.position(key) {
            Some(i) => Some(&self.entries[i].value),
            None => None,
        }
    }

    /// Whether the map has an entry under the key.
    pub fn contains_key(&self, key: &str) -> (b: bool)
        requires
            self.wf(),
        ensures
            b == self.has(key@),
    {
        match self.position(key) {
            Some(_) => true,
            None => false,
        }
    }

    /// Gives `key` the value `value`. A key that is there keeps its place; a new
    /// one comes last.
    pub fn insert(&mut self, key: String, value: V)
        requires
            old(self).wf(),
        ensures
            final(self).wf(),
            old(self).has(key@) ==> final(self).keys() == old(self).keys() && final(self).values()
                == old(self).values().update(old(self).keys().index_of(key@), value),
            !old(self).has(key@) ==> final(self).keys() == old(self).keys().push(key@)
                && final(self).values() == old(self).values().push(value),
            forall|k: Seq<char>| #[trigger]
                final(self).find(k) == if k == key@ {
                    Some(value)
                } else {
                    old(self).find(k)
                },
    {
        let ghost before = *self;
        let ghost k0 = key@;
        match self.position(key.as_str()) {
            Some(i) => {
                self.entries.set(i, Entry { key, value });
                assert(self.keys() =~= before.keys());
                assert(self.values() =~= before.values().update(i as int, value));
                assert forall|k: Seq<char>| #[trigger] self.find(k) == if k == k0 {
                    Some(value)
                } else {
                    before.find(k)
                } by {
                    if before.has(k) {
                        let j = before.keys().index_of(k);
                        assert(before.keys()[j] == k);
                    }
                }
            },
            None => {
                self.entries.push(Entry { key, value });
                assert(self.keys() =~= before.keys().push(k0));
                assert(self.values() =~= before.values().push(value));
                proof {
                    let n = before.keys().len() as int;
                    assert forall|i: int, j: int|
                        0 <= i < self.keys().len() && 0 <= j < self.keys().len() && i
                            != j implies self.keys()[i] != self.keys()[j] by {
                        if i < n {
                            assert(before.keys().contains(before.keys()[i]));
                        }
                        if j < n {
                            assert(before.keys().contains(before.keys()[j]));
                        }
                    }
                    assert(self.keys().no_duplicates());
                    self.lemma_at(n);
                    assert forall|k: Seq<char>| #[trigger] self.find(k) == if k == k0 {
                        Some(value)
                    } else {
                        before.find(k)
                    } by {
                        if k != k0 {
                            if before.has(k) {
                                let j = before.keys().index_of(k);
                                assert(before.keys()[j] == k);
                                assert(self.keys()[j] == k);
                                self.lemma_at(j);
                            } else if self.has(k) {
                                let j = self.keys().index_of(k);
                                assert(self.keys()[j] == k);
                                assert(before.keys()[j] == k);
                            }
                        }
                    }
                }
            },
        }
    }

    /// Takes `key` out of the map.
    pub fn remove(&mut self, key: &str)
        requires
            old(self).wf(),
        ensures
            final(self).wf(),
            old(self).has(key@) ==> final(self).keys() == old(self).keys().remove(
                old(self).keys().index_of(key@),
            ),
            !old(self).has(key@) ==> final(self).keys() == old(self).keys(),
            forall|k: Seq<char>| #[trigger]
                final(self).find(k) == if k == key@ {
                    None
                } else {
                    old(self).find(k)
                },
    {
        let ghost before = *self;
        match self.position(key) {
            Some(i) => {
                let _removed = self.entries.remove(i);
                proof {
                    let at = i as int;
                    assert(self.keys() =~= before.keys().remove(at));
                    assert(self.values() =~= before.values().remove(at));
                    assert forall|a: int, b: int|
                        0 <= a < self.keys().len() && 0 <= b < self.keys().len() && a
                            != b implies self.keys()[a] != self.keys()[b] by {
                        let a0 = if a < at {
                            a
                        } else {
                            a + 1
                        };
                        let b0 = if b < at {
                            b
                        } else {
                            b + 1
                        };
                        assert(before.keys()[a0] != before.keys()[b0]);
                    }
                    assert(self.keys().no_duplicates());
                    assert forall|k: Seq<char>| #[trigger] self.find(k) == if k == key@ {
                        None
                    } else {
                        before.find(k)
                    } by {
                        if self.has(k) {
                            let j = self.keys().index_of(k);
                            let j0 = if j < at {
                                j
                            } else {
                                j + 1
                            };
                            assert(self.keys()[j] == k);
                            assert(before.keys()[j0] == k);
                            assert(before.keys()[at] == key@);
                            before.lemma_at(j0);
                        } else if before.has(k) && k != key@ {
                            let j0 = before.keys().index_of(k);
                            assert(before.keys()[j0] == k);
                            let j = if j0 < at {
                                j0
                            } else {
                                j0 - 1
                            };
                            assert(self.keys()[j] == k);
                        }
                    }
                }
            },
            None => {},
        }
    }
}

/// A map from texts to texts.
pub type TextTable = Map<Seq<char>, Seq<char>>;

/// What a map from strings to strings holds.
pub open spec fn text_table(m: StrMap<String>) -> TextTable {
    Map::new(|k: Seq<char>| m.has(k), |k: Seq<char>| m.at(k)@)
}

/// The value of a key, if it is there.
pub open spec fn looked_up(table: TextTable, k: Seq<char>) -> Option<Seq<char>> {
    if table.contains_key(k) {
        Some(table[k])
    } else {
        None
    }
}

/// Looks up a key in a map from strings to strings.
pub proof fn lemma_looked_up(m: StrMap<String>, k: Seq<char>)
    ensures
        looked_up(text_table(m), k) == match m.find(k) {
            Some(v) => Some(v@),
            None => None,
        },
{
}

/// Gives `key` the value `value`.
pub fn put_text(m: &mut StrMap<String>, key: String, value: String)
    requires
        old(m).wf(),
    ensures
        final(m).wf(),
        text_table(*final(m)) == text_table(*old(m)).insert(key@, value@),
{
    let ghost before = *m;
    m.insert(key, value);
    proof {
        assert forall|k: Seq<char>| text_table(*m).contains_key(k) == #[trigger] text_table(
            before,
        ).insert(key@, value@).contains_key(k) by {
            assert(m.find(k) == if k == key@ {
                Some(value)
            } else {
                before.find(k)
            });
        }
        assert forall|k: Seq<char>| #[trigger] text_table(*m).contains_key(k) implies text_table(
            *m,
        )[k] == text_table(before).insert(key@, value@)[k] by {
            assert(m.find(k) == if k == key@ {
                Some(value)
            } else {
                before.find(k)
            });
        }
        assert(text_table(*m) =~= text_table(before).insert(key@, value@));
    }
}

} // verus!
