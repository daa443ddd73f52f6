//! A map from strings of limited size, which forgets what was used longest ago.

use crate::lists::{lemma_without, lemma_without_one, without};
use crate::number::{all_digits, number_value, parse_number, unsigned_part};
use crate::strmap::Entry;
use crate::text::same_text;
use vstd::prelude::*;

verus! {

/// The keys once `k` has been used: it comes last, and the first one goes where
/// there are more than `limit`.
pub open spec fn kept_keys(keys: Seq<Seq<char>>, k: Seq<char>, limit: nat) -> Seq<Seq<char>> {
    let all = without(keys, k).push(k);
    if all.len() > limit {
        all.drop_first()
    } else {
        all
    }
}

/// A map from strings to values that holds at most so many of them. The keys
/// stand in the order of their last use.
#[derive(Debug)]
pub struct LruCache<V> {
    entries: Vec<Entry<V>>,
    limit: usize,
}

impl<V> LruCache<V> {
    /// The keys, that which was used longest ago first.
    pub closed spec fn keys(&self) -> Seq<Seq<char>> {
        Seq::new(self.entries@.len(), |i: int| self.entries@[i].key@)
    }

    /// The values, in the order of their keys.
    pub closed spec fn values(&self) -> Seq<V> {
        Seq::new(self.entries@.len(), |i: int| self.entries@[i].value)
    }

    /// How many values there may be.
    pub closed spec fn limit(&self) -> nat {
        self.limit as nat
    }

    /// No key occurs twice, and there are not too many.
    pub open spec fn wf(&self) -> bool {
        &&& self.keys().no_duplicates()
        &&& self.values().len() == self.keys().len()
        &&& self.keys().len() <= self.limit()
        &&& 1 <= self.limit()
    }

    /// Whether `k` is a key.
    pub open spec fn has(&self, k: Seq<char>) -> bool {
        self.keys().contains(k)
    }

    /// The value of the key `k`.
    pub open spec fn at(&self, k: Seq<char>) -> V {
        self.values()[self.keys().index_of(k)]
    }

    proof fn lemma_at(&self, i: int)
        requires
            self.wf(),
            0 <= i < self.entries@.len(),
        ensures
            self.has(self.entries@[i].key@),
            self.at(self.entries@[i].key@) == self.entries@[i].value,
    {
        assert(self.keys()[i] == self.entries@[i].key@);
        assert(self.keys().index_of(self.keys()[i]) == i);
    }

    /// An empty map for at most `limit` values, or for one where `limit` is none.
    pub fn new(limit: usize) -> (m: Self)
        ensures
            m.wf(),
            m.keys() == Seq::<Seq<char>>::empty(),
            m.limit() == if limit == 0 {
                1
            } else {
                limit as nat
            },
    {
        let m = LruCache {
            entries: Vec::new(),
            limit: if limit == 0 {
                1
            } else {
                limit
            },
        };
        assert(m.keys() =~= Seq::<Seq<char>>::empty());
        m
    }

    /// How many keys there are.
    pub fn len(&self) -> (n: usize)
        ensures
            n == self.keys().len(),
    {
        self.entries.len()
    }

    fn position(&self, key: &str) -> (found: Option<usize>)
        requires
            self.wf(),
        ensures
            match found {
                Some(i) => i < self.entries@.len() && self.entries@[i as int].key@ == key@,
                None => !self.has(key@),
            },
    {
        let mut i: usize = 0;
        while i < self.entries.len()
            invariant
                self.wf(),
                i <= self.entries@.len(),
                forall|j: int| 0 <= j < i ==> self.keys()[j] != key@,
            decreases self.entries.len() - i,
        {
            if same_text(self.entries[i].key.as_str(), key) {
                return Some(i);
            }
            i += 1;
        }
        None
    }

    /// Whether the map has a value under the key. This is no use of it.
    pub fn contains_key(&self, key: &str) -> (b: bool)
        requires
            self.wf(),
        ensures
            b == self.has(key@),
    {
        match self.position(key) {
            Some(i) => {
                proof {
                    self.lemma_at(i as int);
                }
                true
            },
            None => false,
        }
    }

    /// The value of the key, if there is one. This is no use of it.
    pub fn peek(&self, key: &str) -> (found: Option<&V>)
        requires
            self.wf(),
        ensures
            match found {
                Some(v) => self.has(key@) && *v == self.at(key@),
                None => !self.has(key@),
            },
    {
        match self.position(key) {
            Some(i) => {
                proof {
                    self.lemma_at(i as int);
                }
                Some(&self.entries[i].value)
            },
            None => None,
        }
    }

    /// Takes the value of a key out of the map.
    fn take(&mut self, key: &str) -> (found: Option<Entry<V>>)
        requires
            old(self).wf(),
        ensures
            final(self).wf(),
            final(self).limit() == old(self).limit(),
            final(self).keys() == without(old(self).keys(), key@),
            forall|k: Seq<char>| #[trigger]
                final(self).has(k) ==> old(self).has(k) && final(self).at(k) == old(self).at(k),
            match found {
                Some(e) => old(self).has(key@) && e.key@ == key@ && e.value == old(self).at(key@),
                None => !old(self).has(key@),
            },
    {
        let ghost before = *self;
        match self.position(key) {
            Some(i) => {
                proof {
                    self.lemma_at(i as int);
                    lemma_without_at(self.keys(), i as int);
                }
                let e = self.entries.remove(i);
                proof {
                    assert(self.keys() =~= before.keys().remove(i as int));
                    lemma_without(before.keys(), key@);
                    assert forall|k: Seq<char>| #[trigger] self.has(k) implies before.has(k)
                        && self.at(k) == before.at(k) by {
                        let j = self.keys().index_of(k);
                        self.lemma_at(j);
                        before.lemma_at(if j < i {
                            j
                        } else {
                            j + 1
                        });
                    }
                }
                Some(e)
            },
            None => {
                proof {
                    lemma_without(self.keys(), key@);
                }
                None
            },
        }
    }

    /// Puts an entry behind all others, and drops the first where there are too
    /// many.
    fn put_last(&mut self, e: Entry<V>)
        requires
            old(self).wf(),
            !old(self).has(e.key@),
        ensures
            final(self).wf(),
            final(self).limit() == old(self).limit(),
            final(self).keys() == if old(self).keys().len() + 1 > old(self).limit() {
                old(self).keys().push(e.key@).drop_first()
            } else {
                old(self).keys().push(e.key@)
            },
            forall|k: Seq<char>| #[trigger]
                final(self).has(k) ==> final(self).at(k) == if k == e.key@ {
                    e.value
                } else {
                    old(self).at(k)
                },
    {
        let ghost before = *self;
        let ghost k0 = e.key@;
        let ghost all = before.entries@.push(e);
        let full = self.entries.len() >= self.limit;
        let ghost cut: int = if full {
            1
        } else {
            0
        };
        self.entries.push(e);
        if full {
            let _oldest = self.entries.remove(0);
        }
        proof {
            assert(self.entries@ =~= all.skip(cut));
            assert(self.keys() =~= before.keys().push(k0).skip(cut));
            assert(before.keys().push(k0).drop_first() =~= before.keys().push(k0).skip(1));
            assert(before.keys().push(k0).skip(0) =~= before.keys().push(k0));
            assert forall|i: int, j: int|
                0 <= i < self.keys().len() && 0 <= j < self.keys().len() && i != j implies self.keys()[i]
                != self.keys()[j] by {
                if i + cut == before.keys().len() {
                    assert(before.keys().contains(before.keys()[j + cut]));
                }
                if j + cut == before.keys().len() {
                    assert(before.keys().contains(before.keys()[i + cut]));
                }
            }
            assert forall|k: Seq<char>| #[trigger] self.has(k) implies self.at(k) == if k == k0 {
                e.value
            } else {
                before.at(k)
            } by {
                let j = self.keys().index_of(k);
                self.lemma_at(j);
                if j + cut < before.entries@.len() {
                    before.lemma_at(j + cut);
                }
            }
        }
    }

    /// Gives the key a value, which is a use of it. Where there are then too many
    /// values, that which was used longest ago is forgotten.
    pub fn insert(&mut self, key: String, value: V)
        requires
            old(self).wf(),
        ensures
            final(self).wf(),
            final(self).limit() == old(self).limit(),
            final(self).keys() == kept_keys(old(self).keys(), key@, old(self).limit()),
            final(self).has(key@),
            forall|k: Seq<char>| #[trigger]
                final(self).has(k) ==> final(self).at(k) == if k == key@ {
                    value
                } else {
                    old(self).at(k)
                },
    {
        let ghost before = *self;
        let ghost k0 = key@;
        let _ = self.take(key.as_str());
        proof {
            lemma_without(before.keys(), k0);
            if before.has(k0) {
                lemma_without_one(before.keys(), k0);
            }
        }
        let ghost between = *self;
        self.put_last(Entry { key, value });
        proof {
            lemma_kept(between.keys(), k0, before.limit());
            assert forall|k: Seq<char>| #[trigger] self.has(k) implies self.at(k) == if k == k0 {
                value
            } else {
                before.at(k)
            } by {
                if k != k0 {
                    lemma_pushed(between.keys(), k0, k);
                    assert(between.has(k));
                }
            }
        }
    }

    /// Uses the key, and says whether it is there.
    pub fn touch(&mut self, key: &str) -> (found: bool)
        requires
            old(self).wf(),
        ensures
            final(self).wf(),
            final(self).limit() == old(self).limit(),
            found == old(self).has(key@),
            final(self).keys() == if old(self).has(key@) {
                without(old(self).keys(), key@).push(key@)
            } else {
                old(self).keys()
            },
            forall|k: Seq<char>| #[trigger]
                final(self).has(k) ==> final(self).at(k) == old(self).at(k),
    {
        let ghost before = *self;
        proof {
            lemma_without(before.keys(), key@);
            if before.has(key@) {
                lemma_without_one(before.keys(), key@);
            }
        }
        match self.take(key) {
            Some(e) => {
                let ghost between = *self;
                self.put_last(e);
                assert forall|k: Seq<char>| #[trigger] self.has(k) implies self.at(k) == before.at(
                    k,
                ) by {
                    if k != key@ {
                        lemma_pushed(between.keys(), key@, k);
                        assert(between.has(k));
                    }
                }
                true
            },
            None => {
                assert forall|k: Seq<char>| #[trigger] self.has(k) implies self.at(k) == before.at(
                    k,
                ) by {}
                false
            },
        }
    }
}

proof fn lemma_pushed(keys: Seq<Seq<char>>, k0: Seq<char>, k: Seq<char>)
    requires
        k != k0,
        keys.push(k0).contains(k) || keys.push(k0).drop_first().contains(k),
    ensures
        keys.contains(k),
{
    let all = keys.push(k0);
    if all.drop_first().contains(k) {
        let j = choose|j: int| 0 <= j < all.drop_first().len() && all.drop_first()[j] == k;
        assert(all[j + 1] == k);
        assert(keys[j + 1] == k);
    } else {
        let j = choose|j: int| 0 <= j < all.len() && all[j] == k;
        assert(keys[j] == k);
    }
}

/// What was used last is kept.
proof fn lemma_kept(keys: Seq<Seq<char>>, k: Seq<char>, limit: nat)
    requires
        keys.len() <= limit,
        1 <= limit,
    ensures
        keys.push(k).contains(k),
        keys.len() + 1 > limit ==> keys.push(k).drop_first().contains(k),
{
    assert(keys.push(k)[keys.len() as int] == k);
    if keys.len() + 1 > limit {
        assert(keys.push(k).drop_first()[keys.len() - 1] == k);
    }
}

proof fn lemma_without_at(keys: Seq<Seq<char>>, i: int)
    requires
        keys.no_duplicates(),
        0 <= i < keys.len(),
    ensures
        without(keys, keys[i]) == keys.remove(i),
    decreases keys.len(),
{
    let rest = keys.drop_last();
    if i == rest.len() {
        if rest.contains(keys[i]) {
            let j = choose|j: int| 0 <= j < rest.len() && rest[j] == keys[i];
            assert(keys[j] == keys[i]);
        }
        lemma_without(rest, keys[i]);
        assert(keys.remove(i) =~= rest);
    } else {
        assert(rest[i] == keys[i]);
        lemma_without_at(rest, i);
        assert(keys.last() == keys[keys.len() - 1]);
        assert(keys.remove(i) =~= rest.remove(i).push(keys.last()));
    }
}

/// However it is used, a map never holds more than its limit, and it forgets
/// nothing but what was used longest ago.
pub proof fn only_the_oldest_is_forgotten(keys: Seq<Seq<char>>, k: Seq<char>, limit: nat)
    requires
        keys.no_duplicates(),
        keys.len() <= limit,
        1 <= limit,
    ensures
        kept_keys(keys, k, limit).len() <= limit,
        kept_keys(keys, k, limit).last() == k,
        forall|j: int|
            0 < j < keys.len() ==> kept_keys(keys, k, limit).contains(#[trigger] keys[j]),
        keys.len() < limit || keys.contains(k) ==> (forall|x: Seq<char>|
            keys.contains(x) ==> #[trigger] kept_keys(keys, k, limit).contains(x)),
{
    let rest = without(keys, k);
    let all = rest.push(k);
    let kept = kept_keys(keys, k, limit);
    lemma_without(keys, k);
    if keys.contains(k) {
        lemma_without_one(keys, k);
    }
    assert forall|x: Seq<char>| keys.contains(x) implies all.contains(x) by {
        if x == k {
            assert(all[rest.len() as int] == x);
        } else {
            assert(rest.contains(x));
            let i = choose|i: int| 0 <= i < rest.len() && rest[i] == x;
            assert(all[i] == x);
        }
    }
    if all.len() <= limit {
        assert forall|j: int| 0 < j < keys.len() implies kept.contains(#[trigger] keys[j]) by {
            assert(keys.contains(keys[j]));
        }
    } else {
        assert(rest == keys);
        assert forall|j: int| 0 < j < keys.len() implies kept.contains(#[trigger] keys[j]) by {
            assert(kept[j - 1] == keys[j]);
        }
        assert(kept[kept.len() - 1] == k);
    }
}

/// How many values a setting allows: what it says, where that is a number above
/// zero, or else `usual`.
pub fn cache_limit(setting: Option<&str>, usual: usize) -> (limit: usize)
    ensures
        match setting {
            Some(t) => if all_digits(unsigned_part(t@)) && 0 < number_value(unsigned_part(t@))
                <= usize::MAX {
                limit == number_value(unsigned_part(t@))
            } else {
                limit == usual
            },
            None => limit == usual,
        },
{
    match setting {
        Some(t) => match parse_number(t) {
            Some(n) => if 0 < n && n <= usize::MAX as u64 {
                n as usize
            } else {
                usual
            },
            None => usual,
        },
        None => usual,
    }
}

} // verus!
