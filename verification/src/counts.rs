//! Counting names, and listing them by how often they occur.

use crate::parse::{count_texts, counts_texts, occurrences};
use crate::sort::{
    arranged, comes_before, key_views, lemma_all_listed, sorted_order, KeyModel, SortKey,
};
use crate::text::{copy_of, text_le, views};
use vstd::prelude::*;

verus! {

/// A name and how often it occurs.
#[derive(Debug, Clone, PartialEq, Eq)]
pub struct Count {
    pub name: String,
    pub count: usize,
}

/// What a [`Count`] holds.
#[verifier::ext_equal]
pub struct CountModel {
    pub name: Seq<char>,
    pub count: nat,
}

impl View for Count {
    type V = CountModel;

    open spec fn view(&self) -> CountModel {
        CountModel { name: self.name@, count: self.count as nat }
    }
}

pub open spec fn count_views(v: Seq<Count>) -> Seq<CountModel> {
    Seq::new(v.len(), |i: int| v[i]@)
}

/// Whether a name is counted.
pub open spec fn counts_name(counts: Seq<CountModel>, name: Seq<char>) -> bool {
    exists|i: int| 0 <= i < counts.len() && (#[trigger] counts[i]).name == name
}

/// Whether some counts say of each name among `all` how often it occurs, and of
/// each name once.
pub open spec fn is_tally(counts: Seq<CountModel>, all: Seq<Seq<char>>) -> bool {
    &&& forall|i: int, j: int|
        0 <= i < counts.len() && 0 <= j < counts.len() && i != j ==> (#[trigger] counts[i]).name
            != (#[trigger] counts[j]).name
    &&& forall|name: Seq<char>| #[trigger] counts_name(counts, name) == all.contains(name)
    &&& forall|i: int|
        0 <= i < counts.len() ==> (#[trigger] counts[i]).count == occurrences(all, counts[i].name)
}

/// Whether counts stand in order: the larger first, and among equals the names
/// in order.
pub open spec fn is_ranked(counts: Seq<CountModel>) -> bool {
    forall|i: int, j: int|
        0 <= i < j < counts.len() ==> (#[trigger] counts[i]).count > (#[trigger] counts[j]).count
            || (counts[i].count == counts[j].count && text_le(counts[i].name, counts[j].name))
}

proof fn lemma_occurs(all: Seq<Seq<char>>, t: Seq<char>)
    ensures
        occurrences(all, t) > 0 <==> all.contains(t),
    decreases all.len(),
{
    if all.len() > 0 {
        let before = all.drop_last();
        lemma_occurs(before, t);
        if all.contains(t) {
            let i = choose|i: int| 0 <= i < all.len() && all[i] == t;
            if i < before.len() {
                assert(before[i] == t);
            }
        }
        if before.contains(t) {
            let i = choose|i: int| 0 <= i < before.len() && before[i] == t;
            assert(all[i] == t);
        }
        if all.last() == t {
            assert(all[all.len() - 1] == t);
        }
    }
}

/// Counts names.
fn tally(all: &Vec<String>) -> (counts: Vec<Count>)
    ensures
        is_tally(count_views(counts@), views(all@)),
{
    let ghost texts = views(all@);
    let found = count_texts(all);
    let ghost keys = found.keys();
    let mut counts: Vec<Count> = Vec::new();
    let mut i: usize = 0;
    while i < found.len()
        invariant
            i <= keys.len(),
            keys == found.keys(),
            counts_texts(found, texts),
            counts@.len() == i,
            forall|k: int|
                0 <= k < i ==> (#[trigger] counts@[k])@ == (CountModel {
                    name: keys[k],
                    count: occurrences(texts, keys[k]),
                }),
        decreases keys.len() - i,
    {
        proof {
            found.lemma_at(i as int);
            assert(found.find(keys[i as int]) == Some(found.at(keys[i as int])));
            assert(occurrences(texts, keys[i as int]) <= usize::MAX);
        }
        counts.push(Count { name: copy_of(found.key_at(i)), count: *found.value_at(i) });
        i += 1;
    }
    proof {
        let cs = count_views(counts@);
        assert forall|name: Seq<char>| #[trigger] counts_name(cs, name) == texts.contains(name) by {
            lemma_occurs(texts, name);
            assert(found.find(name) == if occurrences(texts, name) > 0 {
                Some(occurrences(texts, name) as usize)
            } else {
                None
            });
            if counts_name(cs, name) {
                let k = choose|k: int| 0 <= k < cs.len() && (#[trigger] cs[k]).name == name;
                assert(keys[k] == name);
                assert(found.has(name));
            }
            if found.has(name) {
                let k = choose|k: int| 0 <= k < keys.len() && keys[k] == name;
                assert(cs[k].name == name);
            }
        }
        assert forall|a: int, b: int|
            0 <= a < cs.len() && 0 <= b < cs.len() && a != b implies (#[trigger] cs[a]).name != (
        #[trigger] cs[b]).name by {
            assert(keys[a] != keys[b]);
        }
    }
    counts
}

/// Counts names, and lists them by how often they occur.
pub fn ranked_counts(all: &Vec<String>) -> (ranking: Vec<Count>)
    ensures
        is_tally(count_views(ranking@), views(all@)),
        is_ranked(count_views(ranking@)),
{
    let ghost texts = views(all@);
    let counts = tally(all);
    let ghost found = count_views(counts@);
    let mut keys: Vec<SortKey> = Vec::new();
    let mut k: usize = 0;
    while k < counts.len()
        invariant
            k <= counts@.len(),
            keys@.len() == k,
            forall|j: int|
                0 <= j < k ==> (#[trigger] keys@[j])@ == (KeyModel {
                    weight: counts@[j]@.count,
                    text: counts@[j]@.name,
                }),
        decreases counts.len() - k,
    {
        keys.push(SortKey { weight: counts[k].count, text: copy_of(counts[k].name.as_str()) });
        k += 1;
    }
    let order = sorted_order(&keys);
    let mut out: Vec<Count> = Vec::new();
    let mut n: usize = 0;
    while n < order.len()
        invariant
            n <= order@.len(),
            found == count_views(counts@),
            forall|j: int| 0 <= j < order@.len() ==> (#[trigger] order@[j]) < counts@.len(),
            out@.len() == n,
            forall|j: int| 0 <= j < n ==> (#[trigger] out@[j])@ == found[order@[j] as int],
        decreases order.len() - n,
    {
        let at: usize = order[n];
        assert(found[at as int] == counts@[at as int]@);
        out.push(Count { name: copy_of(counts[at].name.as_str()), count: counts[at].count });
        n += 1;
    }
    proof {
        let ranked = count_views(out@);
        assert(ranked =~= arranged(found, order@));
        assert forall|a: int, b: int|
            0 <= a < ranked.len() && 0 <= b < ranked.len() && a
                != b implies (#[trigger] ranked[a]).name != (#[trigger] ranked[b]).name by {
            assert(order@[a] != order@[b]);
            assert(found[order@[a] as int].name != found[order@[b] as int].name);
        }
        assert forall|name: Seq<char>| #[trigger]
            counts_name(ranked, name) == texts.contains(name) by {
            assert(counts_name(found, name) == texts.contains(name));
            if counts_name(ranked, name) {
                let a = choose|a: int| 0 <= a < ranked.len() && (#[trigger] ranked[a]).name == name;
                assert(found[order@[a] as int].name == name);
            }
            if counts_name(found, name) {
                let p = choose|p: int| 0 <= p < found.len() && (#[trigger] found[p]).name == name;
                lemma_all_listed(order@, found.len(), p);
                let a = choose|a: int| 0 <= a < order@.len() && #[trigger] order@[a] == p;
                assert(ranked[a].name == name);
            }
        }
        assert forall|a: int| 0 <= a < ranked.len() implies (#[trigger] ranked[a]).count
            == occurrences(texts, ranked[a].name) by {
            assert(found[order@[a] as int].count == occurrences(
                texts,
                found[order@[a] as int].name,
            ));
        }
        let ks = key_views(keys@);
        assert forall|a: int, b: int| 0 <= a < b < ranked.len() implies (
        #[trigger] ranked[a]).count > (#[trigger] ranked[b]).count || (ranked[a].count
            == ranked[b].count && text_le(ranked[a].name, ranked[b].name)) by {
            assert(comes_before(ks, order@[a] as int, order@[b] as int));
            assert(ks[order@[a] as int] == keys@[order@[a] as int]@);
            assert(ks[order@[b] as int] == keys@[order@[b] as int]@);
        }
    }
    out
}

} // verus!
