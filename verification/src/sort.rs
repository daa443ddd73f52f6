//! Ordering things by weight and text.

use crate::text::{
    copy_of, lemma_text_le_reflexive, lemma_text_le_total, lemma_text_le_transitive, not_after,
    text_le, views,
};
use vstd::prelude::*;

verus! {

/// What a thing is ordered by: the heavier comes first, and among things of one
/// weight the text decides.
#[derive(Debug, PartialEq, Eq)]
pub struct SortKey {
    pub weight: usize,
    pub text: String,
}

/// What a [`SortKey`] holds.
pub struct KeyModel {
    pub weight: nat,
    pub text: Seq<char>,
}

impl View for SortKey {
    type V = KeyModel;

    open spec fn view(&self) -> KeyModel {
        KeyModel { weight: self.weight as nat, text: self.text@ }
    }
}

/// Whether `a` may stand before `b`.
pub open spec fn key_le(a: KeyModel, b: KeyModel) -> bool {
    a.weight > b.weight || (a.weight == b.weight && text_le(a.text, b.text))
}

pub open spec fn key_views(keys: Seq<SortKey>) -> Seq<KeyModel> {
    Seq::new(keys.len(), |i: int| keys[i]@)
}

/// Keys that differ in nothing but their text.
pub open spec fn text_keys(texts: Seq<Seq<char>>) -> Seq<KeyModel> {
    Seq::new(texts.len(), |i: int| KeyModel { weight: 0, text: texts[i] })
}

/// Whether `a` comes before `b` in the order of `keys`: by key, and among equal
/// keys by position.
pub open spec fn comes_before(keys: Seq<KeyModel>, a: int, b: int) -> bool {
    key_le(keys[a], keys[b]) && (key_le(keys[b], keys[a]) ==> a < b)
}

/// Whether `order` lists positions below `n`, each at most once.
pub open spec fn lists_positions(order: Seq<usize>, n: nat) -> bool {
    &&& forall|i: int| 0 <= i < order.len() ==> (#[trigger] order[i]) < n
    &&& forall|i: int, j: int|
        0 <= i < order.len() && 0 <= j < order.len() && i != j ==> #[trigger] order[i]
            != #[trigger] order[j]
}

/// Whether `order` lists its positions in the order of `keys`.
pub open spec fn in_order(order: Seq<usize>, keys: Seq<KeyModel>) -> bool {
    forall|i: int, j: int|
        0 <= i < j < order.len() ==> comes_before(
            keys,
            (#[trigger] order[i]) as int,
            (#[trigger] order[j]) as int,
        )
}

/// Whether `order` is the stable order of all of `keys`.
pub open spec fn is_sorted_order(order: Seq<usize>, keys: Seq<KeyModel>) -> bool {
    &&& order.len() == keys.len()
    &&& lists_positions(order, keys.len())
    &&& in_order(order, keys)
}

pub proof fn lemma_key_le_total(a: KeyModel, b: KeyModel)
    ensures
        key_le(a, b) || key_le(b, a),
        key_le(a, a),
{
    lemma_text_le_total(a.text, b.text);
    lemma_text_le_reflexive(a.text);
}

pub proof fn lemma_key_le_transitive(a: KeyModel, b: KeyModel, c: KeyModel)
    requires
        key_le(a, b),
        key_le(b, c),
    ensures
        key_le(a, c),
{
    if a.weight == b.weight && b.weight == c.weight {
        lemma_text_le_transitive(a.text, b.text, c.text);
    }
}

/// Every position is listed: so many different ones below so many leave none
/// out.
pub proof fn lemma_all_listed(order: Seq<usize>, n: nat, p: int)
    requires
        lists_positions(order, n),
        order.len() == n,
        0 <= p < n,
    ensures
        exists|i: int| 0 <= i < order.len() && #[trigger] order[i] == p,
{
    if forall|i: int| 0 <= i < order.len() ==> #[trigger] order[i] != p {
        let image = order.map_values(|x: usize| x as int);
        let set = image.to_set();
        assert(image.no_duplicates()) by {
            assert forall|i: int, j: int|
                0 <= i < image.len() && 0 <= j < image.len() && i != j implies image[i]
                != image[j] by {
                assert(order[i] != order[j]);
            }
        }
        image.unique_seq_to_set();
        let full = vstd::set_lib::set_int_range(0, n as int);
        vstd::set_lib::lemma_int_range(0, n as int);
        let small = full.remove(p);
        assert forall|x: int| set.contains(x) implies small.contains(x) by {
            let i = choose|i: int| 0 <= i < image.len() && image[i] == x;
            assert(order[i] == x);
        }
        vstd::set_lib::lemma_len_subset(set, small);
        assert(false);
    }
}

fn may_precede(a: &SortKey, b: &SortKey) -> (le: bool)
    ensures
        le == key_le(a@, b@),
{
    a.weight > b.weight || (a.weight == b.weight && not_after(a.text.as_str(), b.text.as_str()))
}

/// The positions of `keys` in the order of the keys; equal keys keep their
/// order.
pub fn sorted_order(keys: &Vec<SortKey>) -> (order: Vec<usize>)
    ensures
        is_sorted_order(order@, key_views(keys@)),
{
    let ghost ks = key_views(keys@);
    let mut order: Vec<usize> = Vec::new();
    let mut n: usize = 0;
    while n < keys.len()
        invariant
            n <= keys@.len(),
            ks == key_views(keys@),
            order@.len() == n,
            lists_positions(order@, n as nat),
            in_order(order@, ks),
        decreases keys.len() - n,
    {
        // the first place whose key must come after the new one
        let mut lo: usize = 0;
        let mut hi: usize = order.len();
        while lo < hi
            invariant
                lo <= hi <= order@.len(),
                n < keys@.len(),
                ks == key_views(keys@),
                order@.len() == n,
                lists_positions(order@, n as nat),
                in_order(order@, ks),
                forall|i: int| 0 <= i < lo ==> key_le(ks[(#[trigger] order@[i]) as int], ks[n as int]),
                forall|i: int|
                    hi <= i < order@.len() ==> !key_le(
                        ks[(#[trigger] order@[i]) as int],
                        ks[n as int],
                    ),
            decreases hi - lo,
        {
            let mid: usize = lo + (hi - lo) / 2;
            let ghost m = order@[mid as int] as int;
            assert(order@[mid as int] < n);
            if may_precede(&keys[order[mid]], &keys[n]) {
                assert forall|i: int| 0 <= i < mid + 1 implies key_le(
                    ks[(#[trigger] order@[i]) as int],
                    ks[n as int],
                ) by {
                    if i < mid {
                        assert(comes_before(ks, order@[i] as int, m));
                        lemma_key_le_transitive(ks[order@[i] as int], ks[m], ks[n as int]);
                    }
                }
                lo = mid + 1;
            } else {
                assert forall|i: int| mid <= i < order@.len() implies !key_le(
                    ks[(#[trigger] order@[i]) as int],
                    ks[n as int],
                ) by {
                    if i > mid && key_le(ks[order@[i] as int], ks[n as int]) {
                        assert(comes_before(ks, m, order@[i] as int));
                        lemma_key_le_transitive(ks[m], ks[order@[i] as int], ks[n as int]);
                    }
                }
                hi = mid;
            }
        }
        let ghost old_order = order@;
        order.insert(lo, n);
        proof {
            let at = lo as int;
            assert forall|i: int, j: int| 0 <= i < j < order@.len() implies comes_before(
                ks,
                (#[trigger] order@[i]) as int,
                (#[trigger] order@[j]) as int,
            ) by {
                let i0 = if i < at {
                    i
                } else {
                    i - 1
                };
                let j0 = if j < at {
                    j
                } else {
                    j - 1
                };
                if i == at {
                    assert(order@[j] == old_order[j0]);
                    lemma_key_le_total(ks[n as int], ks[old_order[j0] as int]);
                } else if j == at {
                    assert(order@[i] == old_order[i0]);
                    assert(old_order[i0] < n);
                } else {
                    assert(order@[i] == old_order[i0]);
                    assert(order@[j] == old_order[j0]);
                }
            }
            assert forall|i: int| 0 <= i < order@.len() implies (#[trigger] order@[i]) < n + 1 by {
                if i < at {
                    assert(order@[i] == old_order[i]);
                } else if i > at {
                    assert(order@[i] == old_order[i - 1]);
                }
            }
            assert forall|i: int, j: int|
                0 <= i < order@.len() && 0 <= j < order@.len() && i
                    != j implies #[trigger] order@[i] != #[trigger] order@[j] by {
                let i0 = if i < at {
                    i
                } else {
                    i - 1
                };
                let j0 = if j < at {
                    j
                } else {
                    j - 1
                };
                if i != at {
                    assert(order@[i] == old_order[i0]);
                    assert(old_order[i0] < n);
                }
                if j != at {
                    assert(order@[j] == old_order[j0]);
                    assert(old_order[j0] < n);
                }
            }
        }
        n += 1;
    }
    order
}

/// The positions of `texts` in the order of the texts.
pub fn sorted_text_order(texts: &Vec<String>) -> (order: Vec<usize>)
    ensures
        is_sorted_order(order@, text_keys(views(texts@))),
{
    let mut keys: Vec<SortKey> = Vec::new();
    let mut i: usize = 0;
    while i < texts.len()
        invariant
            i <= texts@.len(),
            keys@.len() == i,
            forall|k: int|
                0 <= k < i ==> (#[trigger] keys@[k])@ == (KeyModel { weight: 0, text: texts@[k]@ }),
        decreases texts.len() - i,
    {
        keys.push(SortKey { weight: 0, text: copy_of(texts[i].as_str()) });
        i += 1;
    }
    assert(key_views(keys@) =~= text_keys(views(texts@)));
    sorted_order(&keys)
}

/// The things at the listed positions.
pub open spec fn arranged<A>(things: Seq<A>, order: Seq<usize>) -> Seq<A> {
    Seq::new(order.len(), |i: int| things[order[i] as int])
}

/// Whether `out` is `texts` in order.
pub open spec fn is_sorting(out: Seq<Seq<char>>, texts: Seq<Seq<char>>) -> bool {
    exists|order: Seq<usize>|
        #![trigger arranged(texts, order)]
        is_sorted_order(order, text_keys(texts)) && out == arranged(texts, order)
}

/// What is in order is ordered, holds what was there, and repeats nothing that
/// was not there twice.
pub proof fn lemma_sorting(out: Seq<Seq<char>>, texts: Seq<Seq<char>>)
    requires
        is_sorting(out, texts),
    ensures
        out.len() == texts.len(),
        forall|i: int, j: int|
            0 <= i < j < out.len() ==> text_le(#[trigger] out[i], #[trigger] out[j]),
        forall|t: Seq<char>| #[trigger] out.contains(t) == texts.contains(t),
        texts.no_duplicates() ==> out.no_duplicates(),
{
    let order = choose|order: Seq<usize>|
        #![trigger arranged(texts, order)]
        is_sorted_order(order, text_keys(texts)) && out == arranged(texts, order);
    let n = texts.len();
    assert forall|i: int, j: int| 0 <= i < j < out.len() implies text_le(
        #[trigger] out[i],
        #[trigger] out[j],
    ) by {
        assert(out[i] == texts[order[i] as int]);
        assert(out[j] == texts[order[j] as int]);
        assert(comes_before(text_keys(texts), order[i] as int, order[j] as int));
    }
    assert forall|t: Seq<char>| #[trigger] out.contains(t) == texts.contains(t) by {
        if out.contains(t) {
            let i = choose|i: int| 0 <= i < out.len() && out[i] == t;
            assert(texts[order[i] as int] == t);
        }
        if texts.contains(t) {
            let p = choose|p: int| 0 <= p < texts.len() && texts[p] == t;
            lemma_all_listed(order, n, p);
            let i = choose|i: int| 0 <= i < order.len() && #[trigger] order[i] == p;
            assert(out[i] == t);
        }
    }
    if texts.no_duplicates() {
        assert forall|i: int, j: int|
            0 <= i < out.len() && 0 <= j < out.len() && i != j implies out[i] != out[j] by {
            assert(order[i] != order[j]);
            assert(out[i] == texts[order[i] as int]);
            assert(out[j] == texts[order[j] as int]);
        }
    }
}

/// The texts in order.
pub fn sorted_texts(texts: &Vec<String>) -> (out: Vec<String>)
    ensures
        is_sorting(views(out@), views(texts@)),
{
    let order = sorted_text_order(texts);
    let mut out: Vec<String> = Vec::new();
    let mut i: usize = 0;
    while i < order.len()
        invariant
            i <= order@.len(),
            forall|k: int| 0 <= k < order@.len() ==> (#[trigger] order@[k]) < texts@.len(),
            out@.len() == i,
            forall|k: int| 0 <= k < i ==> (#[trigger] out@[k])@ == texts@[order@[k] as int]@,
        decreases order.len() - i,
    {
        out.push(copy_of(texts[order[i]].as_str()));
        i += 1;
    }
    assert(views(out@) =~= arranged(views(texts@), order@));
    out
}

} // verus!
