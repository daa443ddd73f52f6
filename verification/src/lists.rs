//! Lists of strings under string keys, where a key with nothing under it is not
//! kept.

use crate::strmap::StrMap;
use crate::text::{copy_of, lemma_views_push, same_text, views};
use vstd::prelude::*;

verus! {

/// Lists of texts under text keys.
pub type Lists = Map<Seq<char>, Seq<Seq<char>>>;

/// What a map of lists holds.
pub open spec fn list_table(m: StrMap<Vec<String>>) -> Lists {
    Map::new(|k: Seq<char>| m.has(k), |k: Seq<char>| views(m.at(k)@))
}

/// What stands under a key; nothing where the key is not there.
pub open spec fn listed(lists: Lists, k: Seq<char>) -> Seq<Seq<char>> {
    if lists.contains_key(k) {
        lists[k]
    } else {
        Seq::empty()
    }
}

/// Whether every key has something under it.
pub open spec fn none_empty(lists: Lists) -> bool {
    forall|k: Seq<char>| #[trigger] lists.contains_key(k) ==> lists[k].len() > 0
}

/// The lists with `list` under `k`, or without `k` where the list is empty.
pub open spec fn with_list(lists: Lists, k: Seq<char>, list: Seq<Seq<char>>) -> Lists {
    if list.len() == 0 {
        lists.remove(k)
    } else {
        lists.insert(k, list)
    }
}

/// The lists in which `content(k)` stands under each `k`.
pub open spec fn lists_of(content: spec_fn(Seq<char>) -> Seq<Seq<char>>) -> Lists {
    Map::new(|k: Seq<char>| content(k).len() > 0, |k: Seq<char>| content(k))
}

/// What stands under the keys decides the lists.
pub proof fn lemma_lists_of(lists: Lists, content: spec_fn(Seq<char>) -> Seq<Seq<char>>)
    requires
        none_empty(lists),
        forall|k: Seq<char>| #[trigger] listed(lists, k) == content(k),
    ensures
        lists == lists_of(content),
{
    assert forall|k: Seq<char>| lists.contains_key(k) == #[trigger] lists_of(content).contains_key(
        k,
    ) by {
        assert(listed(lists, k) == content(k));
    }
    assert forall|k: Seq<char>| #[trigger] lists.contains_key(k) implies lists[k] == lists_of(
        content,
    )[k] by {
        assert(listed(lists, k) == content(k));
    }
    assert(lists =~= lists_of(content));
}

/// What stands under the keys of lists made from their content.
pub proof fn lemma_listed_of(content: spec_fn(Seq<char>) -> Seq<Seq<char>>, k: Seq<char>)
    ensures
        none_empty(lists_of(content)),
        listed(lists_of(content), k) == content(k),
{
    if content(k).len() == 0 {
        assert(content(k) =~= Seq::<Seq<char>>::empty());
    }
}

/// What stands under the keys once one list is replaced.
pub proof fn lemma_with_list(lists: Lists, k: Seq<char>, list: Seq<Seq<char>>)
    ensures
        none_empty(lists) ==> none_empty(with_list(lists, k, list)),
        forall|j: Seq<char>| #[trigger]
            listed(with_list(lists, k, list), j) == if j == k {
                list
            } else {
                listed(lists, j)
            },
{
    if list.len() == 0 {
        assert(list =~= Seq::<Seq<char>>::empty());
    }
    if none_empty(lists) {
        assert forall|j: Seq<char>| #[trigger]
            with_list(lists, k, list).contains_key(j) implies with_list(lists, k, list)[j].len()
            > 0 by {
            assert(j != k ==> lists.contains_key(j));
        }
    }
}

/// A copy of a vector of strings.
pub fn copy_texts(texts: &Vec<String>) -> (out: Vec<String>)
    ensures
        views(out@) == views(texts@),
{
    let mut out: Vec<String> = Vec::new();
    let mut i: usize = 0;
    while i < texts.len()
        invariant
            i <= texts@.len(),
            out@.len() == i,
            forall|k: int| 0 <= k < i ==> (#[trigger] out@[k])@ == texts@[k]@,
        decreases texts.len() - i,
    {
        out.push(copy_of(texts[i].as_str()));
        i += 1;
    }
    assert(views(out@) =~= views(texts@));
    out
}

/// Whether a text is one of `texts`.
pub fn has_text(texts: &Vec<String>, t: &str) -> (found: bool)
    ensures
        found == views(texts@).contains(t@),
{
    let mut i: usize = 0;
    while i < texts.len()
        invariant
            i <= texts@.len(),
            forall|k: int| 0 <= k < i ==> views(texts@)[k] != t@,
        decreases texts.len() - i,
    {
        if same_text(texts[i].as_str(), t) {
            assert(views(texts@)[i as int] == t@);
            return true;
        }
        i += 1;
    }
    false
}

/// The texts of `texts` other than `t`.
pub open spec fn without(texts: Seq<Seq<char>>, t: Seq<char>) -> Seq<Seq<char>>
    decreases texts.len(),
{
    if texts.len() == 0 {
        texts
    } else if texts.last() == t {
        without(texts.drop_last(), t)
    } else {
        without(texts.drop_last(), t).push(texts.last())
    }
}

pub proof fn lemma_without(texts: Seq<Seq<char>>, t: Seq<char>)
    ensures
        !without(texts, t).contains(t),
        forall|x: Seq<char>|
            x != t ==> (#[trigger] without(texts, t).contains(x) == texts.contains(x)),
        texts.no_duplicates() ==> without(texts, t).no_duplicates(),
        !texts.contains(t) ==> without(texts, t) == texts,
        without(texts, t).len() <= texts.len(),
    decreases texts.len(),
{
    if texts.len() > 0 {
        let rest = texts.drop_last();
        let last = texts.last();
        lemma_without(rest, t);
        assert(texts =~= rest.push(last));
        assert(texts.contains(last)) by {
            assert(texts[texts.len() - 1] == last);
        }
        assert forall|x: Seq<char>| texts.contains(x) == (rest.contains(x) || x == last) by {
            if rest.contains(x) {
                let i = choose|i: int| 0 <= i < rest.len() && rest[i] == x;
                assert(texts[i] == x);
            }
            if texts.contains(x) && x != last {
                let i = choose|i: int| 0 <= i < texts.len() && texts[i] == x;
                assert(rest[i] == x);
            }
        }
        if last != t {
            let kept = without(rest, t);
            assert(without(texts, t) == kept.push(last));
            assert forall|x: Seq<char>| kept.push(last).contains(x) == (kept.contains(x) || x
                == last) by {
                assert(kept.push(last)[kept.len() as int] == last);
                if kept.contains(x) {
                    let i = choose|i: int| 0 <= i < kept.len() && kept[i] == x;
                    assert(kept.push(last)[i] == x);
                }
            }
            if texts.no_duplicates() {
                assert(!rest.contains(last)) by {
                    if rest.contains(last) {
                        let i = choose|i: int| 0 <= i < rest.len() && rest[i] == last;
                        assert(texts[i] == texts[texts.len() - 1]);
                    }
                }
                assert(rest.no_duplicates());
                assert(!kept.contains(last));
                assert forall|i: int, j: int|
                    0 <= i < kept.push(last).len() && 0 <= j < kept.push(last).len() && i
                        != j implies kept.push(last)[i] != kept.push(last)[j] by {
                    if i == kept.len() {
                        assert(kept.contains(kept[j]));
                    }
                    if j == kept.len() {
                        assert(kept.contains(kept[i]));
                    }
                }
            }
        } else if texts.no_duplicates() {
            assert(rest.no_duplicates());
        }
        assert forall|x: Seq<char>| x != t implies (#[trigger] without(texts, t).contains(x)
            == texts.contains(x)) by {
            assert(without(rest, t).contains(x) == rest.contains(x));
            assert(texts.contains(x) == (rest.contains(x) || x == last));
            if last != t {
                assert(without(rest, t).push(last).contains(x) == (without(rest, t).contains(x)
                    || x == last));
            }
        }
    }
}

/// Of texts that do not repeat, leaving one out takes away just that one.
pub proof fn lemma_without_one(texts: Seq<Seq<char>>, t: Seq<char>)
    requires
        texts.no_duplicates(),
    ensures
        texts.contains(t) ==> without(texts, t).len() == texts.len() - 1,
    decreases texts.len(),
{
    if texts.contains(t) {
        let rest = texts.drop_last();
        lemma_without_one(rest, t);
        if texts.last() == t {
            if rest.contains(t) {
                let i = choose|i: int| 0 <= i < rest.len() && rest[i] == t;
                assert(texts[i] == texts[texts.len() - 1]);
            }
            lemma_without(rest, t);
        } else {
            let i = choose|i: int| 0 <= i < texts.len() && texts[i] == t;
            assert(rest[i] == t);
        }
    }
}

/// The strings of `texts` other than `t`.
pub fn texts_without(texts: &Vec<String>, t: &str) -> (out: Vec<String>)
    ensures
        views(out@) == without(views(texts@), t@),
{
    let ghost all = views(texts@);
    let mut out: Vec<String> = Vec::new();
    let mut i: usize = 0;
    assert(views(out@) =~= Seq::<Seq<char>>::empty());
    assert(all.take(0) =~= Seq::<Seq<char>>::empty());
    while i < texts.len()
        invariant
            i <= texts@.len(),
            all == views(texts@),
            views(out@) == without(all.take(i as int), t@),
        decreases texts.len() - i,
    {
        assert(all.take(i as int + 1).drop_last() =~= all.take(i as int));
        assert(all.take(i as int + 1).last() == texts@[i as int]@);
        if !same_text(texts[i].as_str(), t) {
            let kept = copy_of(texts[i].as_str());
            proof {
                lemma_views_push(out@, kept);
            }
            out.push(kept);
        }
        i += 1;
    }
    assert(all.take(i as int) =~= all);
    out
}

/// What stands under `key`.
pub fn list_at(m: &StrMap<Vec<String>>, key: &str) -> (list: Vec<String>)
    requires
        m.wf(),
    ensures
        views(list@) == listed(list_table(*m), key@),
{
    match m.get(key) {
        Some(list) => copy_texts(list),
        None => {
            let list: Vec<String> = Vec::new();
            assert(views(list@) =~= Seq::<Seq<char>>::empty());
            list
        },
    }
}

/// Puts a list under `key`, or takes `key` out where the list is empty.
pub fn put_list(m: &mut StrMap<Vec<String>>, key: &str, list: Vec<String>)
    requires
        old(m).wf(),
    ensures
        final(m).wf(),
        list_table(*final(m)) == with_list(list_table(*old(m)), key@, views(list@)),
{
    let ghost before = *m;
    let ghost held = list;
    if list.len() == 0 {
        m.remove(key);
        proof {
            assert forall|k: Seq<char>| #[trigger] list_table(*m).contains_key(k) == list_table(
                before,
            ).remove(key@).contains_key(k) by {
                assert(m.find(k) == if k == key@ {
                    None
                } else {
                    before.find(k)
                });
            }
            assert forall|k: Seq<char>| #[trigger] list_table(*m).contains_key(k) implies list_table(
                *m,
            )[k] == list_table(before).remove(key@)[k] by {
                assert(m.find(k) == if k == key@ {
                    None
                } else {
                    before.find(k)
                });
            }
            assert(list_table(*m) =~= list_table(before).remove(key@));
        }
    } else {
        m.insert(copy_of(key), list);
        proof {
            assert forall|k: Seq<char>| #[trigger] list_table(*m).contains_key(k) == list_table(
                before,
            ).insert(key@, views(held@)).contains_key(k) by {
                assert(m.find(k) == if k == key@ {
                    Some(held)
                } else {
                    before.find(k)
                });
            }
            assert forall|k: Seq<char>| #[trigger] list_table(*m).contains_key(k) implies list_table(
                *m,
            )[k] == list_table(before).insert(key@, views(held@))[k] by {
                assert(m.find(k) == if k == key@ {
                    Some(held)
                } else {
                    before.find(k)
                });
            }
            assert(list_table(*m) =~= list_table(before).insert(key@, views(held@)));
        }
    }
}

/// Puts one more text under `key`.
pub fn add_to_list(m: &mut StrMap<Vec<String>>, key: &str, text: String)
    requires
        old(m).wf(),
    ensures
        final(m).wf(),
        list_table(*final(m)) == with_list(
            list_table(*old(m)),
            key@,
            listed(list_table(*old(m)), key@).push(text@),
        ),
{
    let mut list = list_at(m, key);
    proof {
        lemma_views_push(list@, text);
    }
    list.push(text);
    put_list(m, key, list);
}

} // verus!
