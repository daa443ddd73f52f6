//! Exporting pages as markdown files with front matter and rewritten links.

use crate::import::frontmatter_of;
use crate::index::{
    classified, links_by_title_lead_to_the_page, links_lead_to_pages, loaded, source_of,
    source_table, Catalog, IndexModel, KnowledgeBaseIndex, PageSource, PageTable, SourceTable,
};
use crate::inline_link::{
    a_label_with_a_target_is_a_link, a_name_in_double_brackets_is_a_link, answers, callable,
    closing_double_bracket, lemma_double_bracket_at, rewritten, LinkKind,
};
use crate::json::JsonModel;
use crate::lists::has_text;
use crate::model::{
    item_views, lemma_list_view, node_views, LinkTargetKind, Node, NodeModel, Page, PageModel,
    TargetModel,
};
use crate::number::{decimal, digit, lemma_decimal_injective, lemma_decimal_not_empty, push_decimal};
use crate::parse::{occurrences, or_empty, or_text};
use crate::render::{
    block_text, is_block_start, link_block, link_text, list_item_block, list_item_text, node_text,
    nodes_text, paragraph_text, prefixed_lines, push_prefixed_lines, render_nodes_to_text_with,
    rewrite_body, rewrite_lines, standalone_link, BlockEscaping, LinkPolicy, Position,
};
use crate::roundtrip::{front_matter_survives, header_of, header_shaped, written_time};
use crate::strmap::{looked_up, put_text, text_table, StrMap, TextTable};
use crate::text::{
    ascii_alphanumeric, ascii_digit, ascii_lower, ascii_lowered, chars_of, contains_char, copy_of,
    is_ascii_alphanumeric, join, joined, lemma_concat, lemma_next_pos, lemma_views_push, lines,
    lines_of, lowercase, matches_at, next_pos, next_position, opt_view, repeat_char, repeated,
    replace, replaced, replaced_from, split_on, starts_with, string_of, to_ascii_lower,
    to_lowercase, trim, trimmed, trimming_takes_the_white_space_around, views, whitespace,
};
use crate::time::{one_word, rfc3339_text, Timestamp};
use crate::util::{external_target, located, uuid_from};
use vstd::prelude::*;

verus! {

// ---------------------------------------------------------------------------
// Slugs
// ---------------------------------------------------------------------------

/// The letters and digits of a title in lower case, with one hyphen for each
/// run of other characters that something stands before.
pub open spec fn hyphenated(title: Seq<char>) -> Seq<char>
    decreases title.len(),
{
    if title.len() == 0 {
        Seq::empty()
    } else {
        let before = hyphenated(title.drop_last());
        let c = title.last();
        if ascii_alphanumeric(c) {
            before.push(to_ascii_lower(c))
        } else if before.len() > 0 && before.last() != '-' {
            before.push('-')
        } else {
            before
        }
    }
}

/// A text without the hyphens at its end.
pub open spec fn without_end_hyphens(s: Seq<char>) -> Seq<char>
    decreases s.len(),
{
    if s.len() > 0 && s.last() == '-' {
        without_end_hyphens(s.drop_last())
    } else {
        s
    }
}

/// The slug of a title.
pub open spec fn slug_of(title: Seq<char>) -> Seq<char> {
    without_end_hyphens(hyphenated(title))
}

/// The slug of a title, or `untitled` where nothing of the title is left.
pub open spec fn file_slug(title: Seq<char>) -> Seq<char> {
    if slug_of(title).len() == 0 {
        "untitled"@
    } else {
        slug_of(title)
    }
}

/// Whether a character may stand in a slug.
pub open spec fn slug_char(c: char) -> bool {
    ascii_lower(c) || ascii_digit(c) || c == '-'
}

/// Whether a text holds slug characters alone, starts with none but a letter or
/// a digit, and never has two hyphens in a row.
pub open spec fn slug_shaped(s: Seq<char>) -> bool {
    &&& forall|i: int| 0 <= i < s.len() ==> slug_char(#[trigger] s[i])
    &&& s.len() > 0 ==> s[0] != '-'
    &&& forall|i: int, j: int|
        0 <= i < s.len() && j == i + 1 && j < s.len() && #[trigger] s[i] == '-'
            ==> #[trigger] s[j] != '-'
}

proof fn lemma_hyphenated(title: Seq<char>)
    ensures
        slug_shaped(hyphenated(title)),
    decreases title.len(),
{
    if title.len() > 0 {
        lemma_hyphenated(title.drop_last());
    }
}

proof fn lemma_without_end_hyphens(s: Seq<char>)
    requires
        slug_shaped(s),
    ensures
        slug_shaped(without_end_hyphens(s)),
        without_end_hyphens(s).len() > 0 ==> without_end_hyphens(s).last() != '-',
    decreases s.len(),
{
    if s.len() > 0 && s.last() == '-' {
        lemma_without_end_hyphens(s.drop_last());
    }
}

/// A slug is fit for a file name: lower-case letters and digits with single
/// hyphens between them.
pub proof fn slugs_are_clean(title: Seq<char>)
    ensures
        slug_shaped(slug_of(title)),
        slug_of(title).len() > 0 ==> slug_of(title).last() != '-',
{
    lemma_hyphenated(title);
    lemma_without_end_hyphens(hyphenated(title));
}

/// Converts a page title to a filesystem-safe slug.
///
/// Lowercases, replaces non-alphanumeric characters with hyphens,
/// collapses runs of hyphens, and strips leading/trailing hyphens.
pub fn slug_from_title(title: &str) -> (slug: String)
    ensures
        slug@ == slug_of(title@),
{
    let v = chars_of(title);
    let mut slug: Vec<char> = Vec::new();
    let mut i: usize = 0;
    assert(v@.take(0) =~= Seq::<char>::empty());
    while i < v.len()
        invariant
            v@ == title@,
            i <= v@.len(),
            slug@ == hyphenated(v@.take(i as int)),
        decreases v.len() - i,
    {
        assert(v@.take(i as int + 1).drop_last() =~= v@.take(i as int));
        assert(v@.take(i as int + 1).last() == v@[i as int]);
        if is_ascii_alphanumeric(v[i]) {
            slug.push(ascii_lowered(v[i]));
        } else if slug.len() > 0 && slug[slug.len() - 1] != '-' {
            slug.push('-');
        }
        i += 1;
    }
    assert(v@.take(i as int) =~= v@);
    let mut end: usize = slug.len();
    assert(slug@.take(end as int) =~= slug@);
    while end > 0 && slug[end - 1] == '-'
        invariant
            end <= slug@.len(),
            without_end_hyphens(slug@.take(end as int)) == slug_of(title@),
        decreases end,
    {
        assert(slug@.take(end as int).drop_last() =~= slug@.take(end - 1));
        end -= 1;
    }
    assert(slug@.subrange(0, end as int) =~= slug@.take(end as int));
    string_of(&slug, 0, end)
}

/// The slug of a title for the name of an exported file.
pub fn slugify(title: &str) -> (slug: String)
    ensures
        slug@ == file_slug(title@),
{
    let slug = slug_from_title(title);
    if slug.as_str().is_empty() {
        copy_of("untitled")
    } else {
        slug
    }
}

/// A slug with a number behind it.
pub open spec fn numbered(base: Seq<char>, n: nat) -> Seq<char> {
    base + "-"@ + decimal(n)
}

/// The `n`-th slug for a title: the first has no number.
pub open spec fn nth_slug(base: Seq<char>, n: nat) -> Seq<char> {
    if n == 1 {
        base
    } else {
        numbered(base, n)
    }
}

proof fn lemma_nth_slug_injective(base: Seq<char>, a: nat, b: nat)
    requires
        nth_slug(base, a) == nth_slug(base, b),
    ensures
        a == b,
{
    reveal_strlit("-");
    lemma_decimal_not_empty(a);
    lemma_decimal_not_empty(b);
    if a != 1 && b != 1 {
        let n = base.len() as int + 1;
        assert(numbered(base, a).skip(n) =~= decimal(a));
        assert(numbered(base, b).skip(n) =~= decimal(b));
        lemma_decimal_injective(a, b);
    } else if a != 1 {
        assert(numbered(base, a).len() == base.len() + 1 + decimal(a).len());
    } else if b != 1 {
        assert(numbered(base, b).len() == base.len() + 1 + decimal(b).len());
    }
}

fn numbered_slug(base: &str, n: usize) -> (slug: String)
    ensures
        slug@ == numbered(base@, n as nat),
{
    let mut slug = copy_of(base);
    slug.push_str("-");
    push_decimal(&mut slug, n);
    slug
}

/// How often a slug has come so far.
pub open spec fn times(counts: Map<Seq<char>, nat>, slug: Seq<char>) -> nat {
    if counts.contains_key(slug) {
        counts[slug]
    } else {
        0
    }
}

/// What a map of counters holds.
pub open spec fn count_table(m: StrMap<usize>) -> Map<Seq<char>, nat> {
    Map::new(|k: Seq<char>| m.has(k), |k: Seq<char>| m.at(k) as nat)
}

fn count_at(m: &StrMap<usize>, key: &str) -> (n: usize)
    requires
        m.wf(),
    ensures
        n == times(count_table(*m), key@),
{
    match m.get(key) {
        Some(n) => *n,
        None => 0,
    }
}

fn put_count(m: &mut StrMap<usize>, key: &str, n: usize)
    requires
        old(m).wf(),
    ensures
        final(m).wf(),
        count_table(*final(m)) == count_table(*old(m)).insert(key@, n as nat),
{
    let ghost before = *m;
    m.insert(copy_of(key), n);
    proof {
        let after = count_table(before).insert(key@, n as nat);
        assert forall|k: Seq<char>| #[trigger]
            count_table(*m).contains_key(k) == after.contains_key(k) by {
            assert(m.find(k) == if k == key@ {
                Some(n)
            } else {
                before.find(k)
            });
        }
        assert forall|k: Seq<char>| #[trigger] count_table(*m).contains_key(k) implies count_table(
            *m,
        )[k] == after[k] by {
            assert(m.find(k) == if k == key@ {
                Some(n)
            } else {
                before.find(k)
            });
        }
        assert(count_table(*m) =~= after);
    }
}

/// Slugs given out so far, and how often each slug of a title has come.
#[verifier::ext_equal]
pub struct SlugTable {
    pub slugs: TextTable,
    pub seen: Map<Seq<char>, nat>,
}

/// What one more page adds: its slug has a number where pages before it have
/// the same.
pub open spec fn slug_added(t: SlugTable, pages: PageTable, id: Seq<char>) -> SlugTable {
    let base = slug_of(pages[id].title);
    let count = times(t.seen, base);
    SlugTable {
        slugs: t.slugs.insert(
            id,
            if count > 0 {
                numbered(base, count)
            } else {
                base
            },
        ),
        seen: t.seen.insert(base, count + 1),
    }
}

/// The slugs of pages.
pub open spec fn slugs_of(pages: PageTable, ids: Seq<Seq<char>>) -> SlugTable
    decreases ids.len(),
{
    if ids.len() == 0 {
        SlugTable { slugs: Map::empty(), seen: Map::empty() }
    } else {
        slug_added(slugs_of(pages, ids.drop_last()), pages, ids.last())
    }
}

proof fn lemma_seen_bound(pages: PageTable, ids: Seq<Seq<char>>, slug: Seq<char>)
    ensures
        times(slugs_of(pages, ids).seen, slug) <= ids.len(),
    decreases ids.len(),
{
    if ids.len() > 0 {
        lemma_seen_bound(pages, ids.drop_last(), slug);
        lemma_seen_bound(pages, ids.drop_last(), slug_of(pages[ids.last()].title));
    }
}

/// Builds a lookup from page id to the slug that will be used as the markdown
/// file name.
pub fn build_slug_table(index: &KnowledgeBaseIndex) -> (table: StrMap<String>)
    requires
        index.wf(),
    ensures
        table.wf(),
        text_table(table) == slugs_of(index@.pages, index@.order).slugs,
{
    let metas = index.sorted_pages();
    let ghost all = index@.order;
    let ghost pages = index@.pages;
    let mut table: StrMap<String> = StrMap::new();
    let mut seen: StrMap<usize> = StrMap::new();
    let mut i: usize = 0;
    assert(all.take(0) =~= Seq::<Seq<char>>::empty());
    assert(text_table(table) =~= Map::<Seq<char>, Seq<char>>::empty());
    assert(count_table(seen) =~= Map::<Seq<char>, nat>::empty());
    while i < metas.len()
        invariant
            index.wf(),
            all == index@.order,
            pages == index@.pages,
            metas@.len() == all.len(),
            forall|k: int| 0 <= k < metas@.len() ==> (#[trigger] metas@[k])@ == pages[all[k]],
            i <= metas@.len(),
            table.wf(),
            seen.wf(),
            slugs_of(pages, all.take(i as int)) == (SlugTable {
                slugs: text_table(table),
                seen: count_table(seen),
            }),
        decreases metas.len() - i,
    {
        let ghost id = all[i as int];
        proof {
            assert(all.take(i as int + 1).drop_last() =~= all.take(i as int));
            assert(all.take(i as int + 1).last() == id);
            assert(all.contains(id));
            assert(metas@[i as int]@ == pages[id]);
            lemma_seen_bound(pages, all.take(i as int), slug_of(pages[id].title));
        }
        let base = slug_from_title(metas[i].title.as_str());
        let count: usize = count_at(&seen, base.as_str());
        let slug = if count > 0 {
            numbered_slug(base.as_str(), count)
        } else {
            copy_of(base.as_str())
        };
        put_count(&mut seen, base.as_str(), count + 1);
        put_text(&mut table, copy_of(metas[i].id.as_str()), slug);
        i += 1;
    }
    assert(all.take(i as int) =~= all);
    table
}

/// The first page in title order with each lowercased title.
pub open spec fn titles_of(pages: PageTable, ids: Seq<Seq<char>>) -> TextTable
    decreases ids.len(),
{
    if ids.len() == 0 {
        Map::empty()
    } else {
        let before = titles_of(pages, ids.drop_last());
        let title = pages[ids.last()].title_lower;
        if before.contains_key(title) {
            before
        } else {
            before.insert(title, ids.last())
        }
    }
}

/// Builds a case-insensitive title-to-id lookup for wikilink resolution.
pub fn build_title_table(index: &KnowledgeBaseIndex) -> (table: StrMap<String>)
    requires
        index.wf(),
    ensures
        table.wf(),
        text_table(table) == titles_of(index@.pages, index@.order),
{
    let metas = index.sorted_pages();
    let ghost all = index@.order;
    let ghost pages = index@.pages;
    let mut table: StrMap<String> = StrMap::new();
    let mut i: usize = 0;
    assert(all.take(0) =~= Seq::<Seq<char>>::empty());
    assert(text_table(table) =~= Map::<Seq<char>, Seq<char>>::empty());
    while i < metas.len()
        invariant
            index.wf(),
            all == index@.order,
            pages == index@.pages,
            metas@.len() == all.len(),
            forall|k: int| 0 <= k < metas@.len() ==> (#[trigger] metas@[k])@ == pages[all[k]],
            i <= metas@.len(),
            table.wf(),
            text_table(table) == titles_of(pages, all.take(i as int)),
        decreases metas.len() - i,
    {
        let ghost id = all[i as int];
        proof {
            assert(all.take(i as int + 1).drop_last() =~= all.take(i as int));
            assert(all.take(i as int + 1).last() == id);
            assert(all.contains(id));
            assert(metas@[i as int]@ == pages[id]);
        }
        if !table.contains_key(metas[i].title_lower.as_str()) {
            put_text(
                &mut table,
                copy_of(metas[i].title_lower.as_str()),
                copy_of(metas[i].id.as_str()),
            );
        }
        i += 1;
    }
    assert(all.take(i as int) =~= all);
    table
}

// ---------------------------------------------------------------------------
// Slugs that never collide
// ---------------------------------------------------------------------------

/// Slugs given out so far, which of them are taken, and the number that each
/// slug of a title has reached.
#[verifier::ext_equal]
pub struct SlugMap {
    pub slugs: TextTable,
    pub assigned: Seq<Seq<char>>,
    pub counts: Map<Seq<char>, nat>,
}

/// Whether `n` is the first number from `from` on whose slug is free.
pub open spec fn is_next_free(
    assigned: Seq<Seq<char>>,
    base: Seq<char>,
    from: nat,
    n: nat,
) -> bool {
    &&& from <= n
    &&& !assigned.contains(nth_slug(base, n))
    &&& forall|k: nat| from <= k < n ==> assigned.contains(#[trigger] nth_slug(base, k))
}

/// The first number from `from` on whose slug is free.
pub open spec fn next_free(assigned: Seq<Seq<char>>, base: Seq<char>, from: nat) -> nat {
    choose|n: nat| is_next_free(assigned, base, from, n)
}

/// What one more page adds: the first of its slugs that is not taken.
pub open spec fn slug_assigned(t: SlugMap, pages: PageTable, id: Seq<char>) -> SlugMap {
    let base = file_slug(pages[id].title);
    let n = next_free(t.assigned, base, times(t.counts, base) + 1);
    SlugMap {
        slugs: t.slugs.insert(id, nth_slug(base, n)),
        assigned: t.assigned.push(nth_slug(base, n)),
        counts: t.counts.insert(base, n),
    }
}

/// The slugs of pages, none of which collide.
pub open spec fn slug_map_of(pages: PageTable, ids: Seq<Seq<char>>) -> SlugMap
    decreases ids.len(),
{
    if ids.len() == 0 {
        SlugMap { slugs: Map::empty(), assigned: Seq::empty(), counts: Map::empty() }
    } else {
        slug_assigned(slug_map_of(pages, ids.drop_last()), pages, ids.last())
    }
}

/// So many different slugs that are all taken are no more than are taken.
proof fn lemma_taken_slugs(assigned: Seq<Seq<char>>, base: Seq<char>, from: nat, n: nat)
    requires
        from <= n,
        forall|k: nat| from <= k < n ==> assigned.contains(#[trigger] nth_slug(base, k)),
    ensures
        n - from <= assigned.len(),
{
    let tried = Seq::new((n - from) as nat, |i: int| nth_slug(base, (from + i) as nat));
    assert forall|i: int, j: int|
        0 <= i < tried.len() && 0 <= j < tried.len() && i != j implies tried[i] != tried[j] by {
        if tried[i] == tried[j] {
            lemma_nth_slug_injective(base, (from + i) as nat, (from + j) as nat);
        }
    }
    assert(tried.no_duplicates());
    tried.unique_seq_to_set();
    assigned.lemma_cardinality_of_set();
    vstd::seq_lib::seq_to_set_is_finite(assigned);
    assert forall|t: Seq<char>| tried.to_set().contains(t) implies assigned.to_set().contains(
        t,
    ) by {
        let i = choose|i: int| 0 <= i < tried.len() && tried[i] == t;
        assert(assigned.contains(nth_slug(base, (from + i) as nat)));
    }
    vstd::set_lib::lemma_len_subset(tried.to_set(), assigned.to_set());
}

proof fn lemma_next_free_from(assigned: Seq<Seq<char>>, base: Seq<char>, from: nat, n: nat)
    requires
        from <= n,
        forall|k: nat| from <= k < n ==> assigned.contains(#[trigger] nth_slug(base, k)),
    ensures
        exists|m: nat| is_next_free(assigned, base, from, m),
    decreases assigned.len() + 1 + from - n,
{
    lemma_taken_slugs(assigned, base, from, n);
    if assigned.contains(nth_slug(base, n)) {
        lemma_next_free_from(assigned, base, from, n + 1);
    } else {
        assert(is_next_free(assigned, base, from, n));
    }
}

/// There is a free slug, and just one that comes first.
proof fn lemma_next_free(assigned: Seq<Seq<char>>, base: Seq<char>, from: nat)
    ensures
        is_next_free(assigned, base, from, next_free(assigned, base, from)),
        forall|n: nat|
            is_next_free(assigned, base, from, n) ==> n == next_free(assigned, base, from),
{
    lemma_next_free_from(assigned, base, from, from);
    let m = next_free(assigned, base, from);
    assert forall|n: nat| is_next_free(assigned, base, from, n) implies n == m by {
        if n < m {
            assert(assigned.contains(nth_slug(base, n)));
        } else if m < n {
            assert(assigned.contains(nth_slug(base, m)));
        }
    }
}

/// What giving out slugs keeps.
spec fn slug_map_wf(t: SlugMap, ids: Seq<Seq<char>>) -> bool {
    &&& t.assigned.len() == ids.len()
    &&& forall|id: Seq<char>| #[trigger] t.slugs.contains_key(id) == ids.contains(id)
    &&& forall|id: Seq<char>| #[trigger]
        t.slugs.contains_key(id) ==> t.assigned.contains(t.slugs[id])
    &&& forall|a: Seq<char>, b: Seq<char>|
        #![trigger t.slugs[a], t.slugs[b]]
        t.slugs.contains_key(a) && t.slugs.contains_key(b) && a != b ==> t.slugs[a] != t.slugs[b]
    &&& forall|base: Seq<char>, k: nat|
        #![trigger nth_slug(base, k)]
        1 <= k <= times(t.counts, base) ==> t.assigned.contains(nth_slug(base, k))
}

proof fn lemma_slug_map(pages: PageTable, ids: Seq<Seq<char>>)
    requires
        ids.no_duplicates(),
    ensures
        slug_map_wf(slug_map_of(pages, ids), ids),
    decreases ids.len(),
{
    if ids.len() > 0 {
        let rest = ids.drop_last();
        let id = ids.last();
        let t = slug_map_of(pages, rest);
        let u = slug_map_of(pages, ids);
        assert(rest.no_duplicates());
        lemma_slug_map(pages, rest);
        let base = file_slug(pages[id].title);
        let from = times(t.counts, base) + 1;
        let n = next_free(t.assigned, base, from);
        lemma_next_free(t.assigned, base, from);
        let slug = nth_slug(base, n);
        assert(u.assigned == t.assigned.push(slug));
        assert(u.assigned[t.assigned.len() as int] == slug);
        assert forall|x: Seq<char>| t.assigned.contains(x) implies u.assigned.contains(x) by {
            let i = choose|i: int| 0 <= i < t.assigned.len() && t.assigned[i] == x;
            assert(u.assigned[i] == x);
        }
        assert(ids[ids.len() - 1] == id);
        assert(!rest.contains(id)) by {
            if rest.contains(id) {
                let i = choose|i: int| 0 <= i < rest.len() && rest[i] == id;
                assert(ids[i] == ids[ids.len() - 1]);
            }
        }
        assert forall|x: Seq<char>| #[trigger] u.slugs.contains_key(x) == ids.contains(x) by {
            assert(t.slugs.contains_key(x) == rest.contains(x));
            if rest.contains(x) {
                let i = choose|i: int| 0 <= i < rest.len() && rest[i] == x;
                assert(ids[i] == x);
            }
            if ids.contains(x) && x != id {
                let i = choose|i: int| 0 <= i < ids.len() && ids[i] == x;
                assert(rest[i] == x);
            }
        }
        assert forall|x: Seq<char>| #[trigger] u.slugs.contains_key(x) implies u.assigned.contains(
            u.slugs[x],
        ) by {
            if x != id {
                assert(t.slugs.contains_key(x));
            }
        }
        assert forall|a: Seq<char>, b: Seq<char>|
            #![trigger u.slugs[a], u.slugs[b]]
            u.slugs.contains_key(a) && u.slugs.contains_key(b) && a != b implies u.slugs[a]
            != u.slugs[b] by {
            if a != id {
                assert(t.slugs.contains_key(a));
                assert(u.slugs[a] == t.slugs[a]);
            }
            if b != id {
                assert(t.slugs.contains_key(b));
                assert(u.slugs[b] == t.slugs[b]);
            }
        }
        assert forall|b: Seq<char>, k: nat|
            #![trigger nth_slug(b, k)]
            1 <= k <= times(u.counts, b) implies u.assigned.contains(nth_slug(b, k)) by {
            if b == base {
                if k < from {
                    assert(t.assigned.contains(nth_slug(b, k)));
                } else if k < n {
                    assert(t.assigned.contains(nth_slug(b, k)));
                }
            } else {
                assert(times(u.counts, b) == times(t.counts, b));
            }
        }
    }
}

/// Every page of the index has a slug.
pub proof fn lemma_slugs_cover(m: IndexModel, id: Seq<char>)
    requires
        m.wf(),
        m.pages.contains_key(id),
    ensures
        slug_map_of(m.pages, m.order).slugs.contains_key(id),
{
    lemma_slug_map(m.pages, m.order);
    assert(m.order.contains(id) == m.pages.contains_key(id));
}

/// Every page has a slug of its own, so that no exported file overwrites
/// another.
pub proof fn exported_slugs_are_distinct(m: IndexModel, a: Seq<char>, b: Seq<char>)
    requires
        m.wf(),
        m.pages.contains_key(a),
        m.pages.contains_key(b),
        a != b,
    ensures
        slug_map_of(m.pages, m.order).slugs.contains_key(a),
        slug_map_of(m.pages, m.order).slugs[a] != slug_map_of(m.pages, m.order).slugs[b],
{
    lemma_slug_map(m.pages, m.order);
    let t = slug_map_of(m.pages, m.order);
    assert(m.order.contains(a) == m.pages.contains_key(a));
    assert(m.order.contains(b) == m.pages.contains_key(b));
    assert(t.slugs.contains_key(a));
    assert(t.slugs.contains_key(b));
}

proof fn lemma_slug_shapes(pages: PageTable, ids: Seq<Seq<char>>, id: Seq<char>)
    requires
        slug_map_of(pages, ids).slugs.contains_key(id),
    ensures
        exists|n: nat|
            1 <= n && slug_map_of(pages, ids).slugs[id] == #[trigger] nth_slug(
                file_slug(pages[id].title),
                n,
            ),
    decreases ids.len(),
{
    if ids.len() > 0 {
        let t = slug_map_of(pages, ids.drop_last());
        if ids.last() == id {
            let base = file_slug(pages[id].title);
            let from = times(t.counts, base) + 1;
            lemma_next_free(t.assigned, base, from);
            let n = next_free(t.assigned, base, from);
            assert(slug_map_of(pages, ids).slugs[id] == nth_slug(base, n));
        } else {
            lemma_slug_shapes(pages, ids.drop_last(), id);
        }
    }
}

/// The slug of an exported page is that of its title, or that with a number
/// behind it, which is two or more.
pub proof fn exported_slugs_are_those_of_the_titles(m: IndexModel, id: Seq<char>)
    requires
        m.wf(),
        m.pages.contains_key(id),
    ensures
        ({
            let slug = slug_map_of(m.pages, m.order).slugs[id];
            let base = file_slug(m.pages[id].title);
            slug == base || exists|n: nat| 2 <= n && slug == #[trigger] numbered(base, n)
        }),
{
    lemma_slugs_cover(m, id);
    lemma_slug_shapes(m.pages, m.order, id);
    let slug = slug_map_of(m.pages, m.order).slugs[id];
    let base = file_slug(m.pages[id].title);
    let n = choose|n: nat| 1 <= n && slug == #[trigger] nth_slug(base, n);
    if n >= 2 {
        assert(slug == numbered(base, n));
    }
}

/// Builds a lookup from page id to slug in which no two pages have one slug.
pub fn build_slug_map(index: &KnowledgeBaseIndex) -> (slugs: StrMap<String>)
    requires
        index.wf(),
    ensures
        slugs.wf(),
        text_table(slugs) == slug_map_of(index@.pages, index@.order).slugs,
{
    let metas = index.sorted_pages();
    let ghost all = index@.order;
    let ghost pages = index@.pages;
    let mut slugs: StrMap<String> = StrMap::new();
    let mut assigned: Vec<String> = Vec::new();
    let mut counts: StrMap<usize> = StrMap::new();
    let mut i: usize = 0;
    assert(all.take(0) =~= Seq::<Seq<char>>::empty());
    assert(text_table(slugs) =~= Map::<Seq<char>, Seq<char>>::empty());
    assert(count_table(counts) =~= Map::<Seq<char>, nat>::empty());
    assert(views(assigned@) =~= Seq::<Seq<char>>::empty());
    while i < metas.len()
        invariant
            index.wf(),
            all == index@.order,
            pages == index@.pages,
            metas@.len() == all.len(),
            forall|k: int| 0 <= k < metas@.len() ==> (#[trigger] metas@[k])@ == pages[all[k]],
            i <= metas@.len(),
            slugs.wf(),
            counts.wf(),
            slug_map_of(pages, all.take(i as int)) == (SlugMap {
                slugs: text_table(slugs),
                assigned: views(assigned@),
                counts: count_table(counts),
            }),
        decreases metas.len() - i,
    {
        let ghost id = all[i as int];
        let ghost taken = views(assigned@);
        proof {
            assert(all.take(i as int + 1).drop_last() =~= all.take(i as int));
            assert(all.take(i as int + 1).last() == id);
            assert(all.contains(id));
            assert(metas@[i as int]@ == pages[id]);
            assert(all.take(i as int).no_duplicates());
            lemma_slug_map(pages, all.take(i as int));
            assert(taken.len() == i);
        }
        let base = slugify(metas[i].title.as_str());
        let count: usize = count_at(&counts, base.as_str());
        let ghost from = (count + 1) as nat;
        proof {
            lemma_taken_slugs(taken, base@, 1, from);
            lemma_next_free(taken, base@, from);
        }
        let mut n: usize = count + 1;
        let mut slug = if n == 1 {
            copy_of(base.as_str())
        } else {
            numbered_slug(base.as_str(), n)
        };
        while has_text(&assigned, slug.as_str())
            invariant
                taken == views(assigned@),
                taken.len() == i,
                i < metas.len(),
                from <= n,
                from >= 1,
                slug@ == nth_slug(base@, n as nat),
                forall|k: nat| 1 <= k < n ==> taken.contains(#[trigger] nth_slug(base@, k)),
                n <= taken.len() + 1,
            decreases taken.len() + 2 - n,
        {
            proof {
                assert forall|k: nat| 1 <= k < n + 1 implies taken.contains(
                    #[trigger] nth_slug(base@, k),
                ) by {
                    if k == n {
                        assert(slug@ == nth_slug(base@, k));
                    }
                }
                lemma_taken_slugs(taken, base@, 1, (n + 1) as nat);
            }
            n += 1;
            slug = numbered_slug(base.as_str(), n);
        }
        proof {
            assert(is_next_free(taken, base@, from, n as nat));
            assert(n as nat == next_free(taken, base@, from));
            lemma_views_push(assigned@, slug);
        }
        put_text(&mut slugs, copy_of(metas[i].id.as_str()), copy_of(slug.as_str()));
        put_count(&mut counts, base.as_str(), n);
        assigned.push(slug);
        i += 1;
    }
    assert(all.take(i as int) =~= all);
    slugs
}

// ---------------------------------------------------------------------------
// Front matter
// ---------------------------------------------------------------------------

/// A text with a backslash before each backslash and each quote.
pub open spec fn yaml_escaped(s: Seq<char>) -> Seq<char> {
    replaced(replaced(s, "\\"@, "\\\\"@), "\""@, "\\\""@)
}

/// Puts a backslash before each backslash and each quote.
pub fn escape_yaml(s: &str) -> (out: String)
    ensures
        out@ == yaml_escaped(s@),
{
    proof {
        reveal_strlit("\\");
        reveal_strlit("\"");
    }
    let once = replace(s, "\\", "\\\\");
    replace(once.as_str(), "\"", "\\\"")
}

/// A text in quotes.
pub open spec fn yaml_quoted(s: Seq<char>) -> Seq<char> {
    "\""@ + yaml_escaped(s) + "\""@
}

pub open spec fn all_yaml_quoted(ts: Seq<Seq<char>>) -> Seq<Seq<char>> {
    Seq::new(ts.len(), |i: int| yaml_quoted(ts[i]))
}

/// The RFC 3339 text of a time.
pub open spec fn time_text(t: Timestamp) -> Option<Seq<char>> {
    rfc3339_text(t.seconds, t.nanos, t.offset)
}

/// A line for the tags of a page, where it has some.
pub open spec fn tags_line(tags: Seq<Seq<char>>) -> Seq<char> {
    if tags.len() == 0 {
        Seq::empty()
    } else {
        "tags: ["@ + joined(all_yaml_quoted(tags), ", "@) + "]\n"@
    }
}

/// A line for the time of the last edit, where there is one to write.
pub open spec fn updated_line(updated_at: Option<Timestamp>) -> Seq<char> {
    match updated_at {
        Some(t) => match time_text(t) {
            Some(text) => "updated_at: "@ + text + "\n"@,
            None => Seq::empty(),
        },
        None => Seq::empty(),
    }
}

/// The front matter of an exported page.
pub open spec fn frontmatter_text(page: PageModel) -> Seq<char> {
    "---\n"@ + "title: "@ + yaml_quoted(page.title) + "\n"@ + "id: "@ + page.id + "\n"@
        + tags_line(page.tags) + updated_line(page.updated_at) + "---\n\n"@
}

fn quote_yaml(s: &str) -> (out: String)
    ensures
        out@ == yaml_quoted(s@),
{
    let mut out = String::new();
    out.push_str("\"");
    let e = escape_yaml(s);
    out.push_str(e.as_str());
    out.push_str("\"");
    assert(out@ =~= yaml_quoted(s@));
    out
}

fn quote_all_yaml(ts: &Vec<String>) -> (out: Vec<String>)
    ensures
        views(out@) == all_yaml_quoted(views(ts@)),
{
    let mut out: Vec<String> = Vec::new();
    let mut i: usize = 0;
    while i < ts.len()
        invariant
            i <= ts@.len(),
            out@.len() == i,
            forall|k: int| 0 <= k < i ==> (#[trigger] out@[k])@ == yaml_quoted(ts@[k]@),
        decreases ts.len() - i,
    {
        out.push(quote_yaml(ts[i].as_str()));
        i += 1;
    }
    assert(views(out@) =~= all_yaml_quoted(views(ts@)));
    out
}

fn build_tags_line(tags: &Vec<String>) -> (out: String)
    ensures
        out@ == tags_line(views(tags@)),
{
    let mut out = String::new();
    if tags.len() > 0 {
        let quoted = quote_all_yaml(tags);
        let list = join(&quoted, ", ");
        out.push_str("tags: [");
        out.push_str(list.as_str());
        out.push_str("]\n");
        assert(out@ =~= tags_line(views(tags@)));
    }
    out
}

fn build_updated_line(updated_at: Option<Timestamp>) -> (out: String)
    ensures
        out@ == updated_line(updated_at),
        written_time(updated_at) matches Some(t) ==> one_word(t),
{
    let mut out = String::new();
    if let Some(t) = updated_at {
        if let Some(text) = t.to_rfc3339() {
            out.push_str("updated_at: ");
            out.push_str(text.as_str());
            out.push_str("\n");
            assert(out@ =~= updated_line(updated_at));
        }
    }
    out
}

/// The front matter of an exported page: its title, id, tags and update time.
/// An import reads back what it says.
pub fn build_frontmatter(page: &Page) -> (out: String)
    ensures
        out@ == frontmatter_text(page@),
        header_shaped(page@) ==> forall|body: Seq<char>| #[trigger]
            frontmatter_of(out@ + body) == Some(header_of(page@)),
{
    let mut out = String::new();
    out.push_str("---\n");
    out.push_str("title: ");
    let title = quote_yaml(page.title.as_str());
    out.push_str(title.as_str());
    out.push_str("\n");
    out.push_str("id: ");
    out.push_str(page.id.as_str());
    out.push_str("\n");
    let tags = build_tags_line(&page.tags);
    out.push_str(tags.as_str());
    let updated = build_updated_line(page.updated_at);
    out.push_str(updated.as_str());
    out.push_str("---\n\n");
    assert(out@ =~= frontmatter_text(page@));
    proof {
        if header_shaped(page@) {
            assert forall|body: Seq<char>| #[trigger] frontmatter_of(out@ + body) == Some(
                header_of(page@),
            ) by {
                front_matter_survives(page@, body);
            }
        }
    }
    out
}

// ---------------------------------------------------------------------------
// Links to exported files
// ---------------------------------------------------------------------------

/// The exported file that a link leads to.
pub open spec fn exported_target(c: Catalog, slugs: TextTable, target: Seq<char>) -> Option<
    Seq<char>,
> {
    match classified(c, target) {
        TargetModel::InternalPage(id) => match looked_up(slugs, id) {
            Some(slug) => Some(slug + ".md"@),
            None => None,
        },
        _ => None,
    }
}

/// What becomes of a link where `answer` is what its target resolves to: a wiki
/// link becomes a markdown link only where it resolves; a markdown link stays
/// one, and keeps its target where it does not resolve.
pub open spec fn export_answer(
    kind: LinkKind,
    target: Seq<char>,
    answer: Option<Seq<char>>,
) -> Option<Seq<char>> {
    match kind {
        LinkKind::Wiki => answer,
        LinkKind::Markdown => match answer {
            Some(t) => Some(t),
            None => Some(target),
        },
    }
}

/// The export link policy over a way to resolve targets.
pub open spec fn export_policy(resolve: spec_fn(Seq<char>) -> Option<Seq<char>>) -> LinkPolicy {
    |kind: LinkKind, target: Seq<char>| export_answer(kind, target, resolve(target))
}

/// Whether `resolve` tells what `f` answers.
pub open spec fn resolves<R: Fn(&str) -> Option<String>>(
    f: R,
    resolve: spec_fn(Seq<char>) -> Option<Seq<char>>,
) -> bool {
    forall|target: &str, answer: Option<String>|
        #[trigger] call_ensures(f, (target,), answer) ==> opt_view(answer) == resolve(target@)
}

/// The export link policy, layered over the shared scanner: `[[wikilink]]`
/// becomes a markdown link only when its target resolves to an exported page
/// (otherwise left verbatim), while `[label](target)` always keeps markdown
/// syntax with the target resolved when possible.
pub fn export_link_rewriter<R: Fn(&str) -> Option<String>>(resolve: R) -> (rewriter: impl Fn(
    LinkKind,
    &str,
) -> Option<String>)
    requires
        forall|target: &str| #[trigger] call_requires(resolve, (target,)),
    ensures
        callable(rewriter),
        forall|kind: LinkKind, target: &str, answer: Option<String>| #[trigger]
            call_ensures(rewriter, (kind, target), answer) ==> exists|found: Option<String>|
                call_ensures(resolve, (target,), found) && opt_view(answer) == export_answer(
                    kind,
                    target@,
                    opt_view(found),
                ),
{
    move |kind: LinkKind, target: &str| -> (answer: Option<String>)
        requires
            true,
        ensures
            exists|found: Option<String>|
                call_ensures(resolve, (target,), found) && opt_view(answer) == export_answer(
                    kind,
                    target@,
                    opt_view(found),
                ),
        {
            let found = resolve(target);
            let ghost seen = found;
            let answer = match kind {
                LinkKind::Wiki => found,
                LinkKind::Markdown => match found {
                    Some(t) => Some(t),
                    None => Some(copy_of(target)),
                },
            };
            assert(opt_view(answer) == export_answer(kind, target@, opt_view(seen)));
            answer
        }
}

/// Asking the rewriter is asking the policy.
pub proof fn lemma_export_answers<
    R: Fn(&str) -> Option<String>,
    W: Fn(LinkKind, &str) -> Option<String>,
>(f: R, w: W, resolve: spec_fn(Seq<char>) -> Option<Seq<char>>)
    requires
        resolves(f, resolve),
        forall|kind: LinkKind, target: &str, answer: Option<String>| #[trigger]
            call_ensures(w, (kind, target), answer) ==> exists|found: Option<String>|
                call_ensures(f, (target,), found) && opt_view(answer) == export_answer(
                    kind,
                    target@,
                    opt_view(found),
                ),
    ensures
        answers(w, export_policy(resolve)),
{
    let policy = export_policy(resolve);
    assert forall|kind: LinkKind, target: &str, answer: Option<String>| #[trigger]
        call_ensures(w, (kind, target), answer) implies opt_view(answer) == policy(
        kind,
        target@,
    ) by {
        let found = choose|found: Option<String>|
            call_ensures(f, (target,), found) && opt_view(answer) == export_answer(
                kind,
                target@,
                opt_view(found),
            );
        assert(opt_view(found) == resolve(target@));
    }
}

fn find_exported_target(
    index: &KnowledgeBaseIndex,
    slug_map: &StrMap<String>,
    target: &str,
) -> (found: Option<String>)
    requires
        index.wf(),
        slug_map.wf(),
    ensures
        opt_view(found) == exported_target(index@.catalog(), text_table(*slug_map), target@),
{
    match index.classify_link_target(target) {
        LinkTargetKind::InternalPage(id) => match slug_map.get(id.as_str()) {
            Some(slug) => {
                let mut out = copy_of(slug.as_str());
                out.push_str(".md");
                assert(out@ =~= slug@ + ".md"@);
                Some(out)
            },
            None => None,
        },
        _ => None,
    }
}

/// How an export resolves link targets.
pub open spec fn export_resolver(c: Catalog, slugs: TextTable) -> spec_fn(Seq<char>) -> Option<
    Seq<char>,
> {
    |target: Seq<char>| exported_target(c, slugs, target)
}

/// The body of an exported page.
pub open spec fn exported_body(c: Catalog, slugs: TextTable, nodes: Seq<NodeModel>) -> Seq<char> {
    nodes_text(
        nodes,
        export_policy(export_resolver(c, slugs)),
        BlockEscaping::Escape,
        Position::Snippet,
    )
}

/// Renders nodes for an export, with links to pages turned into links to their
/// files.
pub fn render_with_rewritten_links(
    nodes: &Vec<Node>,
    index: &KnowledgeBaseIndex,
    slug_map: &StrMap<String>,
) -> (out: String)
    requires
        index.wf(),
        slug_map.wf(),
    ensures
        out@ == exported_body(index@.catalog(), text_table(*slug_map), node_views(nodes@)),
{
    let ghost resolver = export_resolver(index@.catalog(), text_table(*slug_map));
    let resolve = |target: &str| -> (found: Option<String>)
        ensures
            opt_view(found) == resolver(target@),
        { find_exported_target(index, slug_map, target) };
    assert(resolves(resolve, resolver));
    let ghost f = resolve;
    let rewriter = export_link_rewriter(resolve);
    proof {
        lemma_export_answers(f, rewriter, resolver);
    }
    render_nodes_to_text_with(nodes, &rewriter, BlockEscaping::Escape)
}

/// A file that an export writes: its name and what it holds.
#[derive(Debug, PartialEq, Eq)]
pub struct ExportedFile {
    pub name: String,
    pub content: String,
}

/// The file of an exported page.
pub fn exported_file(page: &Page, index: &KnowledgeBaseIndex, slug_map: &StrMap<String>) -> (file:
    Option<ExportedFile>)
    requires
        index.wf(),
        slug_map.wf(),
    ensures
        match file {
            Some(f) => looked_up(text_table(*slug_map), page@.id) is Some && f.name@ == looked_up(
                text_table(*slug_map),
                page@.id,
            )->0 + ".md"@ && f.content@ == frontmatter_text(page@) + exported_body(
                index@.catalog(),
                text_table(*slug_map),
                page@.content,
            ),
            None => looked_up(text_table(*slug_map), page@.id) is None,
        },
{
    match slug_map.get(page.id.as_str()) {
        None => None,
        Some(slug) => {
            let mut name = copy_of(slug.as_str());
            name.push_str(".md");
            assert(name@ =~= slug@ + ".md"@);
            let mut content = build_frontmatter(page);
            let body = render_with_rewritten_links(&page.content, index, slug_map);
            content.push_str(body.as_str());
            Some(ExportedFile { name, content })
        },
    }
}

// ---------------------------------------------------------------------------
// Markdown with resolved links
// ---------------------------------------------------------------------------

/// What decides where the links of a markdown page lead.
#[verifier::ext_equal]
pub struct LinkTables {
    pub catalog: Catalog,
    pub slugs: TextTable,
    pub titles: TextTable,
}

/// The target of a link: the file of the page it leads to, or the target as it
/// is.
pub open spec fn link_url(t: LinkTables, url: Seq<char>) -> Seq<char> {
    match exported_target(t.catalog, t.slugs, url) {
        Some(file) => file,
        None => url,
    }
}

/// `[label](url)`
pub open spec fn markdown_link(label: Seq<char>, url: Seq<char>) -> Seq<char> {
    "["@ + label + "]("@ + url + ")"@
}

/// The file of the page that has a title, by the title table.
pub open spec fn titled_file(t: LinkTables, title: Seq<char>) -> Option<Seq<char>> {
    match looked_up(t.titles, lowercase(title)) {
        Some(id) => match looked_up(t.slugs, id) {
            Some(slug) => Some(slug + ".md"@),
            None => None,
        },
        None => None,
    }
}

/// A wiki link as markdown: a link to the file of the page it names or to the
/// address it is, else as it was.
pub open spec fn wikilink_text(t: LinkTables, target: Seq<char>) -> Seq<char> {
    match titled_file(t, target) {
        Some(file) => markdown_link(target, file),
        None => match classified(t.catalog, target) {
            TargetModel::InternalPage(id) => match looked_up(t.slugs, id) {
                Some(slug) => markdown_link(target, slug + ".md"@),
                None => "[["@ + target + "]]"@,
            },
            TargetModel::ExternalUrl(url) => markdown_link(target, url),
            _ => "[["@ + target + "]]"@,
        },
    }
}

/// What stands for a wiki link with this text between its brackets.
pub open spec fn wiki_replaced(t: LinkTables, inner: Seq<char>) -> Seq<char> {
    if trimmed(inner).len() == 0 {
        "[[]]"@
    } else {
        wikilink_text(t, trimmed(inner))
    }
}

/// What stands for `[label](inner)`.
pub open spec fn link_replaced(t: LinkTables, label: Seq<char>, inner: Seq<char>) -> Seq<char> {
    if trimmed(inner).len() == 0 {
        markdown_link(label, Seq::empty())
    } else {
        markdown_link(label, link_url(t, trimmed(inner)))
    }
}

/// Where the target of `[label](target)` at `i` closes, and where its label
/// does; the first `]` and the first `)` behind it count.
pub open spec fn plain_link_at(s: Seq<char>, i: int) -> Option<(int, int)> {
    let label_end = next_pos(s, i + 1, ']');
    if s[i] == '[' && label_end + 1 < s.len() && s[label_end + 1] == '(' {
        let target_end = next_pos(s, label_end + 2, ')');
        if target_end < s.len() {
            Some((label_end, target_end))
        } else {
            None
        }
    } else {
        None
    }
}

/// Where the wiki link at `i` closes.
pub open spec fn wiki_close_at(s: Seq<char>, i: int) -> Option<int> {
    if i + 1 < s.len() && s[i] == '[' && s[i + 1] == '[' {
        closing_double_bracket(s, i + 2)
    } else {
        None
    }
}

proof fn lemma_closing_bounds(s: Seq<char>, i: int)
    requires
        0 <= i,
    ensures
        closing_double_bracket(s, i) matches Some(e) ==> i <= e && e + 1 < s.len(),
    decreases s.len() - i,
{
    if i + 1 < s.len() {
        lemma_closing_bounds(s, i + 1);
    }
}

proof fn lemma_plain_link_bounds(s: Seq<char>, i: int)
    requires
        0 <= i < s.len(),
    ensures
        plain_link_at(s, i) matches Some((l, e)) ==> i < l && l + 2 <= e < s.len(),
{
    lemma_next_pos(s, i + 1, ']');
    let l = next_pos(s, i + 1, ']');
    if l + 2 <= s.len() {
        lemma_next_pos(s, l + 2, ')');
    }
}

/// `s` from `i` on with its links resolved.
#[verifier::opaque]
pub open spec fn resolved_from(t: LinkTables, s: Seq<char>, i: int) -> Seq<char>
    decreases s.len() - i,
    via resolved_from_decreases
{
    if i < 0 || i >= s.len() {
        Seq::empty()
    } else {
        match wiki_close_at(s, i) {
            Some(end) => wiki_replaced(t, s.subrange(i + 2, end)) + resolved_from(t, s, end + 2),
            None => match plain_link_at(s, i) {
                Some((label_end, target_end)) => link_replaced(
                    t,
                    s.subrange(i + 1, label_end),
                    s.subrange(label_end + 2, target_end),
                ) + resolved_from(t, s, target_end + 1),
                None => seq![s[i]] + resolved_from(t, s, i + 1),
            },
        }
    }
}

#[via_fn]
proof fn resolved_from_decreases(t: LinkTables, s: Seq<char>, i: int) {
    if 0 <= i < s.len() {
        lemma_closing_bounds(s, i + 2);
        lemma_plain_link_bounds(s, i);
    }
}

/// A text with its links resolved.
pub open spec fn resolved_text(t: LinkTables, s: Seq<char>) -> Seq<char> {
    resolved_from(t, s, 0)
}

proof fn lemma_resolved_step(t: LinkTables, s: Seq<char>, i: int)
    requires
        0 <= i < s.len(),
    ensures
        resolved_from(t, s, i) == match wiki_close_at(s, i) {
            Some(end) => wiki_replaced(t, s.subrange(i + 2, end)) + resolved_from(t, s, end + 2),
            None => match plain_link_at(s, i) {
                Some((label_end, target_end)) => link_replaced(
                    t,
                    s.subrange(i + 1, label_end),
                    s.subrange(label_end + 2, target_end),
                ) + resolved_from(t, s, target_end + 1),
                None => seq![s[i]] + resolved_from(t, s, i + 1),
            },
        },
{
    reveal(resolved_from);
}

/// What a link between pages is exported with.
pub open spec fn tables_of(
    index: KnowledgeBaseIndex,
    slug_table: StrMap<String>,
    title_table: StrMap<String>,
) -> LinkTables {
    LinkTables {
        catalog: index@.catalog(),
        slugs: text_table(slug_table),
        titles: text_table(title_table),
    }
}

fn markdown_link_of(label: &str, url: &str) -> (out: String)
    ensures
        out@ == markdown_link(label@, url@),
{
    let mut out = String::new();
    out.push_str("[");
    out.push_str(label);
    out.push_str("](");
    out.push_str(url);
    out.push_str(")");
    assert(out@ =~= markdown_link(label@, url@));
    out
}

/// Resolves a link url to a relative markdown path if it points to an internal
/// page.
pub fn resolve_link_url(
    url: &str,
    index: &KnowledgeBaseIndex,
    slug_table: &StrMap<String>,
) -> (out: String)
    requires
        index.wf(),
        slug_table.wf(),
    ensures
        out@ == match exported_target(index@.catalog(), text_table(*slug_table), url@) {
            Some(file) => file,
            None => url@,
        },
{
    match find_exported_target(index, slug_table, url) {
        Some(file) => file,
        None => copy_of(url),
    }
}

fn file_of_slug(slug: &str) -> (file: String)
    ensures
        file@ == slug@ + ".md"@,
{
    let mut file = copy_of(slug);
    file.push_str(".md");
    file
}

fn find_titled_file(
    target: &str,
    slug_table: &StrMap<String>,
    title_table: &StrMap<String>,
    Ghost(t): Ghost<LinkTables>,
) -> (file: Option<String>)
    requires
        slug_table.wf(),
        title_table.wf(),
        t.slugs == text_table(*slug_table),
        t.titles == text_table(*title_table),
    ensures
        opt_view(file) == titled_file(t, target@),
{
    let needle = to_lowercase(target);
    match title_table.get(needle.as_str()) {
        Some(id) => match slug_table.get(id.as_str()) {
            Some(slug) => Some(file_of_slug(slug.as_str())),
            None => None,
        },
        None => None,
    }
}

fn bracketed(target: &str) -> (out: String)
    ensures
        out@ == "[["@ + target@ + "]]"@,
{
    let mut out = String::new();
    out.push_str("[[");
    out.push_str(target);
    out.push_str("]]");
    assert(out@ =~= "[["@ + target@ + "]]"@);
    out
}

/// Resolves a wikilink target to `[display](slug.md)` or leaves it as
/// `[[target]]` if unresolved.
pub fn resolve_wikilink(
    target: &str,
    index: &KnowledgeBaseIndex,
    slug_table: &StrMap<String>,
    title_table: &StrMap<String>,
) -> (out: String)
    requires
        index.wf(),
        slug_table.wf(),
        title_table.wf(),
    ensures
        out@ == wikilink_text(tables_of(*index, *slug_table, *title_table), target@),
{
    let ghost t = tables_of(*index, *slug_table, *title_table);
    if let Some(file) = find_titled_file(target, slug_table, title_table, Ghost(t)) {
        return markdown_link_of(target, file.as_str());
    }
    match index.classify_link_target(target) {
        LinkTargetKind::InternalPage(id) => match slug_table.get(id.as_str()) {
            Some(slug) => {
                let file = file_of_slug(slug.as_str());
                markdown_link_of(target, file.as_str())
            },
            None => bracketed(target),
        },
        LinkTargetKind::ExternalUrl(url) => markdown_link_of(target, url.as_str()),
        _ => bracketed(target),
    }
}

fn find_closing_double_bracket(v: &Vec<char>, start: usize) -> (found: Option<usize>)
    requires
        start <= v.len(),
    ensures
        match found {
            Some(e) => closing_double_bracket(v@, start as int) == Some(e as int),
            None => closing_double_bracket(v@, start as int) is None,
        },
{
    let mut i: usize = start;
    while i < v.len() && v.len() - i > 1
        invariant
            start <= i <= v@.len(),
            closing_double_bracket(v@, start as int) == closing_double_bracket(v@, i as int),
        decreases v.len() - i,
    {
        if v[i] == ']' && v[i + 1] == ']' {
            return Some(i);
        }
        i += 1;
    }
    None
}

fn find_wiki_close(v: &Vec<char>, i: usize) -> (found: Option<usize>)
    requires
        i < v.len(),
    ensures
        match found {
            Some(e) => wiki_close_at(v@, i as int) == Some(e as int) && i + 2 <= e && e + 1
                < v@.len(),
            None => wiki_close_at(v@, i as int) is None,
        },
{
    proof {
        lemma_closing_bounds(v@, i + 2);
    }
    if v.len() - i > 1 && v[i] == '[' && v[i + 1] == '[' {
        find_closing_double_bracket(v, i + 2)
    } else {
        None
    }
}

fn find_plain_link(v: &Vec<char>, i: usize) -> (found: Option<(usize, usize)>)
    requires
        i < v.len(),
    ensures
        match found {
            Some((l, e)) => plain_link_at(v@, i as int) == Some((l as int, e as int)) && i < l && l
                + 2 <= e && e < v@.len(),
            None => plain_link_at(v@, i as int) is None,
        },
{
    proof {
        lemma_plain_link_bounds(v@, i as int);
    }
    let label_end: usize = next_position(v, i + 1, ']');
    proof {
        lemma_next_pos(v@, i + 1, ']');
    }
    if v[i] != '[' || label_end >= v.len() || v.len() - label_end <= 1 || v[label_end + 1] != '(' {
        return None;
    }
    let target_end: usize = next_position(v, label_end + 2, ')');
    if target_end < v.len() {
        Some((label_end, target_end))
    } else {
        None
    }
}

fn replace_wiki(
    inner: &str,
    index: &KnowledgeBaseIndex,
    slug_table: &StrMap<String>,
    title_table: &StrMap<String>,
) -> (out: String)
    requires
        index.wf(),
        slug_table.wf(),
        title_table.wf(),
    ensures
        out@ == wiki_replaced(tables_of(*index, *slug_table, *title_table), inner@),
{
    let target = trim(inner);
    if target.as_str().is_empty() {
        copy_of("[[]]")
    } else {
        resolve_wikilink(target.as_str(), index, slug_table, title_table)
    }
}

fn replace_link(
    label: &str,
    inner: &str,
    index: &KnowledgeBaseIndex,
    slug_table: &StrMap<String>,
    Ghost(t): Ghost<LinkTables>,
) -> (out: String)
    requires
        index.wf(),
        slug_table.wf(),
        t.catalog == index@.catalog(),
        t.slugs == text_table(*slug_table),
    ensures
        out@ == link_replaced(t, label@, inner@),
{
    let target = trim(inner);
    if target.as_str().is_empty() {
        proof {
            reveal_strlit("");
            assert(""@ =~= Seq::<char>::empty());
        }
        markdown_link_of(label, "")
    } else {
        let url = resolve_link_url(target.as_str(), index, slug_table);
        markdown_link_of(label, url.as_str())
    }
}

/// Processes inline text, resolving `[[wikilinks]]` to `[title](slug.md)` and
/// internal `[label](target)` links to relative paths.
pub fn resolve_inline_links(
    text: &str,
    index: &KnowledgeBaseIndex,
    slug_table: &StrMap<String>,
    title_table: &StrMap<String>,
) -> (out: String)
    requires
        index.wf(),
        slug_table.wf(),
        title_table.wf(),
    ensures
        out@ == resolved_text(tables_of(*index, *slug_table, *title_table), text@),
{
    let ghost t = tables_of(*index, *slug_table, *title_table);
    let v = chars_of(text);
    let ghost s = text@;
    let mut out = String::new();
    let mut i: usize = 0;
    assert(out@ + resolved_from(t, s, 0) =~= resolved_from(t, s, 0));
    while i < v.len()
        invariant
            index.wf(),
            slug_table.wf(),
            title_table.wf(),
            t == tables_of(*index, *slug_table, *title_table),
            s == v@,
            i <= v@.len(),
            out@ + resolved_from(t, s, i as int) == resolved_from(t, s, 0),
        decreases v.len() - i,
    {
        proof {
            lemma_resolved_step(t, s, i as int);
        }
        let ghost before = out@;
        if let Some(end) = find_wiki_close(&v, i) {
            let inner = string_of(&v, i + 2, end);
            let new = replace_wiki(inner.as_str(), index, slug_table, title_table);
            out.push_str(new.as_str());
            proof {
                lemma_concat(before, new@, resolved_from(t, s, end + 2));
            }
            i = end + 2;
        } else if let Some((label_end, target_end)) = find_plain_link(&v, i) {
            let label = string_of(&v, i + 1, label_end);
            let inner = string_of(&v, label_end + 2, target_end);
            let new = replace_link(label.as_str(), inner.as_str(), index, slug_table, Ghost(t));
            out.push_str(new.as_str());
            proof {
                lemma_concat(before, new@, resolved_from(t, s, target_end + 1));
            }
            i = target_end + 1;
        } else {
            out.push(v[i]);
            proof {
                assert(out@ =~= before + seq![s[i as int]]);
                lemma_concat(before, seq![s[i as int]], resolved_from(t, s, i + 1));
            }
            i += 1;
        }
    }
    proof {
        reveal(resolved_from);
        assert(out@ + Seq::<char>::empty() =~= out@);
    }
    out
}

/// A node as markdown.
pub open spec fn markdown_node(t: LinkTables, node: NodeModel) -> Seq<char>
    decreases node,
{
    match node {
        NodeModel::Heading { level, text } => repeated('#', if level > 1 { level as nat } else { 1 })
            + " "@ + resolved_text(t, text) + "\n\n"@,
        NodeModel::Paragraph { text } => resolved_text(t, text) + "\n\n"@,
        NodeModel::Text { text } => resolved_text(t, text) + "\n"@,
        NodeModel::List { items } => markdown_items(t, items) + "\n"@,
        NodeModel::Code { language, code } => "```"@ + or_empty(language) + "\n"@ + code
            + "\n```\n\n"@,
        NodeModel::Link { text, url } => link_text(text, link_url(t, url)),
        NodeModel::Quote { text } => prefixed_lines("> "@, lines_of(resolved_text(t, text)))
            + "\n"@,
        NodeModel::Rewrite { language, search, replace, scope, is_method_pattern } => "```diff "@
            + or_text(language, "rewrite"@) + "\n"@ + rewrite_body(
            search,
            replace,
            scope,
            is_method_pattern,
        ) + "```\n\n"@,
        NodeModel::Unknown { typ, raw } => "<!-- unknown snippet type: "@ + typ + " -->\n\n"@,
    }
}

/// The items of a list as markdown.
pub open spec fn markdown_items(t: LinkTables, items: Seq<Seq<NodeModel>>) -> Seq<char>
    decreases items,
{
    if items.len() == 0 {
        Seq::empty()
    } else {
        markdown_items(t, items.take(items.len() - 1)) + list_item_text(
            markdown_nodes(t, items[items.len() - 1]),
        )
    }
}

/// Nodes as markdown, one after the other.
pub open spec fn markdown_nodes(t: LinkTables, nodes: Seq<NodeModel>) -> Seq<char>
    decreases nodes,
{
    if nodes.len() == 0 {
        Seq::empty()
    } else {
        markdown_nodes(t, nodes.take(nodes.len() - 1)) + markdown_node(t, nodes[nodes.len() - 1])
    }
}

fn render_node_to_markdown(
    node: &Node,
    index: &KnowledgeBaseIndex,
    slug_table: &StrMap<String>,
    title_table: &StrMap<String>,
) -> (out: String)
    requires
        index.wf(),
        slug_table.wf(),
        title_table.wf(),
    ensures
        out@ == markdown_node(tables_of(*index, *slug_table, *title_table), node@),
    decreases node,
{
    let ghost t = tables_of(*index, *slug_table, *title_table);
    let mut out = String::new();
    match node {
        Node::Heading { level, text } => {
            let marks: usize = if *level > 1 {
                *level as usize
            } else {
                1
            };
            out = repeat_char('#', marks);
            out.push_str(" ");
            let resolved = resolve_inline_links(text.as_str(), index, slug_table, title_table);
            out.push_str(resolved.as_str());
            out.push_str("\n\n");
        },
        Node::Paragraph { text } => {
            out = resolve_inline_links(text.as_str(), index, slug_table, title_table);
            out.push_str("\n\n");
        },
        Node::Text { text } => {
            out = resolve_inline_links(text.as_str(), index, slug_table, title_table);
            out.push_str("\n");
        },
        Node::List { items } => {
            let ghost all = item_views(items@);
            let mut i: usize = 0;
            proof {
                lemma_list_view(*node);
                assert(all.take(0) =~= Seq::<Seq<NodeModel>>::empty());
            }
            while i < items.len()
                invariant
                    index.wf(),
                    slug_table.wf(),
                    title_table.wf(),
                    t == tables_of(*index, *slug_table, *title_table),
                    *node == (Node::List { items: *items }),
                    all == item_views(items@),
                    i <= items@.len(),
                    out@ == markdown_items(t, all.take(i as int)),
                decreases items.len() - i,
            {
                proof {
                    let next = all.take(i as int + 1);
                    assert(next.take(next.len() - 1) =~= all.take(i as int));
                    assert(next[next.len() - 1] == node_views(items@[i as int]@));
                    assert(node->items == *items);
                    assert(decreases_to!(*node => node->items));
                    assert(decreases_to!(*items => items@));
                    assert(decreases_to!(items@ => items@[i as int]));
                }
                let mut inner = String::new();
                render_nodes_to_markdown(&items[i], index, slug_table, title_table, &mut inner);
                assert(inner@ =~= markdown_nodes(t, node_views(items@[i as int]@)));
                let item = list_item_block(inner.as_str());
                out.push_str(item.as_str());
                i += 1;
            }
            assert(all.take(i as int) =~= all);
            out.push_str("\n");
        },
        Node::Code { language, code } => {
            out.push_str("```");
            if let Some(l) = language {
                out.push_str(l.as_str());
            }
            out.push_str("\n");
            out.push_str(code.as_str());
            out.push_str("\n```\n\n");
            assert(out@ =~= markdown_node(t, node@));
        },
        Node::Link { text, url } => {
            let target = resolve_link_url(url.as_str(), index, slug_table);
            out = link_block(text.as_str(), target.as_str());
        },
        Node::Quote { text } => {
            let resolved = resolve_inline_links(text.as_str(), index, slug_table, title_table);
            let ls = lines(resolved.as_str());
            push_prefixed_lines("> ", &ls, 0, &mut out);
            assert(views(ls@).skip(0) =~= views(ls@));
            out.push_str("\n");
            assert(out@ =~= markdown_node(t, node@));
        },
        Node::Rewrite { language, search, replace, scope, is_method_pattern } => {
            out.push_str("```diff ");
            match language {
                Some(l) => {
                    out.push_str(l.as_str());
                },
                None => {
                    out.push_str("rewrite");
                },
            }
            out.push_str("\n");
            let body = rewrite_lines(search.as_str(), replace.as_str(), scope, *is_method_pattern);
            out.push_str(body.as_str());
            out.push_str("```\n\n");
            assert(out@ =~= markdown_node(t, node@));
        },
        Node::Unknown { typ, raw: _ } => {
            out.push_str("<!-- unknown snippet type: ");
            out.push_str(typ.as_str());
            out.push_str(" -->\n\n");
            assert(out@ =~= markdown_node(t, node@));
        },
    }
    out
}

fn render_nodes_to_markdown(
    nodes: &Vec<Node>,
    index: &KnowledgeBaseIndex,
    slug_table: &StrMap<String>,
    title_table: &StrMap<String>,
    out: &mut String,
)
    requires
        index.wf(),
        slug_table.wf(),
        title_table.wf(),
    ensures
        final(out)@ == old(out)@ + markdown_nodes(
            tables_of(*index, *slug_table, *title_table),
            node_views(nodes@),
        ),
    decreases nodes,
{
    let ghost t = tables_of(*index, *slug_table, *title_table);
    let ghost all = node_views(nodes@);
    let ghost start = out@;
    let mut i: usize = 0;
    assert(all.take(0) =~= Seq::<NodeModel>::empty());
    assert(start + markdown_nodes(t, all.take(0)) =~= start);
    while i < nodes.len()
        invariant
            index.wf(),
            slug_table.wf(),
            title_table.wf(),
            t == tables_of(*index, *slug_table, *title_table),
            all == node_views(nodes@),
            i <= nodes@.len(),
            out@ == start + markdown_nodes(t, all.take(i as int)),
        decreases nodes.len() - i,
    {
        proof {
            let next = all.take(i as int + 1);
            assert(next.take(next.len() - 1) =~= all.take(i as int));
            assert(next[next.len() - 1] == nodes@[i as int]@);
            lemma_concat(
                start,
                markdown_nodes(t, all.take(i as int)),
                markdown_node(t, nodes@[i as int]@),
            );
            assert(decreases_to!(*nodes => nodes@));
            assert(decreases_to!(nodes@ => nodes@[i as int]));
        }
        let text = render_node_to_markdown(&nodes[i], index, slug_table, title_table);
        out.push_str(text.as_str());
        i += 1;
    }
    assert(all.take(i as int) =~= all);
}

/// A line for each tag.
pub open spec fn tag_lines(tags: Seq<Seq<char>>) -> Seq<char>
    decreases tags.len(),
{
    if tags.len() == 0 {
        Seq::empty()
    } else {
        tag_lines(tags.drop_last()) + "  - "@ + yaml_quoted(tags.last()) + "\n"@
    }
}

/// A page as markdown with front matter.
pub open spec fn markdown_page(t: LinkTables, page: PageModel) -> Seq<char> {
    let updated = match page.updated_at {
        Some(time) => match time_text(time) {
            Some(text) => "updated_at: \""@ + text + "\"\n"@,
            None => Seq::empty(),
        },
        None => Seq::empty(),
    };
    let tags = if page.tags.len() == 0 {
        Seq::empty()
    } else {
        "tags:\n"@ + tag_lines(page.tags)
    };
    "---\n"@ + "title: "@ + yaml_quoted(page.title) + "\n"@ + "id: \""@ + page.id + "\"\n"@ + updated
        + tags + "---\n\n"@ + markdown_nodes(t, page.content)
}

fn push_tag_lines(tags: &Vec<String>) -> (out: String)
    ensures
        out@ == tag_lines(views(tags@)),
{
    let ghost all = views(tags@);
    let mut out = String::new();
    let mut i: usize = 0;
    assert(all.take(0) =~= Seq::<Seq<char>>::empty());
    while i < tags.len()
        invariant
            all == views(tags@),
            i <= tags@.len(),
            out@ == tag_lines(all.take(i as int)),
        decreases tags.len() - i,
    {
        assert(all.take(i as int + 1).drop_last() =~= all.take(i as int));
        assert(all.take(i as int + 1).last() == tags@[i as int]@);
        out.push_str("  - ");
        let quoted = quote_yaml(tags[i].as_str());
        out.push_str(quoted.as_str());
        out.push_str("\n");
        i += 1;
    }
    assert(all.take(i as int) =~= all);
    out
}

/// Renders a page to markdown with yaml front matter and resolved wikilinks.
pub fn render_page_to_markdown(
    page: &Page,
    index: &KnowledgeBaseIndex,
    slug_table: &StrMap<String>,
    title_table: &StrMap<String>,
) -> (out: String)
    requires
        index.wf(),
        slug_table.wf(),
        title_table.wf(),
    ensures
        out@ == markdown_page(tables_of(*index, *slug_table, *title_table), page@),
{
    let ghost t = tables_of(*index, *slug_table, *title_table);
    let mut out = String::new();
    out.push_str("---\n");
    out.push_str("title: ");
    let title = quote_yaml(page.title.as_str());
    out.push_str(title.as_str());
    out.push_str("\n");
    out.push_str("id: \"");
    out.push_str(page.id.as_str());
    out.push_str("\"\n");
    let mut updated = String::new();
    if let Some(time) = page.updated_at {
        if let Some(text) = time.to_rfc3339() {
            updated.push_str("updated_at: \"");
            updated.push_str(text.as_str());
            updated.push_str("\"\n");
            assert(updated@ =~= "updated_at: \""@ + text@ + "\"\n"@);
        }
    }
    out.push_str(updated.as_str());
    let mut tags = String::new();
    if page.tags.len() > 0 {
        tags.push_str("tags:\n");
        let tag_text = push_tag_lines(&page.tags);
        tags.push_str(tag_text.as_str());
        assert(tags@ =~= "tags:\n"@ + tag_lines(page@.tags));
    }
    out.push_str(tags.as_str());
    out.push_str("---\n\n");
    assert(out@ + markdown_nodes(t, page@.content) =~= markdown_page(t, page@));
    render_nodes_to_markdown(&page.content, index, slug_table, title_table, &mut out);
    out
}

/// The file that a page is exported to: its slug in the table, else that of its
/// title.
pub open spec fn markdown_name(slugs: TextTable, page: PageModel) -> Seq<char> {
    match looked_up(slugs, page.id) {
        Some(slug) => slug + ".md"@,
        None => slug_of(page.title) + ".md"@,
    }
}

/// Exports a single page to a markdown file.
pub fn export_page(
    page: &Page,
    index: &KnowledgeBaseIndex,
    slug_table: &StrMap<String>,
    title_table: &StrMap<String>,
) -> (file: ExportedFile)
    requires
        index.wf(),
        slug_table.wf(),
        title_table.wf(),
    ensures
        file.name@ == markdown_name(text_table(*slug_table), page@),
        file.content@ == markdown_page(tables_of(*index, *slug_table, *title_table), page@),
{
    let name = match slug_table.get(page.id.as_str()) {
        Some(slug) => file_of_slug(slug.as_str()),
        None => {
            let slug = slug_from_title(page.title.as_str());
            file_of_slug(slug.as_str())
        },
    };
    let content = render_page_to_markdown(page, index, slug_table, title_table);
    ExportedFile { name, content }
}

/// The first page that cannot be loaded.
pub open spec fn first_unloadable(pages: PageTable, sources: SourceTable, ids: Seq<Seq<char>>) -> Option<
    int,
>
    decreases ids.len(),
{
    if ids.len() == 0 {
        None
    } else {
        match first_unloadable(pages, sources, ids.drop_last()) {
            Some(i) => Some(i),
            None => if loaded(pages, ids.last(), source_of(sources, ids.last())) is Err {
                Some(ids.len() - 1)
            } else {
                None
            },
        }
    }
}

/// Exports all pages in the knowledge base to markdown files, or reports the
/// first page that could not be loaded.
pub fn export_all(index: &KnowledgeBaseIndex, sources: &StrMap<PageSource>) -> (files: Result<
    Vec<ExportedFile>,
    String,
>)
    requires
        index.wf(),
        sources.wf(),
    ensures
        match files {
            Ok(v) => {
                let table = source_table(*sources);
                let slugs = slugs_of(index@.pages, index@.order).slugs;
                let t = LinkTables {
                    catalog: index@.catalog(),
                    slugs,
                    titles: titles_of(index@.pages, index@.order),
                };
                &&& first_unloadable(index@.pages, table, index@.order) is None
                &&& v@.len() == index@.order.len()
                &&& forall|i: int|
                    0 <= i < v@.len() ==> (#[trigger] v@[i]).name@ == markdown_name(
                        slugs,
                        loaded(
                            index@.pages,
                            index@.order[i],
                            source_of(table, index@.order[i]),
                        )->Ok_0,
                    ) && v@[i].content@ == markdown_page(
                        t,
                        loaded(
                            index@.pages,
                            index@.order[i],
                            source_of(table, index@.order[i]),
                        )->Ok_0,
                    )
            },
            Err(message) => {
                let table = source_table(*sources);
                &&& first_unloadable(index@.pages, table, index@.order) matches Some(i)
                &&& message@ == "failed to load page "@ + index@.order[i] + ": "@ + loaded(
                    index@.pages,
                    index@.order[i],
                    source_of(table, index@.order[i]),
                )->Err_0
            },
        },
{
    let slug_table = build_slug_table(index);
    let title_table = build_title_table(index);
    let ghost table = source_table(*sources);
    let ghost all = index@.order;
    let ghost pages = index@.pages;
    let ghost slugs = text_table(slug_table);
    let ghost t = tables_of(*index, slug_table, title_table);
    let metas = index.sorted_pages();
    let mut files: Vec<ExportedFile> = Vec::new();
    let mut i: usize = 0;
    assert(all.take(0) =~= Seq::<Seq<char>>::empty());
    while i < metas.len()
        invariant
            index.wf(),
            sources.wf(),
            slug_table.wf(),
            title_table.wf(),
            all == index@.order,
            pages == index@.pages,
            table == source_table(*sources),
            slugs == text_table(slug_table),
            t == tables_of(*index, slug_table, title_table),
            metas@.len() == all.len(),
            forall|k: int| 0 <= k < metas@.len() ==> (#[trigger] metas@[k])@ == pages[all[k]],
            i <= metas@.len(),
            first_unloadable(pages, table, all.take(i as int)) is None,
            files@.len() == i,
            forall|k: int|
                0 <= k < i ==> (#[trigger] files@[k]).name@ == markdown_name(
                    slugs,
                    loaded(pages, all[k], source_of(table, all[k]))->Ok_0,
                ) && files@[k].content@ == markdown_page(
                    t,
                    loaded(pages, all[k], source_of(table, all[k]))->Ok_0,
                ),
        decreases metas.len() - i,
    {
        let ghost id = all[i as int];
        proof {
            assert(all.take(i as int + 1).drop_last() =~= all.take(i as int));
            assert(all.take(i as int + 1).last() == id);
            assert(all.contains(id));
            assert(metas@[i as int]@ == pages[id]);
        }
        match index.load_from(metas[i].id.as_str(), sources) {
            Ok(page) => {
                files.push(export_page(&page, index, &slug_table, &title_table));
            },
            Err(error) => {
                let mut message = String::new();
                message.push_str("failed to load page ");
                message.push_str(metas[i].id.as_str());
                message.push_str(": ");
                message.push_str(error.as_str());
                proof {
                    assert(first_unloadable(pages, table, all.take(i as int + 1)) == Some(
                        i as int,
                    ));
                    lemma_first_unloadable(pages, table, all, i as int + 1);
                    assert(message@ =~= "failed to load page "@ + id + ": "@ + error@);
                }
                return Err(message);
            },
        }
        i += 1;
    }
    assert(all.take(i as int) =~= all);
    Ok(files)
}

proof fn lemma_first_unloadable(
    pages: PageTable,
    sources: SourceTable,
    ids: Seq<Seq<char>>,
    n: int,
)
    requires
        0 <= n <= ids.len(),
        first_unloadable(pages, sources, ids.take(n)) is Some,
    ensures
        first_unloadable(pages, sources, ids) == first_unloadable(pages, sources, ids.take(n)),
    decreases ids.len(),
{
    if n == ids.len() {
        assert(ids.take(n) =~= ids);
    } else {
        assert(ids.drop_last().take(n) =~= ids.take(n));
        lemma_first_unloadable(pages, sources, ids.drop_last(), n);
    }
}

// ---------------------------------------------------------------------------
// What exporting is for
// ---------------------------------------------------------------------------

/// A link whose target leads to a page leads to the file of that page once it is
/// exported, be it a wiki link or a markdown link, and however it names the page.
pub proof fn links_to_pages_lead_to_their_files(m: IndexModel, target: Seq<char>, id: Seq<char>)
    requires
        m.wf(),
        classified(m.catalog(), target) == TargetModel::InternalPage(id),
    ensures
        ({
            let slugs = slug_map_of(m.pages, m.order).slugs;
            let policy = export_policy(export_resolver(m.catalog(), slugs));
            &&& slugs.contains_key(id)
            &&& policy(LinkKind::Wiki, target) == Some(slugs[id] + ".md"@)
            &&& policy(LinkKind::Markdown, target) == Some(slugs[id] + ".md"@)
        }),
{
    links_lead_to_pages(m, target, id);
    lemma_slugs_cover(m, id);
}

/// A link whose target leads to no page stays: a wiki link as it is, and a markdown
/// link with its target.
pub proof fn other_links_stay(c: Catalog, slugs: TextTable, target: Seq<char>)
    requires
        !(classified(c, target) is InternalPage),
    ensures
        ({
            let policy = export_policy(export_resolver(c, slugs));
            &&& policy(LinkKind::Wiki, target) is None
            &&& policy(LinkKind::Markdown, target) == Some(target)
        }),
{
}

proof fn lemma_one_line(r: Seq<char>)
    requires
        !contains_char(r, '\n'),
        r.len() > 0,
        ascii_alphanumeric(r[0]),
    ensures
        paragraph_text(r, BlockEscaping::Escape, Position::Snippet) == r + "\n\n"@,
        split_on(r, '\n') =~= seq![r],
{
    reveal_strlit("\n");
    reveal_strlit("\n\n");
    reveal_strlit("\\");
    reveal_strlit("- ");
    reveal_strlit("> ");
    reveal_strlit(">");
    reveal_strlit("```");
    reveal_strlit("[[unknown: ");
    lemma_next_pos(r, 0, '\n');
    let k = next_pos(r, 0, '\n');
    if k < r.len() {
        assert(r[k] == '\n');
        assert(contains_char(r, '\n'));
    }
    assert(r.subrange(0, r.len() as int) =~= r);
    let ls = split_on(r, '\n');
    assert(ls =~= seq![r]);
    assert(ls.drop_last() =~= Seq::<Seq<char>>::empty());
    assert(block_text(ls.drop_last(), BlockEscaping::Escape) =~= Seq::<char>::empty());
    assert(!whitespace(r[0]));
    lemma_trimmed_start(r);
    if starts_with(r, "\\"@) {
        assert(r.subrange(0, 1)[0] == '\\');
    }
    if starts_with(r, "- "@) {
        assert(r.subrange(0, 2)[0] == '-');
    }
    if starts_with(r, "> "@) {
        assert(r.subrange(0, 2)[0] == '>');
    }
    if starts_with(r, "```"@) {
        assert(r.subrange(0, 3)[0] == '`');
    }
    if starts_with(trimmed(r), "[[unknown: "@) {
        assert(trimmed(r).subrange(0, 11)[0] == '[');
    }
    assert(!is_block_start(r));
    assert(!standalone_link(r));
    assert(block_text(ls, BlockEscaping::Escape) =~= r + "\n"@);
    assert(Seq::<char>::empty() + (r + "\n"@) + "\n"@ =~= r + "\n\n"@);
}

proof fn lemma_trimmed_start(r: Seq<char>)
    requires
        r.len() > 0,
        !whitespace(r[0]),
    ensures
        trimmed(r).len() > 0,
        trimmed(r)[0] == r[0],
{
    trimming_takes_the_white_space_around(r);
    let (a, b) = choose|a: int, b: int|
        0 <= a <= b <= r.len() && trimmed(r) == #[trigger] r.subrange(a, b) && (forall|k: int|
            0 <= k < a || b <= k < r.len() ==> whitespace(#[trigger] r[k]));
    if a > 0 || b == 0 {
        assert(whitespace(r[0]));
    }
}

/// A wiki link in a paragraph that leads to a page is exported as a markdown link
/// to the file of the page, under the name that it was written with. What stands
/// around it stays.
#[verifier::rlimit(40)]
pub proof fn a_wiki_link_is_exported(
    m: IndexModel,
    before: Seq<char>,
    name: Seq<char>,
    behind: Seq<char>,
    id: Seq<char>,
)
    requires
        m.wf(),
        before.len() > 0,
        ascii_alphanumeric(before[0]),
        !contains_char(before, '['),
        !contains_char(before, '\n'),
        !contains_char(name, ']'),
        !contains_char(name, '\n'),
        !contains_char(behind, '['),
        !contains_char(behind, '\n'),
        trimmed(name).len() > 0,
        classified(m.catalog(), trimmed(name)) == TargetModel::InternalPage(id),
    ensures
        ({
            let slugs = slug_map_of(m.pages, m.order).slugs;
            exported_body(
                m.catalog(),
                slugs,
                seq![NodeModel::Paragraph { text: before + "[["@ + name + "]]"@ + behind }],
            ) == before + "["@ + trimmed(name) + "]("@ + slugs[id] + ".md)"@ + behind + "\n\n"@
        }),
{
    let slugs = slug_map_of(m.pages, m.order).slugs;
    let policy = export_policy(export_resolver(m.catalog(), slugs));
    let s = before + "[["@ + name + "]]"@ + behind;
    let file = slugs[id] + ".md"@;
    links_to_pages_lead_to_their_files(m, trimmed(name), id);
    links_lead_to_pages(m, trimmed(name), id);
    slugs_stand_on_one_line(m, id);
    a_name_in_double_brackets_is_a_link(before, name, behind, policy);
    let r = before + "["@ + trimmed(name) + "]("@ + file + ")"@ + behind;
    assert(rewritten(s, policy) == r);
    reveal_strlit("[");
    reveal_strlit("](");
    reveal_strlit(")");
    reveal_strlit(".md");
    reveal_strlit(".md)");
    assert(r =~= before + "["@ + trimmed(name) + "]("@ + slugs[id] + ".md)"@ + behind);
    trimming_takes_the_white_space_around(name);
    assert(!contains_char(r, '\n')) by {
        lemma_no_break(before, "["@);
        lemma_no_break_in_part(name);
        lemma_no_break(before + "["@, trimmed(name));
        lemma_no_break(before + "["@ + trimmed(name), "]("@);
        lemma_no_break(slugs[id], ".md"@);
        lemma_no_break(before + "["@ + trimmed(name) + "]("@, file);
        lemma_no_break(before + "["@ + trimmed(name) + "]("@ + file, ")"@);
        lemma_no_break(before + "["@ + trimmed(name) + "]("@ + file + ")"@, behind);
    }
    assert(r[0] == before[0]);
    lemma_one_line(r);
    lemma_one_node(NodeModel::Paragraph { text: s }, policy);
}

proof fn lemma_one_node(node: NodeModel, policy: LinkPolicy)
    ensures
        nodes_text(seq![node], policy, BlockEscaping::Escape, Position::Snippet) == node_text(
            node,
            policy,
            BlockEscaping::Escape,
            Position::Snippet,
        ),
{
    let one = seq![node];
    assert(one.take(0) =~= Seq::<NodeModel>::empty());
    assert(nodes_text(one.take(0), policy, BlockEscaping::Escape, Position::Snippet) =~= Seq::<
        char,
    >::empty());
    assert(nodes_text(one, policy, BlockEscaping::Escape, Position::Snippet) =~= node_text(
        node,
        policy,
        BlockEscaping::Escape,
        Position::Snippet,
    ));
}

proof fn lemma_no_break(a: Seq<char>, b: Seq<char>)
    requires
        !contains_char(a, '\n'),
        !contains_char(b, '\n'),
    ensures
        !contains_char(a + b, '\n'),
{
    if contains_char(a + b, '\n') {
        let k = choose|k: int| 0 <= k < (a + b).len() && (a + b)[k] == '\n';
        if k < a.len() {
            assert(a[k] == '\n');
        } else {
            assert(b[k - a.len()] == '\n');
        }
    }
}

proof fn lemma_no_break_in_part(s: Seq<char>)
    requires
        !contains_char(s, '\n'),
    ensures
        !contains_char(trimmed(s), '\n'),
{
    trimming_takes_the_white_space_around(s);
    let (a, b) = choose|a: int, b: int|
        0 <= a <= b <= s.len() && trimmed(s) == #[trigger] s.subrange(a, b) && (forall|k: int|
            0 <= k < a || b <= k < s.len() ==> whitespace(#[trigger] s[k]));
    if contains_char(trimmed(s), '\n') {
        let k = choose|k: int| 0 <= k < trimmed(s).len() && trimmed(s)[k] == '\n';
        assert(s[a + k] == '\n');
    }
}

/// A wiki link by the title that a page has alone is exported as a link to the
/// file of that page.
pub proof fn a_wiki_link_by_title_is_exported(
    m: IndexModel,
    before: Seq<char>,
    title: Seq<char>,
    behind: Seq<char>,
    id: Seq<char>,
)
    requires
        m.wf(),
        !contains_char(before, '['),
        !contains_char(title, ']'),
        !contains_char(behind, '['),
        title.len() > 0,
        !whitespace(title[0]),
        !whitespace(title.last()),
        lowercase(title).len() > 0,
        m.pages.contains_key(id),
        m.pages[id].title_lower == lowercase(title),
        forall|other: Seq<char>|
            m.pages.contains_key(other) && (#[trigger] m.pages[other]).title_lower == lowercase(
                title,
            ) ==> other == id,
        !m.pages.contains_key(title),
        !starts_with(title, "page:"@),
        !starts_with(title, "title:"@),
        !external_target(title),
        uuid_from(title, 0) is None,
        located(m.root, title) is Err,
    ensures
        ({
            let slugs = slug_map_of(m.pages, m.order).slugs;
            rewritten(
                before + "[["@ + title + "]]"@ + behind,
                export_policy(export_resolver(m.catalog(), slugs)),
            ) == before + "["@ + title + "]("@ + (slugs[id] + ".md"@) + ")"@ + behind
        }),
{
    let slugs = slug_map_of(m.pages, m.order).slugs;
    let policy = export_policy(export_resolver(m.catalog(), slugs));
    assert(trimmed(title) == title);
    links_by_title_lead_to_the_page(m, title, id);
    links_to_pages_lead_to_their_files(m, title, id);
    a_name_in_double_brackets_is_a_link(before, title, behind, policy);
}

/// A markdown link in a text that leads to a page is exported as a link to the
/// file of the page; any other keeps its target.
pub proof fn a_markdown_link_is_exported(
    m: IndexModel,
    before: Seq<char>,
    label: Seq<char>,
    target: Seq<char>,
    behind: Seq<char>,
    id: Seq<char>,
)
    requires
        m.wf(),
        !contains_char(before, '['),
        !contains_char(label, '['),
        !contains_char(label, ']'),
        !contains_char(target, '('),
        !contains_char(target, ')'),
        !contains_char(behind, '['),
        trimmed(target).len() > 0,
    ensures
        ({
            let slugs = slug_map_of(m.pages, m.order).slugs;
            let out = rewritten(
                before + "["@ + label + "]("@ + target + ")"@ + behind,
                export_policy(export_resolver(m.catalog(), slugs)),
            );
            &&& classified(m.catalog(), trimmed(target)) == TargetModel::InternalPage(id) ==> out
                == before + "["@ + label + "]("@ + (slugs[id] + ".md"@) + ")"@ + behind
            &&& !(classified(m.catalog(), trimmed(target)) is InternalPage) ==> out == before + "["@
                + label + "]("@ + trimmed(target) + ")"@ + behind
        }),
{
    let slugs = slug_map_of(m.pages, m.order).slugs;
    let policy = export_policy(export_resolver(m.catalog(), slugs));
    a_label_with_a_target_is_a_link(before, label, target, behind, policy);
    if classified(m.catalog(), trimmed(target)) == TargetModel::InternalPage(id) {
        links_to_pages_lead_to_their_files(m, trimmed(target), id);
    }
    if !(classified(m.catalog(), trimmed(target)) is InternalPage) {
        other_links_stay(m.catalog(), slugs, trimmed(target));
    }
}

/// A link snippet that leads to a page is exported as a link to the file of the
/// page, and any other with its address.
pub proof fn a_link_snippet_is_exported(
    m: IndexModel,
    text: Seq<char>,
    url: Seq<char>,
    id: Seq<char>,
)
    requires
        m.wf(),
    ensures
        ({
            let slugs = slug_map_of(m.pages, m.order).slugs;
            let out = exported_body(m.catalog(), slugs, seq![NodeModel::Link { text, url }]);
            &&& classified(m.catalog(), url) == TargetModel::InternalPage(id) ==> out == "["@ + text
                + "]("@ + (slugs[id] + ".md"@) + ")\n\n"@
            &&& !(classified(m.catalog(), url) is InternalPage) ==> out == "["@ + text + "]("@ + url
                + ")\n\n"@
        }),
{
    let slugs = slug_map_of(m.pages, m.order).slugs;
    let policy = export_policy(export_resolver(m.catalog(), slugs));
    lemma_one_node(NodeModel::Link { text, url }, policy);
    if classified(m.catalog(), url) == TargetModel::InternalPage(id) {
        links_to_pages_lead_to_their_files(m, url, id);
    }
    if !(classified(m.catalog(), url) is InternalPage) {
        other_links_stay(m.catalog(), slugs, url);
    }
}

/// The letters and digits of a title, in lower case, are its slug.
pub proof fn a_word_is_its_own_slug(title: Seq<char>)
    requires
        title.len() > 0,
        forall|i: int| 0 <= i < title.len() ==> ascii_alphanumeric(#[trigger] title[i]),
    ensures
        slug_of(title) == title.map_values(|c: char| to_ascii_lower(c)),
        file_slug(title) == slug_of(title),
{
    lemma_hyphenated_word(Seq::empty(), title);
    assert(Seq::<char>::empty() + title =~= title);
    let low = title.map_values(|c: char| to_ascii_lower(c));
    assert(hyphenated(Seq::<char>::empty()) + low =~= low);
    assert(low.last() == to_ascii_lower(title.last()));
}

proof fn lemma_hyphenated_word(before: Seq<char>, word: Seq<char>)
    requires
        forall|i: int| 0 <= i < word.len() ==> ascii_alphanumeric(#[trigger] word[i]),
    ensures
        hyphenated(before + word) == hyphenated(before) + word.map_values(
            |c: char| to_ascii_lower(c),
        ),
    decreases word.len(),
{
    let low = word.map_values(|c: char| to_ascii_lower(c));
    if word.len() == 0 {
        assert(before + word =~= before);
        assert(hyphenated(before) + low =~= hyphenated(before));
    } else {
        let rest = word.drop_last();
        lemma_hyphenated_word(before, rest);
        assert((before + word).drop_last() =~= before + rest);
        assert((before + word).last() == word.last());
        assert(hyphenated(before) + rest.map_values(|c: char| to_ascii_lower(c)).push(
            to_ascii_lower(word.last()),
        ) =~= hyphenated(before) + low);
        assert((hyphenated(before) + rest.map_values(|c: char| to_ascii_lower(c))).push(
            to_ascii_lower(word.last()),
        ) =~= hyphenated(before) + low);
    }
}

/// Between two words of a title, whatever stands there, there is one hyphen in its
/// slug.
pub proof fn words_are_joined_by_a_hyphen(a: Seq<char>, between: Seq<char>, b: Seq<char>)
    requires
        a.len() > 0,
        between.len() > 0,
        b.len() > 0,
        forall|i: int| 0 <= i < a.len() ==> ascii_alphanumeric(#[trigger] a[i]),
        forall|i: int| 0 <= i < between.len() ==> !ascii_alphanumeric(#[trigger] between[i]),
        forall|i: int| 0 <= i < b.len() ==> ascii_alphanumeric(#[trigger] b[i]),
    ensures
        slug_of(a + between + b) == slug_of(a) + "-"@ + slug_of(b),
{
    reveal_strlit("-");
    a_word_is_its_own_slug(a);
    a_word_is_its_own_slug(b);
    lemma_hyphenated_word(Seq::empty(), a);
    assert(Seq::<char>::empty() + a =~= a);
    let low_a = a.map_values(|c: char| to_ascii_lower(c));
    let low_b = b.map_values(|c: char| to_ascii_lower(c));
    assert(hyphenated(Seq::<char>::empty()) + low_a =~= low_a);
    lemma_hyphenated_gap(a, between);
    lemma_hyphenated_word(a + between, b);
    let out = low_a.push('-') + low_b;
    assert(out.last() == to_ascii_lower(b.last()));
    assert(out =~= low_a + "-"@ + low_b);
}

proof fn lemma_hyphenated_gap(a: Seq<char>, between: Seq<char>)
    requires
        between.len() > 0,
        hyphenated(a).len() > 0,
        hyphenated(a).last() != '-',
        forall|i: int| 0 <= i < between.len() ==> !ascii_alphanumeric(#[trigger] between[i]),
    ensures
        hyphenated(a + between) == hyphenated(a).push('-'),
    decreases between.len(),
{
    let rest = between.drop_last();
    assert((a + between).drop_last() =~= a + rest);
    assert((a + between).last() == between.last());
    if rest.len() > 0 {
        lemma_hyphenated_gap(a, rest);
    } else {
        assert(a + rest =~= a);
    }
}

/// A text is quoted as it is, where it holds neither a quote nor a backslash.
pub proof fn plain_text_is_quoted_as_it_is(s: Seq<char>)
    requires
        !contains_char(s, '"'),
        !contains_char(s, '\\'),
    ensures
        yaml_quoted(s) == "\""@ + s + "\""@,
{
    reveal_strlit("\\");
    reveal_strlit("\"");
    lemma_nothing_replaced(s, 0, "\\"@, "\\\\"@);
    assert(s.skip(0) =~= s);
    lemma_nothing_replaced(s, 0, "\""@, "\\\""@);
}

proof fn lemma_nothing_replaced(s: Seq<char>, i: int, pat: Seq<char>, with: Seq<char>)
    requires
        0 <= i <= s.len(),
        pat.len() == 1,
        !contains_char(s, pat[0]),
    ensures
        replaced_from(s, i, pat, with) == s.skip(i),
    decreases s.len() - i,
{
    if i < s.len() {
        if matches_at(s, i, pat) {
            assert(s.subrange(i, i + 1)[0] == pat[0]);
            assert(s[i] == pat[0]);
        }
        lemma_nothing_replaced(s, i + 1, pat, with);
        assert(s.skip(i) =~= seq![s[i]] + s.skip(i + 1));
    } else {
        assert(s.skip(i) =~= Seq::<char>::empty());
    }
}

/// The front matter of a page names its title, its id, its tags and when it was
/// changed, each on its line, between two lines of hyphens.
#[verifier::rlimit(40)]
pub proof fn front_matter_names_the_page(page: PageModel)
    ensures
        page.tags.len() == 0 && page.updated_at is None ==> frontmatter_text(page) == "---\ntitle: "@
            + yaml_quoted(page.title) + "\nid: "@ + page.id + "\n---\n\n"@,
        page.tags.len() == 1 && page.updated_at is None ==> frontmatter_text(page) == "---\ntitle: "@
            + yaml_quoted(page.title) + "\nid: "@ + page.id + "\ntags: ["@ + yaml_quoted(
            page.tags[0],
        ) + "]\n---\n\n"@,
        page.tags.len() == 2 && page.updated_at is None ==> frontmatter_text(page) == "---\ntitle: "@
            + yaml_quoted(page.title) + "\nid: "@ + page.id + "\ntags: ["@ + yaml_quoted(
            page.tags[0],
        ) + ", "@ + yaml_quoted(page.tags[1]) + "]\n---\n\n"@,
        page.tags.len() == 0 && page.updated_at is Some && time_text(page.updated_at->0) is Some
            ==> frontmatter_text(page) == "---\ntitle: "@ + yaml_quoted(page.title) + "\nid: "@
            + page.id + "\nupdated_at: "@ + time_text(page.updated_at->0)->0 + "\n---\n\n"@,
{
    reveal_strlit("---\n");
    reveal_strlit("title: ");
    reveal_strlit("---\ntitle: ");
    reveal_strlit("\n");
    reveal_strlit("id: ");
    reveal_strlit("\nid: ");
    reveal_strlit("---\n\n");
    reveal_strlit("\n---\n\n");
    reveal_strlit("tags: [");
    reveal_strlit("\ntags: [");
    reveal_strlit("]\n");
    reveal_strlit("]\n---\n\n");
    reveal_strlit("updated_at: ");
    reveal_strlit("\nupdated_at: ");
    let quoted = all_yaml_quoted(page.tags);
    if page.tags.len() == 2 {
        assert(quoted.drop_last() =~= seq![yaml_quoted(page.tags[0])]);
        assert(joined(quoted.drop_last(), ", "@) == yaml_quoted(page.tags[0]));
        assert(joined(quoted, ", "@) =~= yaml_quoted(page.tags[0]) + ", "@ + yaml_quoted(
            page.tags[1],
        ));
    }
    if page.updated_at is None || time_text(page.updated_at->0) is Some {
        if page.tags.len() == 0 && page.updated_at is None {
            assert(frontmatter_text(page) =~= "---\ntitle: "@ + yaml_quoted(page.title)
                + "\nid: "@ + page.id + "\n---\n\n"@);
        } else if page.tags.len() == 1 && page.updated_at is None {
            assert(joined(quoted, ", "@) == quoted[0]);
            assert(frontmatter_text(page) =~= "---\ntitle: "@ + yaml_quoted(page.title)
                + "\nid: "@ + page.id + "\ntags: ["@ + yaml_quoted(page.tags[0])
                + "]\n---\n\n"@);
        } else if page.tags.len() == 2 && page.updated_at is None {
            assert(frontmatter_text(page) =~= "---\ntitle: "@ + yaml_quoted(page.title)
                + "\nid: "@ + page.id + "\ntags: ["@ + yaml_quoted(page.tags[0]) + ", "@
                + yaml_quoted(page.tags[1]) + "]\n---\n\n"@);
        } else if page.tags.len() == 0 && page.updated_at is Some {
            assert(frontmatter_text(page) =~= "---\ntitle: "@ + yaml_quoted(page.title)
                + "\nid: "@ + page.id + "\nupdated_at: "@ + time_text(page.updated_at->0)->0
                + "\n---\n\n"@);
        }
    }
}

// ---------------------------------------------------------------------------
// What a page is as markdown
// ---------------------------------------------------------------------------

/// A wiki link leads to the file of the page that the titles give, else of the page
/// that its target leads to, else to the address that it is; any other stays.
pub proof fn a_wiki_link_leads_to_its_file(t: LinkTables, target: Seq<char>, id: Seq<char>)
    ensures
        t.titles.contains_key(lowercase(target)) && t.titles[lowercase(target)] == id
            && t.slugs.contains_key(id) ==> wikilink_text(t, target) == "["@ + target + "]("@ + (
        t.slugs[id] + ".md"@) + ")"@,
        !t.titles.contains_key(lowercase(target)) && classified(t.catalog, target)
            == TargetModel::InternalPage(id) && t.slugs.contains_key(id) ==> wikilink_text(
            t,
            target,
        ) == "["@ + target + "]("@ + (t.slugs[id] + ".md"@) + ")"@,
        !t.titles.contains_key(lowercase(target)) && classified(t.catalog, target)
            == TargetModel::ExternalUrl(id) ==> wikilink_text(t, target) == "["@ + target + "]("@
            + id + ")"@,
        !t.titles.contains_key(lowercase(target)) && (classified(t.catalog, target) is Unknown
            || classified(t.catalog, target) is AttachmentPath) ==> wikilink_text(t, target)
            == "[["@ + target + "]]"@,
{
}

/// An address that leads to a page becomes the file of the page; any other stays.
pub proof fn an_address_leads_to_its_file(t: LinkTables, url: Seq<char>, id: Seq<char>)
    ensures
        classified(t.catalog, url) == TargetModel::InternalPage(id) && t.slugs.contains_key(id)
            ==> link_url(t, url) == t.slugs[id] + ".md"@,
        !(classified(t.catalog, url) is InternalPage) ==> link_url(t, url) == url,
{
}

proof fn lemma_resolved_before(t: LinkTables, s: Seq<char>, i: int, n: int)
    requires
        0 <= i <= n <= s.len(),
        forall|k: int| i <= k < n ==> s[k] != '[',
    ensures
        resolved_from(t, s, i) == s.subrange(i, n) + resolved_from(t, s, n),
    decreases n - i,
{
    reveal(resolved_from);
    if i < n {
        lemma_resolved_before(t, s, i + 1, n);
        assert(s[i] != '[');
        assert(s.subrange(i, n) + resolved_from(t, s, n) =~= seq![s[i]] + (s.subrange(i + 1, n)
            + resolved_from(t, s, n)));
    } else {
        assert(s.subrange(i, n) + resolved_from(t, s, n) =~= resolved_from(t, s, n));
    }
}

/// A text without brackets is left as it is.
pub proof fn text_without_brackets_is_left(t: LinkTables, s: Seq<char>)
    requires
        !contains_char(s, '['),
    ensures
        resolved_text(t, s) == s,
{
    reveal(resolved_from);
    assert forall|k: int| 0 <= k < s.len() implies s[k] != '[' by {
        if s[k] == '[' {
            assert(contains_char(s, '['));
        }
    }
    lemma_resolved_before(t, s, 0, s.len() as int);
    assert(s.subrange(0, s.len() as int) + resolved_from(t, s, s.len() as int) =~= s);
}

/// A name in double brackets in a text becomes what a wiki link to the name
/// becomes; what stands around it stays.
pub proof fn names_in_double_brackets_are_resolved(
    t: LinkTables,
    before: Seq<char>,
    name: Seq<char>,
    behind: Seq<char>,
)
    requires
        !contains_char(before, '['),
        !contains_char(name, ']'),
        !contains_char(behind, '['),
        trimmed(name).len() > 0,
    ensures
        resolved_text(t, before + "[["@ + name + "]]"@ + behind) == before + wikilink_text(
            t,
            trimmed(name),
        ) + behind,
{
    reveal(resolved_from);
    reveal_strlit("[[");
    reveal_strlit("]]");
    let s = before + "[["@ + name + "]]"@ + behind;
    let i = before.len() as int;
    let n = i + 2 + name.len();
    assert forall|k: int| 0 <= k < i implies s[k] != '[' by {
        assert(s[k] == before[k]);
    }
    assert(s[i] == '[' && s[i + 1] == '[');
    assert forall|k: int| i + 2 <= k < n implies s[k] != ']' by {
        assert(s[k] == name[k - i - 2]);
    }
    assert(s[n] == ']' && s[n + 1] == ']');
    lemma_double_bracket_at(s, i + 2, n);
    assert(s.subrange(i + 2, n) =~= name);
    assert forall|k: int| n + 2 <= k < s.len() implies s[k] != '[' by {
        assert(s[k] == behind[k - n - 2]);
    }
    lemma_resolved_before(t, s, 0, i);
    lemma_resolved_before(t, s, n + 2, s.len() as int);
    assert(resolved_from(t, s, s.len() as int) =~= Seq::<char>::empty());
    assert(s.subrange(0, i) =~= before);
    assert(s.subrange(n + 2, s.len() as int) =~= behind);
    assert(resolved_from(t, s, n + 2) =~= behind);
    assert(resolved_from(t, s, i) == wikilink_text(t, trimmed(name)) + resolved_from(t, s, n + 2));
    assert(before + (wikilink_text(t, trimmed(name)) + behind) =~= before + wikilink_text(
        t,
        trimmed(name),
    ) + behind);
}

/// A label with a target in a text keeps its label and gets the file or the
/// address that its target leads to; what stands around it stays.
pub proof fn labels_with_a_target_are_resolved(
    t: LinkTables,
    before: Seq<char>,
    label: Seq<char>,
    target: Seq<char>,
    behind: Seq<char>,
)
    requires
        !contains_char(before, '['),
        !contains_char(label, '['),
        !contains_char(label, ']'),
        !contains_char(target, ')'),
        !contains_char(behind, '['),
        trimmed(target).len() > 0,
    ensures
        resolved_text(t, before + "["@ + label + "]("@ + target + ")"@ + behind) == before + "["@
            + label + "]("@ + link_url(t, trimmed(target)) + ")"@ + behind,
{
    reveal(resolved_from);
    reveal_strlit("[");
    reveal_strlit("](");
    reveal_strlit(")");
    let s = before + "["@ + label + "]("@ + target + ")"@ + behind;
    let i = before.len() as int;
    let m = i + 1 + label.len();
    let n = m + 2 + target.len();
    assert forall|k: int| 0 <= k < i implies s[k] != '[' by {
        assert(s[k] == before[k]);
    }
    assert(s[i] == '[');
    assert forall|k: int| i + 1 <= k < m implies s[k] != '[' && s[k] != ']' by {
        assert(s[k] == label[k - i - 1]);
    }
    assert(s[m] == ']' && s[m + 1] == '(');
    assert forall|k: int| m + 2 <= k < n implies s[k] != ')' by {
        assert(s[k] == target[k - m - 2]);
    }
    assert(s[n] == ')');
    lemma_next_pos(s, i + 1, ']');
    lemma_next_pos(s, m + 2, ')');
    assert(next_pos(s, i + 1, ']') == m);
    assert(next_pos(s, m + 2, ')') == n);
    assert(s[i + 1] != '[');
    assert(wiki_close_at(s, i) is None);
    assert(plain_link_at(s, i) == Some((m, n)));
    assert(s.subrange(i + 1, m) =~= label);
    assert(s.subrange(m + 2, n) =~= target);
    assert forall|k: int| n + 1 <= k < s.len() implies s[k] != '[' by {
        assert(s[k] == behind[k - n - 1]);
    }
    lemma_resolved_before(t, s, 0, i);
    lemma_resolved_before(t, s, n + 1, s.len() as int);
    assert(resolved_from(t, s, s.len() as int) =~= Seq::<char>::empty());
    assert(s.subrange(0, i) =~= before);
    assert(s.subrange(n + 1, s.len() as int) =~= behind);
    assert(resolved_from(t, s, n + 1) =~= behind);
    let url = link_url(t, trimmed(target));
    assert(resolved_from(t, s, i) == markdown_link(label, url) + resolved_from(t, s, n + 1));
    assert(before + (markdown_link(label, url) + behind) =~= before + "["@ + label + "]("@ + url
        + ")"@ + behind);
}

/// What each kind of node is as markdown, where its text holds no link.
pub proof fn nodes_as_markdown(
    t: LinkTables,
    level: u8,
    text: Seq<char>,
    url: Seq<char>,
    raw: JsonModel,
)
    requires
        !contains_char(text, '['),
    ensures
        markdown_node(t, NodeModel::Heading { level, text }) == repeated(
            '#',
            if level == 0 {
                1
            } else {
                level as nat
            },
        ) + " "@ + text + "\n\n"@,
        markdown_node(t, NodeModel::Paragraph { text }) == text + "\n\n"@,
        markdown_node(t, NodeModel::Text { text }) == text + "\n"@,
        markdown_node(t, NodeModel::Code { language: Some(url), code: text }) == "```"@ + url
            + "\n"@ + text + "\n```\n\n"@,
        markdown_node(t, NodeModel::Code { language: None, code: text }) == "```"@ + "\n"@ + text
            + "\n```\n\n"@,
        !(classified(t.catalog, url) is InternalPage) ==> markdown_node(
            t,
            NodeModel::Link { text, url },
        ) == "["@ + text + "]("@ + url + ")\n\n"@,
        markdown_node(t, NodeModel::Unknown { typ: text, raw })
            == "<!-- unknown snippet type: "@ + text + " -->\n\n"@,
{
    text_without_brackets_is_left(t, text);
    assert("```"@ + Seq::<char>::empty() + "\n"@ + text + "\n```\n\n"@ =~= "```"@ + "\n"@ + text
        + "\n```\n\n"@);
}

/// The nodes of a page stand in their order in its markdown, behind the front
/// matter.
pub proof fn markdown_stands_in_order(t: LinkTables, a: Seq<NodeModel>, b: Seq<NodeModel>)
    ensures
        markdown_nodes(t, a + b) == markdown_nodes(t, a) + markdown_nodes(t, b),
    decreases b.len(),
{
    if b.len() == 0 {
        assert(a + b =~= a);
        assert(markdown_nodes(t, a) + markdown_nodes(t, b) =~= markdown_nodes(t, a));
    } else {
        let n = b.len() - 1;
        markdown_stands_in_order(t, a, b.take(n));
        assert((a + b).take((a + b).len() - 1) =~= a + b.take(n));
        assert(markdown_nodes(t, a) + markdown_nodes(t, b.take(n)) + markdown_node(t, b[n])
            =~= markdown_nodes(t, a) + (markdown_nodes(t, b.take(n)) + markdown_node(t, b[n])));
    }
}

/// An exported file is named by the slug of its page.
pub proof fn a_file_is_named_by_its_slug(slugs: TextTable, page: PageModel)
    ensures
        slugs.contains_key(page.id) ==> markdown_name(slugs, page) == slugs[page.id] + ".md"@,
        !slugs.contains_key(page.id) ==> markdown_name(slugs, page) == slug_of(page.title) + ".md"@,
{
}

proof fn lemma_decimal_is_plain(n: nat)
    ensures
        !contains_char(decimal(n), '\n'),
    decreases n,
{
    if n >= 10 {
        lemma_decimal_is_plain(n / 10);
        lemma_no_break(decimal(n / 10), seq![digit(n % 10)]);
        assert(decimal(n) =~= decimal(n / 10) + seq![digit(n % 10)]);
    }
}

/// The slug of an exported page stands on one line.
pub proof fn slugs_stand_on_one_line(m: IndexModel, id: Seq<char>)
    requires
        m.wf(),
        m.pages.contains_key(id),
    ensures
        !contains_char(slug_map_of(m.pages, m.order).slugs[id], '\n'),
{
    reveal_strlit("untitled");
    reveal_strlit("-");
    let title = m.pages[id].title;
    let base = file_slug(title);
    let slug = slug_map_of(m.pages, m.order).slugs[id];
    slugs_are_clean(title);
    assert(!contains_char(base, '\n')) by {
        if slug_of(title).len() > 0 {
            if contains_char(base, '\n') {
                let k = choose|k: int| 0 <= k < base.len() && base[k] == '\n';
                assert(slug_char(slug_of(title)[k]));
            }
        }
    }
    exported_slugs_are_those_of_the_titles(m, id);
    if slug != base {
        let n = choose|n: nat| 2 <= n && slug == #[trigger] numbered(base, n);
        lemma_decimal_is_plain(n);
        lemma_no_break(base, "-"@);
        lemma_no_break(base + "-"@, decimal(n));
    }
}

/// The slugs of the titles of some pages, in order.
pub open spec fn title_slugs(pages: PageTable, ids: Seq<Seq<char>>) -> Seq<Seq<char>> {
    Seq::new(ids.len(), |i: int| slug_of(pages[ids[i]].title))
}

proof fn lemma_times_are_counts(pages: PageTable, ids: Seq<Seq<char>>, slug: Seq<char>)
    ensures
        times(slugs_of(pages, ids).seen, slug) == occurrences(title_slugs(pages, ids), slug),
    decreases ids.len(),
{
    let all = title_slugs(pages, ids);
    if ids.len() > 0 {
        lemma_times_are_counts(pages, ids.drop_last(), slug);
        assert(all.drop_last() =~= title_slugs(pages, ids.drop_last()));
        assert(all.last() == slug_of(pages[ids.last()].title));
    } else {
        assert(all =~= Seq::<Seq<char>>::empty());
    }
}

/// A page has the slug of its title where no page before it has the same, and
/// otherwise that slug with how many have it behind it; the slugs of the pages
/// before it stay.
pub proof fn one_more_page_gets_its_slug(
    pages: PageTable,
    ids: Seq<Seq<char>>,
    id: Seq<char>,
    other: Seq<char>,
)
    ensures
        ({
            let base = slug_of(pages[id].title);
            let n = occurrences(title_slugs(pages, ids), base);
            let next = slugs_of(pages, ids.push(id)).slugs;
            &&& next.contains_key(id)
            &&& n == 0 ==> next[id] == base
            &&& n > 0 ==> next[id] == base + "-"@ + decimal(n)
            &&& other != id ==> next.contains_key(other) == slugs_of(
                pages,
                ids,
            ).slugs.contains_key(other) && next[other] == slugs_of(pages, ids).slugs[other]
        }),
{
    lemma_times_are_counts(pages, ids, slug_of(pages[id].title));
    assert(ids.push(id).drop_last() =~= ids);
}

/// A title leads to the first page that has it.
pub proof fn a_title_leads_to_the_first_page(
    pages: PageTable,
    ids: Seq<Seq<char>>,
    k: int,
)
    requires
        0 <= k < ids.len(),
        forall|j: int|
            0 <= j < k ==> pages[#[trigger] ids[j]].title_lower != pages[ids[k]].title_lower,
    ensures
        titles_of(pages, ids).contains_key(pages[ids[k]].title_lower),
        titles_of(pages, ids)[pages[ids[k]].title_lower] == ids[k],
    decreases ids.len(),
{
    let title = pages[ids[k]].title_lower;
    let rest = ids.drop_last();
    if k < ids.len() - 1 {
        assert forall|j: int| 0 <= j < k implies pages[#[trigger] rest[j]].title_lower
            != pages[rest[k]].title_lower by {
            assert(rest[j] == ids[j]);
        }
        a_title_leads_to_the_first_page(pages, rest, k);
    } else {
        if titles_of(pages, rest).contains_key(title) {
            let j = lemma_title_of_some_page(pages, rest, title);
            assert(pages[ids[j]].title_lower == title);
        }
    }
}

proof fn lemma_title_of_some_page(pages: PageTable, ids: Seq<Seq<char>>, title: Seq<char>) -> (j:
    int)
    requires
        titles_of(pages, ids).contains_key(title),
    ensures
        0 <= j < ids.len(),
        pages[ids[j]].title_lower == title,
        titles_of(pages, ids)[title] == ids[j],
    decreases ids.len(),
{
    let before = titles_of(pages, ids.drop_last());
    if before.contains_key(title) {
        lemma_title_of_some_page(pages, ids.drop_last(), title)
    } else {
        ids.len() - 1
    }
}

/// A wiki link by a title, whatever its case, becomes a link to the file of the
/// first page that has the title, under the name that it was written with.
pub proof fn a_wiki_link_by_title_leads_to_a_file(m: IndexModel, name: Seq<char>, k: int)
    requires
        0 <= k < m.order.len(),
        m.pages[m.order[k]].title_lower == lowercase(name),
        forall|j: int|
            0 <= j < k ==> m.pages[#[trigger] m.order[j]].title_lower != lowercase(name),
        slugs_of(m.pages, m.order).slugs.contains_key(m.order[k]),
    ensures
        ({
            let t = LinkTables {
                catalog: m.catalog(),
                slugs: slugs_of(m.pages, m.order).slugs,
                titles: titles_of(m.pages, m.order),
            };
            wikilink_text(t, name) == "["@ + name + "]("@ + (t.slugs[m.order[k]] + ".md"@) + ")"@
        }),
{
    a_title_leads_to_the_first_page(m.pages, m.order, k);
}

/// Every page gets a slug.
pub proof fn every_page_gets_a_slug(pages: PageTable, ids: Seq<Seq<char>>, id: Seq<char>)
    ensures
        slugs_of(pages, ids).slugs.contains_key(id) <==> ids.contains(id),
    decreases ids.len(),
{
    if ids.len() > 0 {
        every_page_gets_a_slug(pages, ids.drop_last(), id);
        assert(ids =~= ids.drop_last().push(ids.last()));
        vstd::seq_lib::lemma_seq_contains_after_push(ids.drop_last(), ids.last(), id);
    }
}

/// Exporting stops at the first page that cannot be loaded, and at none where all
/// can be.
pub proof fn exporting_stops_at_the_first_failure(
    pages: PageTable,
    sources: SourceTable,
    ids: Seq<Seq<char>>,
)
    ensures
        first_unloadable(pages, sources, ids) is Some ==> ({
            let i = first_unloadable(pages, sources, ids)->0;
            &&& 0 <= i < ids.len()
            &&& loaded(pages, ids[i], source_of(sources, ids[i])) is Err
            &&& forall|j: int|
                0 <= j < i ==> loaded(pages, #[trigger] ids[j], source_of(sources, ids[j])) is Ok
        }),
        first_unloadable(pages, sources, ids) is None ==> (forall|j: int|
            0 <= j < ids.len() ==> loaded(pages, #[trigger] ids[j], source_of(sources, ids[j]))
                is Ok),
    decreases ids.len(),
{
    if ids.len() > 0 {
        let rest = ids.drop_last();
        exporting_stops_at_the_first_failure(pages, sources, rest);
        assert forall|j: int| 0 <= j < rest.len() implies rest[j] == #[trigger] ids[j] by {}
    }
}

} // verus!
