//! Lists of pages, of tags, and of what a search found, as text and as JSON.

use crate::counts::{count_views, is_ranked, is_tally, ranked_counts, Count, CountModel};
use crate::index::{
    loaded, source_of, source_table, IndexModel, KnowledgeBaseIndex, PageSource, SourceTable,
};
use crate::json::{
    array_of, array_of_texts, json_views, member_views, object_of, text_array,
    the_first_member_of_a_name_is_got, Json, JsonModel,
};
use crate::lists::has_text;
use crate::model::{hit_views, HitModel, MetaModel, PageMeta, SearchHit, SearchMatchKind};
use crate::number::{decimal, decimal_of, push_decimal};
use crate::record::{
    field, kind_name, kind_text, meta_views, no_members, number, number_value, put, text_value,
};
use crate::render::{display_text, render_page_to_text};
use crate::screen::{find_place, pad, padded, raw_place};
use crate::strmap::{lemma_looked_up, looked_up, put_text, text_table, StrMap, TextTable};
use crate::text::{
    chars_of, contains, contains_char, copy_of, find_chars, find_from, lemma_find_is_contains,
    lemma_views_push, lowercase, opt_view, repeat_char, repeated, replace, replaced, same_text,
    string_of, to_lowercase, trim, trimmed, trimming_takes_the_white_space_around, views,
    whitespace,
};
use vstd::prelude::*;

verus! {

// ---------------------------------------------------------------------------
// Columns
// ---------------------------------------------------------------------------

/// A text, cut to a number of characters.
pub open spec fn truncated(text: Seq<char>, max: nat) -> Seq<char> {
    if text.len() <= max {
        text
    } else {
        text.take(max as int)
    }
}

/// At most the first characters of a text.
pub fn truncate_chars(text: &str, max: usize) -> (out: String)
    ensures
        out@ == truncated(text@, max as nat),
{
    let v = chars_of(text);
    if v.len() <= max {
        return copy_of(text);
    }
    let out = string_of(&v, 0, max);
    assert(out@ =~= text@.take(max as int));
    out
}

/// A text with blanks before it, up to a width.
pub open spec fn padded_left(text: Seq<char>, width: nat) -> Seq<char> {
    if text.len() < width {
        repeated(' ', (width - text.len()) as nat) + text
    } else {
        text
    }
}

/// A text filled up with spaces on its left.
pub fn pad_left(text: &str, width: usize) -> (out: String)
    ensures
        out@ == padded_left(text@, width as nat),
{
    let v = chars_of(text);
    if v.len() >= width {
        return copy_of(text);
    }
    let mut out = repeat_char(' ', width - v.len());
    out.push_str(text);
    assert(out@ =~= padded_left(text@, width as nat));
    out
}

/// The length of the longest title.
pub open spec fn longest_title(metas: Seq<MetaModel>) -> nat
    decreases metas.len(),
{
    if metas.len() == 0 {
        0
    } else {
        let before = longest_title(metas.drop_last());
        if metas.last().title.len() > before {
            metas.last().title.len()
        } else {
            before
        }
    }
}

/// How wide the column of titles is: as wide as the longest title, within
/// limits.
pub open spec fn title_width(metas: Seq<MetaModel>) -> nat {
    let n = longest_title(metas);
    if n < 5 {
        5
    } else if n > 64 {
        64
    } else {
        n
    }
}

fn title_column(metas: &Vec<&PageMeta>) -> (width: usize)
    ensures
        width == title_width(meta_views(metas@)),
{
    let ghost all = meta_views(metas@);
    let mut longest: usize = 0;
    let mut i: usize = 0;
    assert(all.take(0) =~= Seq::<MetaModel>::empty());
    while i < metas.len()
        invariant
            i <= metas@.len(),
            all == meta_views(metas@),
            longest == longest_title(all.take(i as int)),
        decreases metas.len() - i,
    {
        assert(all.take(i as int + 1).drop_last() =~= all.take(i as int));
        assert(all.take(i as int + 1).last() == metas@[i as int]@);
        let chars = chars_of(metas[i].title.as_str());
        if chars.len() > longest {
            longest = chars.len();
        }
        i += 1;
    }
    assert(all.take(i as int) =~= all);
    if longest < 5 {
        5
    } else if longest > 64 {
        64
    } else {
        longest
    }
}

/// The title of a page in its column, and its id.
pub open spec fn title_and_id(meta: MetaModel, width: nat) -> Seq<char> {
    padded(truncated(meta.title, width), width) + "  "@ + meta.id
}

fn push_title_and_id(out: &mut String, meta: &PageMeta, width: usize)
    ensures
        final(out)@ == old(out)@ + title_and_id(meta@, width as nat),
{
    let ghost start = out@;
    let title = truncate_chars(meta.title.as_str(), width);
    out.push_str(pad(title.as_str(), width).as_str());
    out.push_str("  ");
    out.push_str(meta.id.as_str());
    assert(out@ =~= start + title_and_id(meta@, width as nat));
}

/// The pages of an index, in title order.
pub open spec fn metas_of(m: IndexModel) -> Seq<MetaModel> {
    Seq::new(m.order.len(), |i: int| m.pages[m.order[i]])
}

// ---------------------------------------------------------------------------
// Pages
// ---------------------------------------------------------------------------

/// The title and the id of each page, with a tab between.
pub open spec fn tsv_rows(metas: Seq<MetaModel>) -> Seq<char>
    decreases metas.len(),
{
    if metas.len() == 0 {
        Seq::empty()
    } else {
        tsv_rows(metas.drop_last()) + (metas.last().title + "\t"@ + metas.last().id + "\n"@)
    }
}

/// The title and the id of each page, in columns behind `indent`.
pub open spec fn plain_rows(metas: Seq<MetaModel>, indent: Seq<char>, width: nat) -> Seq<char>
    decreases metas.len(),
{
    if metas.len() == 0 {
        Seq::empty()
    } else {
        plain_rows(metas.drop_last(), indent, width) + (indent + title_and_id(metas.last(), width)
            + "\n"@)
    }
}

/// The ids of some pages, one on each line.
pub open spec fn id_rows(metas: Seq<MetaModel>) -> Seq<char>
    decreases metas.len(),
{
    if metas.len() == 0 {
        Seq::empty()
    } else {
        id_rows(metas.drop_last()) + (metas.last().id + "\n"@)
    }
}

/// The list of some pages, with a header.
pub open spec fn plain_list(metas: Seq<MetaModel>) -> Seq<char> {
    let width = title_width(metas);
    padded("title"@, width) + "  id\n"@ + repeated('-', width) + "  "@ + repeated('-', 36) + "\n"@
        + plain_rows(metas, Seq::empty(), width)
}

/// The title and the id of each page, with a tab between.
pub fn write_list_tsv(metas: &Vec<&PageMeta>) -> (out: String)
    ensures
        out@ == tsv_rows(meta_views(metas@)),
{
    let ghost all = meta_views(metas@);
    let mut out = String::new();
    let mut i: usize = 0;
    assert(all.take(0) =~= Seq::<MetaModel>::empty());
    while i < metas.len()
        invariant
            i <= metas@.len(),
            all == meta_views(metas@),
            out@ == tsv_rows(all.take(i as int)),
        decreases metas.len() - i,
    {
        assert(all.take(i as int + 1).drop_last() =~= all.take(i as int));
        assert(all.take(i as int + 1).last() == metas@[i as int]@);
        out.push_str(metas[i].title.as_str());
        out.push_str("\t");
        out.push_str(metas[i].id.as_str());
        out.push_str("\n");
        i += 1;
        assert(out@ =~= tsv_rows(all.take(i as int)));
    }
    assert(all.take(i as int) =~= all);
    out
}

fn push_plain_rows(out: &mut String, metas: &Vec<&PageMeta>, indent: &str, width: usize)
    ensures
        final(out)@ == old(out)@ + plain_rows(meta_views(metas@), indent@, width as nat),
{
    let ghost all = meta_views(metas@);
    let ghost start = out@;
    let mut i: usize = 0;
    assert(all.take(0) =~= Seq::<MetaModel>::empty());
    assert(start + plain_rows(all.take(0), indent@, width as nat) =~= start);
    while i < metas.len()
        invariant
            i <= metas@.len(),
            all == meta_views(metas@),
            out@ == start + plain_rows(all.take(i as int), indent@, width as nat),
        decreases metas.len() - i,
    {
        assert(all.take(i as int + 1).drop_last() =~= all.take(i as int));
        assert(all.take(i as int + 1).last() == metas@[i as int]@);
        out.push_str(indent);
        push_title_and_id(out, metas[i], width);
        out.push_str("\n");
        i += 1;
        assert(out@ =~= start + plain_rows(all.take(i as int), indent@, width as nat));
    }
    assert(all.take(i as int) =~= all);
}

/// The list of some pages, with a header.
pub fn write_list_plain(metas: &Vec<&PageMeta>) -> (out: String)
    ensures
        out@ == plain_list(meta_views(metas@)),
{
    let width: usize = title_column(metas);
    let mut out = pad("title", width);
    out.push_str("  id\n");
    out.push_str(repeat_char('-', width).as_str());
    out.push_str("  ");
    out.push_str(repeat_char('-', 36).as_str());
    out.push_str("\n");
    proof {
        reveal_strlit("");
        assert(""@ =~= Seq::<char>::empty());
    }
    push_plain_rows(&mut out, metas, "", width);
    assert(out@ =~= plain_list(meta_views(metas@)));
    out
}

/// The ids of some pages, one on each line.
pub fn write_ids(metas: &Vec<&PageMeta>) -> (out: String)
    ensures
        out@ == id_rows(meta_views(metas@)),
{
    let ghost all = meta_views(metas@);
    let mut out = String::new();
    let mut i: usize = 0;
    assert(all.take(0) =~= Seq::<MetaModel>::empty());
    while i < metas.len()
        invariant
            i <= metas@.len(),
            all == meta_views(metas@),
            out@ == id_rows(all.take(i as int)),
        decreases metas.len() - i,
    {
        assert(all.take(i as int + 1).drop_last() =~= all.take(i as int));
        assert(all.take(i as int + 1).last() == metas@[i as int]@);
        out.push_str(metas[i].id.as_str());
        out.push_str("\n");
        i += 1;
        assert(out@ =~= id_rows(all.take(i as int)));
    }
    assert(all.take(i as int) =~= all);
    out
}

// ---------------------------------------------------------------------------
// Tags
// ---------------------------------------------------------------------------

/// The tags of some pages, one after the other.
pub open spec fn all_tags(metas: Seq<MetaModel>) -> Seq<Seq<char>>
    decreases metas.len(),
{
    if metas.len() == 0 {
        Seq::empty()
    } else {
        all_tags(metas.drop_last()) + metas.last().tags
    }
}

fn gather_tags(metas: &Vec<&PageMeta>) -> (tags: Vec<String>)
    ensures
        views(tags@) == all_tags(meta_views(metas@)),
{
    let ghost all = meta_views(metas@);
    let mut tags: Vec<String> = Vec::new();
    let mut i: usize = 0;
    assert(all.take(0) =~= Seq::<MetaModel>::empty());
    assert(views(tags@) =~= Seq::<Seq<char>>::empty());
    while i < metas.len()
        invariant
            i <= metas@.len(),
            all == meta_views(metas@),
            views(tags@) == all_tags(all.take(i as int)),
        decreases metas.len() - i,
    {
        assert(all.take(i as int + 1).drop_last() =~= all.take(i as int));
        assert(all.take(i as int + 1).last() == metas@[i as int]@);
        let ghost before = views(tags@);
        let ghost more = views(metas@[i as int].tags@);
        let mut k: usize = 0;
        assert(before + more.take(0) =~= before);
        while k < metas[i].tags.len()
            invariant
                i < metas@.len(),
                k <= metas@[i as int].tags@.len(),
                more == views(metas@[i as int].tags@),
                views(tags@) == before + more.take(k as int),
            decreases metas@[i as int].tags@.len() - k,
        {
            let t = copy_of(metas[i].tags[k].as_str());
            proof {
                lemma_views_push(tags@, t);
            }
            tags.push(t);
            k += 1;
            assert((before + more.take(k - 1)).push(more[k - 1]) =~= before + more.take(k as int));
        }
        assert(more.take(k as int) =~= more);
        i += 1;
    }
    assert(all.take(i as int) =~= all);
    tags
}

/// How many pages carry each tag, the most frequent first.
pub fn collect_tag_counts(metas: &Vec<&PageMeta>) -> (counts: Vec<Count>)
    ensures
        is_tally(count_views(counts@), all_tags(meta_views(metas@))),
        is_ranked(count_views(counts@)),
{
    let tags = gather_tags(metas);
    ranked_counts(&tags)
}

/// Counts as an array of objects.
pub open spec fn tag_records(counts: Seq<CountModel>) -> JsonModel {
    JsonModel::Array(
        Seq::new(
            counts.len(),
            |i: int|
                JsonModel::Object(
                    seq![
                        field("tag"@, JsonModel::Str(counts[i].name)),
                        field("count"@, number(counts[i].count)),
                    ],
                ),
        ),
    )
}

/// Counts, with a tab before each number.
pub open spec fn tag_tsv(counts: Seq<CountModel>) -> Seq<char>
    decreases counts.len(),
{
    if counts.len() == 0 {
        Seq::empty()
    } else {
        tag_tsv(counts.drop_last()) + (counts.last().name + "\t"@ + decimal(counts.last().count)
            + "\n"@)
    }
}

/// Counts in a column, with the names behind them.
pub open spec fn count_rows(counts: Seq<CountModel>) -> Seq<char>
    decreases counts.len(),
{
    if counts.len() == 0 {
        Seq::empty()
    } else {
        count_rows(counts.drop_last()) + ("  "@ + padded_left(decimal(counts.last().count), 4)
            + "  "@ + counts.last().name + "\n"@)
    }
}

/// The tags with their counts.
pub open spec fn tag_summary(counts: Seq<CountModel>) -> Seq<char> {
    "Tags ("@ + decimal(counts.len()) + " unique)\n"@ + if counts.len() == 0 {
        "  (none)\n"@
    } else {
        count_rows(counts)
    }
}

/// The counts of all tags as JSON.
pub fn tags_json(counts: &Vec<Count>) -> (j: Json)
    ensures
        j@ == tag_records(count_views(counts@)),
{
    let ghost all = count_views(counts@);
    let mut items: Vec<Json> = Vec::new();
    let mut i: usize = 0;
    while i < counts.len()
        invariant
            i <= counts@.len(),
            all == count_views(counts@),
            items@.len() == i,
            forall|k: int|
                0 <= k < i ==> (#[trigger] items@[k])@ == JsonModel::Object(
                    seq![
                        field("tag"@, JsonModel::Str(all[k].name)),
                        field("count"@, number(all[k].count)),
                    ],
                ),
        decreases counts.len() - i,
    {
        let mut members = no_members();
        put(&mut members, "tag", text_value(counts[i].name.as_str()));
        put(&mut members, "count", number_value(counts[i].count));
        assert(member_views(members@) =~= seq![
            field("tag"@, JsonModel::Str(all[i as int].name)),
            field("count"@, number(all[i as int].count)),
        ]);
        items.push(object_of(members));
        i += 1;
    }
    assert(json_views(items@) =~= tag_records(all)->Array_0);
    array_of(items)
}

/// A row for each tag and its count, with tabs.
pub fn write_tags_tsv(counts: &Vec<Count>) -> (out: String)
    ensures
        out@ == tag_tsv(count_views(counts@)),
{
    let ghost all = count_views(counts@);
    let mut out = String::new();
    let mut i: usize = 0;
    assert(all.take(0) =~= Seq::<CountModel>::empty());
    while i < counts.len()
        invariant
            i <= counts@.len(),
            all == count_views(counts@),
            out@ == tag_tsv(all.take(i as int)),
        decreases counts.len() - i,
    {
        assert(all.take(i as int + 1).drop_last() =~= all.take(i as int));
        assert(all.take(i as int + 1).last() == counts@[i as int]@);
        out.push_str(counts[i].name.as_str());
        out.push_str("\t");
        push_decimal(&mut out, counts[i].count);
        out.push_str("\n");
        i += 1;
        assert(out@ =~= tag_tsv(all.take(i as int)));
    }
    assert(all.take(i as int) =~= all);
    out
}

/// Adds counts in a column, with the names behind them.
pub fn push_count_rows(out: &mut String, counts: &Vec<Count>)
    ensures
        final(out)@ == old(out)@ + count_rows(count_views(counts@)),
{
    let ghost all = count_views(counts@);
    let ghost start = out@;
    let mut i: usize = 0;
    assert(all.take(0) =~= Seq::<CountModel>::empty());
    assert(start + count_rows(all.take(0)) =~= start);
    while i < counts.len()
        invariant
            i <= counts@.len(),
            all == count_views(counts@),
            out@ == start + count_rows(all.take(i as int)),
        decreases counts.len() - i,
    {
        assert(all.take(i as int + 1).drop_last() =~= all.take(i as int));
        assert(all.take(i as int + 1).last() == counts@[i as int]@);
        out.push_str("  ");
        let n = decimal_of(counts[i].count);
        out.push_str(pad_left(n.as_str(), 4).as_str());
        out.push_str("  ");
        out.push_str(counts[i].name.as_str());
        out.push_str("\n");
        i += 1;
        assert(out@ =~= start + count_rows(all.take(i as int)));
    }
    assert(all.take(i as int) =~= all);
}

/// The tags with their counts.
pub fn write_tag_summary(counts: &Vec<Count>) -> (out: String)
    ensures
        out@ == tag_summary(count_views(counts@)),
{
    let mut out = copy_of("Tags (");
    push_decimal(&mut out, counts.len());
    out.push_str(" unique)\n");
    if counts.len() == 0 {
        out.push_str("  (none)\n");
    } else {
        push_count_rows(&mut out, counts);
    }
    assert(out@ =~= tag_summary(count_views(counts@)));
    out
}

/// The pages that carry a tag, whatever its case.
pub open spec fn tagged_with(metas: Seq<MetaModel>, tag: Seq<char>) -> Seq<MetaModel>
    decreases metas.len(),
{
    if metas.len() == 0 {
        Seq::empty()
    } else {
        let before = tagged_with(metas.drop_last(), tag);
        if metas.last().tags_lower.contains(lowercase(tag)) {
            before.push(metas.last())
        } else {
            before
        }
    }
}

/// The pages of a tag are the pages that carry it in whatever case.
pub proof fn tagged_pages_carry_the_tag(metas: Seq<MetaModel>, tag: Seq<char>, meta: MetaModel)
    ensures
        tagged_with(metas, tag).contains(meta) == (metas.contains(meta) && meta.tags_lower.contains(
            lowercase(tag),
        )),
    decreases metas.len(),
{
    if metas.len() > 0 {
        let rest = metas.drop_last();
        tagged_pages_carry_the_tag(rest, tag, meta);
        assert(rest.push(metas.last()) =~= metas);
        vstd::seq_lib::lemma_seq_contains_after_push(rest, metas.last(), meta);
        vstd::seq_lib::lemma_seq_contains_after_push(tagged_with(rest, tag), metas.last(), meta);
    }
}

/// The pages that have the tag.
pub fn pages_with_tag<'a>(metas: &Vec<&'a PageMeta>, tag: &str) -> (found: Vec<&'a PageMeta>)
    ensures
        meta_views(found@) == tagged_with(meta_views(metas@), tag@),
{
    let needle = to_lowercase(tag);
    let ghost all = meta_views(metas@);
    let mut found: Vec<&'a PageMeta> = Vec::new();
    let mut i: usize = 0;
    assert(all.take(0) =~= Seq::<MetaModel>::empty());
    assert(meta_views(found@) =~= Seq::<MetaModel>::empty());
    while i < metas.len()
        invariant
            i <= metas@.len(),
            all == meta_views(metas@),
            needle@ == lowercase(tag@),
            meta_views(found@) == tagged_with(all.take(i as int), tag@),
        decreases metas.len() - i,
    {
        assert(all.take(i as int + 1).drop_last() =~= all.take(i as int));
        assert(all.take(i as int + 1).last() == metas@[i as int]@);
        let ghost before = meta_views(found@);
        if has_text(&metas[i].tags_lower, needle.as_str()) {
            found.push(metas[i]);
            assert(meta_views(found@) =~= before.push(metas@[i as int]@));
        }
        i += 1;
    }
    assert(all.take(i as int) =~= all);
    found
}

/// The pages of a tag.
pub open spec fn tag_pages(metas: Seq<MetaModel>, tag: Seq<char>) -> Seq<char> {
    "Pages tagged \""@ + tag + "\" ("@ + decimal(metas.len()) + ")\n"@ + if metas.len() == 0 {
        "  (none)\n"@
    } else {
        plain_rows(metas, "  "@, title_width(metas))
    }
}

/// A row for each page of a tag.
pub fn write_tag_pages(metas: &Vec<&PageMeta>, tag: &str) -> (out: String)
    ensures
        out@ == tag_pages(meta_views(metas@), tag@),
{
    let mut out = copy_of("Pages tagged \"");
    out.push_str(tag);
    out.push_str("\" (");
    push_decimal(&mut out, metas.len());
    out.push_str(")\n");
    if metas.len() == 0 {
        out.push_str("  (none)\n");
    } else {
        let width: usize = title_column(metas);
        push_plain_rows(&mut out, metas, "  ", width);
    }
    assert(out@ =~= tag_pages(meta_views(metas@), tag@));
    out
}

// ---------------------------------------------------------------------------
// What a search found
// ---------------------------------------------------------------------------

/// How a page was found. Where it was found twice, the last time counts.
pub open spec fn kind_of(hits: Seq<HitModel>, id: Seq<char>) -> Option<SearchMatchKind>
    decreases hits.len(),
{
    if hits.len() == 0 {
        None
    } else if hits.last().id == id {
        Some(hits.last().kind)
    } else {
        kind_of(hits.drop_last(), id)
    }
}

fn find_kind(hits: &Vec<SearchHit>, id: &str) -> (kind: Option<SearchMatchKind>)
    ensures
        kind == kind_of(hit_views(hits@), id@),
{
    let ghost all = hit_views(hits@);
    let mut n: usize = hits.len();
    assert(all.take(n as int) =~= all);
    while n > 0
        invariant
            n <= hits@.len(),
            all == hit_views(hits@),
            kind_of(all, id@) == kind_of(all.take(n as int), id@),
        decreases n,
    {
        assert(all.take(n as int).last() == hits@[n - 1]@);
        assert(all.take(n as int).drop_last() =~= all.take(n - 1));
        if same_text(hits[n - 1].id.as_str(), id) {
            return Some(hits[n - 1].kind);
        }
        n -= 1;
    }
    None
}

/// What was found of each page, in the order of the list: the title, the id, how
/// it was found, and a part of its text in which tabs are blanks.
pub open spec fn found_tsv(metas: Seq<MetaModel>, hits: Seq<HitModel>, snippets: TextTable) -> Seq<
    char,
>
    decreases metas.len(),
{
    if metas.len() == 0 {
        Seq::empty()
    } else {
        let before = found_tsv(metas.drop_last(), hits, snippets);
        let meta = metas.last();
        match kind_of(hits, meta.id) {
            Some(kind) => before + (meta.title + "\t"@ + meta.id + "\t"@ + kind_name(kind) + "\t"@
                + match looked_up(snippets, meta.id) {
                Some(s) => replaced(s, "\t"@, " "@),
                None => Seq::empty(),
            } + "\n"@),
            None => before,
        }
    }
}

/// The rows of what was found, in columns. A part of the text stands on a line of
/// its own.
pub open spec fn found_rows(
    metas: Seq<MetaModel>,
    hits: Seq<HitModel>,
    snippets: TextTable,
    width: nat,
) -> Seq<char>
    decreases metas.len(),
{
    if metas.len() == 0 {
        Seq::empty()
    } else {
        let before = found_rows(metas.drop_last(), hits, snippets, width);
        let meta = metas.last();
        match kind_of(hits, meta.id) {
            Some(kind) => before + (padded(truncated(meta.title, width), width) + "  "@ + padded(
                meta.id,
                36,
            ) + "  "@ + kind_name(kind) + "\n"@ + match looked_up(snippets, meta.id) {
                Some(s) => "    "@ + s + "\n"@,
                None => Seq::empty(),
            }),
            None => before,
        }
    }
}

/// What was found, with a header.
pub open spec fn found_list(metas: Seq<MetaModel>, hits: Seq<HitModel>, snippets: TextTable) -> Seq<
    char,
> {
    let width = title_width(metas);
    padded("title"@, width) + "  "@ + padded("id"@, 36) + "  match\n"@ + repeated('-', width)
        + "  "@ + repeated('-', 36) + "  "@ + repeated('-', 7) + "\n"@ + found_rows(
        metas,
        hits,
        snippets,
        width,
    )
}

/// A row for each hit, with tabs.
pub fn write_search_tsv(
    metas: &Vec<&PageMeta>,
    hits: &Vec<SearchHit>,
    snippets: &StrMap<String>,
) -> (out: String)
    requires
        snippets.wf(),
    ensures
        out@ == found_tsv(meta_views(metas@), hit_views(hits@), text_table(*snippets)),
{
    let ghost all = meta_views(metas@);
    let ghost hs = hit_views(hits@);
    let ghost table = text_table(*snippets);
    let mut out = String::new();
    let mut i: usize = 0;
    assert(all.take(0) =~= Seq::<MetaModel>::empty());
    while i < metas.len()
        invariant
            i <= metas@.len(),
            snippets.wf(),
            all == meta_views(metas@),
            hs == hit_views(hits@),
            table == text_table(*snippets),
            out@ == found_tsv(all.take(i as int), hs, table),
        decreases metas.len() - i,
    {
        assert(all.take(i as int + 1).drop_last() =~= all.take(i as int));
        assert(all.take(i as int + 1).last() == metas@[i as int]@);
        let meta = metas[i];
        if let Some(kind) = find_kind(hits, meta.id.as_str()) {
            proof {
                lemma_looked_up(*snippets, meta@.id);
                reveal_strlit("\t");
            }
            out.push_str(meta.title.as_str());
            out.push_str("\t");
            out.push_str(meta.id.as_str());
            out.push_str("\t");
            out.push_str(kind_text(kind).as_str());
            out.push_str("\t");
            if let Some(s) = snippets.get(meta.id.as_str()) {
                out.push_str(replace(s.as_str(), "\t", " ").as_str());
            }
            out.push_str("\n");
        }
        i += 1;
        assert(out@ =~= found_tsv(all.take(i as int), hs, table));
    }
    assert(all.take(i as int) =~= all);
    out
}

/// A row for each hit, for reading.
pub fn write_search_plain(
    metas: &Vec<&PageMeta>,
    hits: &Vec<SearchHit>,
    snippets: &StrMap<String>,
) -> (out: String)
    requires
        snippets.wf(),
    ensures
        out@ == found_list(meta_views(metas@), hit_views(hits@), text_table(*snippets)),
{
    let ghost all = meta_views(metas@);
    let ghost hs = hit_views(hits@);
    let ghost table = text_table(*snippets);
    let width: usize = title_column(metas);
    let mut out = pad("title", width);
    out.push_str("  ");
    out.push_str(pad("id", 36).as_str());
    out.push_str("  match\n");
    out.push_str(repeat_char('-', width).as_str());
    out.push_str("  ");
    out.push_str(repeat_char('-', 36).as_str());
    out.push_str("  ");
    out.push_str(repeat_char('-', 7).as_str());
    out.push_str("\n");
    let ghost start = out@;
    let mut i: usize = 0;
    assert(all.take(0) =~= Seq::<MetaModel>::empty());
    assert(start + found_rows(all.take(0), hs, table, width as nat) =~= start);
    while i < metas.len()
        invariant
            i <= metas@.len(),
            snippets.wf(),
            all == meta_views(metas@),
            hs == hit_views(hits@),
            table == text_table(*snippets),
            out@ == start + found_rows(all.take(i as int), hs, table, width as nat),
        decreases metas.len() - i,
    {
        assert(all.take(i as int + 1).drop_last() =~= all.take(i as int));
        assert(all.take(i as int + 1).last() == metas@[i as int]@);
        let meta = metas[i];
        if let Some(kind) = find_kind(hits, meta.id.as_str()) {
            proof {
                lemma_looked_up(*snippets, meta@.id);
            }
            let title = truncate_chars(meta.title.as_str(), width);
            out.push_str(pad(title.as_str(), width).as_str());
            out.push_str("  ");
            out.push_str(pad(meta.id.as_str(), 36).as_str());
            out.push_str("  ");
            out.push_str(kind_text(kind).as_str());
            out.push_str("\n");
            if let Some(s) = snippets.get(meta.id.as_str()) {
                out.push_str("    ");
                out.push_str(s.as_str());
                out.push_str("\n");
            }
        }
        i += 1;
        assert(out@ =~= start + found_rows(all.take(i as int), hs, table, width as nat));
    }
    assert(all.take(i as int) =~= all);
    assert(out@ =~= found_list(all, hs, table));
    out
}

/// A page that was found.
pub open spec fn found_record(meta: MetaModel, hit: HitModel, snippets: TextTable) -> JsonModel {
    JsonModel::Object(
        seq![
            field("id"@, JsonModel::Str(hit.id)),
            field("title"@, JsonModel::Str(meta.title)),
            field("kind"@, JsonModel::Str(kind_name(hit.kind))),
            field("tags"@, text_array(meta.tags)),
            field(
                "snippet"@,
                JsonModel::Str(
                    match looked_up(snippets, hit.id) {
                        Some(s) => s,
                        None => Seq::empty(),
                    },
                ),
            ),
        ],
    )
}

/// The pages that were found, in the order in which they were.
pub open spec fn found_records(m: IndexModel, hits: Seq<HitModel>, snippets: TextTable) -> Seq<
    JsonModel,
>
    decreases hits.len(),
{
    if hits.len() == 0 {
        Seq::empty()
    } else {
        let before = found_records(m, hits.drop_last(), snippets);
        if m.pages.contains_key(hits.last().id) {
            before.push(found_record(m.pages[hits.last().id], hits.last(), snippets))
        } else {
            before
        }
    }
}

fn found_json(meta: &PageMeta, hit: &SearchHit, snippets: &StrMap<String>) -> (j: Json)
    requires
        snippets.wf(),
    ensures
        j@ == found_record(meta@, hit@, text_table(*snippets)),
{
    proof {
        lemma_looked_up(*snippets, hit@.id);
    }
    let snippet = match snippets.get(hit.id.as_str()) {
        Some(s) => copy_of(s.as_str()),
        None => String::new(),
    };
    let mut members = no_members();
    put(&mut members, "id", text_value(hit.id.as_str()));
    put(&mut members, "title", text_value(meta.title.as_str()));
    put(&mut members, "kind", Json::Str(kind_text(hit.kind)));
    put(&mut members, "tags", array_of_texts(&meta.tags));
    put(&mut members, "snippet", Json::Str(snippet));
    assert(member_views(members@) =~= found_record(
        meta@,
        hit@,
        text_table(*snippets),
    )->Object_0);
    object_of(members)
}

/// The hits as JSON.
pub fn search_json(
    index: &KnowledgeBaseIndex,
    hits: &Vec<SearchHit>,
    snippets: &StrMap<String>,
) -> (j: Json)
    requires
        index.wf(),
        snippets.wf(),
    ensures
        j@ == JsonModel::Array(
            found_records(index@, hit_views(hits@), text_table(*snippets)),
        ),
{
    let ghost hs = hit_views(hits@);
    let ghost table = text_table(*snippets);
    let mut items: Vec<Json> = Vec::new();
    let mut i: usize = 0;
    assert(hs.take(0) =~= Seq::<HitModel>::empty());
    assert(json_views(items@) =~= Seq::<JsonModel>::empty());
    while i < hits.len()
        invariant
            i <= hits@.len(),
            index.wf(),
            snippets.wf(),
            hs == hit_views(hits@),
            table == text_table(*snippets),
            json_views(items@) == found_records(index@, hs.take(i as int), table),
        decreases hits.len() - i,
    {
        assert(hs.take(i as int + 1).drop_last() =~= hs.take(i as int));
        assert(hs.take(i as int + 1).last() == hits@[i as int]@);
        let ghost before = json_views(items@);
        if let Some(meta) = index.page_meta(hits[i].id.as_str()) {
            let j = found_json(meta, &hits[i], snippets);
            items.push(j);
            assert(json_views(items@) =~= before.push(j@));
        }
        i += 1;
    }
    assert(hs.take(i as int) =~= hs);
    array_of(items)
}

// ---------------------------------------------------------------------------
// Parts of texts
// ---------------------------------------------------------------------------

/// A text in which line ends are blanks.
pub open spec fn flattened(text: Seq<char>) -> Seq<char> {
    Seq::new(
        text.len(),
        |i: int|
            if text[i] == '\n' || text[i] == '\r' {
                ' '
            } else {
                text[i]
            },
    )
}

/// The part of a text around the first place that holds a lowercased text,
/// whatever the case: from forty characters before it, a hundred and twenty in
/// all, on one line and without blanks around it.
pub open spec fn part_with(raw: Seq<char>, needle: Seq<char>) -> Option<Seq<char>> {
    if needle.len() == 0 {
        None
    } else {
        match find_from(lowercase(raw), 0, needle) {
            Some(pos) => {
                let at = raw_place(raw, 0, pos);
                let from = if at < 40 {
                    0
                } else {
                    at - 40
                };
                let to = if at + 80 > raw.len() {
                    raw.len() as int
                } else {
                    at + 80
                };
                Some(trimmed(flattened(raw.subrange(from, to))))
            },
            None => None,
        }
    }
}

/// The part of a text around the first place that holds a lowercased text.
pub fn matching_snippet(raw: &str, needle: &str) -> (part: Option<String>)
    ensures
        opt_view(part) == part_with(raw@, needle@),
{
    let wanted = chars_of(needle);
    if wanted.len() == 0 {
        return None;
    }
    let lower = to_lowercase(raw);
    let haystack = chars_of(lower.as_str());
    let pos: usize = match find_chars(&haystack, 0, &wanted) {
        Some(pos) => pos,
        None => {
            return None;
        },
    };
    let chars = chars_of(raw);
    let at: usize = find_place(&chars, pos);
    let from: usize = if at < 40 {
        0
    } else {
        at - 40
    };
    let to: usize = if chars.len() - at < 80 {
        chars.len()
    } else {
        at + 80
    };
    let ghost window = raw@.subrange(from as int, to as int);
    let ghost flat = flattened(window);
    let mut out: Vec<char> = Vec::new();
    let mut i: usize = from;
    while i < to
        invariant
            from <= i <= to <= chars@.len(),
            chars@ == raw@,
            window == raw@.subrange(from as int, to as int),
            flat == flattened(window),
            out@ == flat.take(i - from),
        decreases to - i,
    {
        let c = chars[i];
        assert(window[i - from] == c);
        out.push(
            if c == '\n' || c == '\r' {
                ' '
            } else {
                c
            },
        );
        i += 1;
        assert(out@ =~= flat.take(i - from));
    }
    assert(flat.take(i - from) =~= flat);
    let text = string_of(&out, 0, out.len());
    assert(text@ =~= flat);
    Some(trim(text.as_str()))
}

/// The parts of the texts of the pages that were found by their texts.
pub open spec fn parts_of(
    m: IndexModel,
    hits: Seq<HitModel>,
    needle: Seq<char>,
    sources: SourceTable,
) -> TextTable
    decreases hits.len(),
{
    if hits.len() == 0 {
        Map::empty()
    } else {
        let before = parts_of(m, hits.drop_last(), needle, sources);
        let hit = hits.last();
        if hit.kind == SearchMatchKind::Content {
            match loaded(m.pages, hit.id, source_of(sources, hit.id)) {
                Ok(page) => match part_with(display_text(page.content), needle) {
                    Some(part) => before.insert(hit.id, part),
                    None => before,
                },
                Err(_) => before,
            }
        } else {
            before
        }
    }
}

/// The parts of the texts of the pages that were found by their texts. A page
/// whose shown text does not hold what was looked for has none.
pub fn content_snippets(
    index: &KnowledgeBaseIndex,
    hits: &Vec<SearchHit>,
    needle: &str,
    sources: &StrMap<PageSource>,
) -> (parts: StrMap<String>)
    requires
        index.wf(),
        sources.wf(),
    ensures
        parts.wf(),
        text_table(parts) == parts_of(
            index@,
            hit_views(hits@),
            needle@,
            source_table(*sources),
        ),
{
    let ghost all = hit_views(hits@);
    let ghost table = source_table(*sources);
    let mut parts: StrMap<String> = StrMap::new();
    let mut i: usize = 0;
    assert(all.take(0) =~= Seq::<HitModel>::empty());
    assert(text_table(parts) =~= Map::empty());
    while i < hits.len()
        invariant
            i <= hits@.len(),
            index.wf(),
            sources.wf(),
            parts.wf(),
            all == hit_views(hits@),
            table == source_table(*sources),
            text_table(parts) == parts_of(index@, all.take(i as int), needle@, table),
        decreases hits.len() - i,
    {
        assert(all.take(i as int + 1).drop_last() =~= all.take(i as int));
        assert(all.take(i as int + 1).last() == hits@[i as int]@);
        let by_content = match hits[i].kind {
            SearchMatchKind::Content => true,
            _ => false,
        };
        if by_content {
            if let Ok(page) = index.load_from(hits[i].id.as_str(), sources) {
                let raw = render_page_to_text(&page);
                if let Some(part) = matching_snippet(raw.as_str(), needle) {
                    put_text(&mut parts, copy_of(hits[i].id.as_str()), part);
                }
            }
        }
        i += 1;
    }
    assert(all.take(i as int) =~= all);
    parts
}

// ---------------------------------------------------------------------------
// What each list shows
// ---------------------------------------------------------------------------

/// One more page is one more row at the end of every list: its title and its id
/// with a tab between them, its id alone, or both in their columns.
pub proof fn one_more_page_is_one_more_row(
    metas: Seq<MetaModel>,
    meta: MetaModel,
    indent: Seq<char>,
    width: nat,
)
    ensures
        tsv_rows(metas.push(meta)) == tsv_rows(metas) + (meta.title + "\t"@ + meta.id + "\n"@),
        id_rows(metas.push(meta)) == id_rows(metas) + (meta.id + "\n"@),
        meta.title.len() <= width ==> plain_rows(metas.push(meta), indent, width) == plain_rows(
            metas,
            indent,
            width,
        ) + (indent + (meta.title + repeated(' ', (width - meta.title.len()) as nat) + "  "@
            + meta.id) + "\n"@),
        meta.title.len() > width ==> plain_rows(metas.push(meta), indent, width) == plain_rows(
            metas,
            indent,
            width,
        ) + (indent + (meta.title.take(width as int) + "  "@ + meta.id) + "\n"@),
        tsv_rows(Seq::empty()).len() == 0,
        id_rows(Seq::empty()).len() == 0,
        plain_rows(Seq::empty(), indent, width).len() == 0,
{
    assert(metas.push(meta).drop_last() =~= metas);
    if meta.title.len() == width {
        assert(meta.title + repeated(' ', 0) =~= meta.title);
    }
    if meta.title.len() > width {
        assert(meta.title.take(width as int).len() == width);
    }
}

/// The list shows the pages of the index in their order.
pub proof fn a_list_shows_the_pages_in_order(m: IndexModel, i: int)
    requires
        0 <= i < m.order.len(),
    ensures
        metas_of(m).len() == m.order.len(),
        metas_of(m)[i] == m.pages[m.order[i]],
{
}

/// The column of titles is as wide as the longest title, but not narrower than
/// five nor wider than sixty-four characters.
pub proof fn the_column_of_titles_is_wide_enough(metas: Seq<MetaModel>, i: int)
    requires
        0 <= i < metas.len(),
    ensures
        5 <= title_width(metas) <= 64,
        metas[i].title.len() <= 64 ==> metas[i].title.len() <= title_width(metas),
        title_width(metas) > 5 ==> exists|k: int|
            0 <= k < metas.len() && (#[trigger] metas[k]).title.len() >= title_width(metas),
{
    lemma_longest(metas, i);
    if title_width(metas) > 5 {
        let k = lemma_longest_at(metas);
        assert(metas[k].title.len() >= title_width(metas));
    }
}

proof fn lemma_longest(metas: Seq<MetaModel>, i: int)
    requires
        0 <= i < metas.len(),
    ensures
        metas[i].title.len() <= longest_title(metas),
    decreases metas.len(),
{
    if i < metas.len() - 1 {
        lemma_longest(metas.drop_last(), i);
    }
}

proof fn lemma_longest_at(metas: Seq<MetaModel>) -> (k: int)
    requires
        metas.len() > 0,
    ensures
        0 <= k < metas.len(),
        metas[k].title.len() == longest_title(metas),
    decreases metas.len(),
{
    let n = metas.len() - 1;
    if metas.last().title.len() > longest_title(metas.drop_last()) || n == 0 {
        n
    } else {
        lemma_longest_at(metas.drop_last())
    }
}

/// One more tag is one more row at the end: its name and how often it occurs with
/// a tab between them, or the count in four columns before the name.
pub proof fn one_more_tag_is_one_more_row(counts: Seq<CountModel>, c: CountModel)
    ensures
        tag_tsv(counts.push(c)) == tag_tsv(counts) + (c.name + "\t"@ + decimal(c.count) + "\n"@),
        decimal(c.count).len() >= 4 ==> count_rows(counts.push(c)) == count_rows(counts) + ("  "@
            + decimal(c.count) + "  "@ + c.name + "\n"@),
        decimal(c.count).len() < 4 ==> count_rows(counts.push(c)) == count_rows(counts) + ("  "@ + (
        repeated(' ', (4 - decimal(c.count).len()) as nat) + decimal(c.count)) + "  "@ + c.name
            + "\n"@),
{
    assert(counts.push(c).drop_last() =~= counts);
}

/// What is said of the tags before they are listed, and where there are none.
pub proof fn the_summary_of_tags(counts: Seq<CountModel>, metas: Seq<MetaModel>, tag: Seq<char>)
    ensures
        counts.len() == 0 ==> tag_summary(counts) == "Tags ("@ + decimal(0) + " unique)\n"@
            + "  (none)\n"@,
        counts.len() > 0 ==> tag_summary(counts) == "Tags ("@ + decimal(counts.len())
            + " unique)\n"@ + count_rows(counts),
        metas.len() == 0 ==> tag_pages(metas, tag) == "Pages tagged \""@ + tag + "\" ("@ + decimal(
            0,
        ) + ")\n"@ + "  (none)\n"@,
        metas.len() > 0 ==> tag_pages(metas, tag) == "Pages tagged \""@ + tag + "\" ("@ + decimal(
            metas.len(),
        ) + ")\n"@ + plain_rows(metas, "  "@, title_width(metas)),
{
}

/// The tags that are counted are those of the pages, each as often as it stands
/// there.
pub proof fn the_tags_that_are_counted(metas: Seq<MetaModel>, meta: MetaModel)
    ensures
        all_tags(metas.push(meta)) == all_tags(metas) + meta.tags,
        all_tags(Seq::empty()).len() == 0,
{
    assert(metas.push(meta).drop_last() =~= metas);
}

/// A page is among those of a tag where one of its tags is that tag, whatever the
/// case, and the pages stand in their order.
pub proof fn the_pages_of_a_tag(metas: Seq<MetaModel>, meta: MetaModel, tag: Seq<char>)
    ensures
        (exists|k: int|
            0 <= k < meta.tags_lower.len() && #[trigger] meta.tags_lower[k] == lowercase(tag))
            ==> tagged_with(metas.push(meta), tag) == tagged_with(metas, tag).push(meta),
        !(exists|k: int|
            0 <= k < meta.tags_lower.len() && #[trigger] meta.tags_lower[k] == lowercase(tag))
            ==> tagged_with(metas.push(meta), tag) == tagged_with(metas, tag),
        tagged_with(Seq::empty(), tag).len() == 0,
{
    assert(metas.push(meta).drop_last() =~= metas);
}

/// A page that was found is one row of what was found: its title, its id, how it
/// matched and what was found in it; a page that was not found has none.
pub proof fn a_found_page_is_one_row(
    metas: Seq<MetaModel>,
    meta: MetaModel,
    hits: Seq<HitModel>,
    snippets: TextTable,
)
    ensures
        kind_of(hits, meta.id) is None ==> found_tsv(metas.push(meta), hits, snippets) == found_tsv(
            metas,
            hits,
            snippets,
        ),
        kind_of(hits, meta.id) is Some && !snippets.contains_key(meta.id) ==> found_tsv(
            metas.push(meta),
            hits,
            snippets,
        ) == found_tsv(metas, hits, snippets) + (meta.title + "\t"@ + meta.id + "\t"@ + kind_name(
            kind_of(hits, meta.id)->0,
        ) + "\t"@ + Seq::empty() + "\n"@),
        kind_of(hits, meta.id) is Some && snippets.contains_key(meta.id) ==> found_tsv(
            metas.push(meta),
            hits,
            snippets,
        ) == found_tsv(metas, hits, snippets) + (meta.title + "\t"@ + meta.id + "\t"@ + kind_name(
            kind_of(hits, meta.id)->0,
        ) + "\t"@ + replaced(snippets[meta.id], "\t"@, " "@) + "\n"@),
        kind_of(hits, meta.id) is None ==> found_rows(metas.push(meta), hits, snippets, 0)
            == found_rows(metas, hits, snippets, 0),
{
    assert(metas.push(meta).drop_last() =~= metas);
}

/// How a page was found is told by the hit on it.
pub proof fn the_kind_of_a_hit(hits: Seq<HitModel>, hit: HitModel, id: Seq<char>)
    ensures
        kind_of(hits.push(hit), hit.id) == Some(hit.kind),
        id != hit.id ==> kind_of(hits.push(hit), id) == kind_of(hits, id),
        kind_of(Seq::empty(), id) is None,
{
    assert(hits.push(hit).drop_last() =~= hits);
}

/// A found page is told with its id, its title, how it matched, its tags and what
/// was found in it.
pub proof fn a_found_page_is_told(meta: MetaModel, hit: HitModel, snippets: TextTable)
    ensures
        ({
            let r = found_record(meta, hit, snippets);
            &&& r.get("id"@) == Some(JsonModel::Str(hit.id))
            &&& r.get("title"@) == Some(JsonModel::Str(meta.title))
            &&& r.get("kind"@) == Some(JsonModel::Str(kind_name(hit.kind)))
            &&& r.get("tags"@) == Some(text_array(meta.tags))
            &&& snippets.contains_key(hit.id) ==> r.get("snippet"@) == Some(
                JsonModel::Str(snippets[hit.id]),
            )
            &&& !snippets.contains_key(hit.id) ==> r.get("snippet"@) == Some(
                JsonModel::Str(Seq::empty()),
            )
        }),
{
    reveal_strlit("id");
    reveal_strlit("title");
    reveal_strlit("kind");
    reveal_strlit("tags");
    reveal_strlit("snippet");
    assert("id"@.len() == 2 && "title"@.len() == 5 && "snippet"@.len() == 7);
    assert("kind"@.len() == 4 && "kind"@[0] == 'k' && "tags"@.len() == 4 && "tags"@[0] == 't');
    let members = found_record(meta, hit, snippets)->Object_0;
    the_first_member_of_a_name_is_got(members, 0, "id"@);
    the_first_member_of_a_name_is_got(members, 1, "title"@);
    the_first_member_of_a_name_is_got(members, 2, "kind"@);
    the_first_member_of_a_name_is_got(members, 3, "tags"@);
    the_first_member_of_a_name_is_got(members, 4, "snippet"@);
}

/// What is shown of a text that was found holds what was searched: it is taken from
/// where that stands, on one line, without white space at its ends.
pub proof fn what_is_shown_of_a_found_text(raw: Seq<char>, needle: Seq<char>)
    requires
        needle.len() > 0,
    ensures
        part_with(raw, needle) is Some <==> contains(lowercase(raw), needle),
        part_with(raw, needle) is Some ==> !contains_char(part_with(raw, needle)->0, '\n')
            && !contains_char(part_with(raw, needle)->0, '\r'),
{
    lemma_find_is_contains(lowercase(raw), needle);
    if part_with(raw, needle) is Some {
        let pos = find_from(lowercase(raw), 0, needle)->0;
        let at = raw_place(raw, 0, pos);
        let from = if at < 40 {
            0
        } else {
            at - 40
        };
        let to = if at + 80 > raw.len() {
            raw.len() as int
        } else {
            at + 80
        };
        let flat = flattened(raw.subrange(from, to));
        trimming_takes_the_white_space_around(flat);
        let (a, b) = choose|a: int, b: int|
            0 <= a <= b <= flat.len() && trimmed(flat) == #[trigger] flat.subrange(a, b) && (forall|
                k: int,
            |
                0 <= k < a || b <= k < flat.len() ==> whitespace(#[trigger] flat[k]));
        let part = trimmed(flat);
        assert forall|k: int| 0 <= k < part.len() implies part[k] != '\n' && part[k] != '\r' by {
            assert(part[k] == flat[a + k]);
        }
    }
}

} // verus!
