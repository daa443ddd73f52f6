//! The summary of a knowledge base.

use crate::check::{
    broken_json, broken_records, broken_rows, figure, findings, issue_rows, no_text, page_records,
    pages_json, push_broken_rows, push_figure, push_findings, push_issue_rows,
};
use crate::counts::{count_views, is_ranked, is_tally, ranked_counts, Count, CountModel};
use crate::index::{
    analysed, broken_views, issue_views, load_error_views, orphans_among, source_of, source_table,
    BrokenLink, BrokenModel, IndexModel, IssueModel, KnowledgeBaseIndex, LoadErrorModel,
    PageLoadError, PageSource, SourceModel, SourceTable,
};
use crate::json::{
    member_views, object_of, the_first_member_of_a_name_is_got, Json, JsonModel, MemberModel,
};
use crate::links::{push_title_rows, title_rows};
use crate::listing::{all_tags, collect_tag_counts, count_rows, metas_of, push_count_rows};
use crate::model::{MetaModel, PageMeta, ParseIssue};
use crate::number::decimal;
use crate::parse::{collect_types, or_text, types_in};
use crate::record::{field, meta_views, no_members, number, number_value, put, text_value};
use crate::strmap::StrMap;
use crate::text::{
    a_longer_text_holds_as_much, a_text_holds_itself, contains, copy_of, ends_with,
    lemma_views_push, text_ends_with, views,
};
use crate::time::{rfc3339_text, Timestamp};
use vstd::prelude::*;

verus! {

// ---------------------------------------------------------------------------
// What is known of a knowledge base
// ---------------------------------------------------------------------------

/// Whether a type looks like one of a snippet, and not of what holds snippets.
pub open spec fn snippet_type(typ: Seq<char>) -> bool {
    ends_with(typ, "Snippet"@) || ends_with(typ, "Rewrite"@) || ends_with(typ, "snippet"@)
}

/// Returns true if the type string looks like a snippet type (as opposed to
/// a container type like "page" or "snippets").
pub fn is_snippet_type(typ: &str) -> (b: bool)
    ensures
        b == snippet_type(typ@),
{
    text_ends_with(typ, "Snippet") || text_ends_with(typ, "Rewrite") || text_ends_with(
        typ,
        "snippet",
    )
}

/// The snippet types among some types.
pub open spec fn snippet_types_of(types: Seq<Seq<char>>) -> Seq<Seq<char>>
    decreases types.len(),
{
    if types.len() == 0 {
        Seq::empty()
    } else if snippet_type(types.last()) {
        snippet_types_of(types.drop_last()).push(types.last())
    } else {
        snippet_types_of(types.drop_last())
    }
}

/// The types in the files of some pages.
pub open spec fn types_of_pages(ids: Seq<Seq<char>>, sources: SourceTable) -> Seq<Seq<char>>
    decreases ids.len(),
{
    if ids.len() == 0 {
        Seq::empty()
    } else {
        types_of_pages(ids.drop_last(), sources) + match source_of(sources, ids.last()) {
            SourceModel::Raw(raw) => types_in(raw),
            SourceModel::Failed(_) => Seq::empty(),
        }
    }
}

fn keep_snippet_types(types: &Vec<String>) -> (kept: Vec<String>)
    ensures
        views(kept@) == snippet_types_of(views(types@)),
{
    let ghost all = views(types@);
    let mut kept: Vec<String> = Vec::new();
    let mut i: usize = 0;
    assert(all.take(0) =~= Seq::<Seq<char>>::empty());
    assert(views(kept@) =~= Seq::<Seq<char>>::empty());
    while i < types.len()
        invariant
            i <= types@.len(),
            all == views(types@),
            views(kept@) == snippet_types_of(all.take(i as int)),
        decreases types.len() - i,
    {
        assert(all.take(i as int + 1).drop_last() =~= all.take(i as int));
        assert(all.take(i as int + 1).last() == types@[i as int]@);
        if is_snippet_type(types[i].as_str()) {
            let t = copy_of(types[i].as_str());
            proof {
                lemma_views_push(kept@, t);
            }
            kept.push(t);
        }
        i += 1;
    }
    assert(all.take(i as int) =~= all);
    kept
}

fn gather_types(ids: &Vec<String>, sources: &StrMap<PageSource>) -> (types: Vec<String>)
    requires
        sources.wf(),
    ensures
        views(types@) == types_of_pages(views(ids@), source_table(*sources)),
{
    let ghost all = views(ids@);
    let ghost table = source_table(*sources);
    let mut types: Vec<String> = Vec::new();
    let mut i: usize = 0;
    assert(all.take(0) =~= Seq::<Seq<char>>::empty());
    assert(views(types@) =~= Seq::<Seq<char>>::empty());
    while i < ids.len()
        invariant
            i <= ids@.len(),
            sources.wf(),
            all == views(ids@),
            table == source_table(*sources),
            views(types@) == types_of_pages(all.take(i as int), table),
        decreases ids.len() - i,
    {
        assert(all.take(i as int + 1).drop_last() =~= all.take(i as int));
        assert(all.take(i as int + 1).last() == ids@[i as int]@);
        let ghost before = views(types@);
        assert(before + Seq::<Seq<char>>::empty() =~= before);
        if let Some(source) = sources.get(ids[i].as_str()) {
            if let PageSource::Raw(raw) = source {
                collect_types(raw, &mut types);
            }
        }
        i += 1;
    }
    assert(all.take(i as int) =~= all);
    types
}

/// What is only shown in detail.
#[derive(Debug)]
pub struct DetailedInfo {
    pub broken_links: Vec<BrokenLink>,
    pub orphan_ids: Vec<String>,
    pub snippet_types: Vec<Count>,
    /// The pages that could not be loaded, which are warned of.
    pub load_errors: Vec<PageLoadError>,
}

/// What is only shown in detail: the links that lead nowhere, the pages that
/// nothing links to, and how often each snippet type occurs.
pub fn compute_detailed_info(
    index: &KnowledgeBaseIndex,
    toc_page_id: &str,
    sources: &StrMap<PageSource>,
    existing: &Vec<String>,
) -> (detail: DetailedInfo)
    requires
        index.wf(),
        sources.wf(),
    ensures
        ({
            let found = analysed(
                index@.catalog(),
                source_table(*sources),
                views(existing@),
                index@.order,
            );
            let types = snippet_types_of(types_of_pages(index@.order, source_table(*sources)));
            &&& broken_views(detail.broken_links@) == found.broken_links
            &&& views(detail.orphan_ids@) == orphans_among(
                index@.order,
                found.linked_pages,
                Some(toc_page_id@),
            )
            &&& is_tally(count_views(detail.snippet_types@), types)
            &&& is_ranked(count_views(detail.snippet_types@))
            &&& load_error_views(detail.load_errors@) == found.load_errors
        }),
{
    let found = index.analyze_all(sources, existing);
    let orphan_ids = index.orphan_ids(&found.linked_pages, Some(toc_page_id));
    let ids = index.ordered_ids();
    let types = gather_types(&ids, sources);
    let kept = keep_snippet_types(&types);
    DetailedInfo {
        broken_links: found.broken_links,
        orphan_ids,
        snippet_types: ranked_counts(&kept),
        load_errors: found.load_errors,
    }
}

/// The earliest of the times of some pages.
pub open spec fn earliest(metas: Seq<MetaModel>) -> Option<Timestamp>
    decreases metas.len(),
{
    if metas.len() == 0 {
        None
    } else {
        match (earliest(metas.drop_last()), metas.last().updated_at) {
            (Some(a), Some(b)) => if b.earlier(a) {
                Some(b)
            } else {
                Some(a)
            },
            (None, Some(b)) => Some(b),
            (a, None) => a,
        }
    }
}

/// The latest of the times of some pages.
pub open spec fn latest(metas: Seq<MetaModel>) -> Option<Timestamp>
    decreases metas.len(),
{
    if metas.len() == 0 {
        None
    } else {
        match (latest(metas.drop_last()), metas.last().updated_at) {
            (Some(a), Some(b)) => if a.earlier(b) {
                Some(b)
            } else {
                Some(a)
            },
            (None, Some(b)) => Some(b),
            (a, None) => a,
        }
    }
}

/// No page is older than the earliest time or newer than the latest.
pub proof fn times_lie_in_the_range(metas: Seq<MetaModel>, i: int)
    requires
        0 <= i < metas.len(),
        metas[i].updated_at is Some,
    ensures
        earliest(metas) is Some,
        latest(metas) is Some,
        !(metas[i].updated_at->0).earlier(earliest(metas)->0),
        !(latest(metas)->0).earlier(metas[i].updated_at->0),
    decreases metas.len(),
{
    let before = metas.drop_last();
    if i < before.len() {
        assert(before[i] == metas[i]);
        times_lie_in_the_range(before, i);
    }
}

fn time_range(metas: &Vec<&PageMeta>) -> (range: (Option<Timestamp>, Option<Timestamp>))
    ensures
        range.0 == earliest(meta_views(metas@)),
        range.1 == latest(meta_views(metas@)),
{
    let ghost all = meta_views(metas@);
    let mut low: Option<Timestamp> = None;
    let mut high: Option<Timestamp> = None;
    let mut i: usize = 0;
    assert(all.take(0) =~= Seq::<MetaModel>::empty());
    while i < metas.len()
        invariant
            i <= metas@.len(),
            all == meta_views(metas@),
            low == earliest(all.take(i as int)),
            high == latest(all.take(i as int)),
        decreases metas.len() - i,
    {
        assert(all.take(i as int + 1).drop_last() =~= all.take(i as int));
        assert(all.take(i as int + 1).last() == metas@[i as int]@);
        if let Some(t) = metas[i].updated_at {
            low = match low {
                Some(a) => if t.is_earlier(a) {
                    Some(t)
                } else {
                    Some(a)
                },
                None => Some(t),
            };
            high = match high {
                Some(a) => if a.is_earlier(t) {
                    Some(t)
                } else {
                    Some(a)
                },
                None => Some(t),
            };
        }
        i += 1;
    }
    assert(all.take(i as int) =~= all);
    (low, high)
}

/// What is known of a knowledge base.
#[derive(Debug)]
pub struct KbInfo<'a> {
    pub path: String,
    pub name: String,
    pub uuid: String,
    pub schema: String,
    pub table_of_contents: String,
    pub page_count: usize,
    pub index_issues: &'a Vec<ParseIssue>,
    pub min_updated: Option<Timestamp>,
    pub max_updated: Option<Timestamp>,
    pub tag_counts: Vec<Count>,
    pub detailed: Option<DetailedInfo>,
    pub index: &'a KnowledgeBaseIndex,
}

/// What is only shown in detail.
#[verifier::ext_equal]
pub struct DetailModel {
    pub broken: Seq<BrokenModel>,
    pub orphans: Seq<Seq<char>>,
    pub types: Seq<CountModel>,
    pub errors: Seq<LoadErrorModel>,
}

/// What a [`KbInfo`] holds.
#[verifier::ext_equal]
pub struct InfoModel {
    pub path: Seq<char>,
    pub name: Seq<char>,
    pub uuid: Seq<char>,
    pub schema: Seq<char>,
    pub table_of_contents: Seq<char>,
    pub pages: nat,
    pub issues: Seq<IssueModel>,
    pub min_updated: Option<Timestamp>,
    pub max_updated: Option<Timestamp>,
    pub tags: Seq<CountModel>,
    pub detail: Option<DetailModel>,
    pub index: IndexModel,
}

impl View for DetailedInfo {
    type V = DetailModel;

    open spec fn view(&self) -> DetailModel {
        DetailModel {
            broken: broken_views(self.broken_links@),
            orphans: views(self.orphan_ids@),
            types: count_views(self.snippet_types@),
            errors: load_error_views(self.load_errors@),
        }
    }
}

impl<'a> View for KbInfo<'a> {
    type V = InfoModel;

    open spec fn view(&self) -> InfoModel {
        InfoModel {
            path: self.path@,
            name: self.name@,
            uuid: self.uuid@,
            schema: self.schema@,
            table_of_contents: self.table_of_contents@,
            pages: self.page_count as nat,
            issues: issue_views(self.index_issues@),
            min_updated: self.min_updated,
            max_updated: self.max_updated,
            tags: count_views(self.tag_counts@),
            detail: match self.detailed {
                Some(d) => Some(d@),
                None => None,
            },
            index: self.index@,
        }
    }
}

/// A text of the properties of a knowledge base.
pub open spec fn property(props: Option<JsonModel>, key: Seq<char>, other: Seq<char>) -> Seq<char> {
    match props {
        Some(v) => or_text(v.get_str(key), other),
        None => other,
    }
}

pub open spec fn props_view(props: Option<&Json>) -> Option<JsonModel> {
    match props {
        Some(v) => Some(v@),
        None => None,
    }
}

/// A text of the properties of a knowledge base.
pub fn property_of(props: Option<&Json>, key: &str, other: &str) -> (text: String)
    ensures
        text@ == property(props_view(props), key@, other@),
{
    match props {
        Some(v) => match v.get_str(key) {
            Some(s) => copy_of(s),
            None => copy_of(other),
        },
        None => copy_of(other),
    }
}

/// What is known of a knowledge base, with or without details.
pub fn kb_info<'a>(
    kb_path: &str,
    index: &'a KnowledgeBaseIndex,
    issues: &'a Vec<ParseIssue>,
    props: Option<&Json>,
    detailed: Option<DetailedInfo>,
) -> (info: KbInfo<'a>)
    requires
        index.wf(),
    ensures
        ({
            let metas = metas_of(index@);
            let p = props_view(props);
            &&& info@ == (InfoModel {
                path: kb_path@,
                name: property(p, "databaseName"@, "<unknown>"@),
                uuid: property(p, "uuid"@, "<unknown>"@),
                schema: property(p, "schema"@, "<unknown>"@),
                table_of_contents: property(p, "tableOfContents"@, "<none>"@),
                pages: index@.order.len(),
                issues: issue_views(issues@),
                min_updated: earliest(metas),
                max_updated: latest(metas),
                tags: info@.tags,
                detail: match detailed {
                    Some(d) => Some(d@),
                    None => None,
                },
                index: index@,
            })
            &&& is_tally(info@.tags, all_tags(metas))
            &&& is_ranked(info@.tags)
            &&& *info.index == *index
        }),
{
    let metas = index.sorted_pages();
    assert(meta_views(metas@) =~= metas_of(index@));
    let (min_updated, max_updated) = time_range(&metas);
    KbInfo {
        path: copy_of(kb_path),
        name: property_of(props, "databaseName", "<unknown>"),
        uuid: property_of(props, "uuid", "<unknown>"),
        schema: property_of(props, "schema", "<unknown>"),
        table_of_contents: property_of(props, "tableOfContents", "<none>"),
        page_count: index.page_count(),
        index_issues: issues,
        min_updated,
        max_updated,
        tag_counts: collect_tag_counts(&metas),
        detailed,
        index,
    }
}

// ---------------------------------------------------------------------------
// Text
// ---------------------------------------------------------------------------

/// A line of a name and a text.
pub open spec fn named(name: Seq<char>, text: Seq<char>) -> Seq<char> {
    "  "@ + name + ": "@ + text + "\n"@
}

/// The two ends of a range of times, where both can be written.
pub open spec fn range_texts(low: Option<Timestamp>, high: Option<Timestamp>) -> Option<
    (Seq<char>, Seq<char>),
> {
    match (low, high) {
        (Some(a), Some(b)) => match (
            rfc3339_text(a.seconds, a.nanos, a.offset),
            rfc3339_text(b.seconds, b.nanos, b.offset),
        ) {
            (Some(s), Some(t)) => Some((s, t)),
            _ => None,
        },
        _ => None,
    }
}

/// The line of the range of times.
pub open spec fn range_line(low: Option<Timestamp>, high: Option<Timestamp>) -> Seq<char> {
    named(
        "updated_range"@,
        match range_texts(low, high) {
            Some((s, t)) => s + " .. "@ + t,
            None => "<none>"@,
        },
    )
}

/// The lines that are always shown.
pub open spec fn info_head(i: InfoModel) -> Seq<char> {
    "Knowledge Base\n"@ + named("path"@, i.path) + named("name"@, i.name) + named("uuid"@, i.uuid)
        + named("schema"@, i.schema) + named("table_of_contents"@, i.table_of_contents) + figure(
        "pages"@,
        i.pages,
    ) + figure("unique_tags"@, i.tags.len()) + figure("index_issues"@, i.issues.len())
        + range_line(i.min_updated, i.max_updated)
}

/// The files that could not be read, where there are any.
pub open spec fn info_issues(issues: Seq<IssueModel>) -> Seq<char> {
    if issues.len() == 0 {
        Seq::empty()
    } else {
        "\nIndex Issues:\n"@ + issue_rows("  - "@, issues)
    }
}

/// The details.
pub open spec fn info_detail(i: InfoModel) -> Seq<char> {
    match i.detail {
        Some(d) => findings("Broken Links"@, d.broken.len(), broken_rows("  - "@, d.broken))
            + findings("Orphan Pages"@, d.orphans.len(), title_rows(i.index, "  - "@, d.orphans))
            + findings("Tag Distribution"@, i.tags.len(), count_rows(i.tags)) + findings(
            "Snippet Types"@,
            d.types.len(),
            count_rows(d.types),
        ),
        None => Seq::empty(),
    }
}

/// What is known of a knowledge base, as text.
pub open spec fn info_text(i: InfoModel) -> Seq<char> {
    info_head(i) + info_issues(i.issues) + info_detail(i)
}

fn push_named(out: &mut String, name: &str, text: &str)
    ensures
        final(out)@ == old(out)@ + named(name@, text@),
{
    let ghost start = out@;
    out.push_str("  ");
    out.push_str(name);
    out.push_str(": ");
    out.push_str(text);
    out.push_str("\n");
    assert(out@ =~= start + named(name@, text@));
}

pub open spec fn range_view(r: Option<(String, String)>) -> Option<(Seq<char>, Seq<char>)> {
    match r {
        Some((a, b)) => Some((a@, b@)),
        None => None,
    }
}

fn write_range(low: Option<Timestamp>, high: Option<Timestamp>) -> (range: Option<
    (String, String),
>)
    ensures
        range_view(range) == range_texts(low, high),
{
    match (low, high) {
        (Some(a), Some(b)) => match (a.to_rfc3339(), b.to_rfc3339()) {
            (Some(s), Some(t)) => Some((s, t)),
            _ => None,
        },
        _ => None,
    }
}

fn push_range(out: &mut String, low: Option<Timestamp>, high: Option<Timestamp>)
    ensures
        final(out)@ == old(out)@ + range_line(low, high),
{
    match write_range(low, high) {
        Some((s, t)) => {
            let mut text = copy_of(s.as_str());
            text.push_str(" .. ");
            text.push_str(t.as_str());
            assert(text@ =~= s@ + " .. "@ + t@);
            push_named(out, "updated_range", text.as_str());
        },
        None => push_named(out, "updated_range", "<none>"),
    }
}

fn write_head(info: &KbInfo) -> (out: String)
    ensures
        out@ == info_head(info@),
{
    let mut out = copy_of("Knowledge Base\n");
    push_named(&mut out, "path", info.path.as_str());
    push_named(&mut out, "name", info.name.as_str());
    push_named(&mut out, "uuid", info.uuid.as_str());
    push_named(&mut out, "schema", info.schema.as_str());
    push_named(&mut out, "table_of_contents", info.table_of_contents.as_str());
    push_figure(&mut out, "pages", info.page_count);
    push_figure(&mut out, "unique_tags", info.tag_counts.len());
    push_figure(&mut out, "index_issues", info.index_issues.len());
    push_range(&mut out, info.min_updated, info.max_updated);
    out
}

fn push_issues(out: &mut String, issues: &Vec<ParseIssue>)
    ensures
        final(out)@ == old(out)@ + info_issues(issue_views(issues@)),
{
    let ghost start = out@;
    if issues.len() > 0 {
        out.push_str("\nIndex Issues:\n");
        push_issue_rows(out, "  - ", issues);
    }
    assert(out@ =~= start + info_issues(issue_views(issues@)));
}

fn push_detail(out: &mut String, info: &KbInfo)
    requires
        info.index.wf(),
    ensures
        final(out)@ == old(out)@ + info_detail(info@),
{
    let ghost start = out@;
    let ghost i = info@;
    if let Some(d) = &info.detailed {
        let mut broken = no_text();
        push_broken_rows(&mut broken, "  - ", &d.broken_links);
        let mut orphans = no_text();
        push_title_rows(&mut orphans, info.index, "  - ", &d.orphan_ids);
        let mut tags = no_text();
        push_count_rows(&mut tags, &info.tag_counts);
        let mut types = no_text();
        push_count_rows(&mut types, &d.snippet_types);
        proof {
            assert(broken@ =~= broken_rows("  - "@, d@.broken));
            assert(orphans@ =~= title_rows(i.index, "  - "@, d@.orphans));
            assert(tags@ =~= count_rows(i.tags));
            assert(types@ =~= count_rows(d@.types));
        }
        let mut detail = no_text();
        push_findings(&mut detail, "Broken Links", d.broken_links.len(), broken.as_str());
        assert(detail@ =~= findings("Broken Links"@, d@.broken.len(), broken@));
        push_findings(&mut detail, "Orphan Pages", d.orphan_ids.len(), orphans.as_str());
        push_findings(&mut detail, "Tag Distribution", info.tag_counts.len(), tags.as_str());
        push_findings(&mut detail, "Snippet Types", d.snippet_types.len(), types.as_str());
        assert(detail@ == info_detail(i));
        out.push_str(detail.as_str());
    } else {
        assert(start + info_detail(i) =~= start);
    }
}

/// What is known of a knowledge base, as text.
pub fn kb_info_text(info: &KbInfo) -> (out: String)
    requires
        info.index.wf(),
    ensures
        out@ == info_text(info@),
{
    let mut out = write_head(info);
    push_issues(&mut out, info.index_issues);
    push_detail(&mut out, info);
    out
}

// ---------------------------------------------------------------------------
// JSON
// ---------------------------------------------------------------------------

/// Counts as an object.
pub open spec fn count_object(counts: Seq<CountModel>) -> JsonModel {
    JsonModel::Object(
        Seq::new(counts.len(), |i: int| field(counts[i].name, number(counts[i].count))),
    )
}

/// The range of times.
pub open spec fn range_object(low: Option<Timestamp>, high: Option<Timestamp>) -> JsonModel {
    match range_texts(low, high) {
        Some((s, t)) => JsonModel::Object(
            seq![field("min"@, JsonModel::Str(s)), field("max"@, JsonModel::Str(t))],
        ),
        None => JsonModel::Null,
    }
}

/// The members that are always there.
pub open spec fn head_members(i: InfoModel) -> Seq<MemberModel> {
    seq![
        field("path"@, JsonModel::Str(i.path)),
        field("name"@, JsonModel::Str(i.name)),
        field("uuid"@, JsonModel::Str(i.uuid)),
        field("schema"@, JsonModel::Str(i.schema)),
        field("table_of_contents"@, JsonModel::Str(i.table_of_contents)),
        field("pages"@, number(i.pages)),
        field("unique_tags"@, number(i.tags.len())),
        field("index_issues"@, number(i.issues.len())),
        field("updated_range"@, range_object(i.min_updated, i.max_updated)),
    ]
}

/// The members of the details.
pub open spec fn detail_members(i: InfoModel) -> Seq<MemberModel> {
    match i.detail {
        Some(d) => seq![
            field("broken_links"@, broken_records(d.broken)),
            field("orphan_pages"@, page_records(i.index, d.orphans)),
            field("tag_distribution"@, count_object(i.tags)),
            field("snippet_types"@, count_object(d.types)),
        ],
        None => Seq::empty(),
    }
}

/// What is known of a knowledge base, as an object.
pub open spec fn info_record(i: InfoModel) -> JsonModel {
    JsonModel::Object(head_members(i) + detail_members(i))
}

fn counts_json(counts: &Vec<Count>) -> (j: Json)
    ensures
        j@ == count_object(count_views(counts@)),
{
    let ghost all = count_object(count_views(counts@))->Object_0;
    let mut members = no_members();
    let mut i: usize = 0;
    assert(all.take(0) =~= Seq::<MemberModel>::empty());
    while i < counts.len()
        invariant
            i <= counts@.len(),
            all == count_object(count_views(counts@))->Object_0,
            member_views(members@) == all.take(i as int),
        decreases counts.len() - i,
    {
        put(&mut members, counts[i].name.as_str(), number_value(counts[i].count));
        i += 1;
        assert(all.take(i as int) =~= all.take(i - 1).push(all[i - 1]));
    }
    assert(all.take(i as int) =~= all);
    object_of(members)
}

fn range_json(low: Option<Timestamp>, high: Option<Timestamp>) -> (j: Json)
    ensures
        j@ == range_object(low, high),
{
    match write_range(low, high) {
        Some((s, t)) => {
            let mut members = no_members();
            put(&mut members, "min", Json::Str(s));
            put(&mut members, "max", Json::Str(t));
            assert(member_views(members@) =~= range_object(low, high)->Object_0);
            object_of(members)
        },
        None => Json::Null,
    }
}

/// What is known of a knowledge base, as JSON.
pub fn kb_info_json(info: &KbInfo) -> (j: Json)
    requires
        info.index.wf(),
    ensures
        j@ == info_record(info@),
{
    let mut members = no_members();
    put(&mut members, "path", text_value(info.path.as_str()));
    put(&mut members, "name", text_value(info.name.as_str()));
    put(&mut members, "uuid", text_value(info.uuid.as_str()));
    put(&mut members, "schema", text_value(info.schema.as_str()));
    put(&mut members, "table_of_contents", text_value(info.table_of_contents.as_str()));
    put(&mut members, "pages", number_value(info.page_count));
    put(&mut members, "unique_tags", number_value(info.tag_counts.len()));
    put(&mut members, "index_issues", number_value(info.index_issues.len()));
    put(&mut members, "updated_range", range_json(info.min_updated, info.max_updated));
    assert(member_views(members@) =~= head_members(info@));
    if let Some(d) = &info.detailed {
        put(&mut members, "broken_links", broken_json(&d.broken_links));
        put(&mut members, "orphan_pages", pages_json(info.index, &d.orphan_ids));
        put(&mut members, "tag_distribution", counts_json(&info.tag_counts));
        put(&mut members, "snippet_types", counts_json(&d.snippet_types));
    }
    assert(member_views(members@) =~= head_members(info@) + detail_members(info@));
    object_of(members)
}

// ---------------------------------------------------------------------------
// What is said of a knowledge base
// ---------------------------------------------------------------------------

/// What is said first: where the knowledge base lies, what it is called, and how
/// many pages, tags and issues it has.
pub proof fn the_facts_of_a_knowledge_base(i: InfoModel)
    ensures
        contains(info_text(i), "  "@ + "path"@ + ": "@ + i.path + "\n"@),
        contains(info_text(i), "  "@ + "name"@ + ": "@ + i.name + "\n"@),
        contains(info_text(i), "  "@ + "uuid"@ + ": "@ + i.uuid + "\n"@),
        contains(info_text(i), "  "@ + "schema"@ + ": "@ + i.schema + "\n"@),
        contains(
            info_text(i),
            "  "@ + "table_of_contents"@ + ": "@ + i.table_of_contents + "\n"@,
        ),
        contains(info_text(i), "  "@ + "pages"@ + ": "@ + decimal(i.pages) + "\n"@),
        contains(info_text(i), "  "@ + "unique_tags"@ + ": "@ + decimal(i.tags.len()) + "\n"@),
        contains(info_text(i), "  "@ + "index_issues"@ + ": "@ + decimal(i.issues.len()) + "\n"@),
{
    let h = "Knowledge Base\n"@;
    let a = named("path"@, i.path);
    let b = named("name"@, i.name);
    let c = named("uuid"@, i.uuid);
    let d = named("schema"@, i.schema);
    let e = named("table_of_contents"@, i.table_of_contents);
    let f = figure("pages"@, i.pages);
    let g = figure("unique_tags"@, i.tags.len());
    let k = figure("index_issues"@, i.issues.len());
    lemma_facts_before(i, h + a, a);
    a_text_holds_itself(a);
    a_longer_text_holds_as_much(h, a, a);
    lemma_next_fact(h + a, b);
    lemma_next_fact(h + a + b, c);
    lemma_next_fact(h + a + b + c, d);
    lemma_next_fact(h + a + b + c + d, e);
    lemma_next_fact(h + a + b + c + d + e, f);
    lemma_next_fact(h + a + b + c + d + e + f, g);
    lemma_next_fact(h + a + b + c + d + e + f + g, k);
    lemma_facts_before(i, h + a + b, b);
    lemma_facts_before(i, h + a + b + c, c);
    lemma_facts_before(i, h + a + b + c + d, d);
    lemma_facts_before(i, h + a + b + c + d + e, e);
    lemma_facts_before(i, h + a + b + c + d + e + f, f);
    lemma_facts_before(i, h + a + b + c + d + e + f + g, g);
    lemma_facts_before(i, h + a + b + c + d + e + f + g + k, k);
}

proof fn lemma_next_fact(before: Seq<char>, part: Seq<char>)
    ensures
        contains(before + part, part),
{
    a_text_holds_itself(part);
    a_longer_text_holds_as_much(before, part, part);
}

proof fn lemma_facts_before(i: InfoModel, front: Seq<char>, pat: Seq<char>)
    ensures
        ({
            let h = "Knowledge Base\n"@;
            let a = named("path"@, i.path);
            let b = named("name"@, i.name);
            let c = named("uuid"@, i.uuid);
            let d = named("schema"@, i.schema);
            let e = named("table_of_contents"@, i.table_of_contents);
            let f = figure("pages"@, i.pages);
            let g = figure("unique_tags"@, i.tags.len());
            let k = figure("index_issues"@, i.issues.len());
            contains(front, pat) && (front == h + a || front == h + a + b || front == h + a + b + c
                || front == h + a + b + c + d || front == h + a + b + c + d + e || front == h + a
                + b + c + d + e + f || front == h + a + b + c + d + e + f + g || front == h + a + b
                + c + d + e + f + g + k) ==> contains(info_text(i), pat)
        }),
{
    let h = "Knowledge Base\n"@;
    let a = named("path"@, i.path);
    let b = named("name"@, i.name);
    let c = named("uuid"@, i.uuid);
    let d = named("schema"@, i.schema);
    let e = named("table_of_contents"@, i.table_of_contents);
    let f = figure("pages"@, i.pages);
    let g = figure("unique_tags"@, i.tags.len());
    let k = figure("index_issues"@, i.issues.len());
    let range = range_line(i.min_updated, i.max_updated);
    if contains(front, pat) {
        if contains(h + a, pat) {
            a_longer_text_holds_as_much(h + a, b, pat);
        }
        if contains(h + a + b, pat) {
            a_longer_text_holds_as_much(h + a + b, c, pat);
        }
        if contains(h + a + b + c, pat) {
            a_longer_text_holds_as_much(h + a + b + c, d, pat);
        }
        if contains(h + a + b + c + d, pat) {
            a_longer_text_holds_as_much(h + a + b + c + d, e, pat);
        }
        if contains(h + a + b + c + d + e, pat) {
            a_longer_text_holds_as_much(h + a + b + c + d + e, f, pat);
        }
        if contains(h + a + b + c + d + e + f, pat) {
            a_longer_text_holds_as_much(h + a + b + c + d + e + f, g, pat);
        }
        if contains(h + a + b + c + d + e + f + g, pat) {
            a_longer_text_holds_as_much(h + a + b + c + d + e + f + g, k, pat);
        }
        if contains(h + a + b + c + d + e + f + g + k, pat) {
            a_longer_text_holds_as_much(h + a + b + c + d + e + f + g + k, range, pat);
            a_longer_text_holds_as_much(info_head(i), info_issues(i.issues), pat);
            a_longer_text_holds_as_much(info_head(i) + info_issues(i.issues), info_detail(i), pat);
        }
    }
}

/// The times of the pages are given as the first and the last of them, and as
/// none where there are none.
pub proof fn the_times_of_a_knowledge_base(low: Option<Timestamp>, high: Option<Timestamp>)
    ensures
        low is None || high is None ==> range_line(low, high) == "  "@ + "updated_range"@ + ": "@
            + "<none>"@ + "\n"@,
        low is Some && high is Some && rfc3339_text(
            (low->0).seconds,
            (low->0).nanos,
            (low->0).offset,
        ) is Some && rfc3339_text((high->0).seconds, (high->0).nanos, (high->0).offset) is Some
            ==> range_line(low, high) == "  "@ + "updated_range"@ + ": "@ + (rfc3339_text(
            (low->0).seconds,
            (low->0).nanos,
            (low->0).offset,
        )->0 + " .. "@ + rfc3339_text((high->0).seconds, (high->0).nanos, (high->0).offset)->0)
            + "\n"@,
{
}

/// A property of the knowledge base is the text under its name, and something else
/// where there is none.
pub proof fn the_properties_of_a_knowledge_base(
    props: JsonModel,
    key: Seq<char>,
    other: Seq<char>,
    s: Seq<char>,
)
    ensures
        props.get(key) == Some(JsonModel::Str(s)) ==> property(Some(props), key, other) == s,
        props.get(key) is None ==> property(Some(props), key, other) == other,
        property(None, key, other) == other,
{
}

/// The types of snippets are those that their names say are; every page that was
/// read adds its own, in order.
pub proof fn the_types_of_snippets(
    types: Seq<Seq<char>>,
    t: Seq<char>,
    ids: Seq<Seq<char>>,
    id: Seq<char>,
    sources: SourceTable,
)
    ensures
        ends_with(t, "Snippet"@) || ends_with(t, "Rewrite"@) || ends_with(t, "snippet"@)
            ==> snippet_types_of(types.push(t)) == snippet_types_of(types).push(t),
        !ends_with(t, "Snippet"@) && !ends_with(t, "Rewrite"@) && !ends_with(t, "snippet"@)
            ==> snippet_types_of(types.push(t)) == snippet_types_of(types),
        sources.contains_key(id) && sources[id] is Raw ==> types_of_pages(ids.push(id), sources)
            == types_of_pages(ids, sources) + types_in(sources[id]->Raw_0),
        sources.contains_key(id) && sources[id] is Failed ==> types_of_pages(ids.push(id), sources)
            == types_of_pages(ids, sources),
        !sources.contains_key(id) ==> types_of_pages(ids.push(id), sources) == types_of_pages(
            ids,
            sources,
        ),
{
    assert(types.push(t).drop_last() =~= types);
    assert(ids.push(id).drop_last() =~= ids);
    if !(sources.contains_key(id) && sources[id] is Raw) {
        assert(types_of_pages(ids, sources) + Seq::<Seq<char>>::empty() =~= types_of_pages(
            ids,
            sources,
        ));
    }
}

/// The record of a knowledge base holds the same facts under their names.
pub proof fn the_record_of_a_knowledge_base(i: InfoModel)
    ensures
        ({
            let r = info_record(i);
            &&& r.get("path"@) == Some(JsonModel::Str(i.path))
            &&& r.get("name"@) == Some(JsonModel::Str(i.name))
            &&& r.get("uuid"@) == Some(JsonModel::Str(i.uuid))
            &&& r.get("schema"@) == Some(JsonModel::Str(i.schema))
            &&& r.get("table_of_contents"@) == Some(JsonModel::Str(i.table_of_contents))
            &&& r.get("pages"@) == Some(number(i.pages))
            &&& r.get("unique_tags"@) == Some(number(i.tags.len()))
            &&& r.get("index_issues"@) == Some(number(i.issues.len()))
            &&& r.get("updated_range"@) == Some(range_object(i.min_updated, i.max_updated))
        }),
{
    lemma_fact_names();
    let members = info_record(i)->Object_0;
    the_first_member_of_a_name_is_got(members, 0, "path"@);
    the_first_member_of_a_name_is_got(members, 1, "name"@);
    the_first_member_of_a_name_is_got(members, 2, "uuid"@);
    the_first_member_of_a_name_is_got(members, 3, "schema"@);
    the_first_member_of_a_name_is_got(members, 4, "table_of_contents"@);
    the_first_member_of_a_name_is_got(members, 5, "pages"@);
    the_first_member_of_a_name_is_got(members, 6, "unique_tags"@);
    the_first_member_of_a_name_is_got(members, 7, "index_issues"@);
    the_first_member_of_a_name_is_got(members, 8, "updated_range"@);
}

proof fn lemma_fact_names()
    ensures
        "path"@.len() == 4 && "path"@[0] == 'p',
        "name"@.len() == 4 && "name"@[0] == 'n',
        "uuid"@.len() == 4 && "uuid"@[0] == 'u',
        "schema"@.len() == 6,
        "table_of_contents"@.len() == 17,
        "pages"@.len() == 5,
        "unique_tags"@.len() == 11,
        "index_issues"@.len() == 12,
        "updated_range"@.len() == 13,
        "broken_links"@.len() == 12 && "broken_links"@[0] == 'b',
{
    reveal_strlit("path");
    reveal_strlit("name");
    reveal_strlit("uuid");
    reveal_strlit("schema");
    reveal_strlit("table_of_contents");
    reveal_strlit("pages");
    reveal_strlit("unique_tags");
    reveal_strlit("index_issues");
    reveal_strlit("updated_range");
    reveal_strlit("broken_links");
}

} // verus!
