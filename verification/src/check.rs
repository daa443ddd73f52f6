//! The check of a knowledge base: what is wrong with it, as text and as JSON.

use crate::index::{
    broken_views, issue_views, load_error_views, missing_views, BrokenLink, BrokenModel,
    DuplicateId, DuplicateTitle, IndexModel, IssueModel, KnowledgeBaseIndex, LoadErrorModel,
    MissingAttachment, MissingModel, PageLoadError,
};
use crate::json::{
    array_of, array_of_texts, json_views, member_views, object_of, text_array,
    the_first_member_of_a_name_is_got, Json, JsonModel,
};
use crate::links::{node_object, page_objects, push_title_rows, title_of, title_rows};
use crate::model::ParseIssue;
use crate::number::{decimal, push_decimal};
use crate::record::{field, no_members, put, text_value};
use crate::text::{a_longer_text_holds_as_much, a_text_holds_itself, contains, copy_of, views};
use vstd::prelude::*;

verus! {

/// Everything that a check found.
#[derive(Debug)]
pub struct CheckReport<'a> {
    pub index: &'a KnowledgeBaseIndex,
    pub broken_links: &'a Vec<BrokenLink>,
    pub orphan_ids: &'a Vec<String>,
    pub load_errors: &'a Vec<PageLoadError>,
    pub index_issues: &'a Vec<ParseIssue>,
    pub duplicate_titles: &'a Vec<DuplicateTitle>,
    pub missing_attachments: &'a Vec<MissingAttachment>,
}

/// Pages that share a title.
#[verifier::ext_equal]
pub struct DupeModel {
    pub title: Seq<char>,
    pub ids: Seq<Seq<char>>,
}

/// An id that several files claim.
#[verifier::ext_equal]
pub struct DupeIdModel {
    pub id: Seq<char>,
    pub paths: Seq<Seq<char>>,
}

/// What a [`CheckReport`] holds.
#[verifier::ext_equal]
pub struct ReportModel {
    pub index: IndexModel,
    pub broken: Seq<BrokenModel>,
    pub orphans: Seq<Seq<char>>,
    pub errors: Seq<LoadErrorModel>,
    pub issues: Seq<IssueModel>,
    pub dupes: Seq<DupeModel>,
    pub missing: Seq<MissingModel>,
    pub dupe_ids: Seq<DupeIdModel>,
}

/// What is said of ids that several files claim.
pub open spec fn dupe_id_views(v: Seq<DuplicateId>) -> Seq<DupeIdModel> {
    Seq::new(v.len(), |i: int| DupeIdModel { id: v[i].id@, paths: views(v[i].paths@) })
}

pub open spec fn dupe_views(v: Seq<DuplicateTitle>) -> Seq<DupeModel> {
    Seq::new(v.len(), |i: int| DupeModel { title: v[i].title@, ids: views(v[i].page_ids@) })
}

impl<'a> View for CheckReport<'a> {
    type V = ReportModel;

    open spec fn view(&self) -> ReportModel {
        ReportModel {
            index: self.index@,
            broken: broken_views(self.broken_links@),
            orphans: views(self.orphan_ids@),
            errors: load_error_views(self.load_errors@),
            issues: issue_views(self.index_issues@),
            dupes: dupe_views(self.duplicate_titles@),
            missing: missing_views(self.missing_attachments@),
            dupe_ids: dupe_id_views(self.index.duplicates()),
        }
    }
}

impl ReportModel {
    /// Whether nothing is wrong.
    pub open spec fn is_ok(self) -> bool {
        &&& self.broken.len() == 0
        &&& self.orphans.len() == 0
        &&& self.errors.len() == 0
        &&& self.issues.len() == 0
        &&& self.dupes.len() == 0
        &&& self.missing.len() == 0
        &&& self.dupe_ids.len() == 0
    }
}

/// A check finds nothing wrong exactly where there is nothing of any kind to
/// report, an id that several files claim among them.
pub proof fn any_finding_fails_the_check(r: ReportModel)
    ensures
        r.is_ok() == (r.broken.len() + r.orphans.len() + r.errors.len() + r.issues.len()
            + r.dupes.len() + r.missing.len() + r.dupe_ids.len() == 0),
{
}

impl<'a> CheckReport<'a> {
    /// Whether nothing is wrong.
    pub fn ok(&self) -> (ok: bool)
        ensures
            ok == self@.is_ok(),
    {
        self.broken_links.len() == 0 && self.orphan_ids.len() == 0 && self.load_errors.len() == 0
            && self.index_issues.len() == 0 && self.duplicate_titles.len() == 0
            && self.missing_attachments.len() == 0 && self.index.find_duplicate_ids().len() == 0
    }
}

// ---------------------------------------------------------------------------
// Text
// ---------------------------------------------------------------------------

/// A heading with a number, after an empty line.
pub open spec fn heading(title: Seq<char>, n: nat) -> Seq<char> {
    "\n"@ + title + " ("@ + decimal(n) + "):\n"@
}

/// Rows, or a remark where there are none.
pub open spec fn rows_or_none(n: nat, rows: Seq<char>) -> Seq<char> {
    if n == 0 {
        "  (none)\n"@
    } else {
        rows
    }
}

/// A line of a name and a number.
pub open spec fn figure(name: Seq<char>, n: nat) -> Seq<char> {
    "  "@ + name + ": "@ + decimal(n) + "\n"@
}

/// Links that lead nowhere, each on a line behind `indent`.
pub open spec fn broken_rows(indent: Seq<char>, broken: Seq<BrokenModel>) -> Seq<char>
    decreases broken.len(),
{
    if broken.len() == 0 {
        Seq::empty()
    } else {
        broken_rows(indent, broken.drop_last()) + (indent + broken.last().source_title + " -> "@
            + broken.last().target + "\n"@)
    }
}

/// Ids or paths, each on a line.
pub open spec fn listed_ids(ids: Seq<Seq<char>>) -> Seq<char>
    decreases ids.len(),
{
    if ids.len() == 0 {
        Seq::empty()
    } else {
        listed_ids(ids.drop_last()) + ("    - "@ + ids.last() + "\n"@)
    }
}

/// Titles that several pages have, with the ids of the pages.
pub open spec fn dupe_rows(dupes: Seq<DupeModel>) -> Seq<char>
    decreases dupes.len(),
{
    if dupes.len() == 0 {
        Seq::empty()
    } else {
        let d = dupes.last();
        dupe_rows(dupes.drop_last()) + ("  \""@ + d.title + "\" ("@ + decimal(d.ids.len())
            + " pages)\n"@ + listed_ids(d.ids))
    }
}

/// Ids that several files claim, with the paths of the files.
pub open spec fn dupe_id_rows(dupes: Seq<DupeIdModel>) -> Seq<char>
    decreases dupes.len(),
{
    if dupes.len() == 0 {
        Seq::empty()
    } else {
        let d = dupes.last();
        dupe_id_rows(dupes.drop_last()) + ("  "@ + d.id + " ("@ + decimal(d.paths.len())
            + " files)\n"@ + listed_ids(d.paths))
    }
}

/// Attachments that are not there.
pub open spec fn missing_rows(missing: Seq<MissingModel>) -> Seq<char>
    decreases missing.len(),
{
    if missing.len() == 0 {
        Seq::empty()
    } else {
        missing_rows(missing.drop_last()) + ("  "@ + missing.last().source_title + " -> "@
            + missing.last().resolved_path + "\n"@)
    }
}

/// Pages that could not be loaded.
pub open spec fn error_rows(errors: Seq<LoadErrorModel>) -> Seq<char>
    decreases errors.len(),
{
    if errors.len() == 0 {
        Seq::empty()
    } else {
        let e = errors.last();
        error_rows(errors.drop_last()) + ("  "@ + e.title + " ("@ + e.page_id + "): "@ + e.error
            + "\n"@)
    }
}

/// Files that could not be read, each on a line behind `indent`.
pub open spec fn issue_rows(indent: Seq<char>, issues: Seq<IssueModel>) -> Seq<char>
    decreases issues.len(),
{
    if issues.len() == 0 {
        Seq::empty()
    } else {
        issue_rows(indent, issues.drop_last()) + (indent + issues.last().path + ": "@
            + issues.last().message + "\n"@)
    }
}

/// A line of a name and a number, where there is anything to count.
pub open spec fn figure_if_any(name: Seq<char>, n: nat) -> Seq<char> {
    if n == 0 {
        Seq::empty()
    } else {
        figure(name, n)
    }
}

/// The numbers of what a check found. Ids that several files claim are counted
/// only where there are any.
pub open spec fn report_figures(r: ReportModel) -> Seq<char> {
    "Knowledge Base Check\n"@ + figure("broken_links"@, r.broken.len()) + figure(
        "orphan_pages"@,
        r.orphans.len(),
    ) + figure("duplicate_titles"@, r.dupes.len()) + figure(
        "missing_attachments"@,
        r.missing.len(),
    ) + figure("load_errors"@, r.errors.len()) + figure("index_issues"@, r.issues.len())
        + figure_if_any("duplicate_ids"@, r.dupe_ids.len())
}

/// A section of findings.
pub open spec fn findings(title: Seq<char>, n: nat, rows: Seq<char>) -> Seq<char> {
    heading(title, n) + rows_or_none(n, rows)
}

/// A section of findings, where there are any.
pub open spec fn findings_if_any(title: Seq<char>, n: nat, rows: Seq<char>) -> Seq<char> {
    if n == 0 {
        Seq::empty()
    } else {
        heading(title, n) + rows
    }
}

/// What a check found: the numbers first, and every finding behind them.
pub open spec fn report_text(r: ReportModel) -> Seq<char> {
    report_figures(r) + findings("Broken Links"@, r.broken.len(), broken_rows("  "@, r.broken))
        + findings("Orphan Pages"@, r.orphans.len(), title_rows(r.index, "  "@, r.orphans))
        + findings("Duplicate Titles"@, r.dupes.len(), dupe_rows(r.dupes)) + findings(
        "Missing Attachments"@,
        r.missing.len(),
        missing_rows(r.missing),
    ) + findings_if_any("Load Errors"@, r.errors.len(), error_rows(r.errors)) + findings_if_any(
        "Index Issues"@,
        r.issues.len(),
        issue_rows("  "@, r.issues),
    ) + findings_if_any("Duplicate Ids"@, r.dupe_ids.len(), dupe_id_rows(r.dupe_ids))
}

/// Writes a heading with its count.
pub fn push_heading(out: &mut String, title: &str, n: usize)
    ensures
        final(out)@ == old(out)@ + heading(title@, n as nat),
{
    let ghost start = out@;
    out.push_str("\n");
    out.push_str(title);
    out.push_str(" (");
    push_decimal(out, n);
    out.push_str("):\n");
    assert(out@ =~= start + heading(title@, n as nat));
}

/// Writes one figure of the report.
pub fn push_figure(out: &mut String, name: &str, n: usize)
    ensures
        final(out)@ == old(out)@ + figure(name@, n as nat),
{
    let ghost start = out@;
    out.push_str("  ");
    out.push_str(name);
    out.push_str(": ");
    push_decimal(out, n);
    out.push_str("\n");
    assert(out@ =~= start + figure(name@, n as nat));
}

/// Writes a row for each broken link.
pub fn push_broken_rows(out: &mut String, indent: &str, broken: &Vec<BrokenLink>)
    ensures
        final(out)@ == old(out)@ + broken_rows(indent@, broken_views(broken@)),
{
    let ghost all = broken_views(broken@);
    let ghost start = out@;
    let mut i: usize = 0;
    assert(all.take(0) =~= Seq::<BrokenModel>::empty());
    assert(start + broken_rows(indent@, all.take(0)) =~= start);
    while i < broken.len()
        invariant
            i <= broken@.len(),
            all == broken_views(broken@),
            out@ == start + broken_rows(indent@, all.take(i as int)),
        decreases broken.len() - i,
    {
        assert(all.take(i as int + 1).drop_last() =~= all.take(i as int));
        assert(all.take(i as int + 1).last() == broken@[i as int]@);
        out.push_str(indent);
        out.push_str(broken[i].source_title.as_str());
        out.push_str(" -> ");
        out.push_str(broken[i].target.as_str());
        out.push_str("\n");
        i += 1;
        assert(out@ =~= start + broken_rows(indent@, all.take(i as int)));
    }
    assert(all.take(i as int) =~= all);
}

fn push_ids(out: &mut String, ids: &Vec<String>)
    ensures
        final(out)@ == old(out)@ + listed_ids(views(ids@)),
{
    let ghost all = views(ids@);
    let ghost start = out@;
    let mut i: usize = 0;
    assert(all.take(0) =~= Seq::<Seq<char>>::empty());
    assert(start + listed_ids(all.take(0)) =~= start);
    while i < ids.len()
        invariant
            i <= ids@.len(),
            all == views(ids@),
            out@ == start + listed_ids(all.take(i as int)),
        decreases ids.len() - i,
    {
        assert(all.take(i as int + 1).drop_last() =~= all.take(i as int));
        assert(all.take(i as int + 1).last() == ids@[i as int]@);
        out.push_str("    - ");
        out.push_str(ids[i].as_str());
        out.push_str("\n");
        i += 1;
        assert(out@ =~= start + listed_ids(all.take(i as int)));
    }
    assert(all.take(i as int) =~= all);
}

fn push_dupe_rows(out: &mut String, dupes: &Vec<DuplicateTitle>)
    ensures
        final(out)@ == old(out)@ + dupe_rows(dupe_views(dupes@)),
{
    let ghost all = dupe_views(dupes@);
    let ghost start = out@;
    let mut i: usize = 0;
    assert(all.take(0) =~= Seq::<DupeModel>::empty());
    assert(start + dupe_rows(all.take(0)) =~= start);
    while i < dupes.len()
        invariant
            i <= dupes@.len(),
            all == dupe_views(dupes@),
            out@ == start + dupe_rows(all.take(i as int)),
        decreases dupes.len() - i,
    {
        assert(all.take(i as int + 1).drop_last() =~= all.take(i as int));
        assert(all.take(i as int + 1).last() == all[i as int]);
        out.push_str("  \"");
        out.push_str(dupes[i].title.as_str());
        out.push_str("\" (");
        push_decimal(out, dupes[i].page_ids.len());
        out.push_str(" pages)\n");
        push_ids(out, &dupes[i].page_ids);
        i += 1;
        assert(out@ =~= start + dupe_rows(all.take(i as int)));
    }
    assert(all.take(i as int) =~= all);
}

fn push_dupe_id_rows(out: &mut String, dupes: &Vec<DuplicateId>)
    ensures
        final(out)@ == old(out)@ + dupe_id_rows(dupe_id_views(dupes@)),
{
    let ghost all = dupe_id_views(dupes@);
    let ghost start = out@;
    let mut i: usize = 0;
    assert(all.take(0) =~= Seq::<DupeIdModel>::empty());
    assert(start + dupe_id_rows(all.take(0)) =~= start);
    while i < dupes.len()
        invariant
            i <= dupes@.len(),
            all == dupe_id_views(dupes@),
            out@ == start + dupe_id_rows(all.take(i as int)),
        decreases dupes.len() - i,
    {
        assert(all.take(i as int + 1).drop_last() =~= all.take(i as int));
        assert(all.take(i as int + 1).last() == all[i as int]);
        out.push_str("  ");
        out.push_str(dupes[i].id.as_str());
        out.push_str(" (");
        push_decimal(out, dupes[i].paths.len());
        out.push_str(" files)\n");
        push_ids(out, &dupes[i].paths);
        i += 1;
        assert(out@ =~= start + dupe_id_rows(all.take(i as int)));
    }
    assert(all.take(i as int) =~= all);
}

fn push_missing_rows(out: &mut String, missing: &Vec<MissingAttachment>)
    ensures
        final(out)@ == old(out)@ + missing_rows(missing_views(missing@)),
{
    let ghost all = missing_views(missing@);
    let ghost start = out@;
    let mut i: usize = 0;
    assert(all.take(0) =~= Seq::<MissingModel>::empty());
    assert(start + missing_rows(all.take(0)) =~= start);
    while i < missing.len()
        invariant
            i <= missing@.len(),
            all == missing_views(missing@),
            out@ == start + missing_rows(all.take(i as int)),
        decreases missing.len() - i,
    {
        assert(all.take(i as int + 1).drop_last() =~= all.take(i as int));
        assert(all.take(i as int + 1).last() == missing@[i as int]@);
        out.push_str("  ");
        out.push_str(missing[i].source_title.as_str());
        out.push_str(" -> ");
        out.push_str(missing[i].resolved_path.as_str());
        out.push_str("\n");
        i += 1;
        assert(out@ =~= start + missing_rows(all.take(i as int)));
    }
    assert(all.take(i as int) =~= all);
}

fn push_error_rows(out: &mut String, errors: &Vec<PageLoadError>)
    ensures
        final(out)@ == old(out)@ + error_rows(load_error_views(errors@)),
{
    let ghost all = load_error_views(errors@);
    let ghost start = out@;
    let mut i: usize = 0;
    assert(all.take(0) =~= Seq::<LoadErrorModel>::empty());
    assert(start + error_rows(all.take(0)) =~= start);
    while i < errors.len()
        invariant
            i <= errors@.len(),
            all == load_error_views(errors@),
            out@ == start + error_rows(all.take(i as int)),
        decreases errors.len() - i,
    {
        assert(all.take(i as int + 1).drop_last() =~= all.take(i as int));
        assert(all.take(i as int + 1).last() == errors@[i as int]@);
        out.push_str("  ");
        out.push_str(errors[i].title.as_str());
        out.push_str(" (");
        out.push_str(errors[i].page_id.as_str());
        out.push_str("): ");
        out.push_str(errors[i].error.as_str());
        out.push_str("\n");
        i += 1;
        assert(out@ =~= start + error_rows(all.take(i as int)));
    }
    assert(all.take(i as int) =~= all);
}

/// Writes a row for each issue.
pub fn push_issue_rows(out: &mut String, indent: &str, issues: &Vec<ParseIssue>)
    ensures
        final(out)@ == old(out)@ + issue_rows(indent@, issue_views(issues@)),
{
    let ghost all = issue_views(issues@);
    let ghost start = out@;
    let mut i: usize = 0;
    assert(all.take(0) =~= Seq::<IssueModel>::empty());
    assert(start + issue_rows(indent@, all.take(0)) =~= start);
    while i < issues.len()
        invariant
            i <= issues@.len(),
            all == issue_views(issues@),
            out@ == start + issue_rows(indent@, all.take(i as int)),
        decreases issues.len() - i,
    {
        assert(all.take(i as int + 1).drop_last() =~= all.take(i as int));
        assert(all.take(i as int + 1).last() == issues@[i as int]@);
        out.push_str(indent);
        out.push_str(issues[i].path.as_str());
        out.push_str(": ");
        out.push_str(issues[i].message.as_str());
        out.push_str("\n");
        i += 1;
        assert(out@ =~= start + issue_rows(indent@, all.take(i as int)));
    }
    assert(all.take(i as int) =~= all);
}

/// Adds a section whose rows have been written.
pub fn push_findings(out: &mut String, title: &str, n: usize, rows: &str)
    ensures
        final(out)@ == old(out)@ + findings(title@, n as nat, rows@),
{
    let ghost start = out@;
    push_heading(out, title, n);
    if n == 0 {
        out.push_str("  (none)\n");
    } else {
        out.push_str(rows);
    }
    assert(out@ =~= start + findings(title@, n as nat, rows@));
}

fn push_findings_if_any(out: &mut String, title: &str, n: usize, rows: &str)
    ensures
        final(out)@ == old(out)@ + findings_if_any(title@, n as nat, rows@),
{
    let ghost start = out@;
    if n > 0 {
        push_heading(out, title, n);
        out.push_str(rows);
    }
    assert(out@ =~= start + findings_if_any(title@, n as nat, rows@));
}

/// The ids that several files claim.
fn duplicate_ids(report: &CheckReport) -> (dupes: Vec<DuplicateId>)
    ensures
        dupe_id_views(dupes@) == report@.dupe_ids,
{
    let dupes = report.index.find_duplicate_ids();
    assert(dupe_id_views(dupes@) =~= report@.dupe_ids);
    dupes
}

fn write_figures(report: &CheckReport) -> (out: String)
    ensures
        out@ == report_figures(report@),
{
    let mut out = copy_of("Knowledge Base Check\n");
    push_figure(&mut out, "broken_links", report.broken_links.len());
    push_figure(&mut out, "orphan_pages", report.orphan_ids.len());
    push_figure(&mut out, "duplicate_titles", report.duplicate_titles.len());
    push_figure(&mut out, "missing_attachments", report.missing_attachments.len());
    push_figure(&mut out, "load_errors", report.load_errors.len());
    push_figure(&mut out, "index_issues", report.index_issues.len());
    let ghost start = out@;
    let claimed = duplicate_ids(report);
    if claimed.len() > 0 {
        push_figure(&mut out, "duplicate_ids", claimed.len());
    }
    assert(out@ =~= start + figure_if_any("duplicate_ids"@, report@.dupe_ids.len()));
    out
}

/// Nothing yet.
pub fn no_text() -> (out: String)
    ensures
        out@ == Seq::<char>::empty(),
{
    let out = String::new();
    assert(out@ =~= Seq::<char>::empty());
    out
}

/// What a check found, as text.
pub fn write_check_text(report: &CheckReport) -> (out: String)
    requires
        report.index.wf(),
    ensures
        out@ == report_text(report@),
{
    let ghost r = report@;
    let mut broken = no_text();
    push_broken_rows(&mut broken, "  ", report.broken_links);
    let mut orphans = no_text();
    push_title_rows(&mut orphans, report.index, "  ", report.orphan_ids);
    let mut dupes = no_text();
    push_dupe_rows(&mut dupes, report.duplicate_titles);
    let mut missing = no_text();
    push_missing_rows(&mut missing, report.missing_attachments);
    let mut errors = no_text();
    push_error_rows(&mut errors, report.load_errors);
    let mut issues = no_text();
    push_issue_rows(&mut issues, "  ", report.index_issues);
    let claimed = duplicate_ids(report);
    let mut ids = no_text();
    push_dupe_id_rows(&mut ids, &claimed);
    proof {
        assert(broken@ =~= broken_rows("  "@, r.broken));
        assert(orphans@ =~= title_rows(r.index, "  "@, r.orphans));
        assert(dupes@ =~= dupe_rows(r.dupes));
        assert(missing@ =~= missing_rows(r.missing));
        assert(errors@ =~= error_rows(r.errors));
        assert(issues@ =~= issue_rows("  "@, r.issues));
        assert(ids@ =~= dupe_id_rows(r.dupe_ids));
    }
    let mut out = write_figures(report);
    push_findings(&mut out, "Broken Links", report.broken_links.len(), broken.as_str());
    push_findings(&mut out, "Orphan Pages", report.orphan_ids.len(), orphans.as_str());
    push_findings(&mut out, "Duplicate Titles", report.duplicate_titles.len(), dupes.as_str());
    push_findings(
        &mut out,
        "Missing Attachments",
        report.missing_attachments.len(),
        missing.as_str(),
    );
    push_findings_if_any(&mut out, "Load Errors", report.load_errors.len(), errors.as_str());
    push_findings_if_any(&mut out, "Index Issues", report.index_issues.len(), issues.as_str());
    push_findings_if_any(&mut out, "Duplicate Ids", claimed.len(), ids.as_str());
    out
}

// ---------------------------------------------------------------------------
// JSON
// ---------------------------------------------------------------------------

/// A link that leads nowhere.
pub open spec fn broken_record(b: BrokenModel) -> JsonModel {
    JsonModel::Object(
        seq![
            field("source_title"@, JsonModel::Str(b.source_title)),
            field("source_id"@, JsonModel::Str(b.source_id)),
            field("target"@, JsonModel::Str(b.target)),
        ],
    )
}

pub open spec fn broken_records(broken: Seq<BrokenModel>) -> JsonModel {
    JsonModel::Array(Seq::new(broken.len(), |i: int| broken_record(broken[i])))
}

/// Pages, each with its id and title.
pub open spec fn page_records(m: IndexModel, ids: Seq<Seq<char>>) -> JsonModel {
    JsonModel::Array(Seq::new(ids.len(), |i: int| node_object(m, ids[i])))
}

pub open spec fn dupe_records(dupes: Seq<DupeModel>) -> JsonModel {
    JsonModel::Array(
        Seq::new(
            dupes.len(),
            |i: int|
                JsonModel::Object(
                    seq![
                        field("title"@, JsonModel::Str(dupes[i].title)),
                        field("page_ids"@, text_array(dupes[i].ids)),
                    ],
                ),
        ),
    )
}

pub open spec fn missing_records(missing: Seq<MissingModel>) -> JsonModel {
    JsonModel::Array(
        Seq::new(
            missing.len(),
            |i: int|
                JsonModel::Object(
                    seq![
                        field("source_title"@, JsonModel::Str(missing[i].source_title)),
                        field("source_id"@, JsonModel::Str(missing[i].source_id)),
                        field("target"@, JsonModel::Str(missing[i].target)),
                        field("resolved_path"@, JsonModel::Str(missing[i].resolved_path)),
                    ],
                ),
        ),
    )
}

pub open spec fn error_records(errors: Seq<LoadErrorModel>) -> JsonModel {
    JsonModel::Array(
        Seq::new(
            errors.len(),
            |i: int|
                JsonModel::Object(
                    seq![
                        field("page_id"@, JsonModel::Str(errors[i].page_id)),
                        field("title"@, JsonModel::Str(errors[i].title)),
                        field("error"@, JsonModel::Str(errors[i].error)),
                    ],
                ),
        ),
    )
}

pub open spec fn issue_records(issues: Seq<IssueModel>) -> JsonModel {
    JsonModel::Array(
        Seq::new(
            issues.len(),
            |i: int|
                JsonModel::Object(
                    seq![
                        field("path"@, JsonModel::Str(issues[i].path)),
                        field("message"@, JsonModel::Str(issues[i].message)),
                    ],
                ),
        ),
    )
}

pub open spec fn dupe_id_records(dupes: Seq<DupeIdModel>) -> JsonModel {
    JsonModel::Array(
        Seq::new(
            dupes.len(),
            |i: int|
                JsonModel::Object(
                    seq![
                        field("id"@, JsonModel::Str(dupes[i].id)),
                        field("paths"@, text_array(dupes[i].paths)),
                    ],
                ),
        ),
    )
}

/// What a check found, as an object. Ids that several files claim are a member of
/// it only where there are any.
pub open spec fn report_record(r: ReportModel) -> JsonModel {
    JsonModel::Object(
        seq![
            field("ok"@, JsonModel::Bool(r.is_ok())),
            field("broken_links"@, broken_records(r.broken)),
            field("orphan_pages"@, page_records(r.index, r.orphans)),
            field("duplicate_titles"@, dupe_records(r.dupes)),
            field("missing_attachments"@, missing_records(r.missing)),
            field("load_errors"@, error_records(r.errors)),
            field("index_issues"@, issue_records(r.issues)),
        ] + if r.dupe_ids.len() == 0 {
            Seq::empty()
        } else {
            seq![field("duplicate_ids"@, dupe_id_records(r.dupe_ids))]
        },
    )
}

/// The records of the broken links.
pub fn broken_json(broken: &Vec<BrokenLink>) -> (j: Json)
    ensures
        j@ == broken_records(broken_views(broken@)),
{
    let mut items: Vec<Json> = Vec::new();
    let mut i: usize = 0;
    while i < broken.len()
        invariant
            i <= broken@.len(),
            items@.len() == i,
            forall|k: int| 0 <= k < i ==> (#[trigger] items@[k])@ == broken_record(broken@[k]@),
        decreases broken.len() - i,
    {
        let mut members = no_members();
        put(&mut members, "source_title", text_value(broken[i].source_title.as_str()));
        put(&mut members, "source_id", text_value(broken[i].source_id.as_str()));
        put(&mut members, "target", text_value(broken[i].target.as_str()));
        assert(member_views(members@) =~= broken_record(broken@[i as int]@)->Object_0);
        items.push(object_of(members));
        i += 1;
    }
    assert(json_views(items@) =~= broken_records(broken_views(broken@))->Array_0);
    array_of(items)
}

fn dupes_json(dupes: &Vec<DuplicateTitle>) -> (j: Json)
    ensures
        j@ == dupe_records(dupe_views(dupes@)),
{
    let ghost all = dupe_records(dupe_views(dupes@))->Array_0;
    let mut items: Vec<Json> = Vec::new();
    let mut i: usize = 0;
    while i < dupes.len()
        invariant
            i <= dupes@.len(),
            all == dupe_records(dupe_views(dupes@))->Array_0,
            items@.len() == i,
            forall|k: int| 0 <= k < i ==> (#[trigger] items@[k])@ == all[k],
        decreases dupes.len() - i,
    {
        let mut members = no_members();
        put(&mut members, "title", text_value(dupes[i].title.as_str()));
        put(&mut members, "page_ids", array_of_texts(&dupes[i].page_ids));
        assert(member_views(members@) =~= all[i as int]->Object_0);
        items.push(object_of(members));
        i += 1;
    }
    assert(json_views(items@) =~= all);
    array_of(items)
}

fn dupe_ids_json(dupes: &Vec<DuplicateId>) -> (j: Json)
    ensures
        j@ == dupe_id_records(dupe_id_views(dupes@)),
{
    let ghost all = dupe_id_records(dupe_id_views(dupes@))->Array_0;
    let mut items: Vec<Json> = Vec::new();
    let mut i: usize = 0;
    while i < dupes.len()
        invariant
            i <= dupes@.len(),
            all == dupe_id_records(dupe_id_views(dupes@))->Array_0,
            items@.len() == i,
            forall|k: int| 0 <= k < i ==> (#[trigger] items@[k])@ == all[k],
        decreases dupes.len() - i,
    {
        let mut members = no_members();
        put(&mut members, "id", text_value(dupes[i].id.as_str()));
        put(&mut members, "paths", array_of_texts(&dupes[i].paths));
        assert(member_views(members@) =~= all[i as int]->Object_0);
        items.push(object_of(members));
        i += 1;
    }
    assert(json_views(items@) =~= all);
    array_of(items)
}

fn missing_json(missing: &Vec<MissingAttachment>) -> (j: Json)
    ensures
        j@ == missing_records(missing_views(missing@)),
{
    let ghost all = missing_records(missing_views(missing@))->Array_0;
    let mut items: Vec<Json> = Vec::new();
    let mut i: usize = 0;
    while i < missing.len()
        invariant
            i <= missing@.len(),
            all == missing_records(missing_views(missing@))->Array_0,
            items@.len() == i,
            forall|k: int| 0 <= k < i ==> (#[trigger] items@[k])@ == all[k],
        decreases missing.len() - i,
    {
        let mut members = no_members();
        put(&mut members, "source_title", text_value(missing[i].source_title.as_str()));
        put(&mut members, "source_id", text_value(missing[i].source_id.as_str()));
        put(&mut members, "target", text_value(missing[i].target.as_str()));
        put(&mut members, "resolved_path", text_value(missing[i].resolved_path.as_str()));
        assert(member_views(members@) =~= all[i as int]->Object_0);
        items.push(object_of(members));
        i += 1;
    }
    assert(json_views(items@) =~= all);
    array_of(items)
}

fn errors_json(errors: &Vec<PageLoadError>) -> (j: Json)
    ensures
        j@ == error_records(load_error_views(errors@)),
{
    let ghost all = error_records(load_error_views(errors@))->Array_0;
    let mut items: Vec<Json> = Vec::new();
    let mut i: usize = 0;
    while i < errors.len()
        invariant
            i <= errors@.len(),
            all == error_records(load_error_views(errors@))->Array_0,
            items@.len() == i,
            forall|k: int| 0 <= k < i ==> (#[trigger] items@[k])@ == all[k],
        decreases errors.len() - i,
    {
        let mut members = no_members();
        put(&mut members, "page_id", text_value(errors[i].page_id.as_str()));
        put(&mut members, "title", text_value(errors[i].title.as_str()));
        put(&mut members, "error", text_value(errors[i].error.as_str()));
        assert(member_views(members@) =~= all[i as int]->Object_0);
        items.push(object_of(members));
        i += 1;
    }
    assert(json_views(items@) =~= all);
    array_of(items)
}

fn issues_json(issues: &Vec<ParseIssue>) -> (j: Json)
    ensures
        j@ == issue_records(issue_views(issues@)),
{
    let ghost all = issue_records(issue_views(issues@))->Array_0;
    let mut items: Vec<Json> = Vec::new();
    let mut i: usize = 0;
    while i < issues.len()
        invariant
            i <= issues@.len(),
            all == issue_records(issue_views(issues@))->Array_0,
            items@.len() == i,
            forall|k: int| 0 <= k < i ==> (#[trigger] items@[k])@ == all[k],
        decreases issues.len() - i,
    {
        let mut members = no_members();
        put(&mut members, "path", text_value(issues[i].path.as_str()));
        put(&mut members, "message", text_value(issues[i].message.as_str()));
        assert(member_views(members@) =~= all[i as int]->Object_0);
        items.push(object_of(members));
        i += 1;
    }
    assert(json_views(items@) =~= all);
    array_of(items)
}

/// Pages, each with its id and title.
pub fn pages_json(index: &KnowledgeBaseIndex, ids: &Vec<String>) -> (j: Json)
    requires
        index.wf(),
    ensures
        j@ == page_records(index@, views(ids@)),
{
    let items = page_objects(index, ids);
    assert(json_views(items@) =~= page_records(index@, views(ids@))->Array_0);
    array_of(items)
}

/// What a check found, as JSON.
pub fn check_json(report: &CheckReport) -> (j: Json)
    requires
        report.index.wf(),
    ensures
        j@ == report_record(report@),
{
    let mut members = no_members();
    put(&mut members, "ok", Json::Bool(report.ok()));
    put(&mut members, "broken_links", broken_json(report.broken_links));
    put(&mut members, "orphan_pages", pages_json(report.index, report.orphan_ids));
    put(&mut members, "duplicate_titles", dupes_json(report.duplicate_titles));
    put(&mut members, "missing_attachments", missing_json(report.missing_attachments));
    put(&mut members, "load_errors", errors_json(report.load_errors));
    put(&mut members, "index_issues", issues_json(report.index_issues));
    let claimed = duplicate_ids(report);
    if claimed.len() > 0 {
        put(&mut members, "duplicate_ids", dupe_ids_json(&claimed));
    }
    assert(member_views(members@) =~= report_record(report@)->Object_0);
    object_of(members)
}

// ---------------------------------------------------------------------------
// What a report says
// ---------------------------------------------------------------------------

proof fn lemma_broken_row(indent: Seq<char>, broken: Seq<BrokenModel>, i: int)
    requires
        0 <= i < broken.len(),
    ensures
        contains(
            broken_rows(indent, broken),
            indent + broken[i].source_title + " -> "@ + broken[i].target + "\n"@,
        ),
    decreases broken.len(),
{
    let row = indent + broken[i].source_title + " -> "@ + broken[i].target + "\n"@;
    let last = indent + broken.last().source_title + " -> "@ + broken.last().target + "\n"@;
    if i < broken.len() - 1 {
        lemma_broken_row(indent, broken.drop_last(), i);
    } else {
        a_text_holds_itself(row);
    }
    a_longer_text_holds_as_much(broken_rows(indent, broken.drop_last()), last, row);
}

proof fn lemma_title_row(m: IndexModel, indent: Seq<char>, ids: Seq<Seq<char>>, i: int)
    requires
        0 <= i < ids.len(),
    ensures
        contains(title_rows(m, indent, ids), indent + title_of(m, ids[i]) + "\n"@),
    decreases ids.len(),
{
    let row = indent + title_of(m, ids[i]) + "\n"@;
    if i < ids.len() - 1 {
        lemma_title_row(m, indent, ids.drop_last(), i);
    } else {
        a_text_holds_itself(row);
    }
    a_longer_text_holds_as_much(
        title_rows(m, indent, ids.drop_last()),
        indent + title_of(m, ids.last()) + "\n"@,
        row,
    );
}

proof fn lemma_listed_id(ids: Seq<Seq<char>>, i: int)
    requires
        0 <= i < ids.len(),
    ensures
        contains(listed_ids(ids), "    - "@ + ids[i] + "\n"@),
    decreases ids.len(),
{
    let row = "    - "@ + ids[i] + "\n"@;
    if i < ids.len() - 1 {
        lemma_listed_id(ids.drop_last(), i);
    } else {
        a_text_holds_itself(row);
    }
    a_longer_text_holds_as_much(
        listed_ids(ids.drop_last()),
        "    - "@ + ids.last() + "\n"@,
        row,
    );
}

proof fn lemma_dupe_row(dupes: Seq<DupeModel>, i: int, k: int)
    requires
        0 <= i < dupes.len(),
        0 <= k < dupes[i].ids.len(),
    ensures
        contains(
            dupe_rows(dupes),
            "  \""@ + dupes[i].title + "\" ("@ + decimal(dupes[i].ids.len()) + " pages)\n"@,
        ),
        contains(dupe_rows(dupes), "    - "@ + dupes[i].ids[k] + "\n"@),
    decreases dupes.len(),
{
    let head = "  \""@ + dupes[i].title + "\" ("@ + decimal(dupes[i].ids.len()) + " pages)\n"@;
    let row = "    - "@ + dupes[i].ids[k] + "\n"@;
    let d = dupes.last();
    let last = "  \""@ + d.title + "\" ("@ + decimal(d.ids.len()) + " pages)\n"@;
    if i < dupes.len() - 1 {
        lemma_dupe_row(dupes.drop_last(), i, k);
    } else {
        a_text_holds_itself(head);
        a_longer_text_holds_as_much(last, listed_ids(d.ids), head);
        lemma_listed_id(d.ids, k);
        a_longer_text_holds_as_much(last, listed_ids(d.ids), row);
    }
    a_longer_text_holds_as_much(dupe_rows(dupes.drop_last()), last + listed_ids(d.ids), head);
    a_longer_text_holds_as_much(dupe_rows(dupes.drop_last()), last + listed_ids(d.ids), row);
}

proof fn lemma_dupe_id_row(dupes: Seq<DupeIdModel>, i: int, k: int)
    requires
        0 <= i < dupes.len(),
        0 <= k < dupes[i].paths.len(),
    ensures
        contains(
            dupe_id_rows(dupes),
            "  "@ + dupes[i].id + " ("@ + decimal(dupes[i].paths.len()) + " files)\n"@,
        ),
        contains(dupe_id_rows(dupes), "    - "@ + dupes[i].paths[k] + "\n"@),
    decreases dupes.len(),
{
    let head = "  "@ + dupes[i].id + " ("@ + decimal(dupes[i].paths.len()) + " files)\n"@;
    let row = "    - "@ + dupes[i].paths[k] + "\n"@;
    let d = dupes.last();
    let last = "  "@ + d.id + " ("@ + decimal(d.paths.len()) + " files)\n"@;
    if i < dupes.len() - 1 {
        lemma_dupe_id_row(dupes.drop_last(), i, k);
    } else {
        a_text_holds_itself(head);
        a_longer_text_holds_as_much(last, listed_ids(d.paths), head);
        lemma_listed_id(d.paths, k);
        a_longer_text_holds_as_much(last, listed_ids(d.paths), row);
    }
    a_longer_text_holds_as_much(dupe_id_rows(dupes.drop_last()), last + listed_ids(d.paths), head);
    a_longer_text_holds_as_much(dupe_id_rows(dupes.drop_last()), last + listed_ids(d.paths), row);
}

proof fn lemma_missing_row(missing: Seq<MissingModel>, i: int)
    requires
        0 <= i < missing.len(),
    ensures
        contains(
            missing_rows(missing),
            "  "@ + missing[i].source_title + " -> "@ + missing[i].resolved_path + "\n"@,
        ),
    decreases missing.len(),
{
    let row = "  "@ + missing[i].source_title + " -> "@ + missing[i].resolved_path + "\n"@;
    let last = "  "@ + missing.last().source_title + " -> "@ + missing.last().resolved_path
        + "\n"@;
    if i < missing.len() - 1 {
        lemma_missing_row(missing.drop_last(), i);
    } else {
        a_text_holds_itself(row);
    }
    a_longer_text_holds_as_much(missing_rows(missing.drop_last()), last, row);
}

proof fn lemma_error_row(errors: Seq<LoadErrorModel>, i: int)
    requires
        0 <= i < errors.len(),
    ensures
        contains(
            error_rows(errors),
            "  "@ + errors[i].title + " ("@ + errors[i].page_id + "): "@ + errors[i].error
                + "\n"@,
        ),
    decreases errors.len(),
{
    let row = "  "@ + errors[i].title + " ("@ + errors[i].page_id + "): "@ + errors[i].error
        + "\n"@;
    let e = errors.last();
    if i < errors.len() - 1 {
        lemma_error_row(errors.drop_last(), i);
    } else {
        a_text_holds_itself(row);
    }
    a_longer_text_holds_as_much(
        error_rows(errors.drop_last()),
        "  "@ + e.title + " ("@ + e.page_id + "): "@ + e.error + "\n"@,
        row,
    );
}

proof fn lemma_issue_row(indent: Seq<char>, issues: Seq<IssueModel>, i: int)
    requires
        0 <= i < issues.len(),
    ensures
        contains(
            issue_rows(indent, issues),
            indent + issues[i].path + ": "@ + issues[i].message + "\n"@,
        ),
    decreases issues.len(),
{
    let row = indent + issues[i].path + ": "@ + issues[i].message + "\n"@;
    if i < issues.len() - 1 {
        lemma_issue_row(indent, issues.drop_last(), i);
    } else {
        a_text_holds_itself(row);
    }
    a_longer_text_holds_as_much(
        issue_rows(indent, issues.drop_last()),
        indent + issues.last().path + ": "@ + issues.last().message + "\n"@,
        row,
    );
}

proof fn lemma_findings(title: Seq<char>, n: nat, rows: Seq<char>, row: Seq<char>)
    ensures
        contains(findings(title, n, rows), "\n"@ + title + " ("@ + decimal(n) + "):\n"@),
        n == 0 ==> contains(findings(title, n, rows), "  (none)\n"@),
        n > 0 && contains(rows, row) ==> contains(findings(title, n, rows), row),
        n > 0 && contains(rows, row) ==> contains(findings_if_any(title, n, rows), row),
        n > 0 ==> contains(
            findings_if_any(title, n, rows),
            "\n"@ + title + " ("@ + decimal(n) + "):\n"@,
        ),
{
    let head = "\n"@ + title + " ("@ + decimal(n) + "):\n"@;
    a_text_holds_itself(head);
    a_longer_text_holds_as_much(head, rows_or_none(n, rows), head);
    a_longer_text_holds_as_much(head, rows, head);
    if n == 0 {
        a_text_holds_itself("  (none)\n"@);
        a_longer_text_holds_as_much(head, "  (none)\n"@, "  (none)\n"@);
    } else if contains(rows, row) {
        a_longer_text_holds_as_much(head, rows, row);
    }
}

proof fn lemma_report_parts(r: ReportModel, pat: Seq<char>)
    ensures
        contains(report_figures(r), pat) ==> contains(report_text(r), pat),
        contains(findings("Broken Links"@, r.broken.len(), broken_rows("  "@, r.broken)), pat)
            ==> contains(report_text(r), pat),
        contains(
            findings("Orphan Pages"@, r.orphans.len(), title_rows(r.index, "  "@, r.orphans)),
            pat,
        ) ==> contains(report_text(r), pat),
        contains(findings("Duplicate Titles"@, r.dupes.len(), dupe_rows(r.dupes)), pat) ==> contains(
            report_text(r),
            pat,
        ),
        contains(findings("Missing Attachments"@, r.missing.len(), missing_rows(r.missing)), pat)
            ==> contains(report_text(r), pat),
        contains(findings_if_any("Load Errors"@, r.errors.len(), error_rows(r.errors)), pat)
            ==> contains(report_text(r), pat),
        contains(findings_if_any("Index Issues"@, r.issues.len(), issue_rows("  "@, r.issues)), pat)
            ==> contains(report_text(r), pat),
        contains(
            findings_if_any("Duplicate Ids"@, r.dupe_ids.len(), dupe_id_rows(r.dupe_ids)),
            pat,
        ) ==> contains(report_text(r), pat),
{
    let a = report_figures(r);
    let b = findings("Broken Links"@, r.broken.len(), broken_rows("  "@, r.broken));
    let c = findings("Orphan Pages"@, r.orphans.len(), title_rows(r.index, "  "@, r.orphans));
    let d = findings("Duplicate Titles"@, r.dupes.len(), dupe_rows(r.dupes));
    let e = findings("Missing Attachments"@, r.missing.len(), missing_rows(r.missing));
    let f = findings_if_any("Load Errors"@, r.errors.len(), error_rows(r.errors));
    let g = findings_if_any("Index Issues"@, r.issues.len(), issue_rows("  "@, r.issues));
    let h = findings_if_any("Duplicate Ids"@, r.dupe_ids.len(), dupe_id_rows(r.dupe_ids));
    if contains(a, pat) || contains(b, pat) {
        a_longer_text_holds_as_much(a, b, pat);
    }
    if contains(a + b, pat) || contains(c, pat) {
        a_longer_text_holds_as_much(a + b, c, pat);
    }
    if contains(a + b + c, pat) || contains(d, pat) {
        a_longer_text_holds_as_much(a + b + c, d, pat);
    }
    if contains(a + b + c + d, pat) || contains(e, pat) {
        a_longer_text_holds_as_much(a + b + c + d, e, pat);
    }
    if contains(a + b + c + d + e, pat) || contains(f, pat) {
        a_longer_text_holds_as_much(a + b + c + d + e, f, pat);
    }
    if contains(a + b + c + d + e + f, pat) || contains(g, pat) {
        a_longer_text_holds_as_much(a + b + c + d + e + f, g, pat);
    }
    if contains(a + b + c + d + e + f + g, pat) || contains(h, pat) {
        a_longer_text_holds_as_much(a + b + c + d + e + f + g, h, pat);
    }
}

/// Every broken link, every orphan, every missing attachment, every page that
/// cannot be read and every issue is named in the report.
pub proof fn every_finding_is_named(r: ReportModel, i: int)
    ensures
        0 <= i < r.broken.len() ==> contains(
            report_text(r),
            "  "@ + r.broken[i].source_title + " -> "@ + r.broken[i].target + "\n"@,
        ),
        0 <= i < r.orphans.len() && r.index.pages.contains_key(r.orphans[i]) ==> contains(
            report_text(r),
            "  "@ + r.index.pages[r.orphans[i]].title + "\n"@,
        ),
        0 <= i < r.missing.len() ==> contains(
            report_text(r),
            "  "@ + r.missing[i].source_title + " -> "@ + r.missing[i].resolved_path + "\n"@,
        ),
        0 <= i < r.errors.len() ==> contains(
            report_text(r),
            "  "@ + r.errors[i].title + " ("@ + r.errors[i].page_id + "): "@ + r.errors[i].error
                + "\n"@,
        ),
        0 <= i < r.issues.len() ==> contains(
            report_text(r),
            "  "@ + r.issues[i].path + ": "@ + r.issues[i].message + "\n"@,
        ),
{
    if 0 <= i < r.broken.len() {
        let row = "  "@ + r.broken[i].source_title + " -> "@ + r.broken[i].target + "\n"@;
        lemma_broken_row("  "@, r.broken, i);
        lemma_findings("Broken Links"@, r.broken.len(), broken_rows("  "@, r.broken), row);
        lemma_report_parts(r, row);
    }
    if 0 <= i < r.orphans.len() && r.index.pages.contains_key(r.orphans[i]) {
        let row = "  "@ + r.index.pages[r.orphans[i]].title + "\n"@;
        lemma_title_row(r.index, "  "@, r.orphans, i);
        lemma_findings(
            "Orphan Pages"@,
            r.orphans.len(),
            title_rows(r.index, "  "@, r.orphans),
            row,
        );
        lemma_report_parts(r, row);
    }
    if 0 <= i < r.missing.len() {
        let row = "  "@ + r.missing[i].source_title + " -> "@ + r.missing[i].resolved_path + "\n"@;
        lemma_missing_row(r.missing, i);
        lemma_findings("Missing Attachments"@, r.missing.len(), missing_rows(r.missing), row);
        lemma_report_parts(r, row);
    }
    if 0 <= i < r.errors.len() {
        let row = "  "@ + r.errors[i].title + " ("@ + r.errors[i].page_id + "): "@
            + r.errors[i].error + "\n"@;
        lemma_error_row(r.errors, i);
        lemma_findings("Load Errors"@, r.errors.len(), error_rows(r.errors), row);
        lemma_report_parts(r, row);
    }
    if 0 <= i < r.issues.len() {
        let row = "  "@ + r.issues[i].path + ": "@ + r.issues[i].message + "\n"@;
        lemma_issue_row("  "@, r.issues, i);
        lemma_findings("Index Issues"@, r.issues.len(), issue_rows("  "@, r.issues), row);
        lemma_report_parts(r, row);
    }
}

/// Every title and every id that is there more than once is named in the report,
/// with each page and each file that has it.
pub proof fn every_duplicate_is_named(r: ReportModel, i: int, k: int)
    ensures
        0 <= i < r.dupes.len() && 0 <= k < r.dupes[i].ids.len() ==> contains(
            report_text(r),
            "  \""@ + r.dupes[i].title + "\" ("@ + decimal(r.dupes[i].ids.len()) + " pages)\n"@,
        ) && contains(report_text(r), "    - "@ + r.dupes[i].ids[k] + "\n"@),
        0 <= i < r.dupe_ids.len() && 0 <= k < r.dupe_ids[i].paths.len() ==> contains(
            report_text(r),
            "  "@ + r.dupe_ids[i].id + " ("@ + decimal(r.dupe_ids[i].paths.len()) + " files)\n"@,
        ) && contains(report_text(r), "    - "@ + r.dupe_ids[i].paths[k] + "\n"@),
{
    if 0 <= i < r.dupes.len() && 0 <= k < r.dupes[i].ids.len() {
        let head = "  \""@ + r.dupes[i].title + "\" ("@ + decimal(r.dupes[i].ids.len())
            + " pages)\n"@;
        let row = "    - "@ + r.dupes[i].ids[k] + "\n"@;
        lemma_dupe_row(r.dupes, i, k);
        lemma_findings("Duplicate Titles"@, r.dupes.len(), dupe_rows(r.dupes), head);
        lemma_findings("Duplicate Titles"@, r.dupes.len(), dupe_rows(r.dupes), row);
        lemma_report_parts(r, head);
        lemma_report_parts(r, row);
    }
    if 0 <= i < r.dupe_ids.len() && 0 <= k < r.dupe_ids[i].paths.len() {
        let head = "  "@ + r.dupe_ids[i].id + " ("@ + decimal(r.dupe_ids[i].paths.len())
            + " files)\n"@;
        let row = "    - "@ + r.dupe_ids[i].paths[k] + "\n"@;
        lemma_dupe_id_row(r.dupe_ids, i, k);
        lemma_findings("Duplicate Ids"@, r.dupe_ids.len(), dupe_id_rows(r.dupe_ids), head);
        lemma_findings("Duplicate Ids"@, r.dupe_ids.len(), dupe_id_rows(r.dupe_ids), row);
        lemma_report_parts(r, head);
        lemma_report_parts(r, row);
    }
}

/// Each kind of finding stands under its heading, with how many there are.
pub proof fn findings_are_counted(r: ReportModel)
    ensures
        contains(report_text(r), "\n"@ + "Broken Links"@ + " ("@ + decimal(r.broken.len()) + "):\n"@),
        contains(
            report_text(r),
            "\n"@ + "Orphan Pages"@ + " ("@ + decimal(r.orphans.len()) + "):\n"@,
        ),
        contains(
            report_text(r),
            "\n"@ + "Duplicate Titles"@ + " ("@ + decimal(r.dupes.len()) + "):\n"@,
        ),
        contains(
            report_text(r),
            "\n"@ + "Missing Attachments"@ + " ("@ + decimal(r.missing.len()) + "):\n"@,
        ),
        r.errors.len() > 0 ==> contains(
            report_text(r),
            "\n"@ + "Load Errors"@ + " ("@ + decimal(r.errors.len()) + "):\n"@,
        ),
        r.issues.len() > 0 ==> contains(
            report_text(r),
            "\n"@ + "Index Issues"@ + " ("@ + decimal(r.issues.len()) + "):\n"@,
        ),
        r.dupe_ids.len() > 0 ==> contains(
            report_text(r),
            "\n"@ + "Duplicate Ids"@ + " ("@ + decimal(r.dupe_ids.len()) + "):\n"@,
        ),
{
    let none = Seq::<char>::empty();
    let a = "\n"@ + "Broken Links"@ + " ("@ + decimal(r.broken.len()) + "):\n"@;
    lemma_findings("Broken Links"@, r.broken.len(), broken_rows("  "@, r.broken), none);
    lemma_report_parts(r, a);
    let b = "\n"@ + "Orphan Pages"@ + " ("@ + decimal(r.orphans.len()) + "):\n"@;
    lemma_findings("Orphan Pages"@, r.orphans.len(), title_rows(r.index, "  "@, r.orphans), none);
    lemma_report_parts(r, b);
    let c = "\n"@ + "Duplicate Titles"@ + " ("@ + decimal(r.dupes.len()) + "):\n"@;
    lemma_findings("Duplicate Titles"@, r.dupes.len(), dupe_rows(r.dupes), none);
    lemma_report_parts(r, c);
    let d = "\n"@ + "Missing Attachments"@ + " ("@ + decimal(r.missing.len()) + "):\n"@;
    lemma_findings("Missing Attachments"@, r.missing.len(), missing_rows(r.missing), none);
    lemma_report_parts(r, d);
    let e = "\n"@ + "Load Errors"@ + " ("@ + decimal(r.errors.len()) + "):\n"@;
    lemma_findings("Load Errors"@, r.errors.len(), error_rows(r.errors), none);
    lemma_report_parts(r, e);
    let f = "\n"@ + "Index Issues"@ + " ("@ + decimal(r.issues.len()) + "):\n"@;
    lemma_findings("Index Issues"@, r.issues.len(), issue_rows("  "@, r.issues), none);
    lemma_report_parts(r, f);
    let g = "\n"@ + "Duplicate Ids"@ + " ("@ + decimal(r.dupe_ids.len()) + "):\n"@;
    lemma_findings("Duplicate Ids"@, r.dupe_ids.len(), dupe_id_rows(r.dupe_ids), none);
    lemma_report_parts(r, g);
}

/// The report as a record says whether all is well, and holds every finding under
/// its name.
pub proof fn the_record_of_a_report(r: ReportModel)
    ensures
        ({
            let j = report_record(r);
            &&& j.get("ok"@) == Some(
                JsonModel::Bool(
                    r.broken.len() == 0 && r.orphans.len() == 0 && r.errors.len() == 0
                        && r.issues.len() == 0 && r.dupes.len() == 0 && r.missing.len() == 0
                        && r.dupe_ids.len() == 0,
                ),
            )
            &&& j.get("broken_links"@) == Some(broken_records(r.broken))
            &&& j.get("orphan_pages"@) == Some(page_records(r.index, r.orphans))
            &&& j.get("duplicate_titles"@) == Some(dupe_records(r.dupes))
            &&& j.get("missing_attachments"@) == Some(missing_records(r.missing))
            &&& j.get("load_errors"@) == Some(error_records(r.errors))
            &&& j.get("index_issues"@) == Some(issue_records(r.issues))
            &&& r.dupe_ids.len() > 0 ==> j.get("duplicate_ids"@) == Some(
                dupe_id_records(r.dupe_ids),
            )
        }),
{
    reveal_strlit("ok");
    reveal_strlit("broken_links");
    reveal_strlit("orphan_pages");
    reveal_strlit("duplicate_titles");
    reveal_strlit("missing_attachments");
    reveal_strlit("load_errors");
    reveal_strlit("index_issues");
    reveal_strlit("duplicate_ids");
    assert("ok"@.len() == 2);
    assert("broken_links"@.len() == 12 && "broken_links"@[0] == 'b');
    assert("orphan_pages"@.len() == 12 && "orphan_pages"@[0] == 'o');
    assert("duplicate_titles"@.len() == 16);
    assert("missing_attachments"@.len() == 19);
    assert("load_errors"@.len() == 11);
    assert("index_issues"@.len() == 12 && "index_issues"@[0] == 'i');
    assert("duplicate_ids"@.len() == 13);
    let members = report_record(r)->Object_0;
    the_first_member_of_a_name_is_got(members, 0, "ok"@);
    the_first_member_of_a_name_is_got(members, 1, "broken_links"@);
    the_first_member_of_a_name_is_got(members, 2, "orphan_pages"@);
    the_first_member_of_a_name_is_got(members, 3, "duplicate_titles"@);
    the_first_member_of_a_name_is_got(members, 4, "missing_attachments"@);
    the_first_member_of_a_name_is_got(members, 5, "load_errors"@);
    the_first_member_of_a_name_is_got(members, 6, "index_issues"@);
    the_first_member_of_a_name_is_got(members, 7, "duplicate_ids"@);
}

/// What the records of the findings hold.
pub proof fn the_records_of_findings(
    broken: Seq<BrokenModel>,
    missing: Seq<MissingModel>,
    errors: Seq<LoadErrorModel>,
    i: int,
)
    ensures
        0 <= i < broken.len() ==> ({
            let j = broken_records(broken)->Array_0[i];
            &&& j.get("source_title"@) == Some(JsonModel::Str(broken[i].source_title))
            &&& j.get("source_id"@) == Some(JsonModel::Str(broken[i].source_id))
            &&& j.get("target"@) == Some(JsonModel::Str(broken[i].target))
        }),
        0 <= i < missing.len() ==> ({
            let j = missing_records(missing)->Array_0[i];
            &&& j.get("source_title"@) == Some(JsonModel::Str(missing[i].source_title))
            &&& j.get("source_id"@) == Some(JsonModel::Str(missing[i].source_id))
            &&& j.get("target"@) == Some(JsonModel::Str(missing[i].target))
            &&& j.get("resolved_path"@) == Some(JsonModel::Str(missing[i].resolved_path))
        }),
        0 <= i < errors.len() ==> ({
            let j = error_records(errors)->Array_0[i];
            &&& j.get("page_id"@) == Some(JsonModel::Str(errors[i].page_id))
            &&& j.get("title"@) == Some(JsonModel::Str(errors[i].title))
            &&& j.get("error"@) == Some(JsonModel::Str(errors[i].error))
        }),
        broken_records(broken)->Array_0.len() == broken.len(),
        missing_records(missing)->Array_0.len() == missing.len(),
        error_records(errors)->Array_0.len() == errors.len(),
{
    reveal_strlit("source_title");
    reveal_strlit("source_id");
    reveal_strlit("target");
    reveal_strlit("resolved_path");
    reveal_strlit("page_id");
    reveal_strlit("title");
    reveal_strlit("error");
    assert("source_title"@.len() == 12 && "source_id"@.len() == 9 && "target"@.len() == 6
        && "resolved_path"@.len() == 13 && "page_id"@.len() == 7);
    assert("title"@.len() == 5 && "title"@[0] == 't' && "error"@.len() == 5 && "error"@[0] == 'e');
    if 0 <= i < broken.len() {
        let members = (broken_records(broken)->Array_0[i])->Object_0;
        the_first_member_of_a_name_is_got(members, 0, "source_title"@);
        the_first_member_of_a_name_is_got(members, 1, "source_id"@);
        the_first_member_of_a_name_is_got(members, 2, "target"@);
    }
    if 0 <= i < missing.len() {
        let members = (missing_records(missing)->Array_0[i])->Object_0;
        the_first_member_of_a_name_is_got(members, 0, "source_title"@);
        the_first_member_of_a_name_is_got(members, 1, "source_id"@);
        the_first_member_of_a_name_is_got(members, 2, "target"@);
        the_first_member_of_a_name_is_got(members, 3, "resolved_path"@);
    }
    if 0 <= i < errors.len() {
        let members = (error_records(errors)->Array_0[i])->Object_0;
        the_first_member_of_a_name_is_got(members, 0, "page_id"@);
        the_first_member_of_a_name_is_got(members, 1, "title"@);
        the_first_member_of_a_name_is_got(members, 2, "error"@);
    }
}

} // verus!
