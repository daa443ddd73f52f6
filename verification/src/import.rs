//! Reading exported markdown back into page files.

use crate::inline::{backtick_run, run_at};
use crate::inline_link::{
    a_label_with_a_target_is_a_link, answers, rewrite_inline_links, rewritten, LinkKind,
};
use crate::json::{
    array_of, array_of_texts, json_views, member, member_from, member_of_text, member_views,
    object_of, text_array, text_member, Json, JsonModel, Member, MemberModel,
};
use crate::lists::has_text;
use crate::parse::{
    children_of, code_languages, code_languages_round_trip, language_to_snippet_type, or_empty,
    present, tag_of, tags_of, type_from, type_of,
};
use crate::render::{
    is_standalone_link, standalone_link, unescape_block_start, unescaped_line, LinkPolicy,
};
use crate::sort::{arranged, is_sorted_order, sorted_text_order, text_keys};
use crate::strmap::{lemma_looked_up, looked_up, put_text, text_table, StrMap, TextTable};
use crate::text::{
    a_prefix_is_stripped, chars_of, contains, contains_char, copy_of, ends_with, find_from,
    find_text, has_char, is_blank, join, joined, lemma_concat, lemma_find_from, lemma_views_push,
    lines, lines_of, opt_view, replace, replaced, same_text, split_char, split_on, starts_with,
    string_of, strip_prefix, strip_suffix, text_contains, text_ends_with, text_starts_with, trim,
    trim_range, trim_start, trimmed, trimming_keeps_what_is_trimmed, views, whitespace,
    without_prefix, without_suffix,
};
use crate::time::{instant_of, Timestamp};
use vstd::prelude::*;

verus! {

// ---------------------------------------------------------------------------
// Front matter
// ---------------------------------------------------------------------------

/// What the front matter of an exported page says.
#[derive(Debug, Clone, PartialEq, Eq)]
pub struct Frontmatter {
    pub title: String,
    pub id: String,
    pub tags: Vec<String>,
    pub updated_at: Option<String>,
}

/// What a [`Frontmatter`] holds.
#[verifier::ext_equal]
pub struct FrontmatterModel {
    pub title: Seq<char>,
    pub id: Seq<char>,
    pub tags: Seq<Seq<char>>,
    pub updated_at: Option<Seq<char>>,
}

impl View for Frontmatter {
    type V = FrontmatterModel;

    open spec fn view(&self) -> FrontmatterModel {
        FrontmatterModel {
            title: self.title@,
            id: self.id@,
            tags: views(self.tags@),
            updated_at: opt_view(self.updated_at),
        }
    }
}

/// A quoted value without its quotes and escapes; any other value as it is.
pub open spec fn yaml_string(s: Seq<char>) -> Seq<char> {
    let t = trimmed(s);
    if t.len() >= 2 && ((t[0] == '"' && t.last() == '"') || (t[0] == '\'' && t.last() == '\'')) {
        yaml_unescaped(t.subrange(1, t.len() - 1))
    } else {
        t
    }
}

/// A text without the backslashes that escape its quotes and backslashes.
pub open spec fn yaml_unescaped(s: Seq<char>) -> Seq<char> {
    replaced(replaced(s, "\\\""@, "\""@), "\\\\"@, "\\"@)
}

/// The parts that are not empty, each as a value.
pub open spec fn yaml_values(parts: Seq<Seq<char>>) -> Seq<Seq<char>>
    decreases parts.len(),
{
    if parts.len() == 0 {
        Seq::empty()
    } else {
        let v = yaml_string(trimmed(parts.last()));
        if v.len() > 0 {
            yaml_values(parts.drop_last()).push(v)
        } else {
            yaml_values(parts.drop_last())
        }
    }
}

/// The values of a bracketed list; none where there are no brackets.
pub open spec fn yaml_tags(s: Seq<char>) -> Seq<Seq<char>> {
    let t = trimmed(s);
    if t.len() >= 2 && t[0] == '[' && t.last() == ']' {
        yaml_values(split_on(t.subrange(1, t.len() - 1), ','))
    } else {
        Seq::empty()
    }
}

/// Parses a value that may stand in quotes.
pub fn parse_yaml_string(s: &str) -> (out: String)
    ensures
        out@ == yaml_string(s@),
{
    let t = trim(s);
    let v = chars_of(t.as_str());
    if v.len() >= 2 && ((v[0] == '"' && v[v.len() - 1] == '"') || (v[0] == '\'' && v[v.len() - 1]
        == '\'')) {
        let inner = string_of(&v, 1, v.len() - 1);
        proof {
            reveal_strlit("\\\"");
            reveal_strlit("\\\\");
        }
        let once = replace(inner.as_str(), "\\\"", "\"");
        replace(once.as_str(), "\\\\", "\\")
    } else {
        t
    }
}

/// Parses a bracketed list of values.
pub fn parse_yaml_tags(s: &str) -> (out: Vec<String>)
    ensures
        views(out@) == yaml_tags(s@),
{
    let t = trim(s);
    let v = chars_of(t.as_str());
    let mut out: Vec<String> = Vec::new();
    assert(views(out@) =~= Seq::<Seq<char>>::empty());
    if v.len() < 2 || v[0] != '[' || v[v.len() - 1] != ']' {
        return out;
    }
    let inner = string_of(&v, 1, v.len() - 1);
    let parts = split_char(inner.as_str(), ',');
    let ghost all = views(parts@);
    let mut i: usize = 0;
    assert(all.take(0) =~= Seq::<Seq<char>>::empty());
    while i < parts.len()
        invariant
            i <= parts@.len(),
            all == views(parts@),
            views(out@) == yaml_values(all.take(i as int)),
        decreases parts.len() - i,
    {
        assert(all.take(i as int + 1).drop_last() =~= all.take(i as int));
        assert(all.take(i as int + 1).last() == parts@[i as int]@);
        let part = trim(parts[i].as_str());
        let value = parse_yaml_string(part.as_str());
        if !value.as_str().is_empty() {
            proof {
                lemma_views_push(out@, value);
            }
            out.push(value);
        }
        i += 1;
    }
    assert(all.take(i as int) =~= all);
    out
}

/// A text without the byte order mark it may start with.
pub open spec fn without_bom(s: Seq<char>) -> Seq<char> {
    if s.len() > 0 && s[0] == '\u{feff}' {
        s.skip(1)
    } else {
        s
    }
}

/// Whether a text opens a front matter block.
pub open spec fn opens_frontmatter(s: Seq<char>) -> bool {
    starts_with(s, "---\n"@) || starts_with(s, "---\r\n"@)
}

/// Where the front matter block ends within what follows the opening mark.
pub open spec fn frontmatter_end(after: Seq<char>) -> Option<int> {
    match find_from(after, 0, "\n---\n"@) {
        Some(k) => Some(k),
        None => match find_from(after, 0, "\n---\r\n"@) {
            Some(k) => Some(k),
            None => if ends_with(after, "\n---"@) {
                Some(after.len() - 3)
            } else {
                None
            },
        },
    }
}

/// What one line of a front matter block changes.
pub open spec fn frontmatter_line(fm: FrontmatterModel, line: Seq<char>) -> FrontmatterModel {
    let t = trimmed(line);
    match strip_prefix(t, "title:"@) {
        Some(rest) => FrontmatterModel { title: yaml_string(trimmed(rest)), ..fm },
        None => match strip_prefix(t, "id:"@) {
            Some(rest) => FrontmatterModel { id: trimmed(rest), ..fm },
            None => match strip_prefix(t, "updated_at:"@) {
                Some(rest) => if trimmed(rest).len() > 0 {
                    FrontmatterModel { updated_at: Some(trimmed(rest)), ..fm }
                } else {
                    fm
                },
                None => match strip_prefix(t, "tags:"@) {
                    Some(rest) => FrontmatterModel { tags: yaml_tags(trimmed(rest)), ..fm },
                    None => fm,
                },
            },
        },
    }
}

/// What the lines of a front matter block say together: later lines win.
pub open spec fn frontmatter_lines(ls: Seq<Seq<char>>) -> FrontmatterModel
    decreases ls.len(),
{
    if ls.len() == 0 {
        FrontmatterModel {
            title: Seq::empty(),
            id: Seq::empty(),
            tags: Seq::empty(),
            updated_at: None,
        }
    } else {
        frontmatter_line(frontmatter_lines(ls.drop_last()), ls.last())
    }
}

/// The front matter of a file, where it has a closed block of it.
pub open spec fn frontmatter_of(content: Seq<char>) -> Option<FrontmatterModel> {
    let s = without_bom(content);
    if opens_frontmatter(s) {
        let after = s.skip(4);
        match frontmatter_end(after) {
            Some(end) => Some(frontmatter_lines(lines_of(after.take(end)))),
            None => None,
        }
    } else {
        None
    }
}

/// What follows the front matter of a file; the whole file where it has none.
pub open spec fn body_of(content: Seq<char>) -> Seq<char> {
    let s = without_bom(content);
    if opens_frontmatter(s) {
        let after = s.skip(4);
        match find_from(after, 0, "\n---\n"@) {
            Some(k) => after.skip(k + 5),
            None => match find_from(after, 0, "\n---\r\n"@) {
                Some(k) => after.skip(k + 6),
                None => if ends_with(after, "\n---"@) {
                    Seq::empty()
                } else {
                    s
                },
            },
        }
    } else {
        s
    }
}

pub open spec fn frontmatter_view(fm: Option<Frontmatter>) -> Option<FrontmatterModel> {
    match fm {
        Some(f) => Some(f@),
        None => None,
    }
}

fn strip_bom(content: &str) -> (v: Vec<char>)
    ensures
        v@ == without_bom(content@),
{
    let mut v = chars_of(content);
    if v.len() > 0 && v[0] == '\u{feff}' {
        let _bom = v.remove(0);
        assert(v@ =~= content@.skip(1));
    }
    v
}

/// The characters behind the opening mark of a front matter block.
fn behind_opening(v: &Vec<char>) -> (after: Option<String>)
    ensures
        match after {
            Some(a) => opens_frontmatter(v@) && a@ == v@.skip(4),
            None => !opens_frontmatter(v@),
        },
{
    let text = string_of(v, 0, v.len());
    assert(text@ =~= v@);
    if !text_starts_with(text.as_str(), "---\n") && !text_starts_with(text.as_str(), "---\r\n") {
        return None;
    }
    proof {
        reveal_strlit("---\n");
        reveal_strlit("---\r\n");
    }
    let after = string_of(v, 4, v.len());
    assert(after@ =~= v@.skip(4));
    Some(after)
}

/// Applies one line of a front matter block.
fn apply_line(fm: &mut Frontmatter, line: &str)
    ensures
        final(fm)@ == frontmatter_line(old(fm)@, line@),
{
    let t = trim(line);
    if let Some(rest) = without_prefix(t.as_str(), "title:") {
        let value = trim(rest.as_str());
        fm.title = parse_yaml_string(value.as_str());
    } else if let Some(rest) = without_prefix(t.as_str(), "id:") {
        fm.id = trim(rest.as_str());
    } else if let Some(rest) = without_prefix(t.as_str(), "updated_at:") {
        let value = trim(rest.as_str());
        if !value.as_str().is_empty() {
            fm.updated_at = Some(value);
        }
    } else if let Some(rest) = without_prefix(t.as_str(), "tags:") {
        let value = trim(rest.as_str());
        fm.tags = parse_yaml_tags(value.as_str());
    }
}

/// Reads the front matter of an exported file.
pub fn parse_frontmatter(content: &str) -> (found: Option<Frontmatter>)
    ensures
        frontmatter_view(found) == frontmatter_of(content@),
{
    let s = strip_bom(content);
    let after = match behind_opening(&s) {
        Some(a) => a,
        None => {
            return None;
        },
    };
    let a = chars_of(after.as_str());
    proof {
        lemma_find_from(after@, 0, "\n---\n"@);
        lemma_find_from(after@, 0, "\n---\r\n"@);
        reveal_strlit("\n---");
    }
    let end: usize = match find_text(&a, 0, "\n---\n") {
        Some(k) => k,
        None => match find_text(&a, 0, "\n---\r\n") {
            Some(k) => k,
            None => if text_ends_with(after.as_str(), "\n---") {
                a.len() - 3
            } else {
                return None;
            },
        },
    };
    let block = string_of(&a, 0, end);
    assert(block@ =~= after@.take(end as int));
    let ls = lines(block.as_str());
    let ghost all = views(ls@);
    let mut fm = Frontmatter {
        title: String::new(),
        id: String::new(),
        tags: Vec::new(),
        updated_at: None,
    };
    let mut i: usize = 0;
    assert(all.take(0) =~= Seq::<Seq<char>>::empty());
    assert(fm@ =~= frontmatter_lines(all.take(0)));
    while i < ls.len()
        invariant
            i <= ls@.len(),
            all == views(ls@),
            fm@ == frontmatter_lines(all.take(i as int)),
        decreases ls.len() - i,
    {
        assert(all.take(i as int + 1).drop_last() =~= all.take(i as int));
        assert(all.take(i as int + 1).last() == ls@[i as int]@);
        apply_line(&mut fm, ls[i].as_str());
        i += 1;
    }
    assert(all.take(i as int) =~= all);
    Some(fm)
}

/// The text behind the front matter of an exported file.
pub fn strip_frontmatter(content: &str) -> (body: String)
    ensures
        body@ == body_of(content@),
{
    let s = strip_bom(content);
    match behind_opening(&s) {
        None => {
            let whole = string_of(&s, 0, s.len());
            assert(whole@ =~= s@);
            whole
        },
        Some(after) => {
            let a = chars_of(after.as_str());
            proof {
                lemma_find_from(after@, 0, "\n---\n"@);
                lemma_find_from(after@, 0, "\n---\r\n"@);
                reveal_strlit("\n---\n");
                reveal_strlit("\n---\r\n");
            }
            if let Some(k) = find_text(&a, 0, "\n---\n") {
                let body = string_of(&a, k + 5, a.len());
                assert(body@ =~= after@.skip(k + 5));
                return body;
            }
            if let Some(k) = find_text(&a, 0, "\n---\r\n") {
                let body = string_of(&a, k + 6, a.len());
                assert(body@ =~= after@.skip(k + 6));
                return body;
            }
            if text_ends_with(after.as_str(), "\n---") {
                return String::new();
            }
            let whole = string_of(&s, 0, s.len());
            assert(whole@ =~= s@);
            whole
        },
    }
}

/// Whether an id can name a file without leaving the directory: no separator,
/// and no `..`.
pub open spec fn safe_id(id: Seq<char>) -> bool {
    !contains_char(id, '/') && !contains_char(id, '\\') && !contains(id, ".."@)
}

/// Rejects front matter ids that would escape the output directory when joined
/// as a file name.
pub fn id_is_safe(id: &str) -> (safe: bool)
    ensures
        safe == safe_id(id@),
{
    let v = chars_of(id);
    !has_char(&v, '/') && !has_char(&v, '\\') && !text_contains(id, "..")
}

// ---------------------------------------------------------------------------
// Snippets
// ---------------------------------------------------------------------------

/// A snippet of an imported page.
#[derive(Debug, Clone, PartialEq, Eq)]
pub enum Snippet {
    Text(String),
    Code { language: Option<String>, code: String },
    List(Vec<String>),
    Link { text: String, url: String },
    Rewrite {
        language: Option<String>,
        search: String,
        replace: String,
        scope: Option<String>,
        is_method_pattern: Option<bool>,
    },
    Unknown { typ: String },
}

/// What a [`Snippet`] holds.
#[verifier::ext_equal]
pub enum SnippetModel {
    Text(Seq<char>),
    Code { language: Option<Seq<char>>, code: Seq<char> },
    List(Seq<Seq<char>>),
    Link { text: Seq<char>, url: Seq<char> },
    Rewrite {
        language: Option<Seq<char>>,
        search: Seq<char>,
        replace: Seq<char>,
        scope: Option<Seq<char>>,
        is_method_pattern: Option<bool>,
    },
    Unknown { typ: Seq<char> },
}

impl View for Snippet {
    type V = SnippetModel;

    open spec fn view(&self) -> SnippetModel {
        match self {
            Snippet::Text(t) => SnippetModel::Text(t@),
            Snippet::Code { language, code } => SnippetModel::Code {
                language: opt_view(*language),
                code: code@,
            },
            Snippet::List(items) => SnippetModel::List(views(items@)),
            Snippet::Link { text, url } => SnippetModel::Link { text: text@, url: url@ },
            Snippet::Rewrite { language, search, replace, scope, is_method_pattern } =>
                SnippetModel::Rewrite {
                language: opt_view(*language),
                search: search@,
                replace: replace@,
                scope: opt_view(*scope),
                is_method_pattern: *is_method_pattern,
            },
            Snippet::Unknown { typ } => SnippetModel::Unknown { typ: typ@ },
        }
    }
}

pub open spec fn snippet_views(v: Seq<Snippet>) -> Seq<SnippetModel> {
    Seq::new(v.len(), |i: int| v[i]@)
}

/// The target `page:id` for the file name of an exported page.
pub open spec fn page_target(slugs: TextTable, target: Seq<char>) -> Option<Seq<char>> {
    if ends_with(target, ".md"@) {
        match looked_up(slugs, target) {
            Some(id) => Some("page:"@ + id),
            None => None,
        }
    } else {
        None
    }
}

/// Markdown links to exported pages become links to pages; wiki links and any
/// other links stay as they are.
pub open spec fn internal_policy(slugs: TextTable) -> LinkPolicy {
    |kind: LinkKind, target: Seq<char>|
        match kind {
            LinkKind::Markdown => page_target(slugs, target),
            LinkKind::Wiki => None,
        }
}

/// A text with its links to exported pages turned into links to pages.
pub open spec fn internal_text(slugs: TextTable, text: Seq<char>) -> Seq<char> {
    rewritten(text, internal_policy(slugs))
}

fn find_page_target(slugs: &StrMap<String>, target: &str) -> (found: Option<String>)
    requires
        slugs.wf(),
    ensures
        opt_view(found) == page_target(text_table(*slugs), target@),
{
    if !text_ends_with(target, ".md") {
        return None;
    }
    proof {
        lemma_looked_up(*slugs, target@);
    }
    match slugs.get(target) {
        Some(id) => {
            let mut out = String::new();
            out.push_str("page:");
            out.push_str(id.as_str());
            assert(out@ =~= "page:"@ + id@);
            Some(out)
        },
        None => None,
    }
}

/// The target of a link snippet, as a link to a page where it names one.
pub fn rewrite_link_target_to_internal(target: &str, slug_to_id: &StrMap<String>) -> (out: String)
    requires
        slug_to_id.wf(),
    ensures
        out@ == match page_target(text_table(*slug_to_id), target@) {
            Some(t) => t,
            None => target@,
        },
{
    match find_page_target(slug_to_id, target) {
        Some(t) => t,
        None => copy_of(target),
    }
}

/// Rewrites `[label](slug.md)` markdown links whose target is an exported page
/// back to `[label](page:id)`. `[[wikilinks]]` and any other links are left
/// untouched.
pub fn rewrite_links_to_internal(text: &str, slug_to_id: &StrMap<String>) -> (out: String)
    requires
        slug_to_id.wf(),
    ensures
        out@ == internal_text(text_table(*slug_to_id), text@),
{
    let rewrite = |kind: LinkKind, target: &str| -> (answer: Option<String>)
        ensures
            opt_view(answer) == internal_policy(text_table(*slug_to_id))(kind, target@),
        {
            match kind {
                LinkKind::Markdown => find_page_target(slug_to_id, target),
                LinkKind::Wiki => None,
            }
        };
    assert(answers(rewrite, internal_policy(text_table(*slug_to_id))));
    rewrite_inline_links(text, rewrite)
}

/// Each line of a text without the backslash that escapes it.
pub open spec fn unescaped_text(text: Seq<char>) -> Seq<char> {
    let ls = lines_of(text);
    joined(Seq::new(ls.len(), |i: int| unescaped_line(ls[i])), "\n"@)
}

/// Takes the backslash from each line that one escapes.
pub fn unescape_lines(text: &str) -> (out: String)
    ensures
        out@ == unescaped_text(text@),
{
    let ls = lines(text);
    let mut plain: Vec<String> = Vec::new();
    let mut i: usize = 0;
    while i < ls.len()
        invariant
            i <= ls@.len(),
            views(ls@) == lines_of(text@),
            plain@.len() == i,
            forall|k: int| 0 <= k < i ==> (#[trigger] plain@[k])@ == unescaped_line(ls@[k]@),
        decreases ls.len() - i,
    {
        plain.push(unescape_block_start(ls[i].as_str()));
        i += 1;
    }
    proof {
        let all = lines_of(text@);
        assert(views(plain@) =~= Seq::new(all.len(), |k: int| unescaped_line(all[k]))) by {
            assert forall|k: int| 0 <= k < plain@.len() implies views(plain@)[k] == unescaped_line(
                all[k],
            ) by {
                assert(all[k] == ls@[k]@);
                assert(plain@[k]@ == unescaped_line(ls@[k]@));
            }
        }
    }
    join(&plain, "\n")
}

// ---------------------------------------------------------------------------
// Lines
// ---------------------------------------------------------------------------

pub open spec fn blank_line(line: Seq<char>) -> bool {
    trimmed(line).len() == 0
}

pub open spec fn quote_line(line: Seq<char>) -> bool {
    starts_with(line, "> "@) || line == ">"@
}

/// What a quote line quotes.
pub open spec fn quoted(line: Seq<char>) -> Seq<char> {
    or_empty(strip_prefix(line, "> "@))
}

/// The length and the info string of an opening code fence: at least three
/// backticks, and no backtick behind them.
pub open spec fn fence_opening(line: Seq<char>) -> Option<(nat, Seq<char>)> {
    let ticks = run_at(line, 0);
    let info = trimmed(line.skip(ticks as int));
    if ticks < 3 || contains_char(info, '`') {
        None
    } else {
        Some((ticks, info))
    }
}

/// How many spaces stand in a row at `i`.
pub open spec fn spaces_at(s: Seq<char>, i: int) -> nat
    decreases s.len() - i,
{
    if 0 <= i < s.len() && s[i] == ' ' {
        1 + spaces_at(s, i + 1)
    } else {
        0
    }
}

/// Whether a line closes a fence of `open_len` backticks: at least that many,
/// indented by at most three spaces, and nothing else.
pub open spec fn fence_closing(line: Seq<char>, open_len: nat) -> bool {
    let indent = spaces_at(line, 0);
    let ticks = run_at(line, indent as int);
    indent <= 3 && ticks >= open_len && trimmed(line.skip((indent + ticks) as int)).len() == 0
}

/// Whether the line belongs to a quotation.
pub fn is_quote_line(line: &str) -> (b: bool)
    ensures
        b == quote_line(line@),
{
    text_starts_with(line, "> ") || same_text(line, ">")
}

/// The line without its quotation mark.
pub fn quote_body(line: &str) -> (body: String)
    ensures
        body@ == quoted(line@),
{
    match without_prefix(line, "> ") {
        Some(rest) => rest,
        None => String::new(),
    }
}

pub open spec fn fence_view(f: Option<(usize, String)>) -> Option<(nat, Seq<char>)> {
    match f {
        Some((n, info)) => Some((n as nat, info@)),
        None => None,
    }
}

/// Reads an opening code fence, at least three backticks and an info string
/// with no backtick in it, into its backtick count and info string.
pub fn open_fence(line: &str) -> (found: Option<(usize, String)>)
    ensures
        fence_view(found) == fence_opening(line@),
{
    let v = chars_of(line);
    let ticks: usize = backtick_run(&v, 0);
    if ticks < 3 {
        return None;
    }
    let r = trim_range(&v, ticks, v.len());
    assert(v@.subrange(ticks as int, v@.len() as int) =~= line@.skip(ticks as int));
    let info = string_of(&v, r.0, r.1);
    let chars = chars_of(info.as_str());
    if has_char(&chars, '`') {
        return None;
    }
    Some((ticks, info))
}

/// Whether `line` closes a fence opened with `open_len` backticks: a run of at
/// least that many, indented by at most three spaces, and nothing else.
pub fn closes_fence(line: &str, open_len: usize) -> (b: bool)
    ensures
        b == fence_closing(line@, open_len as nat),
{
    let v = chars_of(line);
    let mut indent: usize = 0;
    while indent < v.len() && v[indent] == ' '
        invariant
            v@ == line@,
            indent <= v@.len(),
            spaces_at(line@, 0) == indent + spaces_at(line@, indent as int),
        decreases v.len() - indent,
    {
        indent += 1;
    }
    if indent > 3 {
        return false;
    }
    let ticks: usize = backtick_run(&v, indent);
    let r = trim_range(&v, indent + ticks, v.len());
    assert(v@.subrange(indent + ticks, v@.len() as int) =~= line@.skip(indent + ticks));
    ticks >= open_len && r.0 == r.1
}

// ---------------------------------------------------------------------------
// Code blocks
// ---------------------------------------------------------------------------

/// The fields that the lines of a rewrite block have given so far.
#[verifier::ext_equal]
pub struct RewriteFields {
    pub scope: Option<Seq<char>>,
    pub is_method_pattern: Option<bool>,
    pub search: Seq<Seq<char>>,
    pub replace: Seq<Seq<char>>,
}

/// The truth value that a text spells.
pub open spec fn spelled_bool(s: Seq<char>) -> Option<bool> {
    if s == "true"@ {
        Some(true)
    } else if s == "false"@ {
        Some(false)
    } else {
        None
    }
}

/// What one line of a rewrite block changes.
pub open spec fn rewrite_line(f: RewriteFields, line: Seq<char>) -> RewriteFields {
    match strip_prefix(line, "# scope: "@) {
        Some(rest) => RewriteFields { scope: Some(rest), ..f },
        None => match strip_prefix(line, "# method_pattern: "@) {
            Some(rest) => RewriteFields { is_method_pattern: spelled_bool(rest), ..f },
            None => match strip_prefix(line, "-"@) {
                Some(rest) => RewriteFields { search: f.search.push(rest), ..f },
                None => match strip_prefix(line, "+"@) {
                    Some(rest) => RewriteFields { replace: f.replace.push(rest), ..f },
                    None => f,
                },
            },
        },
    }
}

pub open spec fn rewrite_fields(ls: Seq<Seq<char>>) -> RewriteFields
    decreases ls.len(),
{
    if ls.len() == 0 {
        RewriteFields {
            scope: None,
            is_method_pattern: None,
            search: Seq::empty(),
            replace: Seq::empty(),
        }
    } else {
        rewrite_line(rewrite_fields(ls.drop_last()), ls.last())
    }
}

/// A language, unless it is empty.
pub open spec fn language_named(lang: Seq<char>) -> Option<Seq<char>> {
    if lang.len() == 0 {
        None
    } else {
        Some(lang)
    }
}

/// The rewrite snippet that a `diff` block holds, where it has a search or a
/// replace line.
pub open spec fn rewrite_block(lang: Seq<char>, ls: Seq<Seq<char>>) -> Option<SnippetModel> {
    let f = rewrite_fields(ls);
    if f.search.len() == 0 && f.replace.len() == 0 {
        None
    } else {
        Some(
            SnippetModel::Rewrite {
                language: language_named(lang),
                search: joined(f.search, "\n"@),
                replace: joined(f.replace, "\n"@),
                scope: f.scope,
                is_method_pattern: f.is_method_pattern,
            },
        )
    }
}

/// The snippet of a closed code block.
pub open spec fn code_block(info: Seq<char>, ls: Seq<Seq<char>>) -> SnippetModel {
    let plain = SnippetModel::Code { language: language_named(info), code: joined(ls, "\n"@) };
    match strip_prefix(info, "diff "@) {
        Some(rest) => match rewrite_block(trimmed(rest), ls) {
            Some(snippet) => snippet,
            None => plain,
        },
        None => plain,
    }
}

pub open spec fn snippet_view(s: Option<Snippet>) -> Option<SnippetModel> {
    match s {
        Some(s) => Some(s@),
        None => None,
    }
}

fn some_language(lang: &str) -> (language: Option<String>)
    ensures
        opt_view(language) == language_named(lang@),
{
    if lang.is_empty() {
        None
    } else {
        Some(copy_of(lang))
    }
}

fn parse_bool(s: &str) -> (b: Option<bool>)
    ensures
        b == spelled_bool(s@),
{
    proof {
        reveal_strlit("true");
        reveal_strlit("false");
    }
    if same_text(s, "true") {
        Some(true)
    } else if same_text(s, "false") {
        Some(false)
    } else {
        None
    }
}

/// Reads the lines of a rewrite block; none where no line searches or replaces.
pub fn try_parse_rewrite_block(lang: &str, all_lines: &Vec<String>) -> (found: Option<Snippet>)
    ensures
        snippet_view(found) == rewrite_block(lang@, views(all_lines@)),
{
    let mut scope: Option<String> = None;
    let mut is_method_pattern: Option<bool> = None;
    let mut search_lines: Vec<String> = Vec::new();
    let mut replace_lines: Vec<String> = Vec::new();
    let ghost all = views(all_lines@);
    let mut i: usize = 0;
    assert(all.take(0) =~= Seq::<Seq<char>>::empty());
    assert(views(search_lines@) =~= Seq::<Seq<char>>::empty());
    while i < all_lines.len()
        invariant
            i <= all_lines@.len(),
            all == views(all_lines@),
            rewrite_fields(all.take(i as int)) == (RewriteFields {
                scope: opt_view(scope),
                is_method_pattern,
                search: views(search_lines@),
                replace: views(replace_lines@),
            }),
        decreases all_lines.len() - i,
    {
        assert(all.take(i as int + 1).drop_last() =~= all.take(i as int));
        assert(all.take(i as int + 1).last() == all_lines@[i as int]@);
        let line = all_lines[i].as_str();
        if let Some(rest) = without_prefix(line, "# scope: ") {
            scope = Some(rest);
        } else if let Some(rest) = without_prefix(line, "# method_pattern: ") {
            is_method_pattern = parse_bool(rest.as_str());
        } else if let Some(rest) = without_prefix(line, "-") {
            proof {
                lemma_views_push(search_lines@, rest);
            }
            search_lines.push(rest);
        } else if let Some(rest) = without_prefix(line, "+") {
            proof {
                lemma_views_push(replace_lines@, rest);
            }
            replace_lines.push(rest);
        }
        i += 1;
    }
    assert(all.take(i as int) =~= all);
    if search_lines.len() == 0 && replace_lines.len() == 0 {
        return None;
    }
    Some(
        Snippet::Rewrite {
            language: some_language(lang),
            search: join(&search_lines, "\n"),
            replace: join(&replace_lines, "\n"),
            scope,
            is_method_pattern,
        },
    )
}

/// The snippet of a code block with this info string and these lines.
pub fn code_block_snippet(info: &str, body: &Vec<String>) -> (snippet: Snippet)
    ensures
        snippet@ == code_block(info@, views(body@)),
{
    if let Some(rest) = without_prefix(info, "diff ") {
        let lang = trim(rest.as_str());
        if let Some(snippet) = try_parse_rewrite_block(lang.as_str(), body) {
            return snippet;
        }
    }
    Snippet::Code { language: some_language(info), code: join(body, "\n") }
}

// ---------------------------------------------------------------------------
// The body of a page
// ---------------------------------------------------------------------------

/// The first line from `i` on that closes a fence of `open_len` backticks; the
/// number of lines where none does.
pub open spec fn close_from(ls: Seq<Seq<char>>, i: int, open_len: nat) -> int
    decreases ls.len() - i,
{
    if 0 <= i < ls.len() {
        if fence_closing(ls[i], open_len) {
            i
        } else {
            close_from(ls, i + 1, open_len)
        }
    } else {
        ls.len() as int
    }
}

/// The first line from `i` on that does not quote.
pub open spec fn quote_end(ls: Seq<Seq<char>>, i: int) -> int
    decreases ls.len() - i,
{
    if 0 <= i < ls.len() && quote_line(ls[i]) {
        quote_end(ls, i + 1)
    } else {
        i
    }
}

/// Whether a line belongs to the list above it, as an item or a continuation.
pub open spec fn list_line(line: Seq<char>) -> bool {
    starts_with(line, "- "@) || starts_with(line, "  "@)
}

/// The first line from `i` on that does not belong to the list above it.
pub open spec fn list_end(ls: Seq<Seq<char>>, i: int) -> int
    decreases ls.len() - i,
{
    if 0 <= i < ls.len() && list_line(ls[i]) {
        list_end(ls, i + 1)
    } else {
        i
    }
}

/// Whether a line ends the paragraph above it.
pub open spec fn ends_paragraph(line: Seq<char>) -> bool {
    blank_line(line) || fence_opening(line) is Some || quote_line(line) || starts_with(line, "- "@)
}

/// The first line from `i` on that ends the paragraph above it.
pub open spec fn paragraph_end(ls: Seq<Seq<char>>, i: int) -> int
    decreases ls.len() - i,
{
    if 0 <= i < ls.len() && !ends_paragraph(ls[i]) {
        paragraph_end(ls, i + 1)
    } else {
        i
    }
}

/// The items that list lines hold: a line that starts with a dash opens one,
/// and any other continues the one before it on a line of its own.
pub open spec fn items_of(ls: Seq<Seq<char>>) -> Seq<Seq<char>>
    decreases ls.len(),
{
    if ls.len() == 0 {
        Seq::empty()
    } else {
        let before = items_of(ls.drop_last());
        let body = ls.last().skip(2);
        if starts_with(ls.last(), "- "@) || before.len() == 0 {
            before.push(body)
        } else {
            before.update(before.len() - 1, before.last() + "\n"@ + body)
        }
    }
}

/// The texts that quote lines quote.
pub open spec fn quotes_of(ls: Seq<Seq<char>>) -> Seq<Seq<char>> {
    Seq::new(ls.len(), |i: int| quoted(ls[i]))
}

/// The type in a `[[unknown: TYPE]]` marker.
pub open spec fn unknown_marker(line: Seq<char>) -> Option<Seq<char>> {
    match strip_prefix(trimmed(line), "[[unknown: "@) {
        Some(rest) => strip_suffix(rest, "]]"@),
        None => None,
    }
}

/// The label of a line that is one link.
pub open spec fn standalone_label(line: Seq<char>) -> Seq<char> {
    let t = trimmed(line);
    match find_from(t, 0, "]("@) {
        Some(k) => t.subrange(1, k),
        None => Seq::empty(),
    }
}

/// The target of a line that is one link.
pub open spec fn standalone_target(line: Seq<char>) -> Seq<char> {
    let t = trimmed(line);
    match find_from(t, 0, "]("@) {
        Some(k) => t.subrange(k + 2, t.len() - 1),
        None => Seq::empty(),
    }
}

/// A link target, as a link to a page where it names an exported page.
pub open spec fn internal_target(slugs: TextTable, target: Seq<char>) -> Seq<char> {
    match page_target(slugs, target) {
        Some(t) => t,
        None => target,
    }
}

/// The snippet of a run of quote lines.
pub open spec fn quote_snippet(slugs: TextTable, ls: Seq<Seq<char>>) -> SnippetModel {
    SnippetModel::Text(internal_text(slugs, "> "@ + joined(quotes_of(ls), "\n"@)))
}

/// The snippet of a run of list lines.
pub open spec fn list_snippet(slugs: TextTable, ls: Seq<Seq<char>>) -> SnippetModel {
    let items = items_of(ls);
    SnippetModel::List(
        Seq::new(items.len(), |i: int| internal_text(slugs, unescaped_text(items[i]))),
    )
}

/// The snippet of a run of paragraph lines. A lone line may instead be the
/// marker of an unknown snippet, or one link.
pub open spec fn paragraph_snippet(slugs: TextTable, ls: Seq<Seq<char>>) -> SnippetModel {
    if ls.len() == 1 && unknown_marker(ls[0]) is Some {
        SnippetModel::Unknown { typ: or_empty(unknown_marker(ls[0])) }
    } else if ls.len() == 1 && standalone_link(ls[0]) {
        SnippetModel::Link {
            text: standalone_label(ls[0]),
            url: internal_target(slugs, standalone_target(ls[0])),
        }
    } else {
        SnippetModel::Text(internal_text(slugs, unescaped_text(joined(ls, "\n"@))))
    }
}

/// Where the block that opens at line `i` ends.
pub open spec fn block_end(ls: Seq<Seq<char>>, i: int) -> int {
    let line = ls[i];
    if blank_line(line) {
        i + 1
    } else {
        match fence_opening(line) {
            Some((ticks, info)) => {
                let close = close_from(ls, i + 1, ticks);
                if close < ls.len() {
                    close + 1
                } else {
                    ls.len() as int
                }
            },
            None => if quote_line(line) {
                quote_end(ls, i + 1)
            } else if starts_with(line, "- "@) {
                list_end(ls, i + 1)
            } else {
                paragraph_end(ls, i + 1)
            },
        }
    }
}

/// The snippets of the block that opens at line `i`. A fence that nothing
/// closes gives its opening line as text, and takes all that follows it.
pub open spec fn block_snippets(slugs: TextTable, ls: Seq<Seq<char>>, i: int) -> Seq<
    SnippetModel,
> {
    let line = ls[i];
    let run = ls.subrange(i, block_end(ls, i));
    if blank_line(line) {
        Seq::empty()
    } else {
        match fence_opening(line) {
            Some((ticks, info)) => {
                let close = close_from(ls, i + 1, ticks);
                if close < ls.len() {
                    seq![code_block(info, ls.subrange(i + 1, close))]
                } else {
                    seq![SnippetModel::Text(internal_text(slugs, line))]
                }
            },
            None => if quote_line(line) {
                seq![quote_snippet(slugs, run)]
            } else if starts_with(line, "- "@) {
                seq![list_snippet(slugs, run)]
            } else {
                seq![paragraph_snippet(slugs, run)]
            },
        }
    }
}

pub proof fn lemma_ends(ls: Seq<Seq<char>>, i: int, open_len: nat)
    requires
        0 <= i <= ls.len(),
    ensures
        i <= quote_end(ls, i) <= ls.len(),
        i <= list_end(ls, i) <= ls.len(),
        i <= paragraph_end(ls, i) <= ls.len(),
        i <= close_from(ls, i, open_len) <= ls.len(),
    decreases ls.len() - i,
{
    if i < ls.len() {
        lemma_ends(ls, i + 1, open_len);
    }
}

/// A block takes at least the line that opens it.
pub proof fn lemma_block_end(ls: Seq<Seq<char>>, i: int)
    requires
        0 <= i < ls.len(),
    ensures
        i < block_end(ls, i) <= ls.len(),
{
    match fence_opening(ls[i]) {
        Some((ticks, info)) => {
            lemma_ends(ls, i + 1, ticks);
        },
        None => {
            lemma_ends(ls, i + 1, 0);
        },
    }
}

/// The snippets of the lines from `i` on.
#[verifier::opaque]
pub open spec fn snippets_from(slugs: TextTable, ls: Seq<Seq<char>>, i: int) -> Seq<
    SnippetModel,
>
    decreases ls.len() - i,
{
    if 0 <= i < ls.len() {
        proof {
            lemma_block_end(ls, i);
        }
        block_snippets(slugs, ls, i) + snippets_from(slugs, ls, block_end(ls, i))
    } else {
        Seq::empty()
    }
}

/// The snippets of the body of a page.
pub open spec fn body_snippets(slugs: TextTable, body: Seq<char>) -> Seq<SnippetModel> {
    snippets_from(slugs, lines_of(body), 0)
}

/// The snippets of the lines from `i` on are those of the block there and those
/// behind it.
pub proof fn lemma_snippets_step(slugs: TextTable, ls: Seq<Seq<char>>, i: int)
    requires
        0 <= i < ls.len(),
    ensures
        snippets_from(slugs, ls, i) == block_snippets(slugs, ls, i) + snippets_from(
            slugs,
            ls,
            block_end(ls, i),
        ),
{
    reveal(snippets_from);
}

fn copy_lines(ls: &Vec<String>, from: usize, to: usize) -> (out: Vec<String>)
    requires
        from <= to <= ls.len(),
    ensures
        views(out@) == views(ls@).subrange(from as int, to as int),
{
    let mut out: Vec<String> = Vec::new();
    let mut i: usize = from;
    while i < to
        invariant
            from <= i <= to <= ls@.len(),
            views(out@) =~= views(ls@).subrange(from as int, i as int),
        decreases to - i,
    {
        let line = copy_of(ls[i].as_str());
        proof {
            lemma_views_push(out@, line);
        }
        out.push(line);
        i += 1;
    }
    out
}

fn find_close(ls: &Vec<String>, from: usize, open_len: usize) -> (k: usize)
    requires
        from <= ls.len(),
    ensures
        k == close_from(views(ls@), from as int, open_len as nat),
        from <= k <= ls@.len(),
{
    let mut k: usize = from;
    while k < ls.len() && !closes_fence(ls[k].as_str(), open_len)
        invariant
            from <= k <= ls@.len(),
            close_from(views(ls@), from as int, open_len as nat) == close_from(
                views(ls@),
                k as int,
                open_len as nat,
            ),
        decreases ls.len() - k,
    {
        k += 1;
    }
    k
}

fn find_quote_end(ls: &Vec<String>, from: usize) -> (k: usize)
    requires
        from <= ls.len(),
    ensures
        k == quote_end(views(ls@), from as int),
        from <= k <= ls@.len(),
{
    let mut k: usize = from;
    while k < ls.len() && is_quote_line(ls[k].as_str())
        invariant
            from <= k <= ls@.len(),
            quote_end(views(ls@), from as int) == quote_end(views(ls@), k as int),
        decreases ls.len() - k,
    {
        k += 1;
    }
    k
}

fn find_list_end(ls: &Vec<String>, from: usize) -> (k: usize)
    requires
        from <= ls.len(),
    ensures
        k == list_end(views(ls@), from as int),
        from <= k <= ls@.len(),
{
    let mut k: usize = from;
    while k < ls.len() && (text_starts_with(ls[k].as_str(), "- ") || text_starts_with(
        ls[k].as_str(),
        "  ",
    ))
        invariant
            from <= k <= ls@.len(),
            list_end(views(ls@), from as int) == list_end(views(ls@), k as int),
        decreases ls.len() - k,
    {
        k += 1;
    }
    k
}

fn stops_paragraph(line: &str) -> (b: bool)
    ensures
        b == ends_paragraph(line@),
{
    is_blank(line) || open_fence(line).is_some() || is_quote_line(line) || text_starts_with(
        line,
        "- ",
    )
}

fn find_paragraph_end(ls: &Vec<String>, from: usize) -> (k: usize)
    requires
        from <= ls.len(),
    ensures
        k == paragraph_end(views(ls@), from as int),
        from <= k <= ls@.len(),
{
    let mut k: usize = from;
    while k < ls.len() && !stops_paragraph(ls[k].as_str())
        invariant
            from <= k <= ls@.len(),
            paragraph_end(views(ls@), from as int) == paragraph_end(views(ls@), k as int),
        decreases ls.len() - k,
    {
        k += 1;
    }
    k
}

fn behind_two(line: &str) -> (rest: String)
    requires
        line@.len() >= 2,
    ensures
        rest@ == line@.skip(2),
{
    let v = chars_of(line);
    let rest = string_of(&v, 2, v.len());
    assert(rest@ =~= line@.skip(2));
    rest
}

fn gather_items(ls: &Vec<String>) -> (items: Vec<String>)
    requires
        forall|i: int| 0 <= i < ls@.len() ==> list_line(#[trigger] ls@[i]@),
    ensures
        views(items@) == items_of(views(ls@)),
{
    let mut items: Vec<String> = Vec::new();
    let ghost all = views(ls@);
    let mut i: usize = 0;
    proof {
        reveal_strlit("- ");
        reveal_strlit("  ");
    }
    assert(all.take(0) =~= Seq::<Seq<char>>::empty());
    assert(views(items@) =~= Seq::<Seq<char>>::empty());
    while i < ls.len()
        invariant
            "- "@.len() == 2,
            "  "@.len() == 2,
            i <= ls@.len(),
            all == views(ls@),
            forall|i: int| 0 <= i < ls@.len() ==> list_line(#[trigger] ls@[i]@),
            views(items@) == items_of(all.take(i as int)),
        decreases ls.len() - i,
    {
        assert(all.take(i as int + 1).drop_last() =~= all.take(i as int));
        assert(all.take(i as int + 1).last() == ls@[i as int]@);
        assert(list_line(ls@[i as int]@));
        let body = behind_two(ls[i].as_str());
        if text_starts_with(ls[i].as_str(), "- ") || items.len() == 0 {
            proof {
                lemma_views_push(items@, body);
            }
            items.push(body);
        } else {
            let ghost before = items@;
            let last: usize = items.len() - 1;
            let mut item = copy_of(items[last].as_str());
            item.push_str("\n");
            item.push_str(body.as_str());
            items.set(last, item);
            assert(views(items@) =~= views(before).update(
                last as int,
                views(before).last() + "\n"@ + body@,
            ));
        }
        i += 1;
    }
    assert(all.take(i as int) =~= all);
    items
}

fn text_snippet(text: &str, slug_to_id: &StrMap<String>) -> (snippet: Snippet)
    requires
        slug_to_id.wf(),
    ensures
        snippet@ == SnippetModel::Text(internal_text(text_table(*slug_to_id), text@)),
{
    Snippet::Text(rewrite_links_to_internal(text, slug_to_id))
}

fn quote_block(run: &Vec<String>, slug_to_id: &StrMap<String>) -> (snippet: Snippet)
    requires
        slug_to_id.wf(),
    ensures
        snippet@ == quote_snippet(text_table(*slug_to_id), views(run@)),
{
    let mut bodies: Vec<String> = Vec::new();
    let mut i: usize = 0;
    while i < run.len()
        invariant
            i <= run@.len(),
            bodies@.len() == i,
            forall|k: int| 0 <= k < i ==> (#[trigger] bodies@[k])@ == quoted(run@[k]@),
        decreases run.len() - i,
    {
        bodies.push(quote_body(run[i].as_str()));
        i += 1;
    }
    assert(views(bodies@) =~= quotes_of(views(run@)));
    let mut text = String::new();
    text.push_str("> ");
    let rest = join(&bodies, "\n");
    text.push_str(rest.as_str());
    assert(text@ =~= "> "@ + rest@);
    text_snippet(text.as_str(), slug_to_id)
}

fn list_block(run: &Vec<String>, slug_to_id: &StrMap<String>) -> (snippet: Snippet)
    requires
        slug_to_id.wf(),
        forall|i: int| 0 <= i < run@.len() ==> list_line(#[trigger] run@[i]@),
    ensures
        snippet@ == list_snippet(text_table(*slug_to_id), views(run@)),
{
    let raw = gather_items(run);
    let mut items: Vec<String> = Vec::new();
    let mut i: usize = 0;
    while i < raw.len()
        invariant
            slug_to_id.wf(),
            i <= raw@.len(),
            items@.len() == i,
            forall|k: int|
                0 <= k < i ==> (#[trigger] items@[k])@ == internal_text(
                    text_table(*slug_to_id),
                    unescaped_text(raw@[k]@),
                ),
        decreases raw.len() - i,
    {
        let plain = unescape_lines(raw[i].as_str());
        items.push(rewrite_links_to_internal(plain.as_str(), slug_to_id));
        i += 1;
    }
    proof {
        let all = views(raw@);
        assert(views(items@) =~= Seq::new(
            all.len(),
            |k: int| internal_text(text_table(*slug_to_id), unescaped_text(all[k])),
        ));
    }
    Snippet::List(items)
}

/// The label and the target of a line that is one link.
pub fn extract_standalone_link(line: &str) -> (parts: (String, String))
    requires
        standalone_link(line@),
    ensures
        parts.0@ == standalone_label(line@),
        parts.1@ == standalone_target(line@),
{
    let t = trim(line);
    let v = chars_of(t.as_str());
    proof {
        lemma_find_from(v@, 0, "]("@);
        reveal_strlit("](");
    }
    match find_text(&v, 0, "](") {
        Some(k) => {
            assert("]("@[0] == ']');
            assert(v@.subrange(k as int, k + 2)[0] == v@[k as int]);
            (string_of(&v, 1, k), string_of(&v, k + 2, v.len() - 1))
        },
        None => (String::new(), String::new()),
    }
}

fn find_unknown_marker(line: &str) -> (typ: Option<String>)
    ensures
        opt_view(typ) == unknown_marker(line@),
{
    let t = trim(line);
    match without_prefix(t.as_str(), "[[unknown: ") {
        Some(rest) => without_suffix(rest.as_str(), "]]"),
        None => None,
    }
}

fn paragraph_block(run: &Vec<String>, slug_to_id: &StrMap<String>) -> (snippet: Snippet)
    requires
        slug_to_id.wf(),
    ensures
        snippet@ == paragraph_snippet(text_table(*slug_to_id), views(run@)),
{
    if run.len() == 1 {
        assert(views(run@)[0] == run@[0]@);
        if let Some(typ) = find_unknown_marker(run[0].as_str()) {
            return Snippet::Unknown { typ };
        }
        if is_standalone_link(run[0].as_str()) {
            let (text, target) = extract_standalone_link(run[0].as_str());
            let url = rewrite_link_target_to_internal(target.as_str(), slug_to_id);
            return Snippet::Link { text, url };
        }
    }
    let whole = join(run, "\n");
    let plain = unescape_lines(whole.as_str());
    text_snippet(plain.as_str(), slug_to_id)
}

proof fn lemma_list_run(ls: Seq<Seq<char>>, i: int, k: int)
    requires
        0 <= i <= k < list_end(ls, i),
    ensures
        k < ls.len(),
        list_line(ls[k]),
    decreases k - i,
{
    if i < k {
        lemma_list_run(ls, i + 1, k);
    }
}

/// Parses the body of an exported page into snippets: code blocks, quotes,
/// lists and paragraphs, with links to exported pages turned into links to
/// pages.
pub fn parse_markdown_body(body: &str, slug_to_id: &StrMap<String>) -> (snippets: Vec<Snippet>)
    requires
        slug_to_id.wf(),
    ensures
        snippet_views(snippets@) == body_snippets(text_table(*slug_to_id), body@),
{
    let ls = lines(body);
    let ghost all = views(ls@);
    let ghost slugs = text_table(*slug_to_id);
    let mut snippets: Vec<Snippet> = Vec::new();
    let mut i: usize = 0;
    assert(snippet_views(snippets@) =~= Seq::<SnippetModel>::empty());
    assert(snippet_views(snippets@) + snippets_from(slugs, all, 0) =~= snippets_from(
        slugs,
        all,
        0,
    ));
    while i < ls.len()
        invariant
            slug_to_id.wf(),
            slugs == text_table(*slug_to_id),
            i <= ls@.len(),
            all == views(ls@),
            snippet_views(snippets@) + snippets_from(slugs, all, i as int) == snippets_from(
                slugs,
                all,
                0,
            ),
        decreases ls.len() - i,
    {
        let ghost before = snippet_views(snippets@);
        let ghost done = snippets@;
        let ghost at = i as int;
        proof {
            lemma_snippets_step(slugs, all, at);
            lemma_block_end(all, at);
            lemma_concat(before, block_snippets(slugs, all, at), snippets_from(slugs, all, block_end(all, at)));
        }
        assert(all[at] == ls@[at]@);
        if is_blank(ls[i].as_str()) {
            i += 1;
            assert(before + Seq::<SnippetModel>::empty() =~= before);
        } else {
            let next: usize;
            let snippet: Snippet;
            match open_fence(ls[i].as_str()) {
                Some((ticks, info)) => {
                    let close: usize = find_close(&ls, i + 1, ticks);
                    if close < ls.len() {
                        let code = copy_lines(&ls, i + 1, close);
                        snippet = code_block_snippet(info.as_str(), &code);
                        next = close + 1;
                    } else {
                        snippet = text_snippet(ls[i].as_str(), slug_to_id);
                        next = ls.len();
                    }
                },
                None => {
                    if is_quote_line(ls[i].as_str()) {
                        next = find_quote_end(&ls, i + 1);
                        let run = copy_lines(&ls, i, next);
                        snippet = quote_block(&run, slug_to_id);
                    } else if text_starts_with(ls[i].as_str(), "- ") {
                        next = find_list_end(&ls, i + 1);
                        let run = copy_lines(&ls, i, next);
                        proof {
                            assert forall|k: int| 0 <= k < run@.len() implies list_line(
                                #[trigger] run@[k]@,
                            ) by {
                                assert(run@[k]@ == views(run@)[k]);
                                assert(views(run@)[k] == all[at + k]);
                                if k > 0 {
                                    lemma_list_run(all, at + 1, at + k);
                                }
                            }
                        }
                        snippet = list_block(&run, slug_to_id);
                    } else {
                        next = find_paragraph_end(&ls, i + 1);
                        let run = copy_lines(&ls, i, next);
                        snippet = paragraph_block(&run, slug_to_id);
                    }
                },
            }
            assert(next == block_end(all, at));
            assert(seq![snippet@] =~= block_snippets(slugs, all, at));
            snippets.push(snippet);
            assert(snippet_views(snippets@) =~= before + block_snippets(slugs, all, at));
            i = next;
        }
    }
    proof {
        reveal(snippets_from);
        assert(snippet_views(snippets@) + Seq::<SnippetModel>::empty() =~= snippet_views(
            snippets@,
        ));
    }
    snippets
}

// ---------------------------------------------------------------------------
// Pages
// ---------------------------------------------------------------------------

/// The snippet type of a code language; `textSnippet` where none produces it.
pub open spec fn snippet_type(lang: Seq<char>) -> Seq<char> {
    if lang == "element"@ {
        "elementSnippet"@
    } else {
        match type_from(0, lang) {
            Some(t) => t,
            None => "textSnippet"@,
        }
    }
}

/// The snippet type of a code language. An `element` fence comes from a type of
/// its own; every other language from the shared table.
pub fn snippet_type_for_language(lang: &str) -> (typ: &'static str)
    ensures
        typ@ == snippet_type(lang@),
{
    if same_text(lang, "element") {
        return "elementSnippet";
    }
    match language_to_snippet_type(lang) {
        Some(t) => t,
        None => "textSnippet",
    }
}

/// An object with a type and one text.
pub open spec fn typed_item(typ: Seq<char>, field: Seq<char>, text: Seq<char>) -> JsonModel {
    JsonModel::Object(seq![text_member("__type"@, typ), text_member(field, text)])
}

pub open spec fn text_item(text: Seq<char>) -> JsonModel {
    typed_item("textSnippet"@, "string"@, text)
}

/// Code between fence lines.
pub open spec fn fenced(lang: Seq<char>, code: Seq<char>) -> Seq<char> {
    "```"@ + lang + "\n"@ + code + "\n```"@
}

/// The item of a code snippet. Code in a language that no snippet type
/// produces is kept as text between its fence lines.
pub open spec fn code_item(language: Option<Seq<char>>, code: Seq<char>) -> JsonModel {
    let typ = match language {
        Some(l) => snippet_type(l),
        None => "textSnippet"@,
    };
    if typ == "textSnippet"@ {
        text_item(fenced(or_empty(language), code))
    } else {
        typed_item(typ, "code"@, code)
    }
}

pub open spec fn list_item(items: Seq<Seq<char>>) -> JsonModel {
    JsonModel::Object(
        seq![
            text_member("__type"@, "listSnippet"@),
            MemberModel {
                name: "children"@,
                value: JsonModel::Object(
                    seq![
                        MemberModel {
                            name: "items"@,
                            value: JsonModel::Array(
                                Seq::new(items.len(), |i: int| text_item(items[i])),
                            ),
                        },
                    ],
                ),
            },
        ],
    )
}

/// A member where there is a value for it.
pub open spec fn some_member(name: Seq<char>, value: Option<JsonModel>) -> Seq<MemberModel> {
    match value {
        Some(v) => seq![MemberModel { name, value: v }],
        None => Seq::empty(),
    }
}

pub open spec fn opt_str(s: Option<Seq<char>>) -> Option<JsonModel> {
    match s {
        Some(t) => Some(JsonModel::Str(t)),
        None => None,
    }
}

pub open spec fn opt_bool(b: Option<bool>) -> Option<JsonModel> {
    match b {
        Some(t) => Some(JsonModel::Bool(t)),
        None => None,
    }
}

/// The item that stands for a snippet in a page file.
pub open spec fn snippet_item(snippet: SnippetModel) -> JsonModel {
    match snippet {
        SnippetModel::Text(text) => text_item(text),
        SnippetModel::Code { language, code } => code_item(language, code),
        SnippetModel::List(items) => list_item(items),
        SnippetModel::Link { text, url } => JsonModel::Object(
            seq![
                text_member("__type"@, "linkSnippet"@),
                text_member("string"@, text),
                text_member("url"@, url),
            ],
        ),
        SnippetModel::Rewrite { language, search, replace, scope, is_method_pattern } =>
            JsonModel::Object(
            seq![
                text_member("__type"@, "pharoRewrite"@),
                text_member("search"@, search),
                text_member("replace"@, replace),
            ] + some_member("scope"@, opt_str(scope)) + some_member(
                "isMethodPattern"@,
                opt_bool(is_method_pattern),
            ),
        ),
        SnippetModel::Unknown { typ } => JsonModel::Object(seq![text_member("__type"@, typ)]),
    }
}

/// The items of a page: one for each snippet, and an empty text where there is
/// no snippet.
pub open spec fn page_items(snippets: Seq<SnippetModel>) -> Seq<JsonModel> {
    if snippets.len() == 0 {
        seq![text_item(Seq::empty())]
    } else {
        Seq::new(snippets.len(), |i: int| snippet_item(snippets[i]))
    }
}

/// The edit time of a page, where the front matter names a point in time.
pub open spec fn edit_time(updated_at: Option<Seq<char>>) -> Option<JsonModel> {
    match updated_at {
        Some(t) => if instant_of(t) is Some {
            Some(
                JsonModel::Object(
                    seq![
                        MemberModel {
                            name: "time"@,
                            value: JsonModel::Object(seq![text_member("dateAndTimeString"@, t)]),
                        },
                    ],
                ),
            )
        } else {
            None
        },
        None => None,
    }
}

pub open spec fn page_tags(tags: Seq<Seq<char>>) -> Option<JsonModel> {
    if tags.len() == 0 {
        None
    } else {
        Some(text_array(tags))
    }
}

/// The page file of a page with this front matter and these snippets.
pub open spec fn page_json(fm: FrontmatterModel, snippets: Seq<SnippetModel>) -> JsonModel {
    JsonModel::Object(
        seq![
            MemberModel {
                name: "uid"@,
                value: JsonModel::Object(seq![text_member("uuid"@, fm.id)]),
            },
            MemberModel {
                name: "pageType"@,
                value: JsonModel::Object(seq![text_member("title"@, fm.title)]),
            },
            MemberModel {
                name: "children"@,
                value: JsonModel::Object(
                    seq![
                        MemberModel {
                            name: "items"@,
                            value: JsonModel::Array(page_items(snippets)),
                        },
                    ],
                ),
            },
        ] + some_member("tags"@, page_tags(fm.tags)) + some_member(
            "editTime"@,
            edit_time(fm.updated_at),
        ),
    )
}

fn one_member(name: &str, value: Json) -> (j: Json)
    ensures
        j@ == JsonModel::Object(seq![MemberModel { name: name@, value: value@ }]),
{
    let m = member(name, value);
    let members: Vec<Member> = vec![m];
    assert(member_views(members@) =~= seq![MemberModel { name: name@, value: value@ }]);
    object_of(members)
}

fn one_text(name: &str, text: &str) -> (j: Json)
    ensures
        j@ == JsonModel::Object(seq![text_member(name@, text@)]),
{
    let m = member_of_text(name, text);
    let members: Vec<Member> = vec![m];
    assert(member_views(members@) =~= seq![text_member(name@, text@)]);
    object_of(members)
}

fn build_typed_item(typ: &str, field: &str, text: &str) -> (j: Json)
    ensures
        j@ == typed_item(typ@, field@, text@),
{
    let members: Vec<Member> = vec![member_of_text("__type", typ), member_of_text(field, text)];
    assert(member_views(members@) =~= seq![
        text_member("__type"@, typ@),
        text_member(field@, text@),
    ]);
    object_of(members)
}

/// The item of a code snippet.
pub fn build_code_snippet_json(language: &Option<String>, code: &str) -> (j: Json)
    ensures
        j@ == code_item(opt_view(*language), code@),
{
    let typ = match language {
        Some(l) => snippet_type_for_language(l.as_str()),
        None => "textSnippet",
    };
    if same_text(typ, "textSnippet") {
        let lang = match language {
            Some(l) => copy_of(l.as_str()),
            None => String::new(),
        };
        let mut text = String::new();
        text.push_str("```");
        text.push_str(lang.as_str());
        text.push_str("\n");
        text.push_str(code);
        text.push_str("\n```");
        assert(text@ =~= fenced(lang@, code@));
        build_typed_item("textSnippet", "string", text.as_str())
    } else {
        build_typed_item(typ, "code", code)
    }
}

fn build_list_item(texts: &Vec<String>) -> (j: Json)
    ensures
        j@ == list_item(views(texts@)),
{
    let mut items: Vec<Json> = Vec::new();
    let mut i: usize = 0;
    while i < texts.len()
        invariant
            i <= texts@.len(),
            items@.len() == i,
            forall|k: int| 0 <= k < i ==> (#[trigger] items@[k])@ == text_item(texts@[k]@),
        decreases texts.len() - i,
    {
        items.push(build_typed_item("textSnippet", "string", texts[i].as_str()));
        i += 1;
    }
    proof {
        let all = views(texts@);
        assert(json_views(items@) =~= Seq::new(all.len(), |k: int| text_item(all[k])));
    }
    let children = one_member("items", array_of(items));
    let members: Vec<Member> = vec![
        member_of_text("__type", "listSnippet"),
        member("children", children),
    ];
    assert(member_views(members@) =~= list_item(views(texts@))->Object_0);
    object_of(members)
}

fn build_rewrite_item(
    search: &str,
    replace: &str,
    scope: &Option<String>,
    is_method_pattern: Option<bool>,
) -> (j: Json)
    ensures
        j@ == snippet_item(
            (SnippetModel::Rewrite {
                language: None,
                search: search@,
                replace: replace@,
                scope: opt_view(*scope),
                is_method_pattern,
            }),
        ),
{
    let mut members: Vec<Member> = vec![
        member_of_text("__type", "pharoRewrite"),
        member_of_text("search", search),
        member_of_text("replace", replace),
    ];
    let ghost head = seq![
        text_member("__type"@, "pharoRewrite"@),
        text_member("search"@, search@),
        text_member("replace"@, replace@),
    ];
    assert(member_views(members@) =~= head);
    if let Some(s) = scope {
        members.push(member_of_text("scope", s.as_str()));
    }
    let ghost scoped = head + some_member("scope"@, opt_str(opt_view(*scope)));
    assert(member_views(members@) =~= scoped);
    if let Some(b) = is_method_pattern {
        members.push(member("isMethodPattern", Json::Bool(b)));
    }
    assert(member_views(members@) =~= scoped + some_member(
        "isMethodPattern"@,
        opt_bool(is_method_pattern),
    ));
    object_of(members)
}

fn build_snippet_item(snippet: &Snippet) -> (j: Json)
    ensures
        j@ == snippet_item(snippet@),
{
    match snippet {
        Snippet::Text(text) => build_typed_item("textSnippet", "string", text.as_str()),
        Snippet::Code { language, code } => build_code_snippet_json(language, code.as_str()),
        Snippet::List(items) => build_list_item(items),
        Snippet::Link { text, url } => {
            let members: Vec<Member> = vec![
                member_of_text("__type", "linkSnippet"),
                member_of_text("string", text.as_str()),
                member_of_text("url", url.as_str()),
            ];
            assert(member_views(members@) =~= snippet_item(snippet@)->Object_0);
            object_of(members)
        },
        Snippet::Rewrite { language: _, search, replace, scope, is_method_pattern } =>
            build_rewrite_item(search.as_str(), replace.as_str(), scope, *is_method_pattern),
        Snippet::Unknown { typ } => one_text("__type", typ.as_str()),
    }
}

/// Builds the page file of an imported page. The update time is left out where
/// it is not in RFC 3339 form.
pub fn build_page_json(fm: &Frontmatter, snippets: &Vec<Snippet>) -> (page: Json)
    ensures
        page@ == page_json(fm@, snippet_views(snippets@)),
{
    let mut items: Vec<Json> = Vec::new();
    let mut i: usize = 0;
    while i < snippets.len()
        invariant
            i <= snippets@.len(),
            items@.len() == i,
            forall|k: int| 0 <= k < i ==> (#[trigger] items@[k])@ == snippet_item(snippets@[k]@),
        decreases snippets.len() - i,
    {
        items.push(build_snippet_item(&snippets[i]));
        i += 1;
    }
    if items.len() == 0 {
        items.push(build_typed_item("textSnippet", "string", ""));
        proof {
            reveal_strlit("");
            assert(""@ =~= Seq::<char>::empty());
        }
    }
    assert(json_views(items@) =~= page_items(snippet_views(snippets@)));
    let uid = one_text("uuid", fm.id.as_str());
    let page_type = one_text("title", fm.title.as_str());
    let children = one_member("items", array_of(items));
    let mut members: Vec<Member> = vec![
        member("uid", uid),
        member("pageType", page_type),
        member("children", children),
    ];
    let ghost head = member_views(members@);
    assert(head =~= seq![
        MemberModel {
            name: "uid"@,
            value: JsonModel::Object(seq![text_member("uuid"@, fm@.id)]),
        },
        MemberModel {
            name: "pageType"@,
            value: JsonModel::Object(seq![text_member("title"@, fm@.title)]),
        },
        MemberModel { name: "children"@, value: children@ },
    ]);
    if fm.tags.len() > 0 {
        members.push(member("tags", array_of_texts(&fm.tags)));
    }
    let ghost tagged = head + some_member("tags"@, page_tags(fm@.tags));
    assert(member_views(members@) =~= tagged);
    if let Some(updated) = &fm.updated_at {
        if Timestamp::parse(updated.as_str()).is_some() {
            let time = one_member("time", one_text("dateAndTimeString", updated.as_str()));
            members.push(member("editTime", time));
        }
    }
    assert(member_views(members@) =~= tagged + some_member("editTime"@, edit_time(fm@.updated_at)));
    object_of(members)
}

// ---------------------------------------------------------------------------
// A directory of exported files
// ---------------------------------------------------------------------------

/// A markdown file: its name, with the extension, whether links can name the file
/// by it, and what the file holds. A name that is not all text is given as far as
/// it is, and no link names a file by it.
#[derive(Debug, Clone, PartialEq, Eq)]
pub struct MarkdownFile {
    pub name: String,
    pub linkable: bool,
    pub content: String,
}

/// What a [`MarkdownFile`] holds.
#[verifier::ext_equal]
pub struct FileModel {
    pub name: Seq<char>,
    pub linkable: bool,
    pub content: Seq<char>,
}

impl View for MarkdownFile {
    type V = FileModel;

    open spec fn view(&self) -> FileModel {
        FileModel { name: self.name@, linkable: self.linkable, content: self.content@ }
    }
}

pub open spec fn file_views(v: Seq<MarkdownFile>) -> Seq<FileModel> {
    Seq::new(v.len(), |i: int| v[i]@)
}

/// Whether a file name has the extension `md`.
pub open spec fn markdown_name(name: Seq<char>) -> bool {
    ends_with(name, ".md"@) && name.len() > 3
}

/// Whether a file name has the extension `md`.
pub fn is_markdown_name(name: &str) -> (b: bool)
    ensures
        b == markdown_name(name@),
{
    let v = chars_of(name);
    text_ends_with(name, ".md") && v.len() > 3
}

/// Why a file is left out of an import.
#[derive(Debug, Clone, PartialEq, Eq)]
pub enum SkipReason {
    NoFrontmatter,
    NoId,
    UnsafeId(String),
    DuplicateId(String),
}

/// What a [`SkipReason`] holds.
#[verifier::ext_equal]
pub enum SkipModel {
    NoFrontmatter,
    NoId,
    UnsafeId(Seq<char>),
    DuplicateId(Seq<char>),
}

impl View for SkipReason {
    type V = SkipModel;

    open spec fn view(&self) -> SkipModel {
        match self {
            SkipReason::NoFrontmatter => SkipModel::NoFrontmatter,
            SkipReason::NoId => SkipModel::NoId,
            SkipReason::UnsafeId(id) => SkipModel::UnsafeId(id@),
            SkipReason::DuplicateId(id) => SkipModel::DuplicateId(id@),
        }
    }
}

/// The words in which a reason is reported.
pub open spec fn skip_text(reason: SkipModel) -> Seq<char> {
    match reason {
        SkipModel::NoFrontmatter => "no valid frontmatter"@,
        SkipModel::NoId => "no id in frontmatter"@,
        SkipModel::UnsafeId(id) => "unsafe id would escape output directory: "@ + id,
        SkipModel::DuplicateId(id) => "duplicate id already used by an earlier file: "@ + id,
    }
}

impl SkipReason {
    /// The words in which the reason is reported.
    pub fn message(&self) -> (text: String)
        ensures
            text@ == skip_text(self@),
    {
        let mut text = String::new();
        match self {
            SkipReason::NoFrontmatter => {
                text.push_str("no valid frontmatter");
                assert(text@ =~= "no valid frontmatter"@);
            },
            SkipReason::NoId => {
                text.push_str("no id in frontmatter");
                assert(text@ =~= "no id in frontmatter"@);
            },
            SkipReason::UnsafeId(id) => {
                text.push_str("unsafe id would escape output directory: ");
                text.push_str(id.as_str());
                assert(text@ =~= "unsafe id would escape output directory: "@ + id@);
            },
            SkipReason::DuplicateId(id) => {
                text.push_str("duplicate id already used by an earlier file: ");
                text.push_str(id.as_str());
                assert(text@ =~= "duplicate id already used by an earlier file: "@ + id@);
            },
        }
        text
    }
}

/// A file that is left out, and why.
#[derive(Debug, Clone, PartialEq, Eq)]
pub struct SkippedFile {
    pub name: String,
    pub reason: SkipReason,
}

/// What a [`SkippedFile`] holds.
#[verifier::ext_equal]
pub struct SkippedModel {
    pub name: Seq<char>,
    pub reason: SkipModel,
}

impl View for SkippedFile {
    type V = SkippedModel;

    open spec fn view(&self) -> SkippedModel {
        SkippedModel { name: self.name@, reason: self.reason@ }
    }
}

pub open spec fn skipped_views(v: Seq<SkippedFile>) -> Seq<SkippedModel> {
    Seq::new(v.len(), |i: int| v[i]@)
}

/// What becomes of a file.
#[verifier::ext_equal]
pub enum Verdict {
    Skip(SkipModel),
    Take(FrontmatterModel),
}

/// What becomes of a file, where `claimed` are the ids of the files before it.
pub open spec fn verdict(content: Seq<char>, claimed: Seq<Seq<char>>) -> Verdict {
    match frontmatter_of(content) {
        None => Verdict::Skip(SkipModel::NoFrontmatter),
        Some(fm) => if fm.id.len() == 0 {
            Verdict::Skip(SkipModel::NoId)
        } else if !safe_id(fm.id) {
            Verdict::Skip(SkipModel::UnsafeId(fm.id))
        } else if claimed.contains(fm.id) {
            Verdict::Skip(SkipModel::DuplicateId(fm.id))
        } else {
            Verdict::Take(fm)
        },
    }
}

/// Where the files of an import go, in the order of the files.
#[verifier::ext_equal]
pub struct Sorting {
    pub claimed: Seq<Seq<char>>,
    pub taken: Seq<FileModel>,
    pub slugs: TextTable,
    pub skipped: Seq<SkippedModel>,
}

/// Sorts one more file.
pub open spec fn sorted_file(s: Sorting, file: FileModel) -> Sorting {
    match verdict(file.content, s.claimed) {
        Verdict::Skip(reason) => Sorting {
            skipped: s.skipped.push(SkippedModel { name: file.name, reason }),
            ..s
        },
        Verdict::Take(fm) => Sorting {
            claimed: s.claimed.push(fm.id),
            taken: s.taken.push(file),
            slugs: if file.linkable {
                s.slugs.insert(file.name, fm.id)
            } else {
                s.slugs
            },
            ..s
        },
    }
}

/// Where the files go: the first file with an id is taken.
pub open spec fn sorting(files: Seq<FileModel>) -> Sorting
    decreases files.len(),
{
    if files.len() == 0 {
        Sorting {
            claimed: Seq::empty(),
            taken: Seq::empty(),
            slugs: Map::empty(),
            skipped: Seq::empty(),
        }
    } else {
        sorted_file(sorting(files.drop_last()), files.last())
    }
}

/// A page to write.
#[derive(Debug, Clone, PartialEq, Eq)]
pub struct ImportedPage {
    pub id: String,
    pub page: Json,
    /// The update time in the front matter, where it is not in RFC 3339 form.
    pub ignored_time: Option<String>,
}

/// What an [`ImportedPage`] holds.
#[verifier::ext_equal]
pub struct ImportedModel {
    pub id: Seq<char>,
    pub page: JsonModel,
    pub ignored_time: Option<Seq<char>>,
}

impl View for ImportedPage {
    type V = ImportedModel;

    open spec fn view(&self) -> ImportedModel {
        ImportedModel {
            id: self.id@,
            page: self.page@,
            ignored_time: opt_view(self.ignored_time),
        }
    }
}

pub open spec fn imported_views(v: Seq<ImportedPage>) -> Seq<ImportedModel> {
    Seq::new(v.len(), |i: int| v[i]@)
}

/// The update time of a page that cannot be read.
pub open spec fn unread_time(updated_at: Option<Seq<char>>) -> Option<Seq<char>> {
    match updated_at {
        Some(t) => if instant_of(t) is Some {
            None
        } else {
            Some(t)
        },
        None => None,
    }
}

/// The page that a file with front matter holds.
pub open spec fn imported_page(slugs: TextTable, content: Seq<char>) -> ImportedModel {
    let fm = frontmatter_of(content)->0;
    ImportedModel {
        id: fm.id,
        page: page_json(fm, body_snippets(slugs, body_of(content))),
        ignored_time: unread_time(fm.updated_at),
    }
}

/// The pages that the files of an import hold.
pub open spec fn imported_pages(slugs: TextTable, files: Seq<FileModel>) -> Seq<ImportedModel> {
    Seq::new(files.len(), |i: int| imported_page(slugs, files[i].content))
}

/// What an import writes and what it leaves out.
#[derive(Debug, Clone, PartialEq, Eq)]
pub struct ImportPlan {
    pub pages: Vec<ImportedPage>,
    pub skipped: Vec<SkippedFile>,
}

impl ImportPlan {
    /// Whether the plan is what becomes of `files`, taken in this order.
    pub open spec fn is_for(&self, files: Seq<FileModel>) -> bool {
        &&& imported_views(self.pages@) == imported_pages(
            sorting(files).slugs,
            sorting(files).taken,
        )
        &&& skipped_views(self.skipped@) == sorting(files).skipped
    }
}

proof fn lemma_sorting(files: Seq<FileModel>)
    ensures
        sorting(files).claimed.no_duplicates(),
        sorting(files).claimed.len() == sorting(files).taken.len(),
        sorting(files).taken.len() + sorting(files).skipped.len() == files.len(),
        forall|i: int|
            0 <= i < sorting(files).taken.len() ==> frontmatter_of(
                (#[trigger] sorting(files).taken[i]).content,
            ) is Some && frontmatter_of(sorting(files).taken[i].content)->0.id == sorting(
                files,
            ).claimed[i] && safe_id(sorting(files).claimed[i]) && sorting(files).claimed[i].len()
                > 0,
    decreases files.len(),
{
    if files.len() > 0 {
        lemma_sorting(files.drop_last());
    }
}

/// An import writes no two pages to one place, and every file is either
/// imported or left out.
pub proof fn imported_ids_are_distinct(plan: ImportPlan, files: Seq<FileModel>)
    requires
        plan.is_for(files),
    ensures
        forall|i: int, j: int|
            0 <= i < plan.pages@.len() && 0 <= j < plan.pages@.len() && i != j
                ==> #[trigger] plan.pages@[i].id@ != #[trigger] plan.pages@[j].id@,
        forall|i: int|
            0 <= i < plan.pages@.len() ==> safe_id(#[trigger] plan.pages@[i].id@)
                && plan.pages@[i].id@.len() > 0,
        plan.pages@.len() + plan.skipped@.len() == files.len(),
{
    lemma_sorting(files);
    let s = sorting(files);
    assert(imported_views(plan.pages@).len() == s.taken.len());
    assert(skipped_views(plan.skipped@).len() == s.skipped.len());
    assert forall|i: int| 0 <= i < plan.pages@.len() implies #[trigger] plan.pages@[i].id@
        == s.claimed[i] && safe_id(s.claimed[i]) && s.claimed[i].len() > 0 by {
        assert(frontmatter_of(s.taken[i].content) is Some);
        assert(imported_views(plan.pages@)[i] == plan.pages@[i]@);
        assert(imported_pages(s.slugs, s.taken)[i] == imported_page(s.slugs, s.taken[i].content));
    }
}

fn import_file(file: &MarkdownFile, slug_to_id: &StrMap<String>) -> (page: ImportedPage)
    requires
        slug_to_id.wf(),
        frontmatter_of(file@.content) is Some,
    ensures
        page@ == imported_page(text_table(*slug_to_id), file@.content),
{
    let fm = match parse_frontmatter(file.content.as_str()) {
        Some(fm) => fm,
        None => Frontmatter {
            title: String::new(),
            id: String::new(),
            tags: Vec::new(),
            updated_at: None,
        },
    };
    let body = strip_frontmatter(file.content.as_str());
    let snippets = parse_markdown_body(body.as_str(), slug_to_id);
    let page = build_page_json(&fm, &snippets);
    let ignored_time = match &fm.updated_at {
        Some(t) => if Timestamp::parse(t.as_str()).is_some() {
            None
        } else {
            Some(copy_of(t.as_str()))
        },
        None => None,
    };
    ImportedPage { id: copy_of(fm.id.as_str()), page, ignored_time }
}

/// Decides what an import of these files writes. The files are taken in the
/// order of their names, so which of two files with one id is imported does not
/// depend on the order in which a directory lists them.
pub fn plan_import(files: &Vec<MarkdownFile>) -> (plan: ImportPlan)
    ensures
        exists|order: Seq<usize>|
            #![trigger arranged(file_views(files@), order)]
            is_sorted_order(
                order,
                text_keys(Seq::new(files@.len(), |i: int| files@[i].name@)),
            ) && plan.is_for(arranged(file_views(files@), order)),
{
    let mut names: Vec<String> = Vec::new();
    let mut i: usize = 0;
    while i < files.len()
        invariant
            i <= files@.len(),
            names@.len() == i,
            forall|k: int| 0 <= k < i ==> (#[trigger] names@[k])@ == files@[k].name@,
        decreases files.len() - i,
    {
        names.push(copy_of(files[i].name.as_str()));
        i += 1;
    }
    assert(views(names@) =~= Seq::new(files@.len(), |i: int| files@[i].name@));
    let order = sorted_text_order(&names);
    let ghost all = arranged(file_views(files@), order@);
    let mut slug_to_id: StrMap<String> = StrMap::new();
    let mut claimed: Vec<String> = Vec::new();
    let mut taken: Vec<usize> = Vec::new();
    let mut skipped: Vec<SkippedFile> = Vec::new();
    let mut n: usize = 0;
    assert(all.take(0) =~= Seq::<FileModel>::empty());
    assert(views(claimed@) =~= Seq::<Seq<char>>::empty());
    assert(skipped_views(skipped@) =~= Seq::<SkippedModel>::empty());
    assert(text_table(slug_to_id) =~= Map::<Seq<char>, Seq<char>>::empty());
    assert(arranged(file_views(files@), taken@) =~= Seq::<FileModel>::empty());
    while n < order.len()
        invariant
            n <= order@.len(),
            order@.len() == files@.len(),
            forall|i: int| 0 <= i < order@.len() ==> (#[trigger] order@[i]) < files@.len(),
            all == arranged(file_views(files@), order@),
            slug_to_id.wf(),
            forall|i: int| 0 <= i < taken@.len() ==> (#[trigger] taken@[i]) < files@.len(),
            sorting(all.take(n as int)) == (Sorting {
                claimed: views(claimed@),
                taken: arranged(file_views(files@), taken@),
                slugs: text_table(slug_to_id),
                skipped: skipped_views(skipped@),
            }),
        decreases order.len() - n,
    {
        assert(all.take(n as int + 1).drop_last() =~= all.take(n as int));
        assert(all.take(n as int + 1).last() == all[n as int]);
        let at: usize = order[n];
        assert(all[n as int] == files@[at as int]@);
        let ghost skipped0 = skipped@;
        let ghost taken0 = taken@;
        let name = copy_of(files[at].name.as_str());
        let reason: Option<SkipReason> = match parse_frontmatter(files[at].content.as_str()) {
            None => Some(SkipReason::NoFrontmatter),
            Some(fm) => {
                if fm.id.as_str().is_empty() {
                    Some(SkipReason::NoId)
                } else if !id_is_safe(fm.id.as_str()) {
                    Some(SkipReason::UnsafeId(fm.id))
                } else if has_text(&claimed, fm.id.as_str()) {
                    Some(SkipReason::DuplicateId(fm.id))
                } else {
                    if files[at].linkable {
                        put_text(
                            &mut slug_to_id,
                            copy_of(files[at].name.as_str()),
                            copy_of(fm.id.as_str()),
                        );
                    }
                    proof {
                        lemma_views_push(claimed@, fm.id);
                    }
                    claimed.push(fm.id);
                    taken.push(at);
                    None
                }
            },
        };
        match reason {
            Some(reason) => {
                skipped.push(SkippedFile { name, reason });
                assert(skipped_views(skipped@) =~= skipped_views(skipped0).push(
                    SkippedModel { name: files@[at as int].name@, reason: reason@ },
                ));
            },
            None => {
                assert(arranged(file_views(files@), taken@) =~= arranged(
                    file_views(files@),
                    taken0,
                ).push(all[n as int]));
            },
        }
        n += 1;
    }
    assert(all.take(n as int) =~= all);
    proof {
        lemma_sorting(all);
    }
    let mut pages: Vec<ImportedPage> = Vec::new();
    let mut k: usize = 0;
    while k < taken.len()
        invariant
            k <= taken@.len(),
            slug_to_id.wf(),
            sorting(all).taken == arranged(file_views(files@), taken@),
            forall|i: int| 0 <= i < taken@.len() ==> (#[trigger] taken@[i]) < files@.len(),
            forall|i: int|
                0 <= i < sorting(all).taken.len() ==> frontmatter_of(
                    (#[trigger] sorting(all).taken[i]).content,
                ) is Some,
            pages@.len() == k,
            forall|j: int|
                0 <= j < k ==> (#[trigger] pages@[j])@ == imported_page(
                    text_table(slug_to_id),
                    sorting(all).taken[j].content,
                ),
        decreases taken.len() - k,
    {
        assert(sorting(all).taken[k as int] == files@[taken@[k as int] as int]@);
        pages.push(import_file(&files[taken[k]], &slug_to_id));
        k += 1;
    }
    assert(imported_views(pages@) =~= imported_pages(sorting(all).slugs, sorting(all).taken));
    let plan = ImportPlan { pages, skipped };
    assert(plan.is_for(arranged(file_views(files@), order@)));
    plan
}

// ---------------------------------------------------------------------------
// What importing is for
// ---------------------------------------------------------------------------

proof fn lemma_member_names()
    ensures
        "uid"@.len() == 3,
        "pageType"@.len() == 8 && "pageType"@[0] == 'p',
        "children"@.len() == 8 && "children"@[0] == 'c',
        "tags"@.len() == 4 && "tags"@[1] == 'a',
        "editTime"@.len() == 8 && "editTime"@[0] == 'e',
        "__type"@.len() == 6 && "__type"@[0] == '_',
        "type"@.len() == 4 && "type"@[0] == 't' && "type"@[1] == 'y',
        "string"@.len() == 6 && "string"@[0] == 's' && "string"@[1] == 't',
        "search"@.len() == 6 && "search"@[0] == 's' && "search"@[1] == 'e',
        "replace"@.len() == 7,
        "scope"@.len() == 5,
        "isMethodPattern"@.len() == 15,
        "code"@.len() == 4 && "code"@[0] == 'c',
        "url"@.len() == 3,
{
    reveal_strlit("uid");
    reveal_strlit("pageType");
    reveal_strlit("children");
    reveal_strlit("tags");
    reveal_strlit("editTime");
    reveal_strlit("__type");
    reveal_strlit("type");
    reveal_strlit("string");
    reveal_strlit("search");
    reveal_strlit("replace");
    reveal_strlit("scope");
    reveal_strlit("isMethodPattern");
    reveal_strlit("code");
    reveal_strlit("url");
}

/// A page that is imported has the id, the title and the tags of its front matter,
/// and a snippet for each block of its text, in order.
pub proof fn an_imported_page_holds_its_file(fm: FrontmatterModel, snippets: Seq<SnippetModel>)
    ensures
        ({
            let page = page_json(fm, snippets);
            &&& page.get("uid"@) is Some
            &&& (page.get("uid"@)->0).get("uuid"@) == Some(JsonModel::Str(fm.id))
            &&& page.get("pageType"@) is Some
            &&& (page.get("pageType"@)->0).get("title"@) == Some(JsonModel::Str(fm.title))
            &&& children_of(page).len() == if snippets.len() == 0 {
                1
            } else {
                snippets.len()
            }
            &&& forall|i: int|
                0 <= i < snippets.len() ==> #[trigger] children_of(page)[i] == snippet_item(
                    snippets[i],
                )
            &&& snippets.len() == 0 ==> children_of(page)[0].get("string"@) == Some(
                JsonModel::Str(Seq::empty()),
            )
            &&& fm.tags.len() == 0 ==> page.get("tags"@) is None
            &&& fm.tags.len() > 0 ==> page.get("tags"@) is Some && page.get("tags"@)->0 is Array
                && tags_of(page.get("tags"@)) == fm.tags
        }),
{
    lemma_member_names();
    reveal_with_fuel(member_from, 6);
    reveal_strlit("items");
    reveal_strlit("uuid");
    reveal_strlit("title");
    let page = page_json(fm, snippets);
    assert(page.get("uid"@) == Some(JsonModel::Object(seq![text_member("uuid"@, fm.id)])));
    assert(page.get("pageType"@) == Some(JsonModel::Object(seq![text_member("title"@, fm.title)])));
    let kids = JsonModel::Object(
        seq![MemberModel { name: "items"@, value: JsonModel::Array(page_items(snippets)) }],
    );
    assert(page.get("children"@) == Some(kids));
    assert(kids.get("items"@) == Some(JsonModel::Array(page_items(snippets))));
    assert(children_of(page) == page_items(snippets));
    if snippets.len() == 0 {
        let item = text_item(Seq::<char>::empty());
        assert(item.get("string"@) == Some(JsonModel::Str(Seq::<char>::empty())));
    }
    if fm.tags.len() > 0 {
        assert(page.get("tags"@) == Some(text_array(fm.tags)));
        lemma_present_texts(fm.tags);
        let items = Seq::new(fm.tags.len(), |i: int| JsonModel::Str(fm.tags[i]));
        assert(Seq::new(items.len(), |i: int| tag_of(items[i])) =~= Seq::new(
            fm.tags.len(),
            |i: int| Some(fm.tags[i]),
        ));
    }
}

proof fn lemma_present_texts(ts: Seq<Seq<char>>)
    ensures
        present(Seq::new(ts.len(), |i: int| Some(ts[i]))) == ts,
    decreases ts.len(),
{
    let all = Seq::new(ts.len(), |i: int| Some(ts[i]));
    if ts.len() > 0 {
        let rest = ts.drop_last();
        lemma_present_texts(rest);
        assert(all.drop_last() =~= Seq::new(rest.len(), |i: int| Some(rest[i])));
        assert(ts =~= rest.push(ts.last()));
    } else {
        assert(present(all) =~= ts);
    }
}

/// The snippets that blocks become are of the type of the block and hold its text:
/// a text, code in a language that is known, a link, a rule.
pub proof fn blocks_become_snippets(
    text: Seq<char>,
    url: Seq<char>,
    language: Option<Seq<char>>,
    scope: Option<Seq<char>>,
    pattern: Option<bool>,
)
    ensures
        ({
            let item = snippet_item(SnippetModel::Text(text));
            &&& type_of(item) == Some("textSnippet"@)
            &&& item.get("string"@) == Some(JsonModel::Str(text))
        }),
        ({
            let item = snippet_item(SnippetModel::Link { text, url });
            &&& type_of(item) == Some("linkSnippet"@)
            &&& item.get("string"@) == Some(JsonModel::Str(text))
            &&& item.get("url"@) == Some(JsonModel::Str(url))
        }),
        ({
            let item = snippet_item(
                SnippetModel::Rewrite {
                    language,
                    search: text,
                    replace: url,
                    scope,
                    is_method_pattern: pattern,
                },
            );
            &&& type_of(item) == Some("pharoRewrite"@)
            &&& item.get("search"@) == Some(JsonModel::Str(text))
            &&& item.get("replace"@) == Some(JsonModel::Str(url))
            &&& item.get("scope"@) == match scope {
                Some(s) => Some(JsonModel::Str(s)),
                None => None,
            }
            &&& item.get("isMethodPattern"@) == match pattern {
                Some(b) => Some(JsonModel::Bool(b)),
                None => None,
            }
        }),
        type_of(snippet_item(SnippetModel::Unknown { typ: text })) == Some(text),
{
    lemma_member_names();
    reveal_with_fuel(member_from, 6);
    let a = snippet_item(SnippetModel::Text(text));
    assert(a.get("type"@) is None);
    assert(a.get("__type"@) == Some(JsonModel::Str("textSnippet"@)));
    assert(a.get("string"@) == Some(JsonModel::Str(text)));
    let b = snippet_item(SnippetModel::Link { text, url });
    assert(b.get("type"@) is None);
    assert(b.get("__type"@) == Some(JsonModel::Str("linkSnippet"@)));
    assert(b.get("string"@) == Some(JsonModel::Str(text)));
    assert(b.get("url"@) == Some(JsonModel::Str(url)));
    let c = snippet_item(
        SnippetModel::Rewrite {
            language,
            search: text,
            replace: url,
            scope,
            is_method_pattern: pattern,
        },
    );
    assert(c.get("type"@) is None);
    assert(c.get("__type"@) == Some(JsonModel::Str("pharoRewrite"@)));
    assert(c.get("search"@) == Some(JsonModel::Str(text)));
    assert(c.get("replace"@) == Some(JsonModel::Str(url)));
    let d = snippet_item(SnippetModel::Unknown { typ: text });
    assert(d.get("type"@) is None);
    assert(d.get("__type"@) == Some(JsonModel::Str(text)));
}

/// Code in a language that is known becomes a snippet of the type of the language;
/// in any other it is kept as a text with its fence.
pub proof fn code_becomes_a_snippet(k: int, code: Seq<char>, other: Seq<char>)
    requires
        0 <= k < 10,
        other != "element"@,
        type_from(0, other) is None,
    ensures
        ({
            let item = snippet_item(
                SnippetModel::Code { language: Some(code_languages()[k].language), code },
            );
            &&& type_of(item) == Some(code_languages()[k].typ)
            &&& item.get("code"@) == Some(JsonModel::Str(code))
        }),
        ({
            let item = snippet_item(SnippetModel::Code { language: Some("element"@), code });
            &&& type_of(item) == Some("elementSnippet"@)
            &&& item.get("code"@) == Some(JsonModel::Str(code))
        }),
        ({
            let item = snippet_item(SnippetModel::Code { language: Some(other), code });
            &&& type_of(item) == Some("textSnippet"@)
            &&& item.get("string"@) == Some(
                JsonModel::Str("```"@ + other + "\n"@ + code + "\n```"@),
            )
        }),
        ({
            let item = snippet_item(SnippetModel::Code { language: None, code });
            &&& type_of(item) == Some("textSnippet"@)
            &&& item.get("string"@) == Some(
                JsonModel::Str("```"@ + "\n"@ + code + "\n```"@),
            )
        }),
{
    code_languages_round_trip(k);
    lemma_code_names(k);
    reveal_strlit("textSnippet");
    reveal_strlit("elementSnippet");
    assert("elementSnippet"@.len() != "textSnippet"@.len());
    lemma_typed_item(code_languages()[k].typ, "code"@, code);
    lemma_typed_item("elementSnippet"@, "code"@, code);
    lemma_typed_item("textSnippet"@, "string"@, fenced(other, code));
    lemma_typed_item("textSnippet"@, "string"@, fenced(Seq::<char>::empty(), code));
    assert("```"@ + Seq::<char>::empty() + "\n"@ + code + "\n```"@ =~= "```"@ + "\n"@ + code
        + "\n```"@);
}

proof fn lemma_typed_item(typ: Seq<char>, field: Seq<char>, text: Seq<char>)
    requires
        field == "code"@ || field == "string"@,
    ensures
        type_of(typed_item(typ, field, text)) == Some(typ),
        typed_item(typ, field, text).get(field) == Some(JsonModel::Str(text)),
{
    lemma_member_names();
    reveal_with_fuel(member_from, 4);
    let a = typed_item(typ, field, text);
    assert(a.get("type"@) is None);
    assert(a.get("__type"@) == Some(JsonModel::Str(typ)));
    assert(a.get(field) == Some(JsonModel::Str(text)));
}

proof fn lemma_code_names(k: int)
    requires
        0 <= k < 10,
    ensures
        code_languages()[k].language != "element"@,
        code_languages()[k].typ != "textSnippet"@,
{
    reveal_strlit("element");
    reveal_strlit("example");
    reveal_strlit("changes");
    reveal_strlit("pharo");
    reveal_strlit("python");
    reveal_strlit("javascript");
    reveal_strlit("json");
    reveal_strlit("yaml");
    reveal_strlit("shellcommand");
    reveal_strlit("gemstone");
    reveal_strlit("robocodermetamodel");
    let lang = code_languages()[k].language;
    if lang == "element"@ {
        assert(lang.len() == 7 && lang[1] == 'l' && lang[0] == 'e');
    }
    lemma_code_types(k);
}

proof fn lemma_code_types(k: int)
    requires
        0 <= k < 10,
    ensures
        code_languages()[k].typ != "textSnippet"@,
{
    reveal_strlit("textSnippet");
    reveal_strlit("pharoSnippet");
    reveal_strlit("pythonSnippet");
    reveal_strlit("javascriptSnippet");
    reveal_strlit("jsonSnippet");
    reveal_strlit("yamlSnippet");
    reveal_strlit("shellCommandSnippet");
    reveal_strlit("gemstoneSnippet");
    reveal_strlit("exampleSnippet");
    reveal_strlit("changesSnippet");
    reveal_strlit("robocoderMetamodelSnippet");
    let typ = code_languages()[k].typ;
    if typ == "textSnippet"@ {
        assert(typ.len() == 11 && typ[0] == 't');
    }
}

/// A list becomes a snippet with a text below it for each of its items.
pub proof fn a_list_becomes_a_snippet(items: Seq<Seq<char>>, i: int)
    requires
        0 <= i < items.len(),
    ensures
        ({
            let item = snippet_item(SnippetModel::List(items));
            &&& type_of(item) == Some("listSnippet"@)
            &&& children_of(item).len() == items.len()
            &&& children_of(item)[i].get("string"@) == Some(JsonModel::Str(items[i]))
            &&& type_of(children_of(item)[i]) == Some("textSnippet"@)
        }),
{
    lemma_member_names();
    reveal_with_fuel(member_from, 4);
    let item = list_item(items);
    assert(item.get("type"@) is None);
    assert(item.get("__type"@) == Some(JsonModel::Str("listSnippet"@)));
    let kids = Seq::new(items.len(), |k: int| text_item(items[k]));
    let below = JsonModel::Object(seq![MemberModel { name: "items"@, value: JsonModel::Array(kids) }]);
    assert(item.get("children"@) == Some(below));
    assert(below.get("items"@) == Some(JsonModel::Array(kids)));
    assert(children_of(item) == kids);
    let one = text_item(items[i]);
    assert(one.get("type"@) is None);
    assert(one.get("__type"@) == Some(JsonModel::Str("textSnippet"@)));
    assert(one.get("string"@) == Some(JsonModel::Str(items[i])));
}

/// A file is taken where it has front matter with an id that stays in the
/// directory and that no earlier file has; every other is skipped, for the first
/// of these that fails.
pub proof fn a_file_is_taken_or_skipped(content: Seq<char>, claimed: Seq<Seq<char>>)
    ensures
        ({
            let fm = frontmatter_of(content);
            let v = verdict(content, claimed);
            &&& fm is None ==> v == Verdict::Skip(SkipModel::NoFrontmatter)
            &&& fm is Some ==> {
                let id = (fm->0).id;
                let safe = !contains_char(id, '/') && !contains_char(id, '\\') && !contains(
                    id,
                    ".."@,
                );
                &&& id.len() == 0 ==> v == Verdict::Skip(SkipModel::NoId)
                &&& id.len() > 0 && !safe ==> v == Verdict::Skip(SkipModel::UnsafeId(id))
                &&& id.len() > 0 && safe && claimed.contains(id) ==> v == Verdict::Skip(
                    SkipModel::DuplicateId(id),
                )
                &&& id.len() > 0 && safe && !claimed.contains(id) ==> v == Verdict::Take(fm->0)
            }
        }),
{
}

/// Every file is taken or skipped, and only once.
pub proof fn every_file_is_accounted_for(files: Seq<FileModel>)
    ensures
        sorting(files).taken.len() + sorting(files).skipped.len() == files.len(),
        sorting(files).claimed.len() == sorting(files).taken.len(),
    decreases files.len(),
{
    if files.len() > 0 {
        every_file_is_accounted_for(files.drop_last());
    }
}

/// A file that is taken is imported under its id, and where it can be linked a
/// link to its name leads to its page.
pub proof fn a_taken_file_can_be_linked(files: Seq<FileModel>, file: FileModel)
    requires
        verdict(file.content, sorting(files).claimed) is Take,
    ensures
        ({
            let all = sorting(files.push(file));
            let id = (frontmatter_of(file.content)->0).id;
            &&& all.taken == sorting(files).taken.push(file)
            &&& all.claimed == sorting(files).claimed.push(id)
            &&& all.skipped == sorting(files).skipped
            &&& file.linkable && ends_with(file.name, ".md"@) ==> page_target(all.slugs, file.name)
                == Some("page:"@ + id)
            &&& !file.linkable ==> all.slugs == sorting(files).slugs
        }),
{
    assert(files.push(file).drop_last() =~= files);
}

/// A file that is skipped is named with the reason, and nothing of it is imported.
pub proof fn a_skipped_file_is_named(files: Seq<FileModel>, file: FileModel, reason: SkipModel)
    requires
        verdict(file.content, sorting(files).claimed) == Verdict::Skip(reason),
    ensures
        sorting(files.push(file)).skipped == sorting(files).skipped.push(
            SkippedModel { name: file.name, reason },
        ),
        sorting(files.push(file)).taken == sorting(files).taken,
        sorting(files.push(file)).slugs == sorting(files).slugs,
{
    assert(files.push(file).drop_last() =~= files);
}

/// A link to a markdown file that is imported becomes a link to its page, and any
/// other link stays, wiki links in any case.
pub proof fn links_to_files_become_links_to_pages(
    slugs: TextTable,
    before: Seq<char>,
    label: Seq<char>,
    target: Seq<char>,
    behind: Seq<char>,
)
    requires
        !contains_char(before, '['),
        !contains_char(label, '['),
        !contains_char(label, ']'),
        !contains_char(target, '('),
        !contains_char(target, ')'),
        !contains_char(behind, '['),
        target.len() > 0,
        trimmed(target) == target,
    ensures
        ({
            let s = before + "["@ + label + "]("@ + target + ")"@ + behind;
            &&& ends_with(target, ".md"@) && slugs.contains_key(target) ==> internal_text(slugs, s)
                == before + "["@ + label + "]("@ + ("page:"@ + slugs[target]) + ")"@ + behind
            &&& !ends_with(target, ".md"@) || !slugs.contains_key(target) ==> internal_text(slugs, s)
                == s
        }),
{
    a_label_with_a_target_is_a_link(before, label, target, behind, internal_policy(slugs));
}

/// A text without a byte order mark and without front matter is all text.
pub proof fn text_without_front_matter_is_all_text(content: Seq<char>)
    requires
        content.len() > 0 ==> content[0] != '\u{feff}' && content[0] != '-',
    ensures
        frontmatter_of(content) is None,
        body_of(content) == content,
{
    reveal_strlit("---\n");
    reveal_strlit("---\r\n");
    if starts_with(content, "---\n"@) {
        assert(content.subrange(0, 4)[0] == '-');
    }
    if starts_with(content, "---\r\n"@) {
        assert(content.subrange(0, 5)[0] == '-');
    }
}

/// The lines of front matter set the fields that they name, and no others.
pub proof fn lines_set_their_fields(fm: FrontmatterModel, value: Seq<char>)
    requires
        value.len() > 0,
        !whitespace(value[0]),
        !whitespace(value.last()),
        value[0] != '"',
        value[0] != '\'',
    ensures
        frontmatter_line(fm, "title: "@ + value) == (FrontmatterModel { title: value, ..fm }),
        frontmatter_line(fm, "id: "@ + value) == (FrontmatterModel { id: value, ..fm }),
        frontmatter_line(fm, "updated_at: "@ + value) == (FrontmatterModel {
            updated_at: Some(value),
            ..fm
        }),
        value[0] != '[' ==> frontmatter_line(fm, "tags: "@ + value) == (FrontmatterModel {
            tags: Seq::empty(),
            ..fm
        }),
{
    assert(trimmed(value) == value);
    assert(frontmatter_line(fm, "title: "@ + value) == (FrontmatterModel { title: value, ..fm }))
        by {
        reveal_strlit("title: ");
        reveal_strlit("title:");
        assert("title: "@ =~= "title:"@.push(' '));
        lemma_named_value("title: "@, "title:"@, value);
    }
    assert(frontmatter_line(fm, "id: "@ + value) == (FrontmatterModel { id: value, ..fm })) by {
        reveal_strlit("id: ");
        reveal_strlit("id:");
        reveal_strlit("title:");
        assert("id: "@ =~= "id:"@.push(' '));
        lemma_named_value("id: "@, "id:"@, value);
        lemma_other_name("id: "@ + value, "title:"@, 0);
    }
    assert(frontmatter_line(fm, "updated_at: "@ + value) == (FrontmatterModel {
        updated_at: Some(value),
        ..fm
    })) by {
        reveal_strlit("updated_at: ");
        reveal_strlit("updated_at:");
        reveal_strlit("title:");
        reveal_strlit("id:");
        assert("updated_at: "@ =~= "updated_at:"@.push(' '));
        lemma_named_value("updated_at: "@, "updated_at:"@, value);
        lemma_other_name("updated_at: "@ + value, "title:"@, 0);
        lemma_other_name("updated_at: "@ + value, "id:"@, 0);
    }
    if value[0] != '[' {
        assert(frontmatter_line(fm, "tags: "@ + value) == (FrontmatterModel {
            tags: Seq::empty(),
            ..fm
        })) by {
            reveal_strlit("tags: ");
            reveal_strlit("tags:");
            reveal_strlit("title:");
            reveal_strlit("id:");
            reveal_strlit("updated_at:");
            assert("tags: "@ =~= "tags:"@.push(' '));
        lemma_named_value("tags: "@, "tags:"@, value);
            lemma_other_name("tags: "@ + value, "title:"@, 1);
            lemma_other_name("tags: "@ + value, "id:"@, 0);
            lemma_other_name("tags: "@ + value, "updated_at:"@, 0);
        }
    }
}

proof fn lemma_other_name(line: Seq<char>, name: Seq<char>, k: int)
    requires
        0 <= k < name.len(),
        k < line.len(),
        line[k] != name[k],
    ensures
        strip_prefix(line, name) is None,
{
    if starts_with(line, name) {
        assert(line.subrange(0, name.len() as int)[k] == line[k]);
    }
}

proof fn lemma_named_value(spaced: Seq<char>, name: Seq<char>, value: Seq<char>)
    requires
        spaced == name.push(' '),
        name.len() > 0,
        !whitespace(name[0]),
        value.len() > 0,
        !whitespace(value[0]),
        !whitespace(value.last()),
    ensures
        trimmed(spaced + value) == spaced + value,
        strip_prefix(spaced + value, name) is Some,
        trimmed(strip_prefix(spaced + value, name)->0) == value,
{
    let rest = seq![' '] + value;
    let line = spaced + value;
    assert(trimmed(line) == line) by {
        assert(line[0] == name[0]);
        assert(line.last() == value.last());
        trimming_keeps_what_is_trimmed(line);
    }
    assert(strip_prefix(line, name) == Some(rest)) by {
        assert(line =~= name + rest);
        a_prefix_is_stripped(name, rest);
    }
    assert(trimmed(rest) == value) by {
        lemma_trimmed_behind_a_space(value);
    }
}

proof fn lemma_trimmed_behind_a_space(value: Seq<char>)
    requires
        value.len() > 0,
        !whitespace(value[0]),
        !whitespace(value.last()),
    ensures
        trimmed(seq![' '] + value) == value,
{
    let rest = seq![' '] + value;
    assert(whitespace(rest[0]));
    assert(rest.skip(1) =~= value);
    assert(trim_start(value) == value);
    assert(trim_start(rest) == trim_start(rest.skip(1)));
    trimming_keeps_what_is_trimmed(value);
}

} // verus!
