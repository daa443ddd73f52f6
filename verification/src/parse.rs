//! Page files: from JSON snippets to content nodes, and page metadata.

use crate::json::{
    json_views, lemma_json_view, member_from, member_views, Json, JsonModel, MemberModel,
};
use crate::model::{
    item_views, lemma_list_view, lemma_node_views_push, node_views, MetaModel, Node, NodeModel,
    PageMeta,
};
use crate::strmap::StrMap;
use crate::text::{
    a_prefix_is_stripped, byte_len, byte_length, chars_of, copy_of, ends_with, is_blank, join, joined, lemma_concat,
    lemma_views_push, lowercase, opt_view, repeated, same_text, starts_with, string_of, strip_prefix,
    text_ends_with, to_lowercase, trim, trim_end, trim_range, trim_start, trimmed,
    trimming_keeps_what_is_trimmed, trimming_takes_the_white_space_around, views, whitespace,
    without_prefix,
};
use crate::time::{instant_of, Timestamp};
use vstd::prelude::*;

verus! {

/// Maximum number of lines kept in a word-snippet paragraph.
pub const MAX_WORD_SNIPPET_LINES: usize = 8;

/// Maximum number of characters in a word-snippet paragraph before it is
/// truncated with an ellipsis.
pub const MAX_WORD_SNIPPET_CHARS: usize = 1200;

// ---------------------------------------------------------------------------
// Code snippets
// ---------------------------------------------------------------------------

/// A code snippet type and the code-fence language it is written in.
#[derive(Debug, Clone, Copy)]
pub struct CodeLanguage {
    pub typ: &'static str,
    pub language: &'static str,
}

/// What a [`CodeLanguage`] holds.
pub struct CodeLanguageModel {
    pub typ: Seq<char>,
    pub language: Seq<char>,
}

impl View for CodeLanguage {
    type V = CodeLanguageModel;

    open spec fn view(&self) -> CodeLanguageModel {
        CodeLanguageModel { typ: self.typ@, language: self.language@ }
    }
}

/// The snippet types that hold code, and the language of each.
pub open spec fn code_languages() -> Seq<CodeLanguageModel> {
    seq![
        CodeLanguageModel { typ: "pharoSnippet"@, language: "pharo"@ },
        CodeLanguageModel { typ: "pythonSnippet"@, language: "python"@ },
        CodeLanguageModel { typ: "javascriptSnippet"@, language: "javascript"@ },
        CodeLanguageModel { typ: "jsonSnippet"@, language: "json"@ },
        CodeLanguageModel { typ: "yamlSnippet"@, language: "yaml"@ },
        CodeLanguageModel { typ: "shellCommandSnippet"@, language: "shellcommand"@ },
        CodeLanguageModel { typ: "gemstoneSnippet"@, language: "gemstone"@ },
        CodeLanguageModel { typ: "exampleSnippet"@, language: "example"@ },
        CodeLanguageModel { typ: "changesSnippet"@, language: "changes"@ },
        CodeLanguageModel {
            typ: "robocoderMetamodelSnippet"@,
            language: "robocodermetamodel"@,
        },
    ]
}

/// The mapping between snippet types and code-fence languages: the single
/// source of truth behind [`is_code_snippet`], [`infer_language`] and
/// [`language_to_snippet_type`].
pub fn code_snippet_languages() -> (table: Vec<CodeLanguage>)
    ensures
        table@.len() == code_languages().len(),
        forall|i: int| 0 <= i < table@.len() ==> (#[trigger] table@[i])@ == code_languages()[i],
{
    vec![
        CodeLanguage { typ: "pharoSnippet", language: "pharo" },
        CodeLanguage { typ: "pythonSnippet", language: "python" },
        CodeLanguage { typ: "javascriptSnippet", language: "javascript" },
        CodeLanguage { typ: "jsonSnippet", language: "json" },
        CodeLanguage { typ: "yamlSnippet", language: "yaml" },
        CodeLanguage { typ: "shellCommandSnippet", language: "shellcommand" },
        CodeLanguage { typ: "gemstoneSnippet", language: "gemstone" },
        CodeLanguage { typ: "exampleSnippet", language: "example" },
        CodeLanguage { typ: "changesSnippet", language: "changes" },
        CodeLanguage { typ: "robocoderMetamodelSnippet", language: "robocodermetamodel" },
    ]
}

/// The language of a code snippet type, from the `i`-th line of the table on.
pub open spec fn language_from(i: int, typ: Seq<char>) -> Option<Seq<char>>
    decreases code_languages().len() - i,
{
    if i < 0 || i >= code_languages().len() {
        None
    } else if code_languages()[i].typ == typ {
        Some(code_languages()[i].language)
    } else {
        language_from(i + 1, typ)
    }
}

/// The code snippet type of a language, from the `i`-th line of the table on.
pub open spec fn type_from(i: int, language: Seq<char>) -> Option<Seq<char>>
    decreases code_languages().len() - i,
{
    if i < 0 || i >= code_languages().len() {
        None
    } else if code_languages()[i].language == language {
        Some(code_languages()[i].typ)
    } else {
        type_from(i + 1, language)
    }
}

/// Whether a snippet type holds code.
pub open spec fn code_snippet(typ: Seq<char>) -> bool {
    language_from(0, typ) is Some
}

/// `s` without any of the copies of `pat` that it ends with.
pub open spec fn trim_suffixes(s: Seq<char>, pat: Seq<char>) -> Seq<char>
    decreases s.len(),
{
    if pat.len() > 0 && ends_with(s, pat) {
        trim_suffixes(s.take(s.len() - pat.len()), pat)
    } else {
        s
    }
}

/// The language of a snippet type: as the table says, else the lowercased type
/// without its `Snippet` ending.
pub open spec fn inferred_language(typ: Option<Seq<char>>) -> Option<Seq<char>> {
    match typ {
        None => None,
        Some(t) => match language_from(0, t) {
            Some(l) => Some(l),
            None => if ends_with(t, "Snippet"@) {
                Some(lowercase(trim_suffixes(t, "Snippet"@)))
            } else {
                None
            },
        },
    }
}

fn find_language(typ: &str) -> (found: Option<&'static str>)
    ensures
        match found {
            Some(l) => language_from(0, typ@) == Some(l@),
            None => language_from(0, typ@) is None,
        },
{
    let table = code_snippet_languages();
    let mut i: usize = 0;
    while i < table.len()
        invariant
            i <= table@.len(),
            table@.len() == code_languages().len(),
            forall|k: int| 0 <= k < table@.len() ==> (#[trigger] table@[k])@ == code_languages()[k],
            language_from(0, typ@) == language_from(i as int, typ@),
        decreases table.len() - i,
    {
        assert(table@[i as int]@ == code_languages()[i as int]);
        if same_text(table[i].typ, typ) {
            return Some(table[i].language);
        }
        i += 1;
    }
    None
}

/// Returns `true` if the given snippet type name is a code snippet.
pub fn is_code_snippet(typ: &str) -> (b: bool)
    ensures
        b == code_snippet(typ@),
{
    find_language(typ).is_some()
}

/// The code-fence language of a snippet type.
pub fn infer_language(typ: Option<&str>) -> (language: Option<String>)
    ensures
        opt_view(language) == inferred_language(
            match typ {
                Some(t) => Some(t@),
                None => None,
            },
        ),
{
    let t = match typ {
        Some(t) => t,
        None => {
            return None;
        },
    };
    if let Some(l) = find_language(t) {
        return Some(copy_of(l));
    }
    if !text_ends_with(t, "Snippet") {
        return None;
    }
    let mut base = copy_of(t);
    proof {
        reveal_strlit("Snippet");
    }
    while text_ends_with(base.as_str(), "Snippet")
        invariant
            "Snippet"@.len() == 7,
            trim_suffixes(base@, "Snippet"@) == trim_suffixes(t@, "Snippet"@),
        decreases base@.len(),
    {
        let v = chars_of(base.as_str());
        base = string_of(&v, 0, v.len() - 7);
        assert(base@ =~= v@.take(v@.len() - 7));
    }
    Some(to_lowercase(base.as_str()))
}

/// Maps a code-fence language back to its snippet `__type`. Returns `None` when
/// no code snippet type produces that language.
pub fn language_to_snippet_type(lang: &str) -> (typ: Option<&'static str>)
    ensures
        match typ {
            Some(t) => type_from(0, lang@) == Some(t@),
            None => type_from(0, lang@) is None,
        },
{
    let table = code_snippet_languages();
    let mut i: usize = 0;
    while i < table.len()
        invariant
            i <= table@.len(),
            table@.len() == code_languages().len(),
            forall|k: int| 0 <= k < table@.len() ==> (#[trigger] table@[k])@ == code_languages()[k],
            type_from(0, lang@) == type_from(i as int, lang@),
        decreases table.len() - i,
    {
        assert(table@[i as int]@ == code_languages()[i as int]);
        if same_text(table[i].language, lang) {
            return Some(table[i].typ);
        }
        i += 1;
    }
    None
}

/// Length and first letter of the type in the `i`-th line of the table.
spec fn type_key(i: int) -> (nat, char) {
    if i == 0 {
        (12, 'p')
    } else if i == 1 {
        (13, 'p')
    } else if i == 2 {
        (17, 'j')
    } else if i == 3 {
        (11, 'j')
    } else if i == 4 {
        (11, 'y')
    } else if i == 5 {
        (19, 's')
    } else if i == 6 {
        (15, 'g')
    } else if i == 7 {
        (14, 'e')
    } else if i == 8 {
        (14, 'c')
    } else {
        (25, 'r')
    }
}

/// Length and first letter of the language in the `i`-th line of the table.
spec fn language_key(i: int) -> (nat, char) {
    if i == 0 {
        (5, 'p')
    } else if i == 1 {
        (6, 'p')
    } else if i == 2 {
        (10, 'j')
    } else if i == 3 {
        (4, 'j')
    } else if i == 4 {
        (4, 'y')
    } else if i == 5 {
        (12, 's')
    } else if i == 6 {
        (8, 'g')
    } else if i == 7 {
        (7, 'e')
    } else if i == 8 {
        (7, 'c')
    } else {
        (18, 'r')
    }
}

proof fn lemma_table_line(i: int)
    requires
        0 <= i < code_languages().len(),
    ensures
        code_languages()[i].typ.len() == type_key(i).0,
        code_languages()[i].typ[0] == type_key(i).1,
        code_languages()[i].language.len() == language_key(i).0,
        code_languages()[i].language[0] == language_key(i).1,
{
    if i == 0 {
        reveal_strlit("pharoSnippet");
        reveal_strlit("pharo");
    } else if i == 1 {
        reveal_strlit("pythonSnippet");
        reveal_strlit("python");
    } else if i == 2 {
        reveal_strlit("javascriptSnippet");
        reveal_strlit("javascript");
    } else if i == 3 {
        reveal_strlit("jsonSnippet");
        reveal_strlit("json");
    } else if i == 4 {
        reveal_strlit("yamlSnippet");
        reveal_strlit("yaml");
    } else if i == 5 {
        reveal_strlit("shellCommandSnippet");
        reveal_strlit("shellcommand");
    } else if i == 6 {
        reveal_strlit("gemstoneSnippet");
        reveal_strlit("gemstone");
    } else if i == 7 {
        reveal_strlit("exampleSnippet");
        reveal_strlit("example");
    } else if i == 8 {
        reveal_strlit("changesSnippet");
        reveal_strlit("changes");
    } else {
        assert(i == 9);
        reveal_strlit("robocoderMetamodelSnippet");
        reveal_strlit("robocodermetamodel");
    }
}

proof fn lemma_table_is_injective(i: int, j: int)
    requires
        0 <= i < code_languages().len(),
        0 <= j < code_languages().len(),
        i != j,
    ensures
        code_languages()[i].typ != code_languages()[j].typ,
        code_languages()[i].language != code_languages()[j].language,
{
    lemma_table_line(i);
    lemma_table_line(j);
}

proof fn lemma_language_from(i: int, k: int)
    requires
        0 <= i <= k < code_languages().len(),
    ensures
        language_from(i, code_languages()[k].typ) == Some(code_languages()[k].language),
        type_from(i, code_languages()[k].language) == Some(code_languages()[k].typ),
    decreases k - i,
{
    if i < k {
        lemma_table_is_injective(i, k);
        lemma_language_from(i + 1, k);
    }
}

/// Each code snippet type infers its language, and that language maps back to
/// the type.
pub proof fn code_languages_round_trip(k: int)
    requires
        0 <= k < code_languages().len(),
    ensures
        code_snippet(code_languages()[k].typ),
        inferred_language(Some(code_languages()[k].typ)) == Some(code_languages()[k].language),
        type_from(0, code_languages()[k].language) == Some(code_languages()[k].typ),
{
    lemma_language_from(0, k);
}

// ---------------------------------------------------------------------------
// Fields of a snippet
// ---------------------------------------------------------------------------

/// The first text under one of two keys.
pub open spec fn first_of(item: JsonModel, a: Seq<char>, b: Seq<char>) -> Option<Seq<char>> {
    match item.get_str(a) {
        Some(s) => Some(s),
        None => item.get_str(b),
    }
}

/// The snippet type: under `type`, else under `__type`.
pub open spec fn type_of(item: JsonModel) -> Option<Seq<char>> {
    first_of(item, "type"@, "__type"@)
}

/// The text of a snippet: under `string`, else `text`, else `content`.
pub open spec fn text_of(item: JsonModel) -> Option<Seq<char>> {
    match item.get_str("string"@) {
        Some(s) => Some(s),
        None => first_of(item, "text"@, "content"@),
    }
}

/// The code of a snippet: under `code`, else `source`.
pub open spec fn code_of(item: JsonModel) -> Option<Seq<char>> {
    first_of(item, "code"@, "source"@)
}

/// The link of a snippet: under `url`, else `href`.
pub open spec fn link_of(item: JsonModel) -> Option<Seq<char>> {
    first_of(item, "url"@, "href"@)
}

/// An optional text, or the empty text.
pub open spec fn or_empty(s: Option<Seq<char>>) -> Seq<char> {
    match s {
        Some(t) => t,
        None => Seq::empty(),
    }
}

pub open spec fn or_text(s: Option<Seq<char>>, other: Seq<char>) -> Seq<char> {
    match s {
        Some(t) => t,
        None => other,
    }
}

fn get_text(item: &Json, key: &str) -> (found: Option<String>)
    ensures
        opt_view(found) == item@.get_str(key@),
{
    match item.get_str(key) {
        Some(s) => Some(copy_of(s)),
        None => None,
    }
}

fn get_first(item: &Json, a: &str, b: &str) -> (found: Option<String>)
    ensures
        opt_view(found) == first_of(item@, a@, b@),
{
    match get_text(item, a) {
        Some(s) => Some(s),
        None => get_text(item, b),
    }
}

fn text_or_empty(s: Option<String>) -> (out: String)
    ensures
        out@ == or_empty(opt_view(s)),
{
    match s {
        Some(t) => t,
        None => String::new(),
    }
}

fn text_or(s: Option<String>, other: &str) -> (out: String)
    ensures
        out@ == or_text(opt_view(s), other@),
{
    match s {
        Some(t) => t,
        None => copy_of(other),
    }
}

/// Extracts the snippet type from a JSON value, checking `"type"` then
/// `"__type"`.
pub fn extract_type(item: &Json) -> (typ: Option<&str>)
    ensures
        match typ {
            Some(t) => type_of(item@) == Some(t@),
            None => type_of(item@) is None,
        },
{
    match item.get_str("type") {
        Some(t) => Some(t),
        None => item.get_str("__type"),
    }
}

fn extract_text(item: &Json) -> (found: Option<String>)
    ensures
        opt_view(found) == text_of(item@),
{
    match get_text(item, "string") {
        Some(s) => Some(s),
        None => get_first(item, "text", "content"),
    }
}

fn extract_code(item: &Json) -> (found: Option<String>)
    ensures
        opt_view(found) == code_of(item@),
{
    get_first(item, "code", "source")
}

fn extract_link(item: &Json) -> (found: Option<String>)
    ensures
        opt_view(found) == link_of(item@),
{
    get_first(item, "url", "href")
}

fn has_link(item: &Json) -> (b: bool)
    ensures
        b == (link_of(item@) is Some),
{
    item.get_str("url").is_some() || item.get_str("href").is_some()
}

// ---------------------------------------------------------------------------
// Headings
// ---------------------------------------------------------------------------

/// How many `#` stand in a row at the start of `s` from `i` on.
pub open spec fn hashes_at(s: Seq<char>, i: int) -> nat
    decreases s.len() - i,
{
    if 0 <= i < s.len() && s[i] == '#' {
        1 + hashes_at(s, i + 1)
    } else {
        0
    }
}

/// The level and the text of a markdown-style heading: one to six for the
/// marks, and what follows them, which must not be blank.
pub open spec fn heading_of(s: Seq<char>) -> Option<(u8, Seq<char>)> {
    let t = trimmed(s);
    let n = hashes_at(t, 0);
    let rest = trim_start(t.skip(n as int));
    if n == 0 || rest.len() == 0 {
        None
    } else {
        Some(((if n < 6 { n } else { 6 }) as u8, rest))
    }
}

pub open spec fn heading_view(h: Option<(u8, String)>) -> Option<(u8, Seq<char>)> {
    match h {
        Some((level, text)) => Some((level, text@)),
        None => None,
    }
}

/// Parses a markdown-style heading line, returning the level (1–6) and text.
pub fn parse_heading(input: &str) -> (found: Option<(u8, String)>)
    ensures
        heading_view(found) == heading_of(input@),
{
    let t = trim(input);
    let v = chars_of(t.as_str());
    let mut hashes: usize = 0;
    while hashes < v.len() && v[hashes] == '#'
        invariant
            hashes <= v@.len(),
            v@ == t@,
            hashes_at(t@, 0) == hashes + hashes_at(t@, hashes as int),
        decreases v.len() - hashes,
    {
        hashes += 1;
    }
    if hashes == 0 {
        return None;
    }
    let r = trim_range(&v, hashes, v.len());
    assert(v@.subrange(hashes as int, v@.len() as int) =~= t@.skip(hashes as int));
    if r.0 == v.len() {
        return None;
    }
    let rest = string_of(&v, r.0, v.len());
    let level: u8 = if hashes < 6 {
        hashes as u8
    } else {
        6
    };
    Some((level, rest))
}


// ---------------------------------------------------------------------------
// Word snippets
// ---------------------------------------------------------------------------

/// The fragments gathered so far, and how many bytes may still be gathered.
pub struct Fragments {
    pub lines: Seq<Seq<char>>,
    pub left: nat,
}

/// Whether a member of a snippet says nothing about its content.
pub open spec fn is_bookkeeping(key: Seq<char>) -> bool {
    ||| key == "__type"@
    ||| key == "children"@
    ||| key == "uid"@
    ||| key == "createEmail"@
    ||| key == "createTime"@
    ||| key == "editEmail"@
    ||| key == "editTime"@
    ||| key == "paragraphStyle"@
}

/// The trimmed texts found in a value, gathered in order until the budget is
/// spent, `max` lines are there, or the value lies too deep.
pub open spec fn gathered(value: JsonModel, f: Fragments, depth: nat, max: nat) -> Fragments
    decreases value,
{
    if f.left == 0 || f.lines.len() >= max || depth > 4 {
        f
    } else {
        match value {
            JsonModel::Str(s) => {
                let t = trimmed(s);
                if t.len() == 0 {
                    f
                } else {
                    Fragments {
                        lines: f.lines.push(t),
                        left: if byte_len(t) < f.left {
                            (f.left - byte_len(t)) as nat
                        } else {
                            0
                        },
                    }
                }
            },
            JsonModel::Array(items) => gathered_all(items, f, depth + 1, max),
            JsonModel::Object(members) => gathered_members(members, f, depth + 1, max),
            _ => f,
        }
    }
}

pub open spec fn gathered_all(items: Seq<JsonModel>, f: Fragments, depth: nat, max: nat) -> Fragments
    decreases items,
{
    if items.len() == 0 {
        f
    } else {
        gathered(
            items[items.len() - 1],
            gathered_all(items.take(items.len() - 1), f, depth, max),
            depth,
            max,
        )
    }
}

pub open spec fn gathered_members(
    members: Seq<MemberModel>,
    f: Fragments,
    depth: nat,
    max: nat,
) -> Fragments
    decreases members,
{
    if members.len() == 0 {
        f
    } else {
        let before = gathered_members(members.take(members.len() - 1), f, depth, max);
        let m = members[members.len() - 1];
        if is_bookkeeping(m.name) {
            before
        } else {
            gathered(m.value, before, depth, max)
        }
    }
}

fn is_bookkeeping_key(key: &str) -> (b: bool)
    ensures
        b == is_bookkeeping(key@),
{
    same_text(key, "__type") || same_text(key, "children") || same_text(key, "uid") || same_text(
        key,
        "createEmail",
    ) || same_text(key, "createTime") || same_text(key, "editEmail") || same_text(key, "editTime")
        || same_text(key, "paragraphStyle")
}

/// Gathers the trimmed texts found in `value` into `out`, until `chars_left` is
/// spent or `out` holds `max_lines`.
pub fn collect_text_fragments(
    value: &Json,
    out: &mut Vec<String>,
    depth: usize,
    max_lines: usize,
    chars_left: &mut usize,
)
    ensures
        ({
            let g = gathered(
                value@,
                Fragments { lines: views(old(out)@), left: *old(chars_left) as nat },
                depth as nat,
                max_lines as nat,
            );
            views(final(out)@) == g.lines && *final(chars_left) == g.left
        }),
    decreases value,
{
    let ghost start = Fragments { lines: views(out@), left: *chars_left as nat };
    let ghost max = max_lines as nat;
    if *chars_left == 0 || out.len() >= max_lines || depth > 4 {
        return;
    }
    proof {
        lemma_json_view(*value);
    }
    match value {
        Json::Str(s) => {
            let t = trim(s.as_str());
            if !t.as_str().is_empty() {
                let n: usize = byte_length(t.as_str());
                proof {
                    lemma_views_push(out@, t);
                }
                out.push(t);
                if n < *chars_left {
                    *chars_left = *chars_left - n;
                } else {
                    *chars_left = 0;
                }
            }
        },
        Json::Array(items) => {
            let ghost all = json_views(items@);
            let mut i: usize = 0;
            assert(all.take(0) =~= Seq::<JsonModel>::empty());
            while i < items.len()
                invariant
                    i <= items@.len(),
                    depth <= 4,
                    all == json_views(items@),
                    *value == Json::Array(*items),
                    max == max_lines as nat,
                    gathered_all(all.take(i as int), start, depth as nat + 1, max) == (Fragments {
                        lines: views(out@),
                        left: *chars_left as nat,
                    }),
                decreases items.len() - i,
            {
                proof {
                    assert(value->Array_0 == *items);
                    assert(decreases_to!(*value => value->Array_0));
                    assert(decreases_to!(*items => items@));
                    assert(decreases_to!(items@ => items@[i as int]));
                    let next = all.take(i as int + 1);
                    assert(next.take(next.len() - 1) =~= all.take(i as int));
                    assert(next[next.len() - 1] == items@[i as int]@);
                }
                collect_text_fragments(&items[i], out, depth + 1, max_lines, chars_left);
                i += 1;
            }
            assert(all.take(i as int) =~= all);
        },
        Json::Object(members) => {
            let ghost all = member_views(members@);
            let mut i: usize = 0;
            assert(all.take(0) =~= Seq::<MemberModel>::empty());
            while i < members.len()
                invariant
                    i <= members@.len(),
                    depth <= 4,
                    all == member_views(members@),
                    *value == Json::Object(*members),
                    max == max_lines as nat,
                    gathered_members(all.take(i as int), start, depth as nat + 1, max) == (
                    Fragments { lines: views(out@), left: *chars_left as nat }),
                decreases members.len() - i,
            {
                proof {
                    assert(value->Object_0 == *members);
                    assert(decreases_to!(*value => value->Object_0));
                    assert(decreases_to!(*members => members@));
                    assert(decreases_to!(members@ => members@[i as int]));
                    assert(decreases_to!(members@[i as int] => members@[i as int].value));
                    let next = all.take(i as int + 1);
                    assert(next.take(next.len() - 1) =~= all.take(i as int));
                    assert(next[next.len() - 1] == members@[i as int]@);
                }
                if !is_bookkeeping_key(members[i].name.as_str()) {
                    collect_text_fragments(
                        &members[i].value,
                        out,
                        depth + 1,
                        max_lines,
                        chars_left,
                    );
                }
                i += 1;
            }
            assert(all.take(i as int) =~= all);
        },
        _ => {},
    }
}

/// A text under `key`, trimmed, unless it is blank.
pub open spec fn trimmed_field(item: JsonModel, key: Seq<char>) -> Option<Seq<char>> {
    match item.get_str(key) {
        Some(s) => if trimmed(s).len() > 0 {
            Some(trimmed(s))
        } else {
            None
        },
        None => None,
    }
}

/// The lines that are not blank.
pub open spec fn not_blank(ls: Seq<Seq<char>>) -> Seq<Seq<char>>
    decreases ls.len(),
{
    if ls.len() == 0 {
        Seq::empty()
    } else if trimmed(ls.last()).len() > 0 {
        not_blank(ls.drop_last()).push(ls.last())
    } else {
        not_blank(ls.drop_last())
    }
}

/// The first lines, as many as a word snippet shows.
pub open spec fn first_lines(ls: Seq<Seq<char>>) -> Seq<Seq<char>> {
    if ls.len() > MAX_WORD_SNIPPET_LINES {
        ls.take(MAX_WORD_SNIPPET_LINES as int)
    } else {
        ls
    }
}

/// A text cut to the length that a word snippet shows, with an ellipsis where
/// something was cut.
pub open spec fn shortened(text: Seq<char>) -> Seq<char> {
    if text.len() > MAX_WORD_SNIPPET_CHARS {
        text.take(MAX_WORD_SNIPPET_CHARS - 1).push('…')
    } else {
        text
    }
}

/// The lines of a word snippet: the word and its explanation, or where it has
/// neither the texts found in it.
pub open spec fn word_lines(item: JsonModel) -> Seq<Seq<char>> {
    let word = match trimmed_field(item, "wordString"@) {
        Some(w) => seq![w],
        None => Seq::empty(),
    };
    let explained = match trimmed_field(item, "explanationAttachmentNameString"@) {
        Some(e) => word.push("explanation: "@ + e),
        None => word,
    };
    if explained.len() == 0 {
        gathered(
            item,
            Fragments { lines: Seq::empty(), left: MAX_WORD_SNIPPET_CHARS as nat },
            0,
            MAX_WORD_SNIPPET_LINES as nat,
        ).lines
    } else {
        explained
    }
}

/// The node of a word snippet.
pub open spec fn word_node(item: JsonModel) -> NodeModel {
    let ls = first_lines(not_blank(word_lines(item)));
    if ls.len() == 0 {
        NodeModel::Unknown { typ: "wordSnippet"@, raw: item }
    } else {
        NodeModel::Paragraph { text: shortened(joined(ls, "\n"@)) }
    }
}

fn get_trimmed(item: &Json, key: &str) -> (found: Option<String>)
    ensures
        opt_view(found) == trimmed_field(item@, key@),
{
    match item.get_str(key) {
        Some(s) => {
            let t = trim(s);
            if t.as_str().is_empty() {
                None
            } else {
                Some(t)
            }
        },
        None => None,
    }
}

/// Keeps the lines that are not blank, and of those the first ones.
fn keep_first_lines(all: Vec<String>) -> (kept: Vec<String>)
    ensures
        views(kept@) == first_lines(not_blank(views(all@))),
{
    let mut kept: Vec<String> = Vec::new();
    let ghost whole = views(all@);
    let mut i: usize = 0;
    assert(whole.take(0) =~= Seq::<Seq<char>>::empty());
    assert(views(kept@) =~= not_blank(whole.take(0)));
    while i < all.len()
        invariant
            i <= all@.len(),
            whole == views(all@),
            views(kept@) == not_blank(whole.take(i as int)),
        decreases all.len() - i,
    {
        proof {
            assert(whole.take(i as int + 1).drop_last() =~= whole.take(i as int));
            assert(whole.take(i as int + 1).last() == all@[i as int]@);
        }
        if !is_blank(all[i].as_str()) {
            let line = copy_of(all[i].as_str());
            proof {
                lemma_views_push(kept@, line);
            }
            kept.push(line);
        }
        i += 1;
    }
    assert(whole.take(i as int) =~= whole);
    let ghost before = views(kept@);
    kept.truncate(MAX_WORD_SNIPPET_LINES);
    assert(views(kept@) =~= first_lines(before));
    kept
}

fn shorten(text: String) -> (out: String)
    ensures
        out@ == shortened(text@),
{
    let v = chars_of(text.as_str());
    if v.len() > MAX_WORD_SNIPPET_CHARS {
        let mut out = string_of(&v, 0, MAX_WORD_SNIPPET_CHARS - 1);
        assert(out@ =~= text@.take(MAX_WORD_SNIPPET_CHARS - 1));
        out.push('…');
        out
    } else {
        text
    }
}

fn parse_word_node(item: &Json) -> (node: Node)
    ensures
        node@ == word_node(item@),
{
    let mut found: Vec<String> = Vec::new();
    if let Some(word) = get_trimmed(item, "wordString") {
        found.push(word);
    }
    let ghost word = match trimmed_field(item@, "wordString"@) {
        Some(w) => seq![w],
        None => Seq::empty(),
    };
    assert(views(found@) =~= word);
    if let Some(explanation) = get_trimmed(item, "explanationAttachmentNameString") {
        let mut line = String::new();
        line.push_str("explanation: ");
        line.push_str(explanation.as_str());
        assert(line@ =~= "explanation: "@ + explanation@);
        proof {
            lemma_views_push(found@, line);
        }
        found.push(line);
    }
    if found.len() == 0 {
        assert(views(found@) =~= Seq::<Seq<char>>::empty());
        let mut chars_left: usize = MAX_WORD_SNIPPET_CHARS;
        collect_text_fragments(item, &mut found, 0, MAX_WORD_SNIPPET_LINES, &mut chars_left);
    }
    assert(views(found@) == word_lines(item@));
    let kept = keep_first_lines(found);
    if kept.len() == 0 {
        return Node::Unknown { typ: copy_of("wordSnippet"), raw: item.clone() };
    }
    let text = join(&kept, "\n");
    Node::Paragraph { text: shorten(text) }
}

// ---------------------------------------------------------------------------
// Nodes
// ---------------------------------------------------------------------------

/// The children of a snippet.
pub open spec fn children_of(item: JsonModel) -> Seq<JsonModel> {
    match item.get("children"@) {
        Some(c) => match c.get("items"@) {
            Some(JsonModel::Array(v)) => v,
            _ => Seq::empty(),
        },
        None => Seq::empty(),
    }
}

proof fn lemma_member_decreases(members: Seq<MemberModel>, i: int, key: Seq<char>)
    requires
        0 <= i,
    ensures
        member_from(members, i, key) matches Some(v) ==> decreases_to!(members => v),
    decreases members.len() - i,
{
    if i < members.len() {
        if members[i].name == key {
            assert(decreases_to!(members => members[i]));
            assert(decreases_to!(members[i] => members[i].value));
        } else {
            lemma_member_decreases(members, i + 1, key);
        }
    }
}

proof fn lemma_get_decreases(item: JsonModel, key: Seq<char>)
    ensures
        item.get(key) matches Some(v) ==> decreases_to!(item => v),
{
    if let JsonModel::Object(members) = item {
        lemma_member_decreases(members, 0, key);
        assert(decreases_to!(item => item->Object_0));
    }
}

/// The children of a snippet are smaller than the snippet.
pub proof fn lemma_children_decrease(item: JsonModel)
    ensures
        children_of(item).len() > 0 ==> decreases_to!(item => children_of(item)),
{
    lemma_get_decreases(item, "children"@);
    if let Some(c) = item.get("children"@) {
        lemma_get_decreases(c, "items"@);
        if let Some(JsonModel::Array(v)) = c.get("items"@) {
            let a = c.get("items"@)->0;
            assert(decreases_to!(a => a->Array_0));
        }
    }
}

/// The node of a text snippet: a heading, a quote, a blank text or a paragraph.
pub open spec fn text_node(text: Seq<char>) -> NodeModel {
    match heading_of(text) {
        Some((level, heading)) => NodeModel::Heading { level, text: heading },
        None => match strip_prefix(text, "> "@) {
            Some(rest) => NodeModel::Quote { text: rest },
            None => if trimmed(text).len() == 0 {
                NodeModel::Text { text }
            } else {
                NodeModel::Paragraph { text }
            },
        },
    }
}

/// The node of a picture snippet: a link, unless it has no address.
pub open spec fn picture_node(item: JsonModel) -> NodeModel {
    let url = or_empty(
        match item.get_str("url"@) {
            Some(u) => Some(u),
            None => link_of(item),
        },
    );
    let text = or_text(
        match item.get_str("caption"@) {
            Some(c) => Some(c),
            None => text_of(item),
        },
        "picture"@,
    );
    if url.len() == 0 {
        NodeModel::Unknown { typ: "pictureSnippet"@, raw: item }
    } else {
        NodeModel::Link { text, url }
    }
}

/// The node of a video snippet: a link, unless it has no address.
pub open spec fn youtube_node(item: JsonModel) -> NodeModel {
    let url = or_empty(
        match item.get_str("youtubeUrl"@) {
            Some(u) => Some(u),
            None => link_of(item),
        },
    );
    if url.len() == 0 {
        NodeModel::Unknown { typ: "youtubeSnippet"@, raw: item }
    } else {
        NodeModel::Link { text: or_text(text_of(item), "youtube"@), url }
    }
}

/// The node of an element snippet: its code, unless that is blank.
pub open spec fn element_node(item: JsonModel) -> NodeModel {
    let code = match code_of(item) {
        Some(c) => Some(c),
        None => text_of(item),
    };
    match code {
        Some(c) => if trimmed(c).len() > 0 {
            NodeModel::Code { language: Some("element"@), code: c }
        } else {
            NodeModel::Unknown { typ: "elementSnippet"@, raw: item }
        },
        None => NodeModel::Unknown { typ: "elementSnippet"@, raw: item },
    }
}

/// The node of a rewrite snippet, unless it says neither what to search nor
/// what to replace it with.
pub open spec fn rewrite_node(item: JsonModel) -> NodeModel {
    let search = or_empty(item.get_str("search"@));
    let replace = or_empty(item.get_str("replace"@));
    if search.len() == 0 && replace.len() == 0 {
        NodeModel::Unknown { typ: "pharoRewrite"@, raw: item }
    } else {
        NodeModel::Rewrite {
            language: Some("pharo"@),
            search,
            replace,
            scope: item.get_str("scope"@),
            is_method_pattern: match item.get("isMethodPattern"@) {
                Some(v) => v.as_bool(),
                None => None,
            },
        }
    }
}

/// The node that a snippet stands for.
pub open spec fn node_of(item: JsonModel) -> NodeModel
    decreases item, 0nat,
{
    match type_of(item) {
        None => NodeModel::Unknown { typ: "<missing-type>"@, raw: item },
        Some(t) => {
            if t == "textSnippet"@ {
                text_node(or_empty(text_of(item)))
            } else if t == "quoteSnippet"@ || t == "blockQuoteSnippet"@ || t == "commentSnippet"@ {
                NodeModel::Quote { text: or_empty(text_of(item)) }
            } else if t == "listSnippet"@ {
                proof {
                    lemma_children_decrease(item);
                }
                NodeModel::List {
                    items: if children_of(item).len() > 0 {
                        list_items_of(children_of(item))
                    } else {
                        Seq::empty()
                    },
                }
            } else if t == "pictureSnippet"@ {
                picture_node(item)
            } else if t == "youtubeSnippet"@ {
                youtube_node(item)
            } else if t == "elementSnippet"@ {
                element_node(item)
            } else if t == "pharoRewrite"@ {
                rewrite_node(item)
            } else if t == "wordSnippet"@ {
                word_node(item)
            } else if code_snippet(t) {
                NodeModel::Code {
                    language: inferred_language(Some(t)),
                    code: or_empty(
                        match code_of(item) {
                            Some(c) => Some(c),
                            None => text_of(item),
                        },
                    ),
                }
            } else if t == "pharoLinkSnippet"@ && link_of(item) is Some {
                NodeModel::Link { text: or_text(text_of(item), t), url: or_empty(link_of(item)) }
            } else if t == "linkSnippet"@ && link_of(item) is Some {
                NodeModel::Link {
                    text: or_text(text_of(item), "link"@),
                    url: or_empty(link_of(item)),
                }
            } else {
                NodeModel::Unknown { typ: t, raw: item }
            }
        },
    }
}

/// The nodes of each of some list items.
pub open spec fn list_items_of(items: Seq<JsonModel>) -> Seq<Seq<NodeModel>>
    decreases items, 0nat,
{
    if items.len() == 0 {
        Seq::empty()
    } else {
        list_items_of(items.take(items.len() - 1)).push(item_nodes(items[items.len() - 1]))
    }
}

/// The nodes of a snippet and of the snippets below it. What lies below a list
/// is part of the list.
pub open spec fn item_nodes(item: JsonModel) -> Seq<NodeModel>
    decreases item, 1nat,
{
    if type_of(item) == Some("listSnippet"@) || children_of(item).len() == 0 {
        seq![node_of(item)]
    } else {
        proof {
            lemma_children_decrease(item);
        }
        seq![node_of(item)] + forest_nodes(children_of(item))
    }
}

/// The nodes of some snippets and of the snippets below them.
pub open spec fn forest_nodes(items: Seq<JsonModel>) -> Seq<NodeModel>
    decreases items, 0nat,
{
    if items.len() == 0 {
        Seq::empty()
    } else {
        forest_nodes(items.take(items.len() - 1)) + item_nodes(items[items.len() - 1])
    }
}

fn parse_text_like_node(item: &Json) -> (node: Node)
    ensures
        node@ == text_node(or_empty(text_of(item@))),
{
    let text = text_or_empty(extract_text(item));
    if let Some((level, heading)) = parse_heading(text.as_str()) {
        return Node::Heading { level, text: heading };
    }
    if let Some(rest) = without_prefix(text.as_str(), "> ") {
        return Node::Quote { text: rest };
    }
    if is_blank(text.as_str()) {
        Node::Text { text }
    } else {
        Node::Paragraph { text }
    }
}

fn unknown_node(typ: &str, item: &Json) -> (node: Node)
    ensures
        node@ == (NodeModel::Unknown { typ: typ@, raw: item@ }),
{
    Node::Unknown { typ: copy_of(typ), raw: item.clone() }
}

fn parse_picture_node(item: &Json) -> (node: Node)
    ensures
        node@ == picture_node(item@),
{
    let address = match get_text(item, "url") {
        Some(u) => Some(u),
        None => extract_link(item),
    };
    let url = text_or_empty(address);
    let caption = match get_text(item, "caption") {
        Some(c) => Some(c),
        None => extract_text(item),
    };
    let text = text_or(caption, "picture");
    if url.as_str().is_empty() {
        unknown_node("pictureSnippet", item)
    } else {
        Node::Link { text, url }
    }
}

fn parse_youtube_node(item: &Json) -> (node: Node)
    ensures
        node@ == youtube_node(item@),
{
    let address = match get_text(item, "youtubeUrl") {
        Some(u) => Some(u),
        None => extract_link(item),
    };
    let url = text_or_empty(address);
    let text = text_or(extract_text(item), "youtube");
    if url.as_str().is_empty() {
        unknown_node("youtubeSnippet", item)
    } else {
        Node::Link { text, url }
    }
}

fn parse_element_node(item: &Json) -> (node: Node)
    ensures
        node@ == element_node(item@),
{
    let code = match extract_code(item) {
        Some(c) => Some(c),
        None => extract_text(item),
    };
    if let Some(c) = code {
        if !is_blank(c.as_str()) {
            return Node::Code { language: Some(copy_of("element")), code: c };
        }
    }
    unknown_node("elementSnippet", item)
}

fn parse_rewrite_node(item: &Json) -> (node: Node)
    ensures
        node@ == rewrite_node(item@),
{
    let search = text_or_empty(get_text(item, "search"));
    let replace = text_or_empty(get_text(item, "replace"));
    let scope = get_text(item, "scope");
    let is_method_pattern = match item.get("isMethodPattern") {
        Some(v) => v.as_bool(),
        None => None,
    };
    if search.as_str().is_empty() && replace.as_str().is_empty() {
        unknown_node("pharoRewrite", item)
    } else {
        Node::Rewrite {
            language: Some(copy_of("pharo")),
            search,
            replace,
            scope,
            is_method_pattern,
        }
    }
}

/// The children of a snippet, where it has any.
pub fn children(item: &Json) -> (found: Option<&Vec<Json>>)
    ensures
        match found {
            Some(v) => children_of(item@) == json_views(v@) && decreases_to!(*item => *v),
            None => children_of(item@).len() == 0,
        },
{
    match item.get("children") {
        Some(c) => match c.get("items") {
            Some(items) => items.as_array(),
            None => None,
        },
        None => None,
    }
}

fn parse_list_node(item: &Json) -> (node: Node)
    ensures
        node@ == (NodeModel::List {
            items: if children_of(item@).len() > 0 {
                list_items_of(children_of(item@))
            } else {
                Seq::empty()
            },
        }),
    decreases item, 0nat,
{
    let mut items: Vec<Vec<Node>> = Vec::new();
    assert(item_views(items@) =~= Seq::<Seq<NodeModel>>::empty());
    if let Some(kids) = children(item) {
        let ghost all = json_views(kids@);
        let mut i: usize = 0;
        assert(all.take(0) =~= Seq::<JsonModel>::empty());
        while i < kids.len()
            invariant
                i <= kids@.len(),
                all == json_views(kids@),
                decreases_to!(*item => *kids),
                item_views(items@) == list_items_of(all.take(i as int)),
            decreases kids.len() - i,
        {
            proof {
                assert(decreases_to!(*kids => kids@));
                assert(decreases_to!(kids@ => kids@[i as int]));
                let next = all.take(i as int + 1);
                assert(next.take(next.len() - 1) =~= all.take(i as int));
                assert(next[next.len() - 1] == kids@[i as int]@);
            }
            let mut nodes: Vec<Node> = Vec::new();
            parse_item_recursive(&kids[i], &mut nodes);
            assert(node_views(nodes@) =~= item_nodes(kids@[i as int]@));
            let ghost before = items@;
            items.push(nodes);
            assert(item_views(items@) =~= item_views(before).push(node_views(nodes@)));
            i += 1;
        }
        assert(all.take(i as int) =~= all);
    }
    proof {
        lemma_list_view(Node::List { items });
    }
    Node::List { items }
}

fn parse_node(item: &Json) -> (node: Node)
    ensures
        node@ == node_of(item@),
    decreases item, 1nat,
{
    let t = match extract_type(item) {
        Some(t) => t,
        None => {
            return unknown_node("<missing-type>", item);
        },
    };
    if same_text(t, "textSnippet") {
        parse_text_like_node(item)
    } else if same_text(t, "quoteSnippet") || same_text(t, "blockQuoteSnippet") || same_text(
        t,
        "commentSnippet",
    ) {
        Node::Quote { text: text_or_empty(extract_text(item)) }
    } else if same_text(t, "listSnippet") {
        parse_list_node(item)
    } else if same_text(t, "pictureSnippet") {
        parse_picture_node(item)
    } else if same_text(t, "youtubeSnippet") {
        parse_youtube_node(item)
    } else if same_text(t, "elementSnippet") {
        parse_element_node(item)
    } else if same_text(t, "pharoRewrite") {
        parse_rewrite_node(item)
    } else if same_text(t, "wordSnippet") {
        parse_word_node(item)
    } else if is_code_snippet(t) {
        let code = match extract_code(item) {
            Some(c) => Some(c),
            None => extract_text(item),
        };
        Node::Code { language: infer_language(Some(t)), code: text_or_empty(code) }
    } else if same_text(t, "pharoLinkSnippet") && has_link(item) {
        Node::Link { text: text_or(extract_text(item), t), url: text_or_empty(extract_link(item)) }
    } else if same_text(t, "linkSnippet") && has_link(item) {
        Node::Link {
            text: text_or(extract_text(item), "link"),
            url: text_or_empty(extract_link(item)),
        }
    } else {
        unknown_node(t, item)
    }
}

/// Appends the node of a snippet and those of the snippets below it.
pub fn parse_item_recursive(item: &Json, out: &mut Vec<Node>)
    ensures
        node_views(final(out)@) == node_views(old(out)@) + item_nodes(item@),
    decreases item, 2nat,
{
    let ghost before = node_views(out@);
    let node = parse_node(item);
    let ghost first = node@;
    proof {
        lemma_node_views_push(out@, node);
    }
    out.push(node);
    assert(node_views(out@) =~= before + seq![first]);
    if let Some(t) = extract_type(item) {
        if same_text(t, "listSnippet") {
            return;
        }
    }
    if let Some(kids) = children(item) {
        let ghost all = json_views(kids@);
        let mut i: usize = 0;
        proof {
            assert(all.take(0) =~= Seq::<JsonModel>::empty());
            assert(before + seq![first] + forest_nodes(all.take(0)) =~= before + seq![first]);
        }
        while i < kids.len()
            invariant
                i <= kids@.len(),
                all == json_views(kids@),
                decreases_to!(*item => *kids),
                node_views(out@) == before + seq![first] + forest_nodes(all.take(i as int)),
            decreases kids.len() - i,
        {
            proof {
                assert(decreases_to!(*kids => kids@));
                assert(decreases_to!(kids@ => kids@[i as int]));
                let next = all.take(i as int + 1);
                assert(next.take(next.len() - 1) =~= all.take(i as int));
                assert(next[next.len() - 1] == kids@[i as int]@);
                lemma_concat(
                    before + seq![first],
                    forest_nodes(all.take(i as int)),
                    item_nodes(kids@[i as int]@),
                );
            }
            parse_item_recursive(&kids[i], out);
            i += 1;
        }
        proof {
            assert(all.take(i as int) =~= all);
            lemma_concat(before, seq![first], forest_nodes(all));
            if all.len() == 0 {
                assert(seq![first] + forest_nodes(all) =~= seq![first]);
            }
        }
    }
}

/// Parses a single raw snippet JSON value into a [`Node`].
///
/// This is a best-effort conversion that preserves unknown snippet types as
/// [`Node::Unknown`]. It is intended for tooling that operates on raw JSON
/// without loading a full page.
pub fn parse_node_from_raw(item: &Json) -> (node: Node)
    ensures
        node@ == node_of(item@),
{
    parse_node(item)
}

/// The content of a page file.
pub open spec fn page_content(raw: JsonModel) -> Seq<NodeModel> {
    forest_nodes(children_of(raw))
}

/// Whether snippets of this type are read as something of their own.
pub open spec fn known_type(t: Seq<char>) -> bool {
    ||| t == "textSnippet"@
    ||| t == "quoteSnippet"@
    ||| t == "blockQuoteSnippet"@
    ||| t == "commentSnippet"@
    ||| t == "listSnippet"@
    ||| t == "pictureSnippet"@
    ||| t == "youtubeSnippet"@
    ||| t == "elementSnippet"@
    ||| t == "pharoRewrite"@
    ||| t == "wordSnippet"@
    ||| t == "pharoLinkSnippet"@
    ||| t == "linkSnippet"@
    ||| code_snippet(t)
}

/// Nothing is lost of a snippet that is not understood: every snippet of a
/// type that is not known, or of no type, becomes an unknown node, and an
/// unknown node always holds the whole snippet that it stands for.
pub proof fn unknown_snippets_are_kept(item: JsonModel)
    ensures
        node_of(item) matches NodeModel::Unknown { typ, raw } ==> raw == item,
        type_of(item) is None ==> node_of(item) == (NodeModel::Unknown {
            typ: "<missing-type>"@,
            raw: item,
        }),
        type_of(item) matches Some(t) ==> !known_type(t) ==> node_of(item) == (NodeModel::Unknown {
            typ: t,
            raw: item,
        }),
{
}

/// Whether a snippet is one of some snippets or lies below one of them, but
/// not below a list.
pub open spec fn is_among(snippet: JsonModel, items: Seq<JsonModel>) -> bool
    decreases items, 0nat,
{
    if items.len() == 0 {
        false
    } else {
        ||| is_among(snippet, items.take(items.len() - 1))
        ||| is_within(snippet, items[items.len() - 1])
    }
}

/// Whether a snippet is another one or lies below it, but not below a list.
pub open spec fn is_within(snippet: JsonModel, item: JsonModel) -> bool
    decreases item, 1nat,
{
    if item == snippet {
        true
    } else if type_of(item) == Some("listSnippet"@) || children_of(item).len() == 0 {
        false
    } else {
        proof {
            lemma_children_decrease(item);
        }
        is_among(snippet, children_of(item))
    }
}

proof fn lemma_among(snippet: JsonModel, items: Seq<JsonModel>)
    requires
        is_among(snippet, items),
    ensures
        forest_nodes(items).contains(node_of(snippet)),
    decreases items, 0nat,
{
    let n = items.len() - 1;
    let before = forest_nodes(items.take(n));
    let last = item_nodes(items[n]);
    if is_among(snippet, items.take(n)) {
        lemma_among(snippet, items.take(n));
        let k = before.index_of(node_of(snippet));
        assert((before + last)[k] == node_of(snippet));
    } else {
        lemma_within(snippet, items[n]);
        let k = last.index_of(node_of(snippet));
        assert((before + last)[before.len() + k] == node_of(snippet));
    }
}

proof fn lemma_within(snippet: JsonModel, item: JsonModel)
    requires
        is_within(snippet, item),
    ensures
        item_nodes(item).contains(node_of(snippet)),
    decreases item, 1nat,
{
    if item == snippet {
        assert(item_nodes(item)[0] == node_of(snippet));
    } else {
        lemma_children_decrease(item);
        lemma_among(snippet, children_of(item));
        let below = forest_nodes(children_of(item));
        let k = below.index_of(node_of(snippet));
        assert((seq![node_of(item)] + below)[1 + k] == node_of(snippet));
    }
}

/// Every snippet of a page has its node in the content of the page, however
/// deep it lies. What lies below a list is part of the node of the list.
pub proof fn every_snippet_has_its_node(raw: JsonModel, snippet: JsonModel)
    requires
        is_among(snippet, children_of(raw)),
    ensures
        page_content(raw).contains(node_of(snippet)),
{
    lemma_among(snippet, children_of(raw));
}

/// The content of a page file: the snippets of the page and those below them.
pub fn parse_page_content(raw: &Json) -> (nodes: Vec<Node>)
    ensures
        node_views(nodes@) == page_content(raw@),
{
    let mut out: Vec<Node> = Vec::new();
    assert(node_views(out@) =~= Seq::<NodeModel>::empty());
    if let Some(kids) = children(raw) {
        let ghost all = json_views(kids@);
        let mut i: usize = 0;
        assert(all.take(0) =~= Seq::<JsonModel>::empty());
        while i < kids.len()
            invariant
                i <= kids@.len(),
                all == json_views(kids@),
                node_views(out@) == forest_nodes(all.take(i as int)),
            decreases kids.len() - i,
        {
            proof {
                let next = all.take(i as int + 1);
                assert(next.take(next.len() - 1) =~= all.take(i as int));
                assert(next[next.len() - 1] == kids@[i as int]@);
            }
            parse_item_recursive(&kids[i], &mut out);
            i += 1;
        }
        assert(all.take(i as int) =~= all);
    }
    out
}


// ---------------------------------------------------------------------------
// Page metadata
// ---------------------------------------------------------------------------

/// The tag that one item of a tag list names: the item itself where it is a
/// text, else its `name`, else its `title`.
pub open spec fn tag_of(item: JsonModel) -> Option<Seq<char>> {
    match item.as_str() {
        Some(s) => Some(s),
        None => first_of(item, "name"@, "title"@),
    }
}

/// The texts that are there.
pub open spec fn present(found: Seq<Option<Seq<char>>>) -> Seq<Seq<char>>
    decreases found.len(),
{
    if found.len() == 0 {
        Seq::empty()
    } else {
        match found.last() {
            Some(t) => present(found.drop_last()).push(t),
            None => present(found.drop_last()),
        }
    }
}

/// The tags of a page: a list of items, or an object that holds such a list
/// under `items`, of which only the titles count.
pub open spec fn tags_of(value: Option<JsonModel>) -> Seq<Seq<char>> {
    match value {
        Some(JsonModel::Array(items)) => present(
            Seq::new(items.len(), |i: int| tag_of(items[i])),
        ),
        Some(v) => match v.get("items"@) {
            Some(JsonModel::Array(items)) => present(
                Seq::new(items.len(), |i: int| items[i].get_str("title"@)),
            ),
            _ => Seq::empty(),
        },
        None => Seq::empty(),
    }
}

fn tag_text(item: &Json) -> (found: Option<String>)
    ensures
        opt_view(found) == tag_of(item@),
{
    match item.as_str() {
        Some(s) => Some(copy_of(s)),
        None => get_first(item, "name", "title"),
    }
}

/// The tags that the items of a list name.
fn tags_in(items: &Vec<Json>) -> (out: Vec<String>)
    ensures
        views(out@) == present(Seq::new(items@.len(), |i: int| tag_of(items@[i]@))),
{
    let ghost all = Seq::new(items@.len(), |i: int| tag_of(items@[i]@));
    let mut out: Vec<String> = Vec::new();
    let mut i: usize = 0;
    assert(views(out@) =~= present(all.take(0)));
    while i < items.len()
        invariant
            i <= items@.len(),
            all == Seq::new(items@.len(), |k: int| tag_of(items@[k]@)),
            views(out@) == present(all.take(i as int)),
        decreases items.len() - i,
    {
        assert(all.take(i as int + 1).drop_last() =~= all.take(i as int));
        assert(all.take(i as int + 1).last() == tag_of(items@[i as int]@));
        if let Some(t) = tag_text(&items[i]) {
            proof {
                lemma_views_push(out@, t);
            }
            out.push(t);
        }
        i += 1;
    }
    assert(all.take(i as int) =~= all);
    out
}

/// The titles of the items of a list.
fn titles_in(items: &Vec<Json>) -> (out: Vec<String>)
    ensures
        views(out@) == present(Seq::new(items@.len(), |i: int| items@[i]@.get_str("title"@))),
{
    let ghost all = Seq::new(items@.len(), |i: int| items@[i]@.get_str("title"@));
    let mut out: Vec<String> = Vec::new();
    let mut i: usize = 0;
    assert(views(out@) =~= present(all.take(0)));
    while i < items.len()
        invariant
            i <= items@.len(),
            all == Seq::new(items@.len(), |k: int| items@[k]@.get_str("title"@)),
            views(out@) == present(all.take(i as int)),
        decreases items.len() - i,
    {
        assert(all.take(i as int + 1).drop_last() =~= all.take(i as int));
        assert(all.take(i as int + 1).last() == items@[i as int]@.get_str("title"@));
        if let Some(t) = get_text(&items[i], "title") {
            proof {
                lemma_views_push(out@, t);
            }
            out.push(t);
        }
        i += 1;
    }
    assert(all.take(i as int) =~= all);
    out
}

/// The tags of a page.
pub fn parse_tags(value: Option<&Json>) -> (tags: Vec<String>)
    ensures
        views(tags@) == tags_of(
            match value {
                Some(v) => Some(v@),
                None => None,
            },
        ),
{
    let v = match value {
        Some(v) => v,
        None => {
            let out: Vec<String> = Vec::new();
            assert(views(out@) =~= Seq::<Seq<char>>::empty());
            return out;
        },
    };
    if let Some(items) = v.as_array() {
        let out = tags_in(items);
        assert(Seq::new(items@.len(), |i: int| tag_of(items@[i]@)) =~= Seq::new(
            json_views(items@).len(),
            |i: int| tag_of(json_views(items@)[i]),
        ));
        return out;
    }
    if let Some(list) = v.get("items") {
        if let Some(items) = list.as_array() {
            let out = titles_in(items);
            assert(Seq::new(items@.len(), |i: int| items@[i]@.get_str("title"@)) =~= Seq::new(
                json_views(items@).len(),
                |i: int| json_views(items@)[i].get_str("title"@),
            ));
            return out;
        }
    }
    let out: Vec<String> = Vec::new();
    assert(views(out@) =~= Seq::<Seq<char>>::empty());
    out
}

/// The metadata fields of a page file, each where it is there.
#[derive(Debug, Clone, PartialEq, Eq)]
pub struct RawMeta {
    /// `uid.uuid`
    pub uuid: Option<String>,
    /// `uid.uidString`
    pub uid_string: Option<String>,
    /// `pageType.title`
    pub page_title: Option<String>,
    /// `title`
    pub title: Option<String>,
    /// `editTime.time.dateAndTimeString`
    pub edited: Option<String>,
    /// `tags`
    pub tags: Option<Json>,
}

/// Each text lowercased.
pub open spec fn all_lowercase(ts: Seq<Seq<char>>) -> Seq<Seq<char>> {
    Seq::new(ts.len(), |i: int| lowercase(ts[i]))
}

/// The metadata of a page. The id is the uuid, else the uid string; the title
/// is that of the page type, else that of the page; the time of the last edit
/// counts where it is in RFC 3339 form.
pub open spec fn meta_of(raw: RawMeta, path: Seq<char>) -> MetaModel {
    let id = or_empty(
        match opt_view(raw.uuid) {
            Some(u) => Some(u),
            None => opt_view(raw.uid_string),
        },
    );
    let title = or_empty(
        match opt_view(raw.page_title) {
            Some(t) => Some(t),
            None => opt_view(raw.title),
        },
    );
    let tags = tags_of(
        match raw.tags {
            Some(v) => Some(v@),
            None => None,
        },
    );
    MetaModel {
        id,
        id_lower: lowercase(id),
        title,
        title_lower: lowercase(title),
        path,
        updated_at: match raw.edited {
            Some(t) => instant_of(t@),
            None => None,
        },
        tags,
        tags_lower: all_lowercase(tags),
    }
}

/// Each text lowercased.
fn lowercase_all(ts: &Vec<String>) -> (out: Vec<String>)
    ensures
        views(out@) == all_lowercase(views(ts@)),
{
    let mut out: Vec<String> = Vec::new();
    let mut i: usize = 0;
    while i < ts.len()
        invariant
            i <= ts@.len(),
            out@.len() == i,
            forall|k: int| 0 <= k < i ==> (#[trigger] out@[k])@ == lowercase(ts@[k]@),
        decreases ts.len() - i,
    {
        out.push(to_lowercase(ts[i].as_str()));
        i += 1;
    }
    assert(views(out@) =~= all_lowercase(views(ts@)));
    out
}

fn copy_opt(s: &Option<String>) -> (out: Option<String>)
    ensures
        opt_view(out) == opt_view(*s),
{
    match s {
        Some(t) => Some(copy_of(t.as_str())),
        None => None,
    }
}

/// The metadata of the page in the file at `path`.
pub fn parse_page_meta(path: &str, raw: &RawMeta) -> (meta: PageMeta)
    ensures
        meta@ == meta_of(*raw, path@),
{
    let id = text_or_empty(
        match &raw.uuid {
            Some(u) => Some(copy_of(u.as_str())),
            None => copy_opt(&raw.uid_string),
        },
    );
    let title = text_or_empty(
        match &raw.page_title {
            Some(t) => Some(copy_of(t.as_str())),
            None => copy_opt(&raw.title),
        },
    );
    let updated_at = match &raw.edited {
        Some(t) => Timestamp::parse(t.as_str()),
        None => None,
    };
    let tags = match &raw.tags {
        Some(v) => parse_tags(Some(v)),
        None => parse_tags(None),
    };
    let id_lower = to_lowercase(id.as_str());
    let title_lower = to_lowercase(title.as_str());
    let tags_lower = lowercase_all(&tags);
    PageMeta {
        id,
        id_lower,
        title,
        title_lower,
        path: copy_of(path),
        updated_at,
        tags,
        tags_lower,
    }
}

// ---------------------------------------------------------------------------
// Node types
// ---------------------------------------------------------------------------

/// The types of a value and of all values below it, outermost first.
pub open spec fn types_in(value: JsonModel) -> Seq<Seq<char>>
    decreases value,
{
    match value {
        JsonModel::Object(members) => {
            let own = match type_of(value) {
                Some(t) => seq![t],
                None => Seq::empty(),
            };
            own + types_in_members(members)
        },
        JsonModel::Array(items) => types_in_all(items),
        _ => Seq::empty(),
    }
}

pub open spec fn types_in_all(items: Seq<JsonModel>) -> Seq<Seq<char>>
    decreases items,
{
    if items.len() == 0 {
        Seq::empty()
    } else {
        types_in_all(items.take(items.len() - 1)) + types_in(items[items.len() - 1])
    }
}

pub open spec fn types_in_members(members: Seq<MemberModel>) -> Seq<Seq<char>>
    decreases members,
{
    if members.len() == 0 {
        Seq::empty()
    } else {
        types_in_members(members.take(members.len() - 1)) + types_in(
            members[members.len() - 1].value,
        )
    }
}

/// Appends the types of a value and of all values below it.
pub fn collect_types(value: &Json, out: &mut Vec<String>)
    ensures
        views(final(out)@) == views(old(out)@) + types_in(value@),
    decreases value,
{
    let ghost before = views(out@);
    proof {
        lemma_json_view(*value);
    }
    match value {
        Json::Object(members) => {
            if let Some(t) = extract_type(value) {
                let typ = copy_of(t);
                proof {
                    lemma_views_push(out@, typ);
                }
                out.push(typ);
            }
            let ghost own = match type_of(value@) {
                Some(t) => seq![t],
                None => Seq::empty(),
            };
            assert(views(out@) =~= before + own);
            let ghost all = member_views(members@);
            let mut i: usize = 0;
            assert(all.take(0) =~= Seq::<MemberModel>::empty());
            assert(before + own + types_in_members(all.take(0)) =~= before + own);
            while i < members.len()
                invariant
                    i <= members@.len(),
                    all == member_views(members@),
                    *value == Json::Object(*members),
                    views(out@) == before + own + types_in_members(all.take(i as int)),
                decreases members.len() - i,
            {
                proof {
                    assert(value->Object_0 == *members);
                    assert(decreases_to!(*value => value->Object_0));
                    assert(decreases_to!(*members => members@));
                    assert(decreases_to!(members@ => members@[i as int]));
                    assert(decreases_to!(members@[i as int] => members@[i as int].value));
                    let next = all.take(i as int + 1);
                    assert(next.take(next.len() - 1) =~= all.take(i as int));
                    assert(next[next.len() - 1] == members@[i as int]@);
                    lemma_concat(
                        before + own,
                        types_in_members(all.take(i as int)),
                        types_in(members@[i as int].value@),
                    );
                }
                collect_types(&members[i].value, out);
                i += 1;
            }
            proof {
                assert(all.take(i as int) =~= all);
                lemma_concat(before, own, types_in_members(all));
            }
        },
        Json::Array(items) => {
            let ghost all = json_views(items@);
            let mut i: usize = 0;
            assert(all.take(0) =~= Seq::<JsonModel>::empty());
            assert(before + types_in_all(all.take(0)) =~= before);
            while i < items.len()
                invariant
                    i <= items@.len(),
                    all == json_views(items@),
                    *value == Json::Array(*items),
                    views(out@) == before + types_in_all(all.take(i as int)),
                decreases items.len() - i,
            {
                proof {
                    assert(value->Array_0 == *items);
                    assert(decreases_to!(*value => value->Array_0));
                    assert(decreases_to!(*items => items@));
                    assert(decreases_to!(items@ => items@[i as int]));
                    let next = all.take(i as int + 1);
                    assert(next.take(next.len() - 1) =~= all.take(i as int));
                    assert(next[next.len() - 1] == items@[i as int]@);
                    lemma_concat(
                        before,
                        types_in_all(all.take(i as int)),
                        types_in(items@[i as int]@),
                    );
                }
                collect_types(&items[i], out);
                i += 1;
            }
            assert(all.take(i as int) =~= all);
        },
        _ => {
            assert(before + Seq::<Seq<char>>::empty() =~= before);
        },
    }
}

/// How often `t` occurs in `ts`.
pub open spec fn occurrences(ts: Seq<Seq<char>>, t: Seq<char>) -> nat
    decreases ts.len(),
{
    if ts.len() == 0 {
        0
    } else {
        occurrences(ts.drop_last(), t) + if ts.last() == t {
            1nat
        } else {
            0nat
        }
    }
}

pub proof fn lemma_occurrences_bound(ts: Seq<Seq<char>>, t: Seq<char>)
    ensures
        occurrences(ts, t) <= ts.len(),
    decreases ts.len(),
{
    if ts.len() > 0 {
        lemma_occurrences_bound(ts.drop_last(), t);
    }
}

/// Whether `counts` tells how often each text occurs in `ts`.
pub open spec fn counts_texts(counts: StrMap<usize>, ts: Seq<Seq<char>>) -> bool {
    &&& counts.wf()
    &&& forall|t: Seq<char>| #[trigger]
        counts.find(t) == if occurrences(ts, t) > 0 {
            Some(occurrences(ts, t) as usize)
        } else {
            None
        }
    &&& forall|t: Seq<char>| #[trigger] occurrences(ts, t) <= usize::MAX
}

/// How often each text occurs.
pub fn count_texts(ts: &Vec<String>) -> (counts: StrMap<usize>)
    ensures
        counts_texts(counts, views(ts@)),
{
    let ghost all = views(ts@);
    let mut counts: StrMap<usize> = StrMap::new();
    let mut i: usize = 0;
    assert(all.take(0) =~= Seq::<Seq<char>>::empty());
    while i < ts.len()
        invariant
            i <= ts.len(),
            all == views(ts@),
            counts_texts(counts, all.take(i as int)),
        decreases ts.len() - i,
    {
        let ghost next = all.take(i as int + 1);
        proof {
            assert(next.drop_last() =~= all.take(i as int));
            assert(next.last() == ts@[i as int]@);
            assert forall|t: Seq<char>| #[trigger] occurrences(next, t) <= usize::MAX by {
                lemma_occurrences_bound(next, t);
            }
        }
        let ghost t0 = ts@[i as int]@;
        let seen: usize = match counts.get(ts[i].as_str()) {
            Some(n) => *n,
            None => 0,
        };
        assert(seen == occurrences(all.take(i as int), t0));
        assert(occurrences(next, t0) == seen + 1);
        counts.insert(copy_of(ts[i].as_str()), seen + 1);
        i += 1;
    }
    assert(all.take(i as int) =~= all);
    counts
}

/// Collects all observed `type`/`__type` values and their counts in one page
/// file.
pub fn collect_node_types_value(value: &Json) -> (counts: StrMap<usize>)
    ensures
        counts_texts(counts, types_in(value@)),
{
    let mut types: Vec<String> = Vec::new();
    assert(views(types@) =~= Seq::<Seq<char>>::empty());
    collect_types(value, &mut types);
    assert(views(types@) =~= types_in(value@));
    count_texts(&types)
}

// ---------------------------------------------------------------------------
// What each kind of snippet becomes
// ---------------------------------------------------------------------------

proof fn lemma_type_names()
    ensures
        "textSnippet"@.len() == 11 && "textSnippet"@[0] == 't',
        "quoteSnippet"@.len() == 12 && "quoteSnippet"@[0] == 'q',
        "blockQuoteSnippet"@.len() == 17 && "blockQuoteSnippet"@[0] == 'b',
        "commentSnippet"@.len() == 14 && "commentSnippet"@[1] == 'o' && "commentSnippet"@[0] == 'c',
        "listSnippet"@.len() == 11 && "listSnippet"@[0] == 'l' && "listSnippet"@[2] == 's',
        "pictureSnippet"@.len() == 14 && "pictureSnippet"@[0] == 'p',
        "youtubeSnippet"@.len() == 14 && "youtubeSnippet"@[0] == 'y',
        "elementSnippet"@.len() == 14 && "elementSnippet"@[0] == 'e' && "elementSnippet"@[1] == 'l',
        "pharoRewrite"@.len() == 12 && "pharoRewrite"@[0] == 'p' && "pharoRewrite"@[5] == 'R',
        "wordSnippet"@.len() == 11 && "wordSnippet"@[0] == 'w',
        "pharoLinkSnippet"@.len() == 16 && "pharoLinkSnippet"@[0] == 'p',
        "linkSnippet"@.len() == 11 && "linkSnippet"@[0] == 'l' && "linkSnippet"@[2] == 'n',
        "pharoSnippet"@.len() == 12 && "pharoSnippet"@[0] == 'p' && "pharoSnippet"@[5] == 'S',
        "pythonSnippet"@.len() == 13,
        "javascriptSnippet"@.len() == 17 && "javascriptSnippet"@[0] == 'j',
        "jsonSnippet"@.len() == 11 && "jsonSnippet"@[0] == 'j',
        "yamlSnippet"@.len() == 11 && "yamlSnippet"@[0] == 'y',
        "shellCommandSnippet"@.len() == 19,
        "gemstoneSnippet"@.len() == 15,
        "exampleSnippet"@.len() == 14 && "exampleSnippet"@[0] == 'e' && "exampleSnippet"@[1] == 'x',
        "changesSnippet"@.len() == 14 && "changesSnippet"@[0] == 'c' && "changesSnippet"@[1] == 'h',
        "robocoderMetamodelSnippet"@.len() == 25,
{
    reveal_strlit("textSnippet");
    reveal_strlit("quoteSnippet");
    reveal_strlit("blockQuoteSnippet");
    reveal_strlit("commentSnippet");
    reveal_strlit("listSnippet");
    reveal_strlit("pictureSnippet");
    reveal_strlit("youtubeSnippet");
    reveal_strlit("elementSnippet");
    reveal_strlit("pharoRewrite");
    reveal_strlit("wordSnippet");
    reveal_strlit("pharoLinkSnippet");
    reveal_strlit("linkSnippet");
    reveal_strlit("pharoSnippet");
    reveal_strlit("pythonSnippet");
    reveal_strlit("javascriptSnippet");
    reveal_strlit("jsonSnippet");
    reveal_strlit("yamlSnippet");
    reveal_strlit("shellCommandSnippet");
    reveal_strlit("gemstoneSnippet");
    reveal_strlit("exampleSnippet");
    reveal_strlit("changesSnippet");
    reveal_strlit("robocoderMetamodelSnippet");
}

/// The type of a snippet stands under `type`, and where there is no text, under
/// `__type`.
pub proof fn the_type_of_a_snippet(item: JsonModel, t: Seq<char>)
    ensures
        item.get("type"@) == Some(JsonModel::Str(t)) ==> type_of(item) == Some(t),
        item.get("type"@) is None && item.get("__type"@) == Some(JsonModel::Str(t)) ==> type_of(
            item,
        ) == Some(t),
        item.get("type"@) is None && item.get("__type"@) is None ==> type_of(item) is None,
{
}

/// The text of a snippet stands under `string`, else under `text`, else under
/// `content`.
pub proof fn the_text_of_a_snippet(item: JsonModel, s: Seq<char>)
    ensures
        item.get("string"@) == Some(JsonModel::Str(s)) ==> text_of(item) == Some(s),
        item.get("string"@) is None && item.get("text"@) == Some(JsonModel::Str(s)) ==> text_of(
            item,
        ) == Some(s),
        item.get("string"@) is None && item.get("text"@) is None && item.get("content"@) == Some(
            JsonModel::Str(s),
        ) ==> text_of(item) == Some(s),
        item.get("code"@) == Some(JsonModel::Str(s)) ==> code_of(item) == Some(s),
        item.get("code"@) is None && item.get("source"@) == Some(JsonModel::Str(s)) ==> code_of(
            item,
        ) == Some(s),
        item.get("url"@) == Some(JsonModel::Str(s)) ==> link_of(item) == Some(s),
        item.get("url"@) is None && item.get("href"@) == Some(JsonModel::Str(s)) ==> link_of(item)
            == Some(s),
{
}

/// A picture with an address is a link to the address, under its caption, else
/// under its text, else under a name for every picture. Without an address it is
/// kept as it is.
pub proof fn a_picture_is_a_link_to_its_address(item: JsonModel, u: Seq<char>, c: Seq<char>)
    requires
        type_of(item) == Some("pictureSnippet"@),
    ensures
        item.get("url"@) == Some(JsonModel::Str(u)) && u.len() > 0 && item.get("caption"@) == Some(
            JsonModel::Str(c),
        ) ==> node_of(item) == (NodeModel::Link { text: c, url: u }),
        item.get("url"@) == Some(JsonModel::Str(u)) && u.len() > 0 && item.get("caption"@) is None
            && item.get("string"@) == Some(JsonModel::Str(c)) ==> node_of(item) == (
        NodeModel::Link { text: c, url: u }),
        item.get("url"@) == Some(JsonModel::Str(u)) && u.len() > 0 && item.get("caption"@) is None
            && item.get("string"@) is None && item.get("text"@) is None && item.get("content"@)
            is None ==> node_of(item) == (NodeModel::Link { text: "picture"@, url: u }),
        item.get("url"@) is None && item.get("href"@) == Some(JsonModel::Str(u)) && u.len() > 0
            && item.get("caption"@) == Some(JsonModel::Str(c)) ==> node_of(item) == (
        NodeModel::Link { text: c, url: u }),
        item.get("url"@) is None && item.get("href"@) is None ==> node_of(item) == (
        NodeModel::Unknown { typ: "pictureSnippet"@, raw: item }),
{
    lemma_type_names();
}

/// A film with an address is a link to the address, under its text, else under a
/// name for every film. Without an address it is kept as it is.
pub proof fn a_film_is_a_link_to_its_address(item: JsonModel, u: Seq<char>, c: Seq<char>)
    requires
        type_of(item) == Some("youtubeSnippet"@),
    ensures
        item.get("youtubeUrl"@) == Some(JsonModel::Str(u)) && u.len() > 0 && item.get("string"@)
            == Some(JsonModel::Str(c)) ==> node_of(item) == (NodeModel::Link { text: c, url: u }),
        item.get("youtubeUrl"@) == Some(JsonModel::Str(u)) && u.len() > 0 && item.get("string"@)
            is None && item.get("text"@) is None && item.get("content"@) is None ==> node_of(item)
            == (NodeModel::Link { text: "youtube"@, url: u }),
        item.get("youtubeUrl"@) is None && item.get("url"@) == Some(JsonModel::Str(u)) && u.len()
            > 0 && item.get("string"@) == Some(JsonModel::Str(c)) ==> node_of(item) == (
        NodeModel::Link { text: c, url: u }),
        item.get("youtubeUrl"@) is None && item.get("url"@) is None && item.get("href"@) is None
            ==> node_of(item) == (NodeModel::Unknown { typ: "youtubeSnippet"@, raw: item }),
{
    lemma_type_names();
}

/// A link snippet is a link to its address, under its text where it has one. One
/// without an address is kept as it is.
pub proof fn a_link_snippet_is_a_link(item: JsonModel, u: Seq<char>, c: Seq<char>)
    requires
        type_of(item) == Some("linkSnippet"@) || type_of(item) == Some("pharoLinkSnippet"@),
    ensures
        item.get("url"@) == Some(JsonModel::Str(u)) && item.get("string"@) == Some(
            JsonModel::Str(c),
        ) ==> node_of(item) == (NodeModel::Link { text: c, url: u }),
        item.get("url"@) is None && item.get("href"@) == Some(JsonModel::Str(u)) && item.get(
            "string"@,
        ) == Some(JsonModel::Str(c)) ==> node_of(item) == (NodeModel::Link { text: c, url: u }),
        item.get("url"@) == Some(JsonModel::Str(u)) && item.get("string"@) is None && item.get(
            "text"@,
        ) is None && item.get("content"@) is None ==> node_of(item) == (NodeModel::Link {
            text: if type_of(item) == Some("linkSnippet"@) {
                "link"@
            } else {
                "pharoLinkSnippet"@
            },
            url: u,
        }),
        item.get("url"@) is None && item.get("href"@) is None ==> node_of(item) == (
        NodeModel::Unknown { typ: type_of(item)->0, raw: item }),
{
    lemma_type_names();
    lemma_link_types_hold_no_code(0, "linkSnippet"@);
    lemma_link_types_hold_no_code(0, "pharoLinkSnippet"@);
}

proof fn lemma_link_types_hold_no_code(i: int, t: Seq<char>)
    requires
        0 <= i <= code_languages().len(),
        t == "linkSnippet"@ || t == "pharoLinkSnippet"@,
    ensures
        language_from(i, t) is None,
    decreases code_languages().len() - i,
{
    lemma_type_names();
    if i < code_languages().len() {
        lemma_link_types_hold_no_code(i + 1, t);
    }
}

/// A code snippet is code in the language of its type, under `code`, else under
/// `source`, else its text.
pub proof fn a_code_snippet_is_code(item: JsonModel, k: int, c: Seq<char>)
    requires
        0 <= k < 10,
        type_of(item) == Some(code_languages()[k].typ),
    ensures
        node_of(item) is Code,
        node_of(item)->Code_language == Some(code_languages()[k].language),
        item.get("code"@) == Some(JsonModel::Str(c)) ==> node_of(item)->code == c,
        item.get("code"@) is None && item.get("source"@) == Some(JsonModel::Str(c)) ==> node_of(
            item,
        )->code == c,
        item.get("code"@) is None && item.get("source"@) is None && item.get("string"@) == Some(
            JsonModel::Str(c),
        ) ==> node_of(item)->code == c,
{
    lemma_type_names();
    code_languages_round_trip(k);
}

/// The types of code and their languages.
pub proof fn the_languages_of_code(item: JsonModel)
    ensures
        type_of(item) == Some("pharoSnippet"@) ==> node_of(item) is Code && node_of(item)->Code_language
            == Some("pharo"@),
        type_of(item) == Some("pythonSnippet"@) ==> node_of(item) is Code && node_of(item)->Code_language
            == Some("python"@),
        type_of(item) == Some("javascriptSnippet"@) ==> node_of(item) is Code && node_of(item)->Code_language == Some("javascript"@),
        type_of(item) == Some("jsonSnippet"@) ==> node_of(item) is Code && node_of(item)->Code_language
            == Some("json"@),
        type_of(item) == Some("yamlSnippet"@) ==> node_of(item) is Code && node_of(item)->Code_language
            == Some("yaml"@),
        type_of(item) == Some("shellCommandSnippet"@) ==> node_of(item) is Code && node_of(item)->Code_language == Some("shellcommand"@),
        type_of(item) == Some("gemstoneSnippet"@) ==> node_of(item) is Code && node_of(item)->Code_language == Some("gemstone"@),
        type_of(item) == Some("exampleSnippet"@) ==> node_of(item) is Code && node_of(item)->Code_language == Some("example"@),
        type_of(item) == Some("changesSnippet"@) ==> node_of(item) is Code && node_of(item)->Code_language == Some("changes"@),
        type_of(item) == Some("robocoderMetamodelSnippet"@) ==> node_of(item) is Code && node_of(item)->Code_language == Some("robocodermetamodel"@),
{
    if exists|k: int| 0 <= k < 10 && type_of(item) == Some(#[trigger] code_languages()[k].typ) {
        let k = choose|k: int|
            0 <= k < 10 && type_of(item) == Some(#[trigger] code_languages()[k].typ);
        lemma_type_names();
        a_code_snippet_is_code(item, k, Seq::empty());
    }
    assert(code_languages()[0].typ == "pharoSnippet"@);
    assert(code_languages()[1].typ == "pythonSnippet"@);
    assert(code_languages()[2].typ == "javascriptSnippet"@);
    assert(code_languages()[3].typ == "jsonSnippet"@);
    assert(code_languages()[4].typ == "yamlSnippet"@);
    assert(code_languages()[5].typ == "shellCommandSnippet"@);
    assert(code_languages()[6].typ == "gemstoneSnippet"@);
    assert(code_languages()[7].typ == "exampleSnippet"@);
    assert(code_languages()[8].typ == "changesSnippet"@);
    assert(code_languages()[9].typ == "robocoderMetamodelSnippet"@);
}

/// An element snippet is code under its own name, unless there is none.
pub proof fn an_element_snippet_is_code(item: JsonModel, c: Seq<char>)
    requires
        type_of(item) == Some("elementSnippet"@),
    ensures
        item.get("code"@) == Some(JsonModel::Str(c)) && trimmed(c).len() > 0 ==> node_of(item) == (
        NodeModel::Code { language: Some("element"@), code: c }),
        item.get("code"@) is None && item.get("source"@) is None && item.get("string"@) == Some(
            JsonModel::Str(c),
        ) && trimmed(c).len() > 0 ==> node_of(item) == (NodeModel::Code {
            language: Some("element"@),
            code: c,
        }),
        item.get("code"@) == Some(JsonModel::Str(c)) && trimmed(c).len() == 0 ==> node_of(item) == (
        NodeModel::Unknown { typ: "elementSnippet"@, raw: item }),
{
    lemma_type_names();
}

/// A rewrite rule holds what it searches, what it puts there, its scope and
/// whether it is for whole methods. One with neither is kept as it is.
pub proof fn a_rewrite_snippet_is_a_rule(
    item: JsonModel,
    s: Seq<char>,
    r: Seq<char>,
    c: Seq<char>,
    b: bool,
)
    requires
        type_of(item) == Some("pharoRewrite"@),
        item.get("search"@) == Some(JsonModel::Str(s)),
        item.get("replace"@) == Some(JsonModel::Str(r)),
    ensures
        s.len() > 0 || r.len() > 0 ==> node_of(item) is Rewrite && node_of(item)->search == s
            && node_of(item)->replace == r && node_of(item)->Rewrite_language == Some("pharo"@),
        s.len() > 0 && item.get("scope"@) == Some(JsonModel::Str(c)) ==> node_of(item)->scope
            == Some(c),
        s.len() > 0 && item.get("scope"@) is None ==> node_of(item)->scope is None,
        s.len() > 0 && item.get("isMethodPattern"@) == Some(JsonModel::Bool(b)) ==> node_of(
            item,
        )->is_method_pattern == Some(b),
        s.len() > 0 && item.get("isMethodPattern"@) is None ==> node_of(item)->is_method_pattern
            is None,
        s.len() == 0 && r.len() == 0 ==> node_of(item) == (NodeModel::Unknown {
            typ: "pharoRewrite"@,
            raw: item,
        }),
{
    lemma_type_names();
}

/// A quote or a comment is a quote of its text.
pub proof fn a_quote_snippet_is_a_quote(item: JsonModel, s: Seq<char>)
    requires
        type_of(item) == Some("quoteSnippet"@) || type_of(item) == Some("blockQuoteSnippet"@)
            || type_of(item) == Some("commentSnippet"@),
        text_of(item) == Some(s),
    ensures
        node_of(item) == (NodeModel::Quote { text: s }),
{
    lemma_type_names();
}

/// A list holds an item for each snippet below it, in order: the node of the
/// snippet and the nodes of what lies below that.
pub proof fn a_list_snippet_holds_its_items(item: JsonModel, i: int)
    requires
        type_of(item) == Some("listSnippet"@),
        0 <= i < children_of(item).len(),
    ensures
        node_of(item) is List,
        node_of(item)->items.len() == children_of(item).len(),
        node_of(item)->items[i] == item_nodes(children_of(item)[i]),
        node_of(item)->items[i][0] == node_of(children_of(item)[i]),
{
    lemma_type_names();
    lemma_list_items(children_of(item), i);
}

proof fn lemma_list_items(items: Seq<JsonModel>, i: int)
    requires
        0 <= i < items.len(),
    ensures
        list_items_of(items).len() == items.len(),
        list_items_of(items)[i] == item_nodes(items[i]),
    decreases items.len(),
{
    let n = items.len() - 1;
    let before = items.take(n);
    if n > 0 {
        lemma_list_items(before, if i < n {
            i
        } else {
            0
        });
    } else {
        assert(list_items_of(before) =~= Seq::<Seq<NodeModel>>::empty());
    }
    assert(list_items_of(items) == list_items_of(before).push(item_nodes(items[n])));
    if i < n {
        assert(before[i] == items[i]);
    }
}

/// A text is a paragraph, whole, where it starts with no mark: neither a number
/// sign, after white space, nor a mark of a quote. A blank one is kept as text.
pub proof fn a_text_without_marks_is_a_paragraph(item: JsonModel, s: Seq<char>)
    requires
        type_of(item) == Some("textSnippet"@),
        text_of(item) == Some(s),
    ensures
        trimmed(s).len() > 0 && trimmed(s)[0] != '#' && !(s.len() > 1 && s[0] == '>' && s[1] == ' ')
            ==> node_of(item) == (NodeModel::Paragraph { text: s }),
        trimmed(s).len() == 0 ==> node_of(item) == (NodeModel::Text { text: s }),
{
    lemma_type_names();
    reveal_strlit("> ");
    if starts_with(s, "> "@) {
        assert(s.subrange(0, 2)[0] == '>' && s.subrange(0, 2)[1] == ' ');
        assert(s[0] == '>' && s[1] == ' ');
    }
    if trimmed(s).len() == 0 {
        trimming_takes_the_white_space_around(s);
        let (a, b) = choose|a: int, b: int|
            0 <= a <= b <= s.len() && trimmed(s) == #[trigger] s.subrange(a, b) && (forall|k: int|
                0 <= k < a || b <= k < s.len() ==> whitespace(#[trigger] s[k]));
        assert(a == b);
        if s.len() > 0 {
            assert(whitespace(s[0]));
        }
    }
}

/// A text behind a mark of a quote is a quote of what follows the mark.
pub proof fn a_marked_text_is_a_quote(item: JsonModel, rest: Seq<char>)
    requires
        type_of(item) == Some("textSnippet"@),
        text_of(item) == Some("> "@ + rest),
    ensures
        node_of(item) == (NodeModel::Quote { text: rest }),
{
    lemma_type_names();
    reveal_strlit("> ");
    let s = "> "@ + rest;
    a_prefix_is_stripped("> "@, rest);
    assert(s[0] == '>');
    assert(!whitespace(s[0]));
    assert(trim_start(s) == s);
    let t = trimmed(s);
    lemma_trim_end_keeps_the_start(s);
}

proof fn lemma_trim_end_keeps_the_start(s: Seq<char>)
    requires
        s.len() > 0,
        !whitespace(s[0]),
    ensures
        trim_end(s).len() > 0,
        trim_end(s)[0] == s[0],
    decreases s.len(),
{
    if whitespace(s.last()) {
        assert(s.len() > 1);
        assert(s.drop_last()[0] == s[0]);
        lemma_trim_end_keeps_the_start(s.drop_last());
    }
}

/// A text behind number signs and a space is a heading, as deep as there are
/// signs, the sixth level at most.
pub proof fn a_text_with_number_signs_is_a_heading(item: JsonModel, n: nat, title: Seq<char>)
    requires
        type_of(item) == Some("textSnippet"@),
        n > 0,
        title.len() > 0,
        !whitespace(title[0]),
        !whitespace(title.last()),
        text_of(item) == Some(repeated('#', n) + " "@ + title),
    ensures
        node_of(item) == (NodeModel::Heading {
            level: if n < 6 {
                n as u8
            } else {
                6
            },
            text: title,
        }),
{
    lemma_type_names();
    reveal_strlit(" ");
    let s = repeated('#', n) + " "@ + title;
    assert(s[0] == '#');
    assert(s.last() == title.last());
    assert(trimmed(s) == s);
    lemma_hashes_of(s, 0, n);
    let rest = s.skip(n as int);
    assert(rest =~= seq![' '] + title);
    assert(whitespace(rest[0]));
    assert(rest.skip(1) =~= title);
    assert(trim_start(rest.skip(1)) == title);
    assert(trim_start(rest) == title);
}

proof fn lemma_hashes_of(s: Seq<char>, i: int, n: nat)
    requires
        0 <= i <= n < s.len(),
        forall|k: int| 0 <= k < n ==> s[k] == '#',
        s[n as int] != '#',
    ensures
        hashes_at(s, i) == n - i,
    decreases n - i,
{
    if i < n {
        lemma_hashes_of(s, i + 1, n);
    }
}

/// A word snippet is a paragraph of its word, with what explains it on a line of
/// its own where there is something.
pub proof fn a_word_snippet_is_a_paragraph(item: JsonModel, w: Seq<char>, x: Seq<char>)
    requires
        type_of(item) == Some("wordSnippet"@),
        item.get("wordString"@) == Some(JsonModel::Str(w)),
        trimmed(w).len() > 0,
    ensures
        item.get("explanationAttachmentNameString"@) is None && trimmed(w).len() <= 1200 ==> node_of(
            item,
        ) == (NodeModel::Paragraph { text: trimmed(w) }),
        item.get("explanationAttachmentNameString"@) == Some(JsonModel::Str(x)) && trimmed(x).len()
            > 0 && trimmed(w).len() + 14 + trimmed(x).len() <= 1200 ==> node_of(item) == (
        NodeModel::Paragraph { text: trimmed(w) + "\n"@ + ("explanation: "@ + trimmed(x)) }),
{
    lemma_type_names();
    reveal_strlit("explanation: ");
    reveal_strlit("\n");
    let a = trimmed(w);
    let b = "explanation: "@ + trimmed(x);
    lemma_trimmed_again(w);
    assert(trimmed(a).len() > 0);
    assert(!whitespace(b[0]));
    assert(trim_start(b) == b);
    lemma_trim_end_keeps_the_start(b);
    assert(trimmed(b).len() > 0);
    let one = seq![a];
    let two = seq![a].push(b);
    assert(one.drop_last() =~= Seq::<Seq<char>>::empty());
    assert(not_blank(one.drop_last()) =~= Seq::<Seq<char>>::empty());
    assert(not_blank(one) =~= one);
    assert(two.drop_last() =~= one);
    assert(not_blank(two) =~= two);
    assert(joined(one, "\n"@) == a);
    assert(joined(two, "\n"@) == a + "\n"@ + b);
}

proof fn lemma_trimmed_again(s: Seq<char>)
    ensures
        trimmed(trimmed(s)) == trimmed(s),
{
    trimming_takes_the_white_space_around(s);
    trimming_keeps_what_is_trimmed(trimmed(s));
}

/// The nodes of some snippets and of more are those of the first and then those
/// of the others: the content of a page stands in the order of its snippets.
pub proof fn content_stands_in_order(a: Seq<JsonModel>, b: Seq<JsonModel>)
    ensures
        forest_nodes(a + b) == forest_nodes(a) + forest_nodes(b),
    decreases b.len(),
{
    if b.len() == 0 {
        assert(a + b =~= a);
        assert(forest_nodes(a) + forest_nodes(b) =~= forest_nodes(a));
    } else {
        let n = b.len() - 1;
        content_stands_in_order(a, b.take(n));
        assert((a + b).take((a + b).len() - 1) =~= a + b.take(n));
        lemma_concat(forest_nodes(a), forest_nodes(b.take(n)), item_nodes(b[n]));
    }
}

/// A snippet comes first, and behind it what lies below it; what lies below a list
/// is in the list alone.
pub proof fn a_snippet_comes_before_those_below_it(item: JsonModel)
    ensures
        forest_nodes(seq![item]) == (if type_of(item) == Some("listSnippet"@) {
            seq![node_of(item)]
        } else {
            seq![node_of(item)] + forest_nodes(children_of(item))
        }),
{
    let one = seq![item];
    assert(one.take(0) =~= Seq::<JsonModel>::empty());
    assert(forest_nodes(one.take(0)) =~= Seq::<NodeModel>::empty());
    assert(forest_nodes(one) =~= item_nodes(item));
    if children_of(item).len() == 0 {
        assert(forest_nodes(children_of(item)) =~= Seq::<NodeModel>::empty());
        assert(seq![node_of(item)] + forest_nodes(children_of(item)) =~= seq![node_of(item)]);
    }
}

// ---------------------------------------------------------------------------
// What the metadata of a page holds
// ---------------------------------------------------------------------------

/// The id, the title, the place and the lowercase forms of a page, from the
/// fields that it was written with.
pub proof fn metadata_comes_from_its_fields(raw: RawMeta, path: Seq<char>)
    ensures
        ({
            let m = meta_of(raw, path);
            &&& raw.uuid is Some ==> m.id == (raw.uuid->0)@
            &&& raw.uuid is None && raw.uid_string is Some ==> m.id == (raw.uid_string->0)@
            &&& raw.uuid is None && raw.uid_string is None ==> m.id.len() == 0
            &&& raw.page_title is Some ==> m.title == (raw.page_title->0)@
            &&& raw.page_title is None && raw.title is Some ==> m.title == (raw.title->0)@
            &&& raw.page_title is None && raw.title is None ==> m.title.len() == 0
            &&& m.path == path
            &&& m.id_lower == lowercase(m.id)
            &&& m.title_lower == lowercase(m.title)
            &&& m.tags_lower.len() == m.tags.len()
            &&& forall|i: int|
                0 <= i < m.tags.len() ==> #[trigger] m.tags_lower[i] == lowercase(m.tags[i])
            &&& raw.edited is None ==> m.updated_at is None
        }),
{
}

/// Every tag that is written as a text, or as an object with a name or a title,
/// is a tag of the page.
pub proof fn written_tags_are_tags(items: Seq<JsonModel>, i: int, t: Seq<char>)
    requires
        0 <= i < items.len(),
    ensures
        items[i] == JsonModel::Str(t) ==> tags_of(Some(JsonModel::Array(items))).contains(t),
        items[i] is Object && items[i].get("name"@) == Some(JsonModel::Str(t)) ==> tags_of(
            Some(JsonModel::Array(items)),
        ).contains(t),
        items[i] is Object && items[i].get("name"@) is None && items[i].get("title"@) == Some(
            JsonModel::Str(t),
        ) ==> tags_of(Some(JsonModel::Array(items))).contains(t),
{
    let found = Seq::new(items.len(), |k: int| tag_of(items[k]));
    assert(found[i] == tag_of(items[i]));
    if found[i] == Some(t) {
        lemma_present(found, i, t);
    }
}

/// Tags that are written as titled items of an object are the tags of the page.
pub proof fn titled_tags_are_tags(
    value: JsonModel,
    items: Seq<JsonModel>,
    i: int,
    t: Seq<char>,
)
    requires
        value is Object,
        value.get("items"@) == Some(JsonModel::Array(items)),
        0 <= i < items.len(),
        items[i].get("title"@) == Some(JsonModel::Str(t)),
    ensures
        tags_of(Some(value)).contains(t),
{
    let found = Seq::new(items.len(), |k: int| items[k].get_str("title"@));
    assert(found[i] == Some(t));
    lemma_present(found, i, t);
}

proof fn lemma_present(found: Seq<Option<Seq<char>>>, i: int, t: Seq<char>)
    requires
        0 <= i < found.len(),
        found[i] == Some(t),
    ensures
        present(found).contains(t),
    decreases found.len(),
{
    let before = present(found.drop_last());
    if i == found.len() - 1 {
        assert(present(found).last() == t);
    } else {
        lemma_present(found.drop_last(), i, t);
        if found.last() is Some {
            vstd::seq_lib::lemma_seq_contains_after_push(before, found.last()->0, t);
        }
    }
}

/// A page has no other tags than those written.
pub proof fn tags_were_written(items: Seq<JsonModel>, t: Seq<char>)
    requires
        tags_of(Some(JsonModel::Array(items))).contains(t),
    ensures
        exists|i: int|
            0 <= i < items.len() && (#[trigger] items[i] == JsonModel::Str(t) || items[i].get_str(
                "name"@,
            ) == Some(t) || items[i].get_str("title"@) == Some(t)),
{
    let found = Seq::new(items.len(), |k: int| tag_of(items[k]));
    let i = lemma_was_present(found, t);
    assert(found[i] == tag_of(items[i]));
}

proof fn lemma_was_present(found: Seq<Option<Seq<char>>>, t: Seq<char>) -> (i: int)
    requires
        present(found).contains(t),
    ensures
        0 <= i < found.len(),
        found[i] == Some(t),
    decreases found.len(),
{
    let n = found.len() - 1;
    if found.last() == Some(t) {
        n
    } else {
        let before = present(found.drop_last());
        assert(before.contains(t)) by {
            if found.last() is Some {
                vstd::seq_lib::lemma_seq_contains_after_push(before, found.last()->0, t);
            }
        }
        lemma_was_present(found.drop_last(), t)
    }
}

} // verus!
