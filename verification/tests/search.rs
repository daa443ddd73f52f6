use lepiter::index::{KnowledgeBase, KnowledgeBaseIndex, PageSource, ScannedFile};
use lepiter::json::{Json, Member};
use lepiter::listing::{content_snippets, search_json, write_search_plain, write_search_tsv};
use lepiter::model::SearchHit;
use lepiter::parse::RawMeta;
use lepiter::strmap::StrMap;

fn from_value(value: &serde_json::Value) -> Json {
    match value {
        serde_json::Value::Null => Json::Null,
        serde_json::Value::Bool(b) => Json::Bool(*b),
        serde_json::Value::Number(n) => Json::Number(n.to_string()),
        serde_json::Value::String(s) => Json::Str(s.clone()),
        serde_json::Value::Array(items) => Json::Array(items.iter().map(from_value).collect()),
        serde_json::Value::Object(members) => Json::Object(
            members
                .iter()
                .map(|(name, value)| Member { name: name.clone(), value: from_value(value) })
                .collect(),
        ),
    }
}

fn to_value(json: &Json) -> serde_json::Value {
    match json {
        Json::Null => serde_json::Value::Null,
        Json::Bool(b) => serde_json::Value::Bool(*b),
        Json::Number(n) => serde_json::from_str(n).unwrap(),
        Json::Str(s) => serde_json::Value::String(s.clone()),
        Json::Array(items) => serde_json::Value::Array(items.iter().map(to_value).collect()),
        Json::Object(members) => serde_json::Value::Object(
            members.iter().map(|m| (m.name.clone(), to_value(&m.value))).collect(),
        ),
    }
}

fn text_at(json: &Json, path: &[&str]) -> Option<String> {
    let mut at = json;
    for name in path {
        at = at.get(name)?;
    }
    at.as_str().map(str::to_string)
}

fn raw_meta(json: &Json) -> RawMeta {
    RawMeta {
        uuid: text_at(json, &["uid", "uuid"]),
        uid_string: text_at(json, &["uid", "uidString"]),
        page_title: text_at(json, &["pageType", "title"]),
        title: text_at(json, &["title"]),
        edited: text_at(json, &["editTime", "time", "dateAndTimeString"]),
        tags: json.get("tags").cloned(),
    }
}

/// A knowledge base of some files, each with its name and text, and what reading
/// each page comes to.
fn open_kb(files: &[(String, String)]) -> (KnowledgeBaseIndex, StrMap<PageSource>) {
    let mut scanned = Vec::new();
    let mut contents = Vec::new();
    for (name, text) in files {
        let path = format!("/kb/{name}");
        match serde_json::from_str::<serde_json::Value>(text) {
            Ok(value) if value.is_object() => {
                let json = from_value(&value);
                scanned.push(ScannedFile { path: path.clone(), meta: Ok(raw_meta(&json)) });
                contents.push((path, json));
            }
            _ => scanned.push(ScannedFile { meta: Err(format!("failed to decode {path}")), path }),
        }
    }
    let index = KnowledgeBase::open("/kb", &scanned);
    let mut sources = StrMap::new();
    for id in index.ordered_ids() {
        let path = index.page_meta(&id).unwrap().path.clone();
        for (at, json) in &contents {
            if *at == path {
                sources.insert(id.clone(), PageSource::Raw(json.clone()));
            }
        }
    }
    (index, sources)
}

fn quoted(text: &str) -> String {
    serde_json::Value::String(text.to_string()).to_string()
}

fn make_test_kb(
    pages: &[(&str, &str, &[&str], &str)],
) -> (KnowledgeBaseIndex, StrMap<PageSource>) {
    let files: Vec<_> = pages
        .iter()
        .map(|(id, title, tags, body)| {
            let tags: Vec<_> = tags.iter().map(|t| quoted(t)).collect();
            (
                format!("{id}.lepiter"),
                format!(
                    r#"{{
                        "uid": {{"uuid": {}}},
                        "pageType": {{"title": {}}},
                        "tags": [{}],
                        "children": {{"items": [{{"__type": "textSnippet", "string": {}}}]}}
                    }}"#,
                    quoted(id),
                    quoted(title),
                    tags.join(", "),
                    quoted(body)
                ),
            )
        })
        .collect();
    open_kb(&files)
}

/// Build the snippet map the writers expect.
fn snips(
    index: &KnowledgeBaseIndex,
    hits: &Vec<SearchHit>,
    query: &str,
    sources: &StrMap<PageSource>,
) -> StrMap<String> {
    content_snippets(index, hits, &query.to_lowercase(), sources)
}

// --- JSON output ---

#[test]
fn search_json_title_match() {
    let (index, sources) = make_test_kb(&[
        ("p1", "Rust Guide", &[], "body"),
        ("p2", "Go Notes", &[], "body"),
    ]);
    let hits = index.search_hits("rust", false, &sources);
    let snippets = snips(&index, &hits, "rust", &sources);
    let parsed = to_value(&search_json(&index, &hits, &snippets)).as_array().unwrap().clone();
    assert_eq!(parsed.len(), 1);
    assert_eq!(parsed[0]["id"], "p1");
    assert_eq!(parsed[0]["title"], "Rust Guide");
    assert_eq!(parsed[0]["kind"], "title");
    // A title hit carries no snippet.
    assert_eq!(parsed[0]["snippet"], "");
}

#[test]
fn search_json_tag_match_includes_tags() {
    let (index, sources) = make_test_kb(&[("p1", "Page One", &["rust", "cli"], "body")]);
    let hits = index.search_hits("cli", false, &sources);
    let snippets = snips(&index, &hits, "cli", &sources);
    let parsed = to_value(&search_json(&index, &hits, &snippets)).as_array().unwrap().clone();
    assert_eq!(parsed.len(), 1);
    assert_eq!(parsed[0]["kind"], "tag");
    assert_eq!(parsed[0]["snippet"], "");
    let tags = parsed[0]["tags"].as_array().unwrap();
    assert!(tags.contains(&serde_json::Value::String("rust".to_string())));
    assert!(tags.contains(&serde_json::Value::String("cli".to_string())));
}

#[test]
fn search_json_content_match() {
    let (index, sources) = make_test_kb(&[("p1", "Alpha", &[], "the quick brown fox")]);
    let hits = index.search_hits("fox", true, &sources);
    let snippets = snips(&index, &hits, "fox", &sources);
    let parsed = to_value(&search_json(&index, &hits, &snippets)).as_array().unwrap().clone();
    assert_eq!(parsed.len(), 1);
    assert_eq!(parsed[0]["kind"], "content");
    // A content hit carries a matching-context snippet.
    assert_eq!(parsed[0]["snippet"], "the quick brown fox");
}

#[test]
fn search_json_content_hit_without_snippet_is_empty() {
    // Content matching happens on un-rendered node text, so a hit can
    // legitimately yield no rendered snippet. The writer must tolerate that
    // and emit an empty string, never omit the key.
    let (index, sources) = make_test_kb(&[("p1", "Alpha", &[], "the quick brown fox")]);
    let hits = index.search_hits("fox", true, &sources);
    let snippets = StrMap::new();
    let parsed = to_value(&search_json(&index, &hits, &snippets)).as_array().unwrap().clone();
    assert_eq!(parsed[0]["kind"], "content");
    assert_eq!(parsed[0]["snippet"], "");
}

#[test]
fn search_json_no_results() {
    let (index, sources) = make_test_kb(&[("p1", "Alpha", &[], "body")]);
    let hits = index.search_hits("zzzzz", false, &sources);
    let snippets = snips(&index, &hits, "zzzzz", &sources);
    let parsed = to_value(&search_json(&index, &hits, &snippets)).as_array().unwrap().clone();
    assert!(parsed.is_empty());
}

#[test]
fn search_json_multiple_match_kinds() {
    let (index, sources) = make_test_kb(&[
        ("p1", "Rust Guide", &[], "body"),
        ("p2", "Page Two", &["rust"], "body"),
        ("p3", "Page Three", &[], "mentions rust here"),
    ]);
    let hits = index.search_hits("rust", true, &sources);
    let snippets = snips(&index, &hits, "rust", &sources);
    let parsed = to_value(&search_json(&index, &hits, &snippets)).as_array().unwrap().clone();
    assert_eq!(parsed.len(), 3);
    // Ranked: title > tag > content.
    assert_eq!(parsed[0]["kind"], "title");
    assert_eq!(parsed[1]["kind"], "tag");
    assert_eq!(parsed[2]["kind"], "content");
    // Only the content hit gets a snippet.
    assert_eq!(parsed[0]["snippet"], "");
    assert_eq!(parsed[1]["snippet"], "");
    assert_eq!(parsed[2]["snippet"], "mentions rust here");
}

// --- TSV output ---

#[test]
fn search_tsv_title_match() {
    let (index, sources) = make_test_kb(&[
        ("p1", "Rust Guide", &[], "body"),
        ("p2", "Go Notes", &[], "body"),
    ]);
    let hits = index.search_hits("rust", false, &sources);
    let snippets = snips(&index, &hits, "rust", &sources);
    let out = write_search_tsv(&index.sorted_pages(), &hits, &snippets);
    // Use `lines()` rather than `trim()` here: an empty snippet leaves a
    // trailing tab, and `trim()` would strip it, hiding the 4th column.
    let lines: Vec<&str> = out.lines().collect();
    assert_eq!(lines.len(), 1);
    let fields: Vec<&str> = lines[0].split('\t').collect();
    assert_eq!(fields.len(), 4, "expected title\\tid\\tkind\\tsnippet");
    assert_eq!(fields[0], "Rust Guide");
    assert_eq!(fields[1], "p1");
    assert_eq!(fields[2], "title");
    // Title hit — empty snippet column.
    assert_eq!(fields[3], "");
}

#[test]
fn search_tsv_content_match_has_snippet_column() {
    let (index, sources) = make_test_kb(&[("p1", "Alpha", &[], "the quick brown fox")]);
    let hits = index.search_hits("fox", true, &sources);
    let snippets = snips(&index, &hits, "fox", &sources);
    let out = write_search_tsv(&index.sorted_pages(), &hits, &snippets);
    let fields: Vec<&str> = out.trim().split('\t').collect();
    assert_eq!(fields.len(), 4);
    assert_eq!(fields[2], "content");
    assert_eq!(fields[3], "the quick brown fox");
}

#[test]
fn search_tsv_snippet_strips_tab_chars() {
    // A tab inside the rendered snippet would spill into a fifth column;
    // the writer flattens it so the row stays exactly four fields.
    let (index, sources) = make_test_kb(&[("p1", "Alpha", &[], "fox\tbar baz")]);
    let hits = index.search_hits("fox", true, &sources);
    let snippets = snips(&index, &hits, "fox", &sources);
    let out = write_search_tsv(&index.sorted_pages(), &hits, &snippets);
    let fields: Vec<&str> = out.trim().split('\t').collect();
    assert_eq!(fields.len(), 4, "tab in snippet must not add a column");
    assert_eq!(fields[3], "fox bar baz");
}

#[test]
fn search_tsv_snippet_strips_carriage_returns() {
    // A parser that treats a bare CR as a record separator would read one
    // row as three. Neither `lines()` nor `split('\t')` sees a mid-line CR,
    // so assert on the emitted bytes.
    let (index, sources) = make_test_kb(&[(
        "p1",
        "Alpha",
        &[],
        "first line\r\nfox is here\r\nthird line",
    )]);
    let hits = index.search_hits("fox", true, &sources);
    let snippets = snips(&index, &hits, "fox", &sources);
    let out = write_search_tsv(&index.sorted_pages(), &hits, &snippets);
    assert!(!out.contains('\r'), "CR reached the TSV stream: {out:?}");
    let records: Vec<&str> = out.trim_end().split(['\r', '\n']).collect();
    assert_eq!(records.len(), 1, "row must stay one record: {out:?}");
    let fields: Vec<&str> = records[0].split('\t').collect();
    assert_eq!(fields.len(), 4, "CR in snippet must not add a record");
    assert!(fields[3].contains("fox is here"));
}

#[test]
fn search_tsv_sorted_by_title() {
    let (index, sources) = make_test_kb(&[
        ("p1", "Zebra", &["common"], "body"),
        ("p2", "Alpha", &["common"], "body"),
    ]);
    let hits = index.search_hits("common", false, &sources);
    let snippets = snips(&index, &hits, "common", &sources);
    let out = write_search_tsv(&index.sorted_pages(), &hits, &snippets);
    let lines: Vec<&str> = out.trim().lines().collect();
    assert_eq!(lines.len(), 2);
    // sorted_pages iterates in title order.
    assert!(lines[0].starts_with("Alpha"));
    assert!(lines[1].starts_with("Zebra"));
}

#[test]
fn search_tsv_no_results_empty() {
    let (index, sources) = make_test_kb(&[("p1", "Alpha", &[], "body")]);
    let hits = index.search_hits("zzzzz", false, &sources);
    let snippets = snips(&index, &hits, "zzzzz", &sources);
    let out = write_search_tsv(&index.sorted_pages(), &hits, &snippets);
    assert!(out.is_empty());
}

#[test]
fn search_tsv_content_match_label() {
    let (index, sources) = make_test_kb(&[("p1", "Alpha", &[], "the quick brown fox")]);
    let hits = index.search_hits("fox", true, &sources);
    let snippets = snips(&index, &hits, "fox", &sources);
    let out = write_search_tsv(&index.sorted_pages(), &hits, &snippets);
    assert!(out.contains("\tcontent\t"));
}

// --- Plain table output ---

#[test]
fn search_plain_has_header_and_separator() {
    let (index, sources) = make_test_kb(&[("p1", "Alpha", &[], "body")]);
    let hits = index.search_hits("alpha", false, &sources);
    let snippets = snips(&index, &hits, "alpha", &sources);
    let out = write_search_plain(&index.sorted_pages(), &hits, &snippets);
    let lines: Vec<&str> = out.lines().collect();
    assert!(lines[0].contains("title"));
    assert!(lines[0].contains("id"));
    assert!(lines[0].contains("match"));
    // Second line is a separator of dashes.
    assert!(lines[1].contains("-----"));
}

#[test]
fn search_plain_shows_match_kind() {
    let (index, sources) = make_test_kb(&[("p1", "Rust Guide", &[], "body")]);
    let hits = index.search_hits("rust", false, &sources);
    let snippets = snips(&index, &hits, "rust", &sources);
    let out = write_search_plain(&index.sorted_pages(), &hits, &snippets);
    // Data row should contain the title, id, and match kind.
    assert!(out.contains("Rust Guide"));
    assert!(out.contains("p1"));
    assert!(out.contains("title"));
}

#[test]
fn search_plain_content_shows_indented_snippet() {
    let (index, sources) = make_test_kb(&[("p1", "Alpha", &[], "the quick brown fox")]);
    let hits = index.search_hits("fox", true, &sources);
    let snippets = snips(&index, &hits, "fox", &sources);
    let out = write_search_plain(&index.sorted_pages(), &hits, &snippets);
    // The snippet appears on its own indented line under the content row.
    assert!(
        out.contains("\n    the quick brown fox"),
        "expected indented snippet line, got: {out}"
    );
}

#[test]
fn search_plain_snippet_strips_carriage_returns() {
    // A CR returns the terminal cursor to column 0, overwriting the
    // indented snippet line and erasing the match it exists to show.
    let (index, sources) = make_test_kb(&[(
        "p1",
        "Alpha",
        &[],
        "first line\r\nfox is here\r\nthird line",
    )]);
    let hits = index.search_hits("fox", true, &sources);
    let snippets = snips(&index, &hits, "fox", &sources);
    let out = write_search_plain(&index.sorted_pages(), &hits, &snippets);
    assert!(!out.contains('\r'), "CR reached the terminal: {out:?}");
    assert!(
        out.contains("\n    first line  fox is here  third line"),
        "expected a flattened snippet line, got: {out}"
    );
}

#[test]
fn search_plain_title_match_has_no_snippet_line() {
    let (index, sources) = make_test_kb(&[("p1", "Alpha", &[], "body")]);
    let hits = index.search_hits("alpha", false, &sources);
    let snippets = snips(&index, &hits, "alpha", &sources);
    let out = write_search_plain(&index.sorted_pages(), &hits, &snippets);
    let lines: Vec<&str> = out.trim().lines().collect();
    // Header + separator + one data row, no indented snippet line.
    assert_eq!(lines.len(), 3);
}

#[test]
fn search_plain_no_results_only_header() {
    let (index, sources) = make_test_kb(&[("p1", "Alpha", &[], "body")]);
    let hits = index.search_hits("zzzzz", false, &sources);
    let snippets = snips(&index, &hits, "zzzzz", &sources);
    let out = write_search_plain(&index.sorted_pages(), &hits, &snippets);
    let lines: Vec<&str> = out.trim().lines().collect();
    // Header + separator only, no data rows.
    assert_eq!(lines.len(), 2);
}

#[test]
fn search_plain_title_width_clamped_to_min_5() {
    // Single-char title — width should be clamped to at least 5.
    let (index, sources) = make_test_kb(&[("p1", "A", &[], "body")]);
    let hits = index.search_hits("a", false, &sources);
    let snippets = snips(&index, &hits, "a", &sources);
    let out = write_search_plain(&index.sorted_pages(), &hits, &snippets);
    let header = out.lines().next().unwrap();
    // "title" is 5 chars and should be left-padded to at least 5.
    assert!(header.starts_with("title"));
}
