use lepiter::index::{KnowledgeBase, KnowledgeBaseIndex, PageSource, ScannedFile};
use lepiter::info::{compute_detailed_info, is_snippet_type};
use lepiter::json::{Json, Member};
use lepiter::parse::RawMeta;
use lepiter::strmap::StrMap;

fn from_value(value: &serde_json::Value) -> Json {
    match value {
        serde_json::Value::Null => Json::Null,
        serde_json::Value::Bool(b) => Json::Bool(*b),
        serde_json::Value::Number(n) => Json::Number(n.to_string()),
        serde_json::Value::String(s) => Json::Str(s.clone()),
        serde_json::Value::Array(items) => Json::Array(items.iter().map(from_value).collect()),
        serde_json::Value::Object(members) => Json::Object(
            members
                .iter()
                .map(|(name, value)| Member { name: name.clone(), value: from_value(value) })
                .collect(),
        ),
    }
}

fn text_at(json: &Json, path: &[&str]) -> Option<String> {
    let mut at = json;
    for name in path {
        at = at.get(name)?;
    }
    at.as_str().map(str::to_string)
}

fn raw_meta(json: &Json) -> RawMeta {
    RawMeta {
        uuid: text_at(json, &["uid", "uuid"]),
        uid_string: text_at(json, &["uid", "uidString"]),
        page_title: text_at(json, &["pageType", "title"]),
        title: text_at(json, &["title"]),
        edited: text_at(json, &["editTime", "time", "dateAndTimeString"]),
        tags: json.get("tags").cloned(),
    }
}

/// A knowledge base of some files, each with its name and text, and what reading
/// each page comes to.
fn open_kb(files: &[(String, String)]) -> (KnowledgeBaseIndex, StrMap<PageSource>) {
    let mut scanned = Vec::new();
    let mut contents = Vec::new();
    for (name, text) in files {
        let path = format!("/kb/{name}");
        match serde_json::from_str::<serde_json::Value>(text) {
            Ok(value) if value.is_object() => {
                let json = from_value(&value);
                scanned.push(ScannedFile { path: path.clone(), meta: Ok(raw_meta(&json)) });
                contents.push((path, json));
            }
            _ => scanned.push(ScannedFile { meta: Err(format!("failed to decode {path}")), path }),
        }
    }
    let index = KnowledgeBase::open("/kb", &scanned);
    let mut sources = StrMap::new();
    for id in index.ordered_ids() {
        let path = index.page_meta(&id).unwrap().path.clone();
        for (at, json) in &contents {
            if *at == path {
                sources.insert(id.clone(), PageSource::Raw(json.clone()));
            }
        }
    }
    (index, sources)
}

// --- is_snippet_type ---

#[test]
fn is_snippet_type_accepts_text_snippet() {
    assert!(is_snippet_type("textSnippet"));
}

#[test]
fn is_snippet_type_accepts_pharo_snippet() {
    assert!(is_snippet_type("pharoSnippet"));
}

#[test]
fn is_snippet_type_accepts_lowercase_snippet() {
    assert!(is_snippet_type("codeSnippet"));
    assert!(is_snippet_type("pythonSnippet"));
}

#[test]
fn is_snippet_type_accepts_rewrite() {
    assert!(is_snippet_type("pharoRewrite"));
    assert!(is_snippet_type("someRewrite"));
}

#[test]
fn is_snippet_type_rejects_container_types() {
    assert!(!is_snippet_type("page"));
    assert!(!is_snippet_type("snippets"));
    assert!(!is_snippet_type("children"));
}

// --- compute_detailed_info ---

fn make_test_kb(pages: &[(&str, &str, &str)]) -> (KnowledgeBaseIndex, StrMap<PageSource>) {
    let files: Vec<_> = pages
        .iter()
        .map(|(id, title, body)| {
            (
                format!("{id}.lepiter"),
                format!(
                    r#"{{
                        "uid": {{"uuid": "{id}"}},
                        "pageType": {{"title": "{title}"}},
                        "tags": [],
                        "children": {{"items": [{{"__type": "textSnippet", "string": "{body}"}}]}}
                    }}"#
                ),
            )
        })
        .collect();
    open_kb(&files)
}

#[test]
fn compute_detailed_info_counts_snippet_types() {
    let (index, sources) = make_test_kb(&[("p1", "Page One", "hello world")]);
    let info = compute_detailed_info(&index, "", &sources, &vec![]);
    // The textSnippet from the JSON should appear in snippet_types.
    assert!(info.snippet_types.iter().any(|c| c.name == "textSnippet"));
}

#[test]
fn compute_detailed_info_detects_orphan_pages() {
    // Two pages, neither links to the other — both should be orphans.
    let (index, sources) =
        make_test_kb(&[("p1", "Page One", "hello"), ("p2", "Page Two", "world")]);
    let info = compute_detailed_info(&index, "", &sources, &vec![]);
    assert_eq!(info.orphan_ids.len(), 2);
}

#[test]
fn compute_detailed_info_excludes_toc_from_orphans() {
    // Two pages, neither links to the other. "p1" is the TOC page.
    let (index, sources) = make_test_kb(&[
        ("p1", "Table of Contents", "hello"),
        ("p2", "Page Two", "world"),
    ]);
    let info = compute_detailed_info(&index, "p1", &sources, &vec![]);
    // p1 excluded as TOC, only p2 should be orphan.
    assert_eq!(info.orphan_ids.len(), 1);
    assert_eq!(info.orphan_ids[0], "p2");
}

#[test]
fn compute_detailed_info_linked_page_not_orphan() {
    // p1 links to p2 via inline markdown link.
    let (index, sources) = make_test_kb(&[
        ("p1", "Page One", "see [link](page:p2) for more"),
        ("p2", "Page Two", "target page"),
    ]);
    let info = compute_detailed_info(&index, "", &sources, &vec![]);
    // p2 is linked to by p1, so only p1 should be orphan.
    assert_eq!(info.orphan_ids.len(), 1);
    assert_eq!(info.orphan_ids[0], "p1");
}

#[test]
fn compute_detailed_info_detects_broken_links() {
    // p1 links to a nonexistent page.
    let (index, sources) = make_test_kb(&[("p1", "Page One", "see [link](page:nonexistent) here")]);
    let info = compute_detailed_info(&index, "", &sources, &vec![]);
    assert_eq!(info.broken_links.len(), 1);
    assert_eq!(info.broken_links[0].target, "page:nonexistent");
}

#[test]
fn compute_detailed_info_empty_kb() {
    let (index, sources) = make_test_kb(&[]);
    let info = compute_detailed_info(&index, "", &sources, &vec![]);
    assert!(info.broken_links.is_empty());
    assert!(info.orphan_ids.is_empty());
    assert!(info.snippet_types.is_empty());
}

#[test]
fn compute_detailed_info_names_pages_that_cannot_be_loaded() {
    let (index, mut sources) = make_test_kb(&[("p1", "Page One", "a"), ("p2", "Page Two", "b")]);
    sources.insert("p2".to_string(), PageSource::Failed("gone".to_string()));
    let info = compute_detailed_info(&index, "", &sources, &vec![]);
    assert_eq!(info.load_errors.len(), 1);
    assert_eq!(info.load_errors[0].page_id, "p2");
    assert_eq!(info.load_errors[0].title, "Page Two");
}
