use lepiter::index::{KnowledgeBase, KnowledgeBaseIndex, PageSource, ScannedFile};
use lepiter::json::{Json, Member};
use lepiter::listing::{write_list_plain, write_list_tsv};
use lepiter::parse::RawMeta;
use lepiter::record::metas_json;
use lepiter::strmap::StrMap;

fn from_value(value: &serde_json::Value) -> Json {
    match value {
        serde_json::Value::Null => Json::Null,
        serde_json::Value::Bool(b) => Json::Bool(*b),
        serde_json::Value::Number(n) => Json::Number(n.to_string()),
        serde_json::Value::String(s) => Json::Str(s.clone()),
        serde_json::Value::Array(items) => Json::Array(items.iter().map(from_value).collect()),
        serde_json::Value::Object(members) => Json::Object(
            members
                .iter()
                .map(|(name, value)| Member { name: name.clone(), value: from_value(value) })
                .collect(),
        ),
    }
}

fn to_value(json: &Json) -> serde_json::Value {
    match json {
        Json::Null => serde_json::Value::Null,
        Json::Bool(b) => serde_json::Value::Bool(*b),
        Json::Number(n) => serde_json::from_str(n).unwrap(),
        Json::Str(s) => serde_json::Value::String(s.clone()),
        Json::Array(items) => serde_json::Value::Array(items.iter().map(to_value).collect()),
        Json::Object(members) => serde_json::Value::Object(
            members.iter().map(|m| (m.name.clone(), to_value(&m.value))).collect(),
        ),
    }
}

fn text_at(json: &Json, path: &[&str]) -> Option<String> {
    let mut at = json;
    for name in path {
        at = at.get(name)?;
    }
    at.as_str().map(str::to_string)
}

fn raw_meta(json: &Json) -> RawMeta {
    RawMeta {
        uuid: text_at(json, &["uid", "uuid"]),
        uid_string: text_at(json, &["uid", "uidString"]),
        page_title: text_at(json, &["pageType", "title"]),
        title: text_at(json, &["title"]),
        edited: text_at(json, &["editTime", "time", "dateAndTimeString"]),
        tags: json.get("tags").cloned(),
    }
}

/// A knowledge base of some files, each with its name and text, and what reading
/// each page comes to.
fn open_kb(files: &[(String, String)]) -> (KnowledgeBaseIndex, StrMap<PageSource>) {
    let mut scanned = Vec::new();
    let mut contents = Vec::new();
    for (name, text) in files {
        let path = format!("/kb/{name}");
        match serde_json::from_str::<serde_json::Value>(text) {
            Ok(value) if value.is_object() => {
                let json = from_value(&value);
                scanned.push(ScannedFile { path: path.clone(), meta: Ok(raw_meta(&json)) });
                contents.push((path, json));
            }
            _ => scanned.push(ScannedFile { meta: Err(format!("failed to decode {path}")), path }),
        }
    }
    let index = KnowledgeBase::open("/kb", &scanned);
    let mut sources = StrMap::new();
    for id in index.ordered_ids() {
        let path = index.page_meta(&id).unwrap().path.clone();
        for (at, json) in &contents {
            if *at == path {
                sources.insert(id.clone(), PageSource::Raw(json.clone()));
            }
        }
    }
    (index, sources)
}

fn quoted(text: &str) -> String {
    serde_json::Value::String(text.to_string()).to_string()
}

fn make_test_kb(pages: &[(&str, &str, &str)]) -> (KnowledgeBaseIndex, StrMap<PageSource>) {
    let files: Vec<_> = pages
        .iter()
        .map(|(id, title, body)| {
            (
                format!("{id}.lepiter"),
                format!(
                    r#"{{
                        "uid": {{"uuid": {}}},
                        "pageType": {{"title": {}}},
                        "tags": [],
                        "children": {{"items": [{{"__type": "textSnippet", "string": {}}}]}}
                    }}"#,
                    quoted(id),
                    quoted(title),
                    quoted(body)
                ),
            )
        })
        .collect();
    open_kb(&files)
}

fn listed(index: &KnowledgeBaseIndex) -> Vec<serde_json::Value> {
    to_value(&metas_json(&index.sorted_pages())).as_array().unwrap().clone()
}

// --- JSON output ---

#[test]
fn list_json_contains_all_pages() {
    let (index, _) = make_test_kb(&[("p1", "Alpha", "body"), ("p2", "Beta", "body")]);
    let parsed = listed(&index);
    assert_eq!(parsed.len(), 2);
}

#[test]
fn list_json_sorted_by_title() {
    let (index, _) = make_test_kb(&[
        ("p1", "Zebra", "body"),
        ("p2", "Alpha", "body"),
        ("p3", "Middle", "body"),
    ]);
    let parsed = listed(&index);
    let titles: Vec<&str> = parsed
        .iter()
        .map(|v| v["title"].as_str().unwrap())
        .collect();
    assert_eq!(titles, vec!["Alpha", "Middle", "Zebra"]);
}

#[test]
fn list_json_includes_id_and_title_fields() {
    let (index, _) = make_test_kb(&[("p1", "Alpha", "body")]);
    let parsed = listed(&index);
    assert_eq!(parsed[0]["id"], "p1");
    assert_eq!(parsed[0]["title"], "Alpha");
}

#[test]
fn list_json_excludes_internal_fields() {
    let (index, _) = make_test_kb(&[("p1", "Alpha", "body")]);
    let parsed = listed(&index);
    // Lowercase internal fields must not appear.
    assert!(parsed[0].get("id_lower").is_none());
    assert!(parsed[0].get("title_lower").is_none());
    assert!(parsed[0].get("tags_lower").is_none());
}

#[test]
fn list_json_empty_kb() {
    let (index, _) = make_test_kb(&[]);
    let parsed = listed(&index);
    assert!(parsed.is_empty());
}

// --- TSV output ---

#[test]
fn list_tsv_contains_title_and_id() {
    let (index, _) = make_test_kb(&[("p1", "Alpha", "body")]);
    let out = write_list_tsv(&index.sorted_pages());
    let fields: Vec<&str> = out.trim().split('\t').collect();
    assert_eq!(fields[0], "Alpha");
    assert_eq!(fields[1], "p1");
}

#[test]
fn list_tsv_sorted_by_title() {
    let (index, _) = make_test_kb(&[("p1", "Zebra", "body"), ("p2", "Alpha", "body")]);
    let out = write_list_tsv(&index.sorted_pages());
    let lines: Vec<&str> = out.trim().lines().collect();
    assert!(lines[0].starts_with("Alpha"));
    assert!(lines[1].starts_with("Zebra"));
}

#[test]
fn list_tsv_empty_kb() {
    let (index, _) = make_test_kb(&[]);
    let out = write_list_tsv(&index.sorted_pages());
    assert!(out.is_empty());
}

// --- Plain table output ---

#[test]
fn list_plain_has_header_and_separator() {
    let (index, _) = make_test_kb(&[("p1", "Alpha", "body")]);
    let out = write_list_plain(&index.sorted_pages());
    let lines: Vec<&str> = out.lines().collect();
    assert!(lines[0].contains("title"));
    assert!(lines[0].contains("id"));
    assert!(lines[1].contains("-----"));
}

#[test]
fn list_plain_contains_page_data() {
    let (index, _) = make_test_kb(&[("p1", "Alpha", "body")]);
    let out = write_list_plain(&index.sorted_pages());
    let lines: Vec<&str> = out.lines().collect();
    // Header + separator + 1 data row.
    assert_eq!(lines.len(), 3);
    assert!(lines[2].contains("Alpha"));
    assert!(lines[2].contains("p1"));
}

#[test]
fn list_plain_sorted_by_title() {
    let (index, _) = make_test_kb(&[
        ("p1", "Zebra", "body"),
        ("p2", "Alpha", "body"),
        ("p3", "Middle", "body"),
    ]);
    let out = write_list_plain(&index.sorted_pages());
    let data_lines: Vec<&str> = out.lines().skip(2).collect();
    assert_eq!(data_lines.len(), 3);
    assert!(data_lines[0].contains("Alpha"));
    assert!(data_lines[1].contains("Middle"));
    assert!(data_lines[2].contains("Zebra"));
}

#[test]
fn list_plain_empty_kb_only_header() {
    let (index, _) = make_test_kb(&[]);
    let out = write_list_plain(&index.sorted_pages());
    let lines: Vec<&str> = out.trim().lines().collect();
    // Header + separator, no data rows.
    assert_eq!(lines.len(), 2);
}

#[test]
fn list_plain_title_width_clamped_to_min_5() {
    let (index, _) = make_test_kb(&[("p1", "A", "body")]);
    let out = write_list_plain(&index.sorted_pages());
    let header = out.lines().next().unwrap();
    // "title" is 5 chars, column should be at least 5 wide.
    assert!(header.starts_with("title"));
}
