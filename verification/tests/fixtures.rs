use lepiter::index::{KnowledgeBase, KnowledgeBaseIndex, PageSource, ScannedFile};
use lepiter::json::{Json, Member};
use lepiter::model::Node;
use lepiter::parse::RawMeta;
use lepiter::render::render_page_to_text;
use lepiter::strmap::StrMap;

fn from_value(value: &serde_json::Value) -> Json {
    match value {
        serde_json::Value::Null => Json::Null,
        serde_json::Value::Bool(b) => Json::Bool(*b),
        serde_json::Value::Number(n) => Json::Number(n.to_string()),
        serde_json::Value::String(s) => Json::Str(s.clone()),
        serde_json::Value::Array(items) => Json::Array(items.iter().map(from_value).collect()),
        serde_json::Value::Object(members) => Json::Object(
            members
                .iter()
                .map(|(name, value)| Member { name: name.clone(), value: from_value(value) })
                .collect(),
        ),
    }
}

fn text_at(json: &Json, path: &[&str]) -> Option<String> {
    let mut at = json;
    for name in path {
        at = at.get(name)?;
    }
    at.as_str().map(str::to_string)
}

fn raw_meta(json: &Json) -> RawMeta {
    RawMeta {
        uuid: text_at(json, &["uid", "uuid"]),
        uid_string: text_at(json, &["uid", "uidString"]),
        page_title: text_at(json, &["pageType", "title"]),
        title: text_at(json, &["title"]),
        edited: text_at(json, &["editTime", "time", "dateAndTimeString"]),
        tags: json.get("tags").cloned(),
    }
}

/// A knowledge base of some files, each with its name and text, and what reading
/// each page comes to.
fn open_kb(files: &[(String, String)]) -> (KnowledgeBaseIndex, StrMap<PageSource>) {
    let mut scanned = Vec::new();
    let mut contents = Vec::new();
    for (name, text) in files {
        let path = format!("/kb/{name}");
        match serde_json::from_str::<serde_json::Value>(text) {
            Ok(value) if value.is_object() => {
                let json = from_value(&value);
                scanned.push(ScannedFile { path: path.clone(), meta: Ok(raw_meta(&json)) });
                contents.push((path, json));
            }
            _ => scanned.push(ScannedFile { meta: Err(format!("failed to decode {path}")), path }),
        }
    }
    let index = KnowledgeBase::open("/kb", &scanned);
    let mut sources = StrMap::new();
    for id in index.ordered_ids() {
        let path = index.page_meta(&id).unwrap().path.clone();
        for (at, json) in &contents {
            if *at == path {
                sources.insert(id.clone(), PageSource::Raw(json.clone()));
            }
        }
    }
    (index, sources)
}

/// A small corpus with a node type that is not known.
fn corpus() -> (KnowledgeBaseIndex, StrMap<PageSource>) {
    open_kb(&[
        (
            "first.lepiter".to_string(),
            r##"{
                "__type": "page",
                "uid": {"uuid": "first"},
                "pageType": {"title": "First"},
                "children": {"items": [
                    {"__type": "textSnippet", "string": "# Heading"},
                    {"__type": "pharoSnippet", "code": "1 + 2"}
                ]}
            }"##
            .to_string(),
        ),
        (
            "second.lepiter".to_string(),
            r##"{
                "__type": "page",
                "uid": {"uuid": "second"},
                "pageType": {"title": "Second"},
                "children": {"items": [{"__type": "mysterySnippet", "x": 1}]}
            }"##
            .to_string(),
        ),
    ])
}

fn first_page_id(index: &KnowledgeBaseIndex) -> Option<String> {
    index.sorted_pages().first().map(|m| m.id.clone())
}

#[test]
fn golden_parse_page_has_content() {
    let (index, sources) = corpus();
    let Some(id) = first_page_id(&index) else {
        panic!("expected at least one page in the corpus");
    };
    let page = index.load_from(&id, &sources).unwrap();
    assert!(!page.content.is_empty());
}

#[test]
fn corpus_parse_does_not_panic_and_preserves_unknown() {
    let (index, sources) = corpus();
    let mut saw_unknown = false;
    let mut parsed_pages = 0usize;
    for id in index.ordered_ids() {
        let page = index.load_from(&id, &sources).unwrap();
        parsed_pages += 1;
        for node in page.content {
            if matches!(node, Node::Unknown { .. }) {
                saw_unknown = true;
                break;
            }
        }
    }
    assert!(parsed_pages > 0, "expected at least one page in the corpus");
    assert!(saw_unknown, "expected the corpus to hold unknown node types");
}

#[test]
fn render_smoke_test() {
    let (index, sources) = corpus();
    let Some(id) = first_page_id(&index) else {
        panic!("expected at least one page in the corpus");
    };
    let page = index.load_from(&id, &sources).unwrap();
    let rendered = render_page_to_text(&page);
    assert!(!rendered.trim().is_empty());
}
