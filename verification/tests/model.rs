use lepiter::json::{Json, Member};
use lepiter::model::{Node, Page, PageMeta, SearchHit, SearchMatchKind};
use lepiter::record::{hit_json, kind_text, meta_json, node_json, page_json};
use lepiter::util::{AttachmentError, AttachmentResolver};

fn from_value(value: &serde_json::Value) -> Json {
    match value {
        serde_json::Value::Null => Json::Null,
        serde_json::Value::Bool(b) => Json::Bool(*b),
        serde_json::Value::Number(n) => Json::Number(n.to_string()),
        serde_json::Value::String(s) => Json::Str(s.clone()),
        serde_json::Value::Array(items) => Json::Array(items.iter().map(from_value).collect()),
        serde_json::Value::Object(members) => Json::Object(
            members
                .iter()
                .map(|(name, value)| Member { name: name.clone(), value: from_value(value) })
                .collect(),
        ),
    }
}

fn json(text: &str) -> Json {
    from_value(&serde_json::from_str(text).unwrap())
}

fn to_value(json: &Json) -> serde_json::Value {
    match json {
        Json::Null => serde_json::Value::Null,
        Json::Bool(b) => serde_json::Value::Bool(*b),
        Json::Number(n) => serde_json::from_str(n).unwrap(),
        Json::Str(s) => serde_json::Value::String(s.clone()),
        Json::Array(items) => serde_json::Value::Array(items.iter().map(to_value).collect()),
        Json::Object(members) => serde_json::Value::Object(
            members.iter().map(|m| (m.name.clone(), to_value(&m.value))).collect(),
        ),
    }
}

fn value(text: &str) -> serde_json::Value {
    serde_json::from_str(text).unwrap()
}

#[test]
fn search_match_kind_score_ordering() {
    assert!(SearchMatchKind::Title.score() > SearchMatchKind::Tag.score());
    assert!(SearchMatchKind::Tag.score() > SearchMatchKind::Content.score());
}

#[test]
fn search_match_kind_is_meta() {
    assert!(SearchMatchKind::Title.is_meta());
    assert!(SearchMatchKind::Tag.is_meta());
    assert!(!SearchMatchKind::Content.is_meta());
}

#[test]
fn page_meta_serializes_without_internal_fields() {
    let meta = PageMeta {
        id: "abc-123".to_string(),
        id_lower: "abc-123".to_string(),
        title: "My Page".to_string(),
        title_lower: "my page".to_string(),
        path: "/kb/abc-123.lepiter".to_string(),
        updated_at: None,
        tags: vec!["rust".to_string()],
        tags_lower: vec!["rust".to_string()],
    };
    let json: serde_json::Value = to_value(&meta_json(&meta));
    assert_eq!(json["id"], "abc-123");
    assert_eq!(json["title"], "My Page");
    assert_eq!(json["tags"], value(r#"["rust"]"#));
    // Internal lowercase fields must not appear in output.
    assert!(json.get("id_lower").is_none());
    assert!(json.get("title_lower").is_none());
    assert!(json.get("tags_lower").is_none());
}

#[test]
fn page_serializes_with_content() {
    let page = Page {
        id: "p1".to_string(),
        title: "Test".to_string(),
        updated_at: None,
        tags: Vec::new(),
        content: vec![
            Node::Paragraph {
                text: "hello".to_string(),
            },
            Node::Code {
                language: Some("rust".to_string()),
                code: "fn main() {}".to_string(),
            },
        ],
    };
    let json: serde_json::Value = to_value(&page_json(&page));
    let content = json["content"].as_array().unwrap();
    assert_eq!(content.len(), 2);
    assert_eq!(content[0]["type"], "paragraph");
    assert_eq!(content[0]["text"], "hello");
    assert_eq!(content[1]["type"], "code");
    assert_eq!(content[1]["language"], "rust");
}

#[test]
fn node_variants_serialize_with_type_tag() {
    let cases: Vec<(Node, &str)> = vec![
        (
            Node::Heading {
                level: 2,
                text: "title".to_string(),
            },
            "heading",
        ),
        (
            Node::Paragraph {
                text: "p".to_string(),
            },
            "paragraph",
        ),
        (
            Node::Text {
                text: "t".to_string(),
            },
            "text",
        ),
        (Node::List { items: vec![] }, "list"),
        (
            Node::Code {
                language: None,
                code: "x".to_string(),
            },
            "code",
        ),
        (
            Node::Link {
                text: "a".to_string(),
                url: "b".to_string(),
            },
            "link",
        ),
        (
            Node::Quote {
                text: "q".to_string(),
            },
            "quote",
        ),
        (
            Node::Unknown {
                typ: "wardleyMap".to_string(),
                raw: json("{}"),
            },
            "unknown",
        ),
    ];
    for (node, expected_type) in cases {
        let json: serde_json::Value = to_value(&node_json(&node));
        assert_eq!(json["type"], expected_type, "wrong type tag for {:?}", node);
    }
}

#[test]
fn unknown_node_serializes_source_type() {
    let node = Node::Unknown {
        typ: "wardleyMap".to_string(),
        raw: json(r#"{"data": 1}"#),
    };
    let json: serde_json::Value = to_value(&node_json(&node));
    assert_eq!(json["source_type"], "wardleyMap");
    assert_eq!(json["raw"]["data"], 1);
}

#[test]
fn search_match_kind_serializes_lowercase() {
    assert_eq!(
        kind_text(SearchMatchKind::Title),
        "title"
    );
    assert_eq!(
        kind_text(SearchMatchKind::Tag),
        "tag"
    );
    assert_eq!(
        kind_text(SearchMatchKind::Content),
        "content"
    );
}

#[test]
fn search_hit_serializes() {
    let hit = SearchHit {
        id: "p1".to_string(),
        kind: SearchMatchKind::Tag,
    };
    let json: serde_json::Value = to_value(&hit_json(&hit));
    assert_eq!(json["id"], "p1");
    assert_eq!(json["kind"], "tag");
}

#[test]
fn attachment_resolver_reports_missing_files() {
    let there = "/kb/attachments/ok.txt";
    let resolver = AttachmentResolver::new("/kb");
    let resolved = resolver.resolve("attachments/ok.txt", |path| path == there).unwrap();
    assert!(resolved.exists);
    assert_eq!(resolved.path, there);

    let missing = resolver.resolve_existing("attachments/missing.txt", |path| path == there);
    assert!(matches!(missing, Err(AttachmentError::Missing(_))));
}
