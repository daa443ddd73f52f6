use lepiter::json::{Json, Member};
use lepiter::model::Node;
use lepiter::parse::{
    code_snippet_languages, collect_node_types_value, collect_text_fragments, infer_language,
    is_code_snippet, language_to_snippet_type, parse_heading, parse_item_recursive,
    parse_node_from_raw as parse_node, parse_page_meta, parse_tags, RawMeta, MAX_WORD_SNIPPET_CHARS,
    MAX_WORD_SNIPPET_LINES,
};

fn from_value(value: &serde_json::Value) -> Json {
    match value {
        serde_json::Value::Null => Json::Null,
        serde_json::Value::Bool(b) => Json::Bool(*b),
        serde_json::Value::Number(n) => Json::Number(n.to_string()),
        serde_json::Value::String(s) => Json::Str(s.clone()),
        serde_json::Value::Array(items) => Json::Array(items.iter().map(from_value).collect()),
        serde_json::Value::Object(members) => Json::Object(
            members
                .iter()
                .map(|(name, value)| Member { name: name.clone(), value: from_value(value) })
                .collect(),
        ),
    }
}

fn json(text: &str) -> Json {
    from_value(&serde_json::from_str(text).unwrap())
}

fn text_at(json: &Json, path: &[&str]) -> Option<String> {
    let mut at = json;
    for name in path {
        at = at.get(name)?;
    }
    at.as_str().map(str::to_string)
}

fn raw_meta(json: &Json) -> RawMeta {
    RawMeta {
        uuid: text_at(json, &["uid", "uuid"]),
        uid_string: text_at(json, &["uid", "uidString"]),
        page_title: text_at(json, &["pageType", "title"]),
        title: text_at(json, &["title"]),
        edited: text_at(json, &["editTime", "time", "dateAndTimeString"]),
        tags: json.get("tags").cloned(),
    }
}

#[test]
fn parse_heading_detects_markdown_style() {
    assert_eq!(
        parse_heading("## Heading"),
        Some((2, "Heading".to_string()))
    );
    assert_eq!(parse_heading("No heading"), None);
}

#[test]
fn parse_tags_supports_array_and_object_items() {
    let arr = json(r##"["a", {"name": "b"}, {"title": "c"}]"##);
    assert_eq!(parse_tags(Some(&arr)), vec!["a", "b", "c"]);

    let obj = json(r##"{"items": [{"title":"x"}, {"title":"y"}]}"##);
    assert_eq!(parse_tags(Some(&obj)), vec!["x", "y"]);
}

#[test]
fn parse_node_covers_known_and_unknown_types() {
    let heading = json(r##"{"__type":"textSnippet","string":"# Title"}"##);
    assert!(matches!(parse_node(&heading), Node::Heading { .. }));

    let quote = json(r##"{"__type":"blockQuoteSnippet","string":"quoted"}"##);
    assert!(matches!(parse_node(&quote), Node::Quote { .. }));

    let code = json(r##"{"__type":"pythonSnippet","code":"print(1)"}"##);
    assert!(matches!(parse_node(&code), Node::Code { .. }));

    let json_code = json(r##"{"__type":"jsonSnippet","code":"{\"key\": 1}"}"##);
    assert!(matches!(parse_node(&json_code), Node::Code { .. }));

    let yaml_code = json(r##"{"__type":"yamlSnippet","code":"key: value"}"##);
    assert!(matches!(parse_node(&yaml_code), Node::Code { .. }));

    let link = json(r##"{"__type":"pharoLinkSnippet","string":"link","url":"page:abc"}"##);
    assert!(matches!(parse_node(&link), Node::Link { .. }));

    let picture = json(r##"{"__type":"pictureSnippet","url":"attachments/x.png","caption":"img"}"##);
    assert!(matches!(parse_node(&picture), Node::Link { .. }));

    let youtube = json(r##"{"__type":"youtubeSnippet","youtubeUrl":"https://youtu.be/abc"}"##);
    assert!(matches!(parse_node(&youtube), Node::Link { .. }));

    let element = json(r##"{"__type":"elementSnippet","code":"GtInspector newOn: 42"}"##);
    assert!(matches!(parse_node(&element), Node::Code { .. }));

    let rewrite =
        json(r##"{"__type":"pharoRewrite","search":"a","replace":"b","isMethodPattern":true}"##);
    assert!(matches!(parse_node(&rewrite), Node::Rewrite { .. }));

    let word = json(r##"{"__type":"wordSnippet","wordString":"refactoring"}"##);
    assert!(matches!(parse_node(&word), Node::Paragraph { .. }));

    let list = json(r##"{
        "__type":"listSnippet",
        "children":{"items":[{"__type":"textSnippet","string":"item"}]}
    }"##);
    assert!(matches!(parse_node(&list), Node::List { .. }));

    let unknown = json(r##"{"__type":"mysterySnippet","x":1}"##);
    assert!(matches!(parse_node(&unknown), Node::Unknown { .. }));

    let missing = json(r##"{"x":1}"##);
    assert!(matches!(parse_node(&missing), Node::Unknown { .. }));
}

#[test]
fn infer_language_maps_common_snippet_types() {
    assert_eq!(
        infer_language(Some("pharoSnippet")),
        Some("pharo".to_string())
    );
    assert_eq!(
        infer_language(Some("javascriptSnippet")),
        Some("javascript".to_string())
    );
    assert_eq!(
        infer_language(Some("jsonSnippet")),
        Some("json".to_string())
    );
    assert_eq!(
        infer_language(Some("yamlSnippet")),
        Some("yaml".to_string())
    );
    assert_eq!(
        infer_language(Some("customSnippet")),
        Some("custom".to_string())
    );
    assert_eq!(infer_language(None), None);
}

#[test]
fn code_snippet_table_round_trips() {
    for entry in code_snippet_languages() {
        let (typ, lang) = (entry.typ, entry.language);
        assert!(is_code_snippet(typ), "{typ} should be a code snippet");
        assert_eq!(
            infer_language(Some(typ)).as_deref(),
            Some(lang),
            "{typ} infers wrong language"
        );
        assert_eq!(
            language_to_snippet_type(lang),
            Some(typ),
            "{lang} maps back to wrong type"
        );
    }
    // unknown `*Snippet` types still infer via the strip-suffix fallback.
    assert_eq!(infer_language(Some("fooSnippet")).as_deref(), Some("foo"));
    assert_eq!(language_to_snippet_type("foo"), None);
    assert!(!is_code_snippet("textSnippet"));
}

#[test]
fn parse_item_recursive_includes_children() {
    let root = json(r##"{
        "__type":"textSnippet",
        "string":"parent",
        "children":{"items":[
            {"__type":"textSnippet","string":"child"}
        ]}
    }"##);
    let mut out = Vec::new();
    parse_item_recursive(&root, &mut out);
    assert_eq!(out.len(), 2);
}

#[test]
fn parse_list_node_promotes_nested_item_children() {
    // A list whose single item (a textSnippet) has its own sub-bullet child.
    let list = json(r##"{
        "__type": "listSnippet",
        "children": {"items": [
            {
                "__type": "textSnippet",
                "string": "parent bullet",
                "children": {"items": [
                    {"__type": "textSnippet", "string": "nested bullet"}
                ]}
            }
        ]}
    }"##);
    match parse_node(&list) {
        Node::List { items } => {
            assert_eq!(items.len(), 1, "one top-level item expected");
            let item = &items[0];
            assert!(
                item.len() > 1,
                "nested child dropped: item holds {} node(s)",
                item.len()
            );
            assert!(matches!(&item[0], Node::Paragraph { text } if text == "parent bullet"));
            assert!(
                item[1..]
                    .iter()
                    .any(|n| matches!(n, Node::Paragraph { text } if text == "nested bullet")),
                "nested bullet content missing from item"
            );
        }
        other => panic!("expected list, got {other:?}"),
    }
}

#[test]
fn parse_list_node_flat_items_unchanged() {
    // a flat list (childless text snippets) parses to exactly one node per item
    let list = json(r##"{
        "__type": "listSnippet",
        "children": {"items": [
            {"__type": "textSnippet", "string": "first"},
            {"__type": "textSnippet", "string": "second"}
        ]}
    }"##);
    match parse_node(&list) {
        Node::List { items } => {
            assert_eq!(items.len(), 2);
            assert_eq!(items[0].len(), 1, "flat item should hold a single node");
            assert_eq!(items[1].len(), 1, "flat item should hold a single node");
            assert!(matches!(&items[0][0], Node::Paragraph { text } if text == "first"));
            assert!(matches!(&items[1][0], Node::Paragraph { text } if text == "second"));
        }
        other => panic!("expected list, got {other:?}"),
    }
}

#[test]
fn parse_list_node_composes_nested_list_child() {
    // A bullet whose child is itself a listSnippet: the nested list must be
    // promoted as its own Node::List with its items fully parsed, exercising
    // the listSnippet early-return in parse_item_recursive.
    let list = json(r##"{
        "__type": "listSnippet",
        "children": {"items": [
            {
                "__type": "textSnippet",
                "string": "outer",
                "children": {"items": [
                    {
                        "__type": "listSnippet",
                        "children": {"items": [
                            {"__type": "textSnippet", "string": "inner"}
                        ]}
                    }
                ]}
            }
        ]}
    }"##);
    match parse_node(&list) {
        Node::List { items } => {
            assert_eq!(items.len(), 1);
            let item = &items[0];
            let nested = item
                .iter()
                .find_map(|n| match n {
                    Node::List { items } => Some(items),
                    _ => None,
                })
                .expect("nested list not promoted");
            assert_eq!(nested.len(), 1);
            assert!(matches!(&nested[0][0], Node::Paragraph { text } if text == "inner"));
        }
        other => panic!("expected list, got {other:?}"),
    }
}

#[test]
fn collect_node_types_counts_nested_values() {
    let content = json(r##"{
        "__type":"page",
        "children":{"__type":"snippets","items":[
            {"__type":"textSnippet","children":{"__type":"snippets","items":[]}},
            {"__type":"pythonSnippet","code":"print(1)"}
        ]}
    }"##);
    let counts = collect_node_types_value(&content);

    assert_eq!(counts.get("page"), Some(&1));
    assert_eq!(counts.get("textSnippet"), Some(&1));
    assert_eq!(counts.get("pythonSnippet"), Some(&1));
}

#[test]
fn parse_page_meta_extracts_core_fields() {
    let content = json(r##"{
        "uid":{"uuid":"id-123"},
        "pageType":{"title":"Title"},
        "editTime":{"time":{"dateAndTimeString":"2024-01-01T00:00:00+00:00"}},
        "tags":["t1","t2"]
    }"##);
    let meta = parse_page_meta("/kb/page.lepiter", &raw_meta(&content));

    assert_eq!(meta.id, "id-123");
    assert_eq!(meta.title, "Title");
    assert_eq!(meta.tags, vec!["t1", "t2"]);
    assert!(meta.updated_at.is_some());
}

#[test]
fn parse_page_meta_missing_uid_uses_empty_id() {
    let content = json(r##"{"pageType": {"title": "Some Title"}}"##);
    let meta = parse_page_meta("/kb/page.lepiter", &raw_meta(&content));

    assert!(meta.id.is_empty());
    assert_eq!(meta.title, "Some Title");
}

#[test]
fn parse_page_meta_missing_page_type_uses_empty_title() {
    let content = json(r##"{"uid": {"uuid": "abc-123"}}"##);
    let meta = parse_page_meta("/kb/page.lepiter", &raw_meta(&content));

    assert_eq!(meta.id, "abc-123");
    assert!(meta.title.is_empty());
}

#[test]
fn parse_page_meta_invalid_date_string_yields_none() {
    let content = json(r##"{
        "uid": {"uuid": "id-1"},
        "editTime": {"time": {"dateAndTimeString": "not-a-date"}}
    }"##);
    let meta = parse_page_meta("/kb/page.lepiter", &raw_meta(&content));

    assert!(meta.updated_at.is_none());
}

#[test]
fn parse_word_node_extracts_primary_fields() {
    let item = json(r##"{
        "__type":"wordSnippet",
        "wordString":"refactoring",
        "explanationAttachmentNameString":"attachments/x/explanation.json"
    }"##);
    let node = parse_node(&item);
    match node {
        Node::Paragraph { text } => {
            assert!(text.contains("refactoring"));
            assert!(text.contains("attachments/x/explanation.json"));
        }
        other => panic!("expected paragraph, got {other:?}"),
    }
}

#[test]
fn collect_text_fragments_stops_at_char_budget() {
    let frag = "x".repeat(100);
    let value = json(&format!(r#"["ignore", "{frag}", "{frag}", "{frag}", "{frag}", "{frag}"]"#));
    let mut out = Vec::new();
    let mut chars_left: usize = 250;
    collect_text_fragments(&value, &mut out, 0, MAX_WORD_SNIPPET_LINES, &mut chars_left);
    // "ignore" (6) + three 100-char fragments: pushed then budget
    // saturates to 0, stopping further collection → exactly 4.
    assert_eq!(out.len(), 4);
}

#[test]
fn collect_text_fragments_stops_at_line_limit() {
    let value = json(r##"["a", "b", "c", "d", "e", "f", "g", "h", "i", "j"]"##);
    let mut out = Vec::new();
    let mut chars_left = usize::MAX;
    collect_text_fragments(&value, &mut out, 0, 4, &mut chars_left);
    assert_eq!(out.len(), 4);
}

#[test]
fn word_node_fallback_respects_char_budget() {
    // Build a word snippet without wordString/explanationAttachmentNameString
    // so it falls through to collect_text_fragments, with fragments large
    // enough that the char budget kicks in.
    let big = "a".repeat(500);
    let item = json(&format!(
        r#"{{"__type": "wordSnippet", "field1": "{big}", "field2": "{big}", "field3": "{big}", "field4": "{big}"}}"#
    ));
    let node = parse_node(&item);
    match node {
        Node::Paragraph { text } => {
            // Final text should be at most MAX_WORD_SNIPPET_CHARS + 1 (ellipsis)
            assert!(
                text.chars().count() <= MAX_WORD_SNIPPET_CHARS + 1,
                "text too long: {} chars",
                text.chars().count()
            );
        }
        other => panic!("expected paragraph, got {other:?}"),
    }
}
