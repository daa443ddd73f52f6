use lepiter::import::{
    build_page_json, closes_fence, id_is_safe, open_fence, parse_frontmatter, parse_markdown_body,
    parse_yaml_string, parse_yaml_tags, plan_import, snippet_type_for_language, strip_frontmatter,
    Frontmatter, MarkdownFile, SkipReason, Snippet,
};
use lepiter::json::Json;
use lepiter::render::is_standalone_link;
use lepiter::strmap::StrMap;

fn to_value(json: &Json) -> serde_json::Value {
    match json {
        Json::Null => serde_json::Value::Null,
        Json::Bool(b) => serde_json::Value::Bool(*b),
        Json::Number(n) => serde_json::from_str(n).unwrap(),
        Json::Str(s) => serde_json::Value::String(s.clone()),
        Json::Array(items) => serde_json::Value::Array(items.iter().map(to_value).collect()),
        Json::Object(members) => serde_json::Value::Object(
            members.iter().map(|m| (m.name.clone(), to_value(&m.value))).collect(),
        ),
    }
}

fn value(text: &str) -> serde_json::Value {
    serde_json::from_str(text).unwrap()
}

#[test]
fn parse_frontmatter_basic() {
    let content = "---\ntitle: \"Test Page\"\nid: abc-123\ntags: [\"rust\", \"cli\"]\nupdated_at: 2024-01-01T00:00:00+00:00\n---\n\nBody text.\n";
    let fm = parse_frontmatter(content).unwrap();
    assert_eq!(fm.title, "Test Page");
    assert_eq!(fm.id, "abc-123");
    assert_eq!(fm.tags, vec!["rust", "cli"]);
    assert_eq!(fm.updated_at.as_deref(), Some("2024-01-01T00:00:00+00:00"));
}

#[test]
fn parse_frontmatter_escaped_title() {
    let content = "---\ntitle: \"Page with \\\"quotes\\\"\"\nid: p1\n---\n\n";
    let fm = parse_frontmatter(content).unwrap();
    assert_eq!(fm.title, "Page with \"quotes\"");
}

#[test]
fn parse_frontmatter_no_tags() {
    let content = "---\ntitle: \"Simple\"\nid: p2\n---\n\n";
    let fm = parse_frontmatter(content).unwrap();
    assert!(fm.tags.is_empty());
    assert!(fm.updated_at.is_none());
}

#[test]
fn parse_frontmatter_missing_returns_none() {
    assert!(parse_frontmatter("no frontmatter here").is_none());
    assert!(parse_frontmatter("---\nunclosed").is_none());
}

#[test]
fn parse_frontmatter_bom() {
    let content = "\u{feff}---\ntitle: \"BOM\"\nid: bom-1\n---\n\n";
    let fm = parse_frontmatter(content).unwrap();
    assert_eq!(fm.title, "BOM");
    assert_eq!(fm.id, "bom-1");
}

#[test]
fn parse_yaml_string_lone_quote_does_not_panic() {
    // a value that is a single quote char used to slice `1..0` and panic
    assert_eq!(parse_yaml_string("\""), "\"");
    assert_eq!(parse_yaml_string("'"), "'");
    // normal quoting still works
    assert_eq!(parse_yaml_string("\"\""), "");
    assert_eq!(parse_yaml_string("\"hello\""), "hello");
    assert_eq!(parse_yaml_string("'hello'"), "hello");
    assert_eq!(parse_yaml_string("plain"), "plain");
}

#[test]
fn parse_yaml_tags_lone_quote_does_not_panic() {
    // `tags: ["]` — the bracket-stripped inner is a lone quote
    assert_eq!(parse_yaml_tags("[\"]"), vec!["\""]);
}

#[test]
fn parse_frontmatter_lone_quote_title_does_not_panic() {
    // a whole import run used to abort on a single stray quote in any file
    let content = "---\ntitle: \"\nid: lone-1\n---\n\nbody\n";
    let fm = parse_frontmatter(content).unwrap();
    assert_eq!(fm.title, "\"");
    assert_eq!(fm.id, "lone-1");
}

#[test]
fn id_is_safe_rejects_traversal_and_absolute() {
    // real UUID-style ids pass
    assert!(id_is_safe("550e8400-e29b-41d4-a716-446655440000"));
    assert!(id_is_safe("simple-id-123"));
    // path-escaping ids are rejected
    assert!(!id_is_safe("../../tmp/evil"));
    assert!(!id_is_safe("/tmp/evil"));
    assert!(!id_is_safe("foo/bar"));
    assert!(!id_is_safe("foo\\bar"));
    assert!(!id_is_safe(".."));
}

#[test]
fn strip_frontmatter_returns_body() {
    let content = "---\ntitle: \"X\"\nid: x\n---\n\nBody here.\n";
    assert_eq!(strip_frontmatter(content), "\nBody here.\n");
}

#[test]
fn strip_frontmatter_no_frontmatter() {
    let content = "Just text.";
    assert_eq!(strip_frontmatter(content), content);
}

#[test]
fn parse_heading() {
    let slug_map = StrMap::new();
    let snippets = parse_markdown_body("## My Heading\n\n", &slug_map);
    assert_eq!(snippets.len(), 1);
    match &snippets[0] {
        Snippet::Text(text) => assert_eq!(text, "## My Heading"),
        other => panic!("expected Text, got {other:?}"),
    }
}

#[test]
fn parse_paragraph() {
    let slug_map = StrMap::new();
    let snippets = parse_markdown_body("Hello world.\n\n", &slug_map);
    assert_eq!(snippets.len(), 1);
    match &snippets[0] {
        Snippet::Text(text) => assert_eq!(text, "Hello world."),
        other => panic!("expected Text, got {other:?}"),
    }
}

#[test]
fn parse_code_block_with_language() {
    let slug_map = StrMap::new();
    let input = "```python\nprint('hi')\n```\n\n";
    let snippets = parse_markdown_body(input, &slug_map);
    assert_eq!(snippets.len(), 1);
    match &snippets[0] {
        Snippet::Code { language, code } => {
            assert_eq!(language.as_deref(), Some("python"));
            assert_eq!(code, "print('hi')");
        }
        other => panic!("expected Code, got {other:?}"),
    }
}

#[test]
fn parse_code_block_no_language() {
    let slug_map = StrMap::new();
    let input = "```\nsome code\n```\n\n";
    let snippets = parse_markdown_body(input, &slug_map);
    assert_eq!(snippets.len(), 1);
    match &snippets[0] {
        Snippet::Code { language, code } => {
            assert!(language.is_none());
            assert_eq!(code, "some code");
        }
        other => panic!("expected Code, got {other:?}"),
    }
}

#[test]
fn parse_code_block_with_a_longer_fence() {
    let slug_map = StrMap::new();
    let input = "````python\ndoc = '''\n```\nnested\n```\n'''\n````\n\n";
    let snippets = parse_markdown_body(input, &slug_map);
    assert_eq!(snippets.len(), 1);
    match &snippets[0] {
        Snippet::Code { language, code } => {
            assert_eq!(language.as_deref(), Some("python"));
            assert_eq!(code, "doc = '''\n```\nnested\n```\n'''");
        }
        other => panic!("expected Code, got {other:?}"),
    }
}

#[test]
fn closing_fence_may_be_indented_by_up_to_three_spaces() {
    let slug_map = StrMap::new();
    let snippets = parse_markdown_body("```\ncode\n   ```\n\n", &slug_map);
    assert_eq!(snippets.len(), 1);
    assert!(matches!(&snippets[0], Snippet::Code { code, .. } if code == "code"));

    // four spaces is an indented code line, not a fence
    let snippets = parse_markdown_body("```\ncode\n    ```\n```\n\n", &slug_map);
    assert!(matches!(&snippets[0], Snippet::Code { code, .. } if code == "code\n    ```"));
}

#[test]
fn a_shorter_backtick_run_does_not_close_a_longer_fence() {
    assert!(!closes_fence("```", 4));
    assert!(closes_fence("````", 4));
    assert!(closes_fence("`````", 4));
    assert!(!closes_fence("``` text", 3));
}

#[test]
fn open_fence_rejects_a_backtick_in_the_info_string() {
    assert_eq!(open_fence("```python"), Some((3, "python".to_string())));
    assert_eq!(open_fence("````python"), Some((4, "python".to_string())));
    assert_eq!(open_fence("``"), None);
    assert_eq!(open_fence("```a`b"), None);
}

#[test]
fn diff_block_without_change_lines_stays_text() {
    let slug_map = StrMap::new();
    let input = "```diff pharo\njust a note\n```\n\nafter\n";
    let snippets = parse_markdown_body(input, &slug_map);
    assert_eq!(snippets.len(), 2);
    assert!(matches!(&snippets[0], Snippet::Code { .. }));
    assert!(matches!(&snippets[1], Snippet::Text(t) if t == "after"));
}

#[test]
fn consecutive_lines_become_one_text_snippet() {
    let slug_map = StrMap::new();
    let input = "para line one\npara line two\n\nsecond snippet\n";
    let snippets = parse_markdown_body(input, &slug_map);
    assert_eq!(snippets.len(), 2);
    assert!(matches!(&snippets[0], Snippet::Text(t) if t == "para line one\npara line two"));
    assert!(matches!(&snippets[1], Snippet::Text(t) if t == "second snippet"));
}

#[test]
fn consecutive_quote_lines_become_one_snippet() {
    let slug_map = StrMap::new();
    let input = "> first\n>\n> third\n\n";
    let snippets = parse_markdown_body(input, &slug_map);
    assert_eq!(snippets.len(), 1);
    assert!(matches!(&snippets[0], Snippet::Text(t) if t == "> first\n\nthird"));
}

#[test]
fn escaped_block_starts_come_back_as_prose() {
    let slug_map = StrMap::new();
    let input = "\\- not a list\n\n\\[[unknown: x]]\n\n\\```rust\n\n\\\\already\n";
    let snippets = parse_markdown_body(input, &slug_map);
    let texts: Vec<&str> = snippets
        .iter()
        .map(|s| match s {
            Snippet::Text(t) => t.as_str(),
            other => panic!("expected Text, got {other:?}"),
        })
        .collect();
    assert_eq!(
        texts,
        ["- not a list", "[[unknown: x]]", "```rust", "\\already"]
    );
}

#[test]
fn a_link_line_inside_a_paragraph_stays_paragraph_text() {
    let slug_map = StrMap::new();
    let snippets = parse_markdown_body("intro\n[click](https://example.com)\n", &slug_map);
    assert_eq!(snippets.len(), 1);
    assert!(
        matches!(&snippets[0], Snippet::Text(t) if t == "intro\n[click](https://example.com)")
    );
}

#[test]
fn parse_list() {
    let slug_map = StrMap::new();
    let input = "- first\n- second\n- third\n\n";
    let snippets = parse_markdown_body(input, &slug_map);
    assert_eq!(snippets.len(), 1);
    match &snippets[0] {
        Snippet::List(items) => {
            assert_eq!(items, &["first", "second", "third"]);
        }
        other => panic!("expected List, got {other:?}"),
    }
}

#[test]
fn parse_list_continuation() {
    let slug_map = StrMap::new();
    let input = "- first\n  continued\n- second\n\n";
    let snippets = parse_markdown_body(input, &slug_map);
    assert_eq!(snippets.len(), 1);
    match &snippets[0] {
        Snippet::List(items) => {
            assert_eq!(items[0], "first\ncontinued");
            assert_eq!(items[1], "second");
        }
        other => panic!("expected List, got {other:?}"),
    }
}

#[test]
fn parse_blockquote() {
    let slug_map = StrMap::new();
    let input = "> quoted text\n\n";
    let snippets = parse_markdown_body(input, &slug_map);
    assert_eq!(snippets.len(), 1);
    match &snippets[0] {
        Snippet::Text(text) => assert_eq!(text, "> quoted text"),
        other => panic!("expected Text, got {other:?}"),
    }
}

#[test]
fn parse_standalone_link() {
    let slug_map = StrMap::new();
    let input = "[Click here](https://example.com)\n\n";
    let snippets = parse_markdown_body(input, &slug_map);
    assert_eq!(snippets.len(), 1);
    match &snippets[0] {
        Snippet::Link { text, url } => {
            assert_eq!(text, "Click here");
            assert_eq!(url, "https://example.com");
        }
        other => panic!("expected Link, got {other:?}"),
    }
}

#[test]
fn parse_link_rewrites_slug() {
    let mut slug_map = StrMap::new();
    slug_map.insert("other-page.md".to_string(), "uuid-123".to_string());

    let input = "[Other Page](other-page.md)\n\n";
    let snippets = parse_markdown_body(input, &slug_map);
    assert_eq!(snippets.len(), 1);
    match &snippets[0] {
        Snippet::Link { text, url } => {
            assert_eq!(text, "Other Page");
            assert_eq!(url, "page:uuid-123");
        }
        other => panic!("expected Link, got {other:?}"),
    }
}

#[test]
fn parse_inline_link_rewriting() {
    let mut slug_map = StrMap::new();
    slug_map.insert("target.md".to_string(), "uuid-456".to_string());

    let input = "see [link](target.md) here\n\n";
    let snippets = parse_markdown_body(input, &slug_map);
    assert_eq!(snippets.len(), 1);
    match &snippets[0] {
        Snippet::Text(text) => {
            assert_eq!(text, "see [link](page:uuid-456) here");
        }
        other => panic!("expected Text, got {other:?}"),
    }
}

#[test]
fn parse_inline_link_external_unchanged() {
    let slug_map = StrMap::new();
    let input = "see [docs](https://example.com) here\n\n";
    let snippets = parse_markdown_body(input, &slug_map);
    assert_eq!(snippets.len(), 1);
    match &snippets[0] {
        Snippet::Text(text) => {
            assert_eq!(text, "see [docs](https://example.com) here");
        }
        other => panic!("expected Text, got {other:?}"),
    }
}

#[test]
fn parse_rewrite_block() {
    let slug_map = StrMap::new();
    let input = "```diff pharo\n# scope: MyClass\n# method_pattern: true\n-oldMethod\n+newMethod\n```\n\n";
    let snippets = parse_markdown_body(input, &slug_map);
    assert_eq!(snippets.len(), 1);
    match &snippets[0] {
        Snippet::Rewrite {
            language,
            search,
            replace,
            scope,
            is_method_pattern,
        } => {
            assert_eq!(language.as_deref(), Some("pharo"));
            assert_eq!(search, "oldMethod");
            assert_eq!(replace, "newMethod");
            assert_eq!(scope.as_deref(), Some("MyClass"));
            assert_eq!(*is_method_pattern, Some(true));
        }
        other => panic!("expected Rewrite, got {other:?}"),
    }
}

#[test]
fn build_page_json_basic() {
    let fm = Frontmatter {
        title: "Test".to_string(),
        id: "abc-123".to_string(),
        tags: vec!["rust".to_string()],
        updated_at: Some("2024-01-01T00:00:00+00:00".to_string()),
    };
    let snippets = vec![
        Snippet::Text("Hello".to_string()),
        Snippet::Code {
            language: Some("python".to_string()),
            code: "print(1)".to_string(),
        },
    ];
    let json = to_value(&build_page_json(&fm, &snippets));

    assert_eq!(json["uid"]["uuid"], "abc-123");
    assert_eq!(json["pageType"]["title"], "Test");
    assert_eq!(json["tags"], value(r#"["rust"]"#));
    assert_eq!(
        json["editTime"]["time"]["dateAndTimeString"],
        "2024-01-01T00:00:00+00:00"
    );

    let items = json["children"]["items"].as_array().unwrap();
    assert_eq!(items.len(), 2);
    assert_eq!(items[0]["__type"], "textSnippet");
    assert_eq!(items[0]["string"], "Hello");
    assert_eq!(items[1]["__type"], "pythonSnippet");
    assert_eq!(items[1]["code"], "print(1)");
}

#[test]
fn build_page_json_updated_at_parse() {
    let valid = Frontmatter {
        title: "Valid".to_string(),
        id: "valid-1".to_string(),
        tags: Vec::new(),
        updated_at: Some("2024-01-01T00:00:00+00:00".to_string()),
    };
    let json = to_value(&build_page_json(&valid, &vec![]));
    assert_eq!(
        json["editTime"]["time"]["dateAndTimeString"],
        "2024-01-01T00:00:00+00:00"
    );

    let invalid = Frontmatter {
        title: "Invalid".to_string(),
        id: "invalid-1".to_string(),
        tags: Vec::new(),
        updated_at: Some("not-a-date".to_string()),
    };
    let json = to_value(&build_page_json(&invalid, &vec![]));
    assert!(json.get("editTime").is_none());
}

#[test]
fn build_page_json_empty_content() {
    let fm = Frontmatter {
        title: "Empty".to_string(),
        id: "empty-1".to_string(),
        tags: Vec::new(),
        updated_at: None,
    };
    let json = to_value(&build_page_json(&fm, &vec![]));
    let items = json["children"]["items"].as_array().unwrap();
    assert_eq!(items.len(), 1);
    assert_eq!(items[0]["__type"], "textSnippet");
    assert_eq!(items[0]["string"], "");
}

#[test]
fn build_page_json_list() {
    let fm = Frontmatter {
        title: "List".to_string(),
        id: "list-1".to_string(),
        tags: Vec::new(),
        updated_at: None,
    };
    let snippets = vec![Snippet::List(vec![
        "item one".to_string(),
        "item two".to_string(),
    ])];
    let json = to_value(&build_page_json(&fm, &snippets));
    let items = json["children"]["items"].as_array().unwrap();
    assert_eq!(items[0]["__type"], "listSnippet");
    let children = items[0]["children"]["items"].as_array().unwrap();
    assert_eq!(children.len(), 2);
    assert_eq!(children[0]["string"], "item one");
}

#[test]
fn build_page_json_link() {
    let fm = Frontmatter {
        title: "Links".to_string(),
        id: "link-1".to_string(),
        tags: Vec::new(),
        updated_at: None,
    };
    let snippets = vec![Snippet::Link {
        text: "example".to_string(),
        url: "https://example.com".to_string(),
    }];
    let json = to_value(&build_page_json(&fm, &snippets));
    let items = json["children"]["items"].as_array().unwrap();
    assert_eq!(items[0]["__type"], "linkSnippet");
    assert_eq!(items[0]["url"], "https://example.com");
    assert_eq!(items[0]["string"], "example");
}

#[test]
fn build_page_json_rewrite() {
    let fm = Frontmatter {
        title: "Rewrite".to_string(),
        id: "rw-1".to_string(),
        tags: Vec::new(),
        updated_at: None,
    };
    let snippets = vec![Snippet::Rewrite {
        language: Some("pharo".to_string()),
        search: "old".to_string(),
        replace: "new".to_string(),
        scope: Some("MyClass".to_string()),
        is_method_pattern: Some(true),
    }];
    let json = to_value(&build_page_json(&fm, &snippets));
    let items = json["children"]["items"].as_array().unwrap();
    assert_eq!(items[0]["__type"], "pharoRewrite");
    assert_eq!(items[0]["search"], "old");
    assert_eq!(items[0]["replace"], "new");
    assert_eq!(items[0]["scope"], "MyClass");
    assert_eq!(items[0]["isMethodPattern"], true);
}

#[test]
fn snippet_type_mapping() {
    assert_eq!(snippet_type_for_language("python"), "pythonSnippet");
    assert_eq!(snippet_type_for_language("pharo"), "pharoSnippet");
    assert_eq!(snippet_type_for_language("javascript"), "javascriptSnippet");
    assert_eq!(snippet_type_for_language("json"), "jsonSnippet");
    assert_eq!(snippet_type_for_language("yaml"), "yamlSnippet");
    assert_eq!(
        snippet_type_for_language("shellcommand"),
        "shellCommandSnippet"
    );
    // regression: this arm was missing and degraded the snippet to text.
    assert_eq!(
        snippet_type_for_language("robocodermetamodel"),
        "robocoderMetamodelSnippet"
    );
    // elementSnippet round-trips through the `element` fence.
    assert_eq!(snippet_type_for_language("element"), "elementSnippet");
    assert_eq!(snippet_type_for_language("unknown"), "textSnippet");
}

#[test]
fn shell_fences_map_to_text_snippet() {
    assert_eq!(snippet_type_for_language("bash"), "textSnippet");
    assert_eq!(snippet_type_for_language("sh"), "textSnippet");
    assert_eq!(snippet_type_for_language("shell"), "textSnippet");
}

#[test]
fn parse_unknown_marker() {
    let slug_map = StrMap::new();
    let input = "[[unknown: wardleyMap]]\n\n";
    let snippets = parse_markdown_body(input, &slug_map);
    assert_eq!(snippets.len(), 1);
    match &snippets[0] {
        Snippet::Unknown { typ } => assert_eq!(typ, "wardleyMap"),
        other => panic!("expected Unknown, got {other:?}"),
    }
}

#[test]
fn build_page_json_unknown() {
    let fm = Frontmatter {
        title: "Unknown".to_string(),
        id: "unk-1".to_string(),
        tags: Vec::new(),
        updated_at: None,
    };
    let snippets = vec![Snippet::Unknown {
        typ: "wardleyMap".to_string(),
    }];
    let json = to_value(&build_page_json(&fm, &snippets));
    let items = json["children"]["items"].as_array().unwrap();
    assert_eq!(items.len(), 1);
    assert_eq!(items[0]["__type"], "wardleyMap");
}

#[test]
fn bash_fence_roundtrips_as_text_snippet() {
    let slug_map = StrMap::new();
    let input = "```bash\necho hello\n```\n\n";
    let snippets = parse_markdown_body(input, &slug_map);
    assert_eq!(snippets.len(), 1);
    let fm = Frontmatter {
        title: "Shell".to_string(),
        id: "sh-1".to_string(),
        tags: Vec::new(),
        updated_at: None,
    };
    let json = to_value(&build_page_json(&fm, &snippets));
    let items = json["children"]["items"].as_array().unwrap();
    assert_eq!(items[0]["__type"], "textSnippet");
    assert_eq!(items[0]["string"], "```bash\necho hello\n```");
}

#[test]
fn robocoder_metamodel_fence_roundtrips_to_its_snippet_type() {
    // regression: a `robocoderMetamodelSnippet` exports as a
    // `robocodermetamodel` fence and used to re-import as a plain
    // textSnippet, silently losing its type.
    let slug_map = StrMap::new();
    let input = "```robocodermetamodel\nMetamodel new\n```\n\n";
    let snippets = parse_markdown_body(input, &slug_map);
    assert_eq!(snippets.len(), 1);
    let fm = Frontmatter {
        title: "Robocoder".to_string(),
        id: "robo-1".to_string(),
        tags: Vec::new(),
        updated_at: None,
    };
    let json = to_value(&build_page_json(&fm, &snippets));
    let items = json["children"]["items"].as_array().unwrap();
    assert_eq!(items[0]["__type"], "robocoderMetamodelSnippet");
    assert_eq!(items[0]["code"], "Metamodel new");
}

#[test]
fn is_standalone_link_detection() {
    assert!(is_standalone_link("[text](url)"));
    assert!(is_standalone_link("[text](https://example.com)"));
    assert!(!is_standalone_link("text [link](url) more"));
    assert!(!is_standalone_link("no link here"));
    assert!(!is_standalone_link("[unclosed]("));
}

#[test]
fn roundtrip_frontmatter() {
    // build frontmatter the same way export does, then parse it back
    let original_title = "Page with \"quotes\" and \\backslashes\\";
    let escaped_title = original_title.replace('\\', "\\\\").replace('"', "\\\"");
    let fm_str = format!(
        "---\ntitle: \"{escaped_title}\"\nid: test-id\ntags: [\"a\", \"b\"]\nupdated_at: 2024-06-01T12:00:00+00:00\n---\n\nbody"
    );
    let fm = parse_frontmatter(&fm_str).unwrap();
    assert_eq!(fm.title, original_title);
    assert_eq!(fm.id, "test-id");
    assert_eq!(fm.tags, vec!["a", "b"]);
}

fn markdown_file(name: &str, content: &str) -> MarkdownFile {
    MarkdownFile { name: name.to_string(), linkable: true, content: content.to_string() }
}

#[test]
fn import_skips_traversal_id_without_writing_outside_kb() {
    let plan = plan_import(&vec![
        markdown_file("evil.md", "---\ntitle: \"Evil\"\nid: ../escaped\n---\n\nbody\n"),
        // a well-formed sibling confirms the run continues after skipping
        markdown_file("good.md", "---\ntitle: \"Good\"\nid: good-id\n---\n\nbody\n"),
    ]);
    assert_eq!(plan.pages.len(), 1);
    assert_eq!(plan.pages[0].id, "good-id");
    assert_eq!(plan.skipped.len(), 1);
    assert_eq!(plan.skipped[0].name, "evil.md");
    assert_eq!(plan.skipped[0].reason, SkipReason::UnsafeId("../escaped".to_string()));
}

#[test]
fn import_skips_duplicate_id_keeping_first_file() {
    let plan = plan_import(&vec![
        // two files share `id: shared`; the alphabetically-first filename wins
        markdown_file("a-first.md", "---\ntitle: \"First\"\nid: shared\n---\n\nfirst body\n"),
        markdown_file("b-second.md", "---\ntitle: \"Second\"\nid: shared\n---\n\nsecond body\n"),
        // a sibling with a distinct id must still import
        markdown_file("c-sibling.md", "---\ntitle: \"Sibling\"\nid: sibling\n---\n\nsibling body\n"),
    ]);
    assert_eq!(plan.pages.len(), 2);
    assert_eq!(plan.pages[0].id, "shared");
    assert_eq!(to_value(&plan.pages[0].page)["pageType"]["title"], "First");
    assert_eq!(plan.pages[1].id, "sibling");
    assert_eq!(plan.skipped.len(), 1);
    assert_eq!(plan.skipped[0].reason, SkipReason::DuplicateId("shared".to_string()));
}

#[test]
fn end_to_end_import() {
    let plan = plan_import(&vec![
        markdown_file(
            "alpha.md",
            "---\ntitle: \"Alpha\"\nid: id-alpha\n---\n\n## heading\n\nsome text\n\n[Beta](beta.md)\n",
        ),
        markdown_file(
            "beta.md",
            "---\ntitle: \"Beta\"\nid: id-beta\n---\n\nsee [link](alpha.md) here\n",
        ),
    ]);
    assert_eq!(plan.pages.len(), 2);
    assert_eq!(plan.pages[0].id, "id-alpha");
    let alpha = to_value(&plan.pages[0].page);
    assert_eq!(alpha["uid"]["uuid"], "id-alpha");
    assert_eq!(alpha["pageType"]["title"], "Alpha");
    let items = alpha["children"]["items"].as_array().unwrap();
    assert_eq!(items[0]["string"], "## heading");

    // check link was rewritten
    let link_item = items.iter().find(|i| i["__type"] == "linkSnippet").unwrap();
    assert_eq!(link_item["url"], "page:id-beta");

    assert_eq!(plan.pages[1].id, "id-beta");
    let beta = to_value(&plan.pages[1].page);
    let beta_items = beta["children"]["items"].as_array().unwrap();
    let text_item = &beta_items[0];
    assert_eq!(text_item["string"], "see [link](page:id-alpha) here");
}

#[test]
fn files_without_frontmatter_or_id_are_skipped() {
    let plan = plan_import(&vec![
        markdown_file("bare.md", "no frontmatter here"),
        markdown_file("anonymous.md", "---\ntitle: \"X\"\n---\n\nbody\n"),
    ]);
    assert!(plan.pages.is_empty());
    assert_eq!(plan.skipped[0].reason, SkipReason::NoFrontmatter);
    assert_eq!(plan.skipped[1].reason, SkipReason::NoId);
}

#[test]
fn no_link_names_a_file_whose_name_is_not_text() {
    let mut files = vec![
        markdown_file("a.md", "---\ntitle: \"A\"\nid: p1\n---\n\nsee [b](b.md)\n"),
        markdown_file("b.md", "---\ntitle: \"B\"\nid: p2\n---\n\nb\n"),
    ];
    let text = |files: &Vec<MarkdownFile>| format!("{:?}", plan_import(files).pages[0].page);
    assert!(text(&files).contains("[b](page:p2)"));
    files[1].linkable = false;
    assert_eq!(plan_import(&files).pages.len(), 2);
    assert!(text(&files).contains("[b](b.md)"));
}
