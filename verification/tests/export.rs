use lepiter::export::{
    build_frontmatter, build_slug_map, build_slug_table, escape_yaml, export_all,
    export_link_rewriter, render_page_to_markdown, resolve_inline_links, slug_from_title, slugify,
};
use lepiter::index::{KnowledgeBase, KnowledgeBaseIndex, PageSource, ScannedFile};
use lepiter::inline_link::rewrite_inline_links;
use lepiter::json::{Json, Member};
use lepiter::model::{Node, Page};
use lepiter::parse::RawMeta;
use lepiter::strmap::StrMap;

fn from_value(value: &serde_json::Value) -> Json {
    match value {
        serde_json::Value::Null => Json::Null,
        serde_json::Value::Bool(b) => Json::Bool(*b),
        serde_json::Value::Number(n) => Json::Number(n.to_string()),
        serde_json::Value::String(s) => Json::Str(s.clone()),
        serde_json::Value::Array(items) => Json::Array(items.iter().map(from_value).collect()),
        serde_json::Value::Object(members) => Json::Object(
            members
                .iter()
                .map(|(name, value)| Member { name: name.clone(), value: from_value(value) })
                .collect(),
        ),
    }
}

fn text_at(json: &Json, path: &[&str]) -> Option<String> {
    let mut at = json;
    for name in path {
        at = at.get(name)?;
    }
    at.as_str().map(str::to_string)
}

fn raw_meta(json: &Json) -> RawMeta {
    RawMeta {
        uuid: text_at(json, &["uid", "uuid"]),
        uid_string: text_at(json, &["uid", "uidString"]),
        page_title: text_at(json, &["pageType", "title"]),
        title: text_at(json, &["title"]),
        edited: text_at(json, &["editTime", "time", "dateAndTimeString"]),
        tags: json.get("tags").cloned(),
    }
}

/// A knowledge base of some files, each with its name and text, and what reading
/// each page comes to.
fn open_kb(files: &[(String, String)]) -> (KnowledgeBaseIndex, StrMap<PageSource>) {
    let mut scanned = Vec::new();
    let mut contents = Vec::new();
    for (name, text) in files {
        let path = format!("/kb/{name}");
        match serde_json::from_str::<serde_json::Value>(text) {
            Ok(value) if value.is_object() => {
                let json = from_value(&value);
                scanned.push(ScannedFile { path: path.clone(), meta: Ok(raw_meta(&json)) });
                contents.push((path, json));
            }
            _ => scanned.push(ScannedFile { meta: Err(format!("failed to decode {path}")), path }),
        }
    }
    let index = KnowledgeBase::open("/kb", &scanned);
    let mut sources = StrMap::new();
    for id in index.ordered_ids() {
        let path = index.page_meta(&id).unwrap().path.clone();
        for (at, json) in &contents {
            if *at == path {
                sources.insert(id.clone(), PageSource::Raw(json.clone()));
            }
        }
    }
    (index, sources)
}

#[test]
fn slug_from_title_basic() {
    assert_eq!(slug_from_title("Hello World"), "hello-world");
}

#[test]
fn slug_from_title_special_chars() {
    assert_eq!(slug_from_title("Foo: Bar & Baz!"), "foo-bar-baz");
}

#[test]
fn slug_from_title_leading_trailing() {
    assert_eq!(slug_from_title("  --hello-- "), "hello");
}

#[test]
fn slug_from_title_collapses_hyphens() {
    assert_eq!(slug_from_title("a   b---c"), "a-b-c");
}

#[test]
fn slug_from_title_empty() {
    assert_eq!(slug_from_title(""), "");
}

#[test]
fn escape_yaml_quotes_and_backslash() {
    assert_eq!(escape_yaml(r#"say "hi" \ done"#), r#"say \"hi\" \\ done"#);
}

#[test]
fn render_frontmatter_includes_title_and_id() {
    let page = Page {
        id: "test-id".to_string(),
        title: "Test Page".to_string(),
        updated_at: None,
        tags: vec!["alpha".to_string(), "beta".to_string()],
        content: vec![],
    };
    let index = make_empty_index();
    let slug_table = StrMap::new();
    let title_table = StrMap::new();
    let md = render_page_to_markdown(&page, &index, &slug_table, &title_table);
    assert!(md.starts_with("---\n"));
    assert!(md.contains("title: \"Test Page\""));
    assert!(md.contains("id: \"test-id\""));
    assert!(md.contains("  - \"alpha\""));
    assert!(md.contains("  - \"beta\""));
    assert!(md.contains("---\n\n"));
}

#[test]
fn render_heading_and_paragraph() {
    let page = Page {
        id: "p1".to_string(),
        title: "T".to_string(),
        updated_at: None,
        tags: vec![],
        content: vec![
            Node::Heading {
                level: 2,
                text: "Hello".to_string(),
            },
            Node::Paragraph {
                text: "World".to_string(),
            },
        ],
    };
    let index = make_empty_index();
    let slug_table = StrMap::new();
    let title_table = StrMap::new();
    let md = render_page_to_markdown(&page, &index, &slug_table, &title_table);
    assert!(md.contains("## Hello\n\n"));
    assert!(md.contains("World\n\n"));
}

#[test]
fn render_code_block() {
    let page = Page {
        id: "p1".to_string(),
        title: "T".to_string(),
        updated_at: None,
        tags: vec![],
        content: vec![Node::Code {
            language: Some("python".to_string()),
            code: "print(1)".to_string(),
        }],
    };
    let index = make_empty_index();
    let slug_table = StrMap::new();
    let title_table = StrMap::new();
    let md = render_page_to_markdown(&page, &index, &slug_table, &title_table);
    assert!(md.contains("```python\nprint(1)\n```\n\n"));
}

#[test]
fn render_unknown_as_comment() {
    let page = Page {
        id: "p1".to_string(),
        title: "T".to_string(),
        updated_at: None,
        tags: vec![],
        content: vec![Node::Unknown {
            typ: "wardleyMap".to_string(),
            raw: Json::Null,
        }],
    };
    let index = make_empty_index();
    let slug_table = StrMap::new();
    let title_table = StrMap::new();
    let md = render_page_to_markdown(&page, &index, &slug_table, &title_table);
    assert!(md.contains("<!-- unknown snippet type: wardleyMap -->"));
}

#[test]
fn wikilink_resolved_to_relative_path() {
    let mut slug_table = StrMap::new();
    slug_table.insert("page-1".to_string(), "target-page".to_string());
    let mut title_table = StrMap::new();
    title_table.insert("target page".to_string(), "page-1".to_string());

    let index = make_empty_index();
    let result = resolve_inline_links(
        "see [[Target Page]] for details",
        &index,
        &slug_table,
        &title_table,
    );
    assert_eq!(result, "see [Target Page](target-page.md) for details");
}

#[test]
fn wikilink_unresolved_preserved() {
    let index = make_empty_index();
    let slug_table = StrMap::new();
    let title_table = StrMap::new();
    let result = resolve_inline_links(
        "see [[Missing Page]] here",
        &index,
        &slug_table,
        &title_table,
    );
    assert_eq!(result, "see [[Missing Page]] here");
}

#[test]
fn inline_link_external_preserved() {
    let index = make_empty_index();
    let slug_table = StrMap::new();
    let title_table = StrMap::new();
    let result = resolve_inline_links(
        "click [here](https://example.com) now",
        &index,
        &slug_table,
        &title_table,
    );
    assert_eq!(result, "click [here](https://example.com) now");
}

#[test]
fn build_slug_table_deduplicates() {
    let index = make_index_with_pages(&[("id-1", "Same Title"), ("id-2", "Same Title")]);
    let table = build_slug_table(&index);
    let slug1 = table.get("id-1").unwrap();
    let slug2 = table.get("id-2").unwrap();
    assert_ne!(slug1, slug2);
    let mut slugs = vec![slug1.as_str(), slug2.as_str()];
    slugs.sort();
    assert_eq!(slugs, vec!["same-title", "same-title-1"]);
}

fn make_empty_index() -> KnowledgeBaseIndex {
    KnowledgeBase::open("/tmp/empty-kb", &vec![])
}

fn page_file(id: &str, title: &str, text: &str) -> (String, String) {
    (
        format!("{id}.lepiter"),
        format!(
            r#"{{
                "uid": {{ "uuid": "{id}" }},
                "pageType": {{ "title": "{title}" }},
                "children": {{ "items": [ {{ "__type": "textSnippet", "string": "{text}" }} ] }}
            }}"#
        ),
    )
}

fn make_index_with_pages(pages: &[(&str, &str)]) -> KnowledgeBaseIndex {
    let files: Vec<_> = pages.iter().map(|(id, title)| page_file(id, title, "")).collect();
    open_kb(&files).0
}

#[test]
fn export_all_creates_files() {
    let (index, sources) = open_kb(&[page_file("page-abc", "My Page", "hello")]);
    let files = export_all(&index, &sources).unwrap();
    assert_eq!(files.len(), 1);
    assert_eq!(files[0].name, "my-page.md");
    let content = &files[0].content;
    assert!(content.starts_with("---\n"));
    assert!(content.contains("title: \"My Page\""));
    assert!(content.contains("hello"));
}

#[test]
fn export_all_resolves_cross_page_wikilinks() {
    let (index, sources) = open_kb(&[
        page_file("page-a", "Alpha", "see [[Beta]] for more"),
        page_file("page-b", "Beta", "back to [[Alpha]]"),
    ]);
    let files = export_all(&index, &sources).unwrap();
    assert_eq!(files.len(), 2);

    let named = |name: &str| files.iter().find(|f| f.name == name).unwrap();
    let alpha_content = &named("alpha.md").content;
    assert!(
        alpha_content.contains("[Beta](beta.md)"),
        "alpha should link to beta.md, got: {alpha_content}"
    );

    let beta_content = &named("beta.md").content;
    assert!(
        beta_content.contains("[Alpha](alpha.md)"),
        "beta should link to alpha.md, got: {beta_content}"
    );
}

#[test]
fn a_page_that_cannot_be_read_stops_the_export() {
    let (index, _) = open_kb(&[page_file("page-abc", "My Page", "hello")]);
    let mut sources = StrMap::new();
    sources.insert("page-abc".to_string(), PageSource::Failed("gone".to_string()));
    assert_eq!(
        export_all(&index, &sources).unwrap_err(),
        "failed to load page page-abc: gone"
    );
}

#[test]
fn slugify_basic_title() {
    assert_eq!(slugify("My Cool Page"), "my-cool-page");
}

#[test]
fn slugify_collapses_special_chars() {
    assert_eq!(slugify("Hello, World!"), "hello-world");
    assert_eq!(slugify("foo---bar"), "foo-bar");
}

#[test]
fn slugify_trims_hyphens() {
    assert_eq!(slugify("--hello--"), "hello");
    assert_eq!(slugify("  spaces  "), "spaces");
}

#[test]
fn slugify_empty_falls_back() {
    assert_eq!(slugify(""), "untitled");
    assert_eq!(slugify("---"), "untitled");
    assert_eq!(slugify("!@#"), "untitled");
}

#[test]
fn slugify_preserves_numbers() {
    assert_eq!(slugify("Page 42"), "page-42");
}

#[test]
fn rewrite_wikilinks() {
    let resolve = |target: &str| -> Option<String> {
        if target == "Other Page" {
            Some("other-page.md".to_string())
        } else {
            None
        }
    };
    assert_eq!(
        rewrite_inline_links("see [[Other Page]] here", export_link_rewriter(resolve)),
        "see [Other Page](other-page.md) here"
    );
}

#[test]
fn rewrite_wikilinks_unresolved() {
    let resolve = |_: &str| -> Option<String> { None };
    assert_eq!(
        rewrite_inline_links("see [[Unknown]] here", export_link_rewriter(resolve)),
        "see [[Unknown]] here"
    );
}

#[test]
fn rewrite_markdown_links() {
    let resolve = |target: &str| -> Option<String> {
        if target == "page:abc" {
            Some("alpha.md".to_string())
        } else {
            None
        }
    };
    assert_eq!(
        rewrite_inline_links("see [link](page:abc) done", export_link_rewriter(resolve)),
        "see [link](alpha.md) done"
    );
}

#[test]
fn rewrite_preserves_external_links() {
    let resolve = |_: &str| -> Option<String> { None };
    assert_eq!(
        rewrite_inline_links("[docs](https://example.com)", export_link_rewriter(resolve)),
        "[docs](https://example.com)"
    );
}

#[test]
fn rewrite_mixed_links() {
    let resolve = |target: &str| -> Option<String> {
        match target {
            "Other" => Some("other.md".to_string()),
            "page:p1" => Some("alpha.md".to_string()),
            _ => None,
        }
    };
    assert_eq!(
        rewrite_inline_links(
            "see [[Other]] and [link](page:p1) and [[Missing]]",
            export_link_rewriter(resolve)
        ),
        "see [Other](other.md) and [link](alpha.md) and [[Missing]]"
    );
}

#[test]
fn rewrite_unicode_text() {
    let resolve = |_: &str| -> Option<String> { None };
    assert_eq!(
        rewrite_inline_links("日本語テキスト [[リンク]]", export_link_rewriter(resolve)),
        "日本語テキスト [[リンク]]"
    );
}

#[test]
fn build_frontmatter_basic() {
    let page = Page {
        id: "abc-123".to_string(),
        title: "Test Page".to_string(),
        updated_at: None,
        tags: vec!["rust".to_string(), "cli".to_string()],
        content: Vec::new(),
    };
    let fm = build_frontmatter(&page);
    assert!(fm.starts_with("---\n"));
    assert!(fm.ends_with("---\n\n"));
    assert!(fm.contains("title: \"Test Page\""));
    assert!(fm.contains("id: abc-123"));
    assert!(fm.contains("tags: [\"rust\", \"cli\"]"));
}

#[test]
fn build_frontmatter_escapes_quotes() {
    let page = Page {
        id: "p1".to_string(),
        title: "Page with \"quotes\"".to_string(),
        updated_at: None,
        tags: Vec::new(),
        content: Vec::new(),
    };
    let fm = build_frontmatter(&page);
    assert!(fm.contains("title: \"Page with \\\"quotes\\\"\""));
}

#[test]
fn build_frontmatter_omits_empty_tags() {
    let page = Page {
        id: "p1".to_string(),
        title: "No Tags".to_string(),
        updated_at: None,
        tags: Vec::new(),
        content: Vec::new(),
    };
    let fm = build_frontmatter(&page);
    assert!(!fm.contains("tags:"));
}

#[test]
fn build_slug_map_handles_duplicates() {
    let index = make_index_with_pages(&[("p1", "Alpha"), ("p2", "Alpha"), ("p3", "Beta")]);
    let slugs = build_slug_map(&index);

    let mut values: Vec<&str> =
        (0..slugs.len()).map(|i| slugs.value_at(i).as_str()).collect();
    values.sort();
    assert_eq!(values, vec!["alpha", "alpha-2", "beta"]);
}

#[test]
fn build_slug_map_cross_slug_collision() {
    let index = make_index_with_pages(&[("p1", "Alpha"), ("p2", "Alpha"), ("p3", "Alpha-2")]);
    let slugs = build_slug_map(&index);

    let mut values: Vec<&str> =
        (0..slugs.len()).map(|i| slugs.value_at(i).as_str()).collect();
    values.sort();
    // all three must get distinct slugs — no silent overwrites
    assert_eq!(values.len(), 3);
    assert!(
        values[0] != values[1] && values[1] != values[2],
        "duplicate slug in {:?}",
        values
    );
    assert!(values.contains(&"alpha"));
    assert!(values.contains(&"alpha-2"));
    // "Alpha-2" base collides with the suffix-assigned "alpha-2", so it
    // gets bumped to "alpha-2-2"
    assert!(values.contains(&"alpha-2-2"));
}
