use lepiter::json::Json;
use lepiter::model::Node;
use lepiter::util::{
    extract_attachment_relative, extract_inline_link_targets, extract_link_targets,
    is_external_target,
};

#[test]
fn extract_link_targets_finds_link_nodes() {
    let nodes = vec![
        Node::Link {
            text: "page".into(),
            url: "page:abc".into(),
        },
        Node::Paragraph {
            text: "plain text".into(),
        },
    ];
    assert_eq!(extract_link_targets(&nodes), vec!["page:abc"]);
}

#[test]
fn extract_link_targets_finds_inline_markdown_links() {
    let nodes = vec![Node::Paragraph {
        text: "see [docs](https://docs.rs) and [api](page:xyz)".into(),
    }];
    let targets = extract_link_targets(&nodes);
    assert_eq!(targets, vec!["https://docs.rs", "page:xyz"]);
}

#[test]
fn extract_link_targets_finds_wiki_links() {
    let nodes = vec![Node::Text {
        text: "see also [[My Page]] and [[Other]]".into(),
    }];
    let targets = extract_link_targets(&nodes);
    assert_eq!(targets, vec!["My Page", "Other"]);
}

#[test]
fn extract_link_targets_handles_headings_and_quotes() {
    let nodes = vec![
        Node::Heading {
            level: 2,
            text: "about [[Topic]]".into(),
        },
        Node::Quote {
            text: "see [ref](page:ref-id)".into(),
        },
    ];
    let targets = extract_link_targets(&nodes);
    assert_eq!(targets, vec!["Topic", "page:ref-id"]);
}

#[test]
fn extract_link_targets_recurses_into_lists() {
    let nodes = vec![Node::List {
        items: vec![vec![Node::Paragraph {
            text: "item with [[link]]".into(),
        }]],
    }];
    let targets = extract_link_targets(&nodes);
    assert_eq!(targets, vec!["link"]);
}

#[test]
fn extract_link_targets_ignores_code_and_unknown() {
    let nodes = vec![
        Node::Code {
            language: None,
            code: "[not](a-link)".into(),
        },
        Node::Unknown {
            typ: "x".into(),
            raw: Json::Object(vec![]),
        },
    ];
    assert!(extract_link_targets(&nodes).is_empty());
}

#[test]
fn extract_attachment_relative_covers_all_branches() {
    // Direct "attachments/" prefix
    assert_eq!(
        extract_attachment_relative("attachments/image.png").as_deref(),
        Some("attachments/image.png")
    );
    // Path containing "/attachments/"
    assert_eq!(
        extract_attachment_relative("abc/attachments/image.png").as_deref(),
        Some("attachments/image.png")
    );
    // Bare "attachments/" found mid-string (no leading slash)
    assert_eq!(
        extract_attachment_relative("data_attachments/image.png").as_deref(),
        Some("attachments/image.png")
    );
    // No attachment path at all
    assert_eq!(extract_attachment_relative("image.png").as_deref(), None);
    assert_eq!(extract_attachment_relative("").as_deref(), None);
}

#[test]
fn extract_attachment_relative_nested_paths() {
    // Deeply nested path before attachments/
    assert_eq!(
        extract_attachment_relative("a/b/c/attachments/deep.png").as_deref(),
        Some("attachments/deep.png")
    );
    // Multiple attachments/ segments — should match first /attachments/
    assert_eq!(
        extract_attachment_relative("x/attachments/attachments/file.txt").as_deref(),
        Some("attachments/attachments/file.txt")
    );
}

#[test]
fn extract_attachment_relative_no_filename() {
    // Trailing slash, no filename
    assert_eq!(
        extract_attachment_relative("attachments/").as_deref(),
        Some("attachments/")
    );
    assert_eq!(
        extract_attachment_relative("foo/attachments/").as_deref(),
        Some("attachments/")
    );
}

#[test]
fn extract_attachment_relative_only_keyword() {
    // "attachments" without trailing slash
    assert_eq!(extract_attachment_relative("attachments").as_deref(), None);
}

#[test]
fn is_external_target_common_schemes() {
    assert!(is_external_target("http://example.com"));
    assert!(is_external_target("https://example.com"));
    assert!(is_external_target("mailto:user@example.com"));
    assert!(is_external_target("file:///home/user/doc.txt"));
    assert!(is_external_target("ftp://files.example.com"));
    assert!(is_external_target("ssh://host.example.com"));
}

#[test]
fn is_external_target_mixed_case() {
    assert!(is_external_target("HTTP://EXAMPLE.COM"));
    assert!(is_external_target("Https://Example.Com"));
    assert!(is_external_target("MAILTO:USER@EXAMPLE.COM"));
    assert!(is_external_target("File://localhost/path"));
    assert!(is_external_target("hTtPs://mixed.case"));
    assert!(is_external_target("FTP://FILES.EXAMPLE.COM"));
}

#[test]
fn is_external_target_rejects_non_urls() {
    assert!(!is_external_target("attachments/image.png"));
    assert!(!is_external_target("page:some-id"));
    assert!(!is_external_target("title:My Page"));
    assert!(!is_external_target("just some text"));
    assert!(!is_external_target(""));
    assert!(!is_external_target("   "));
    assert!(!is_external_target("not-a-scheme"));
}

// -- extract_inline_link_targets edge cases --

fn inline_targets(text: &str) -> Vec<String> {
    let mut out = Vec::new();
    extract_inline_link_targets(text, &mut out);
    out
}

#[test]
fn inline_unclosed_bracket() {
    // [unclosed( — no closing ] so no link is formed
    assert!(inline_targets("[unclosed(").is_empty());
}

#[test]
fn inline_unclosed_paren() {
    // [text]( — ] found but no closing )
    assert!(inline_targets("[text](").is_empty());
}

#[test]
fn inline_empty_target() {
    // []() — empty target string is skipped
    assert!(inline_targets("[]()").is_empty());
}

#[test]
fn inline_nested_brackets() {
    assert_eq!(
        inline_targets("[text with [inner] brackets](url)"),
        vec!["url"]
    );
}

#[test]
fn inline_linked_image_yields_the_link_not_the_image_source() {
    assert_eq!(
        inline_targets("[![img](a.png)](page:abc)"),
        vec!["page:abc"]
    );
}

#[test]
fn inline_consecutive_links() {
    assert_eq!(inline_targets("[a](b)[c](d)"), vec!["b", "d"],);
}

#[test]
fn inline_empty_wikilink() {
    // [[]] — empty target after trim is skipped
    assert!(inline_targets("[[]]").is_empty());
}

#[test]
fn inline_unclosed_wikilink() {
    // [[ with no closing ]] — no target extracted
    assert!(inline_targets("[[").is_empty());
}

#[test]
fn inline_wikilink_unclosed_single_bracket() {
    // [[text — no closing ]], falls through to markdown link check which also fails
    assert!(inline_targets("[[text").is_empty());
}

#[test]
fn inline_unicode_link_target() {
    // Delimiters are ASCII, so multi-byte UTF-8 content is handled correctly
    assert_eq!(inline_targets("[名前](ページ)"), vec!["ページ"],);
}

#[test]
fn inline_unicode_wikilink() {
    assert_eq!(inline_targets("[[日本語ページ]]"), vec!["日本語ページ"],);
}

#[test]
fn inline_whitespace_only_target() {
    // [label](   ) — target is whitespace-only, trimmed to empty, skipped
    assert!(inline_targets("[label](   )").is_empty());
}

#[test]
fn inline_whitespace_only_wikilink() {
    // [[   ]] — whitespace-only, trimmed to empty, skipped
    assert!(inline_targets("[[   ]]").is_empty());
}

#[test]
fn inline_target_trimmed() {
    // Surrounding whitespace is trimmed from the target
    assert_eq!(inline_targets("[label](  url  )"), vec!["url"],);
}

#[test]
fn inline_mixed_links_and_wikilinks() {
    assert_eq!(
        inline_targets("see [[wiki]] and [md](target) done"),
        vec!["wiki", "target"],
    );
}

#[test]
fn inline_bracket_without_paren() {
    // [text] alone — no ( follows the ], so no link
    assert!(inline_targets("[text]").is_empty());
    // [text] followed by something other than (
    assert!(inline_targets("[text] rest").is_empty());
}

#[test]
fn inline_empty_input() {
    assert!(inline_targets("").is_empty());
}

#[test]
fn inline_no_links() {
    assert!(inline_targets("just plain text").is_empty());
}

#[test]
fn is_external_target_boundary_inputs() {
    // scheme separator at the very start
    assert!(is_external_target("://bare"));
    // single character scheme
    assert!(is_external_target("x://y"));
    // scheme with numbers
    assert!(is_external_target("h323://voip.example.com"));
    // just the scheme prefix, no content after
    assert!(is_external_target("http://"));
    assert!(is_external_target("https://"));
    assert!(is_external_target("mailto:"));
}
