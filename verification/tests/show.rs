use lepiter::model::Node;
use lepiter::show::collect_page_links;

#[test]
fn collect_page_links_standalone_link_node() {
    let nodes = vec![Node::Link {
        text: "example".into(),
        url: "https://example.com".into(),
    }];
    let links = collect_page_links(&nodes);
    assert_eq!(
        links,
        vec![("example".to_string(), "https://example.com".to_string())]
    );
}

#[test]
fn collect_page_links_inline_link_in_paragraph() {
    let nodes = vec![Node::Paragraph {
        text: "see [docs](https://docs.rs) here".into(),
    }];
    let links = collect_page_links(&nodes);
    assert_eq!(links, vec![("docs".to_string(), "https://docs.rs".to_string())]);
}

#[test]
fn collect_page_links_inline_image_in_paragraph() {
    let nodes = vec![Node::Paragraph {
        text: "see ![alt](attachments/x.png) here".into(),
    }];
    let links = collect_page_links(&nodes);
    assert_eq!(links, vec![("alt".to_string(), "attachments/x.png".to_string())]);
}

#[test]
fn collect_page_links_linked_image_reports_the_outer_target() {
    let nodes = vec![Node::Paragraph {
        text: "[![alt](img.png)](page:t)".into(),
    }];
    let links = collect_page_links(&nodes);
    assert_eq!(links, vec![("![alt](img.png)".to_string(), "page:t".to_string())]);
}

#[test]
fn collect_page_links_inline_link_in_text() {
    let nodes = vec![Node::Text {
        text: "click [here](https://example.com)".into(),
    }];
    let links = collect_page_links(&nodes);
    assert_eq!(links, vec![("here".to_string(), "https://example.com".to_string())]);
}

#[test]
fn collect_page_links_inline_link_in_heading() {
    let nodes = vec![Node::Heading {
        level: 2,
        text: "see [API](https://api.example.com)".into(),
    }];
    let links = collect_page_links(&nodes);
    assert_eq!(
        links,
        vec![("API".to_string(), "https://api.example.com".to_string())]
    );
}

#[test]
fn collect_page_links_inline_link_in_quote() {
    let nodes = vec![Node::Quote {
        text: "as noted in [RFC 123](https://rfc.example.com)".into(),
    }];
    let links = collect_page_links(&nodes);
    assert_eq!(
        links,
        vec![("RFC 123".to_string(), "https://rfc.example.com".to_string())]
    );
}

#[test]
fn collect_page_links_wiki_link_in_paragraph() {
    let nodes = vec![Node::Paragraph {
        text: "see also [[My Other Page]]".into(),
    }];
    let links = collect_page_links(&nodes);
    assert_eq!(
        links,
        vec![("My Other Page".to_string(), "My Other Page".to_string())]
    );
}

#[test]
fn collect_page_links_multiple_inline_links() {
    let nodes = vec![Node::Paragraph {
        text: "[first](url1) and [second](url2) and [[wiki]]".into(),
    }];
    let links = collect_page_links(&nodes);
    assert_eq!(links.len(), 3);
    assert_eq!(links[0], ("first".into(), "url1".into()));
    assert_eq!(links[1], ("second".into(), "url2".into()));
    assert_eq!(links[2], ("wiki".into(), "wiki".into()));
}

#[test]
fn collect_page_links_mixed_standalone_and_inline() {
    let nodes = vec![
        Node::Link {
            text: "standalone".into(),
            url: "https://standalone.com".into(),
        },
        Node::Paragraph {
            text: "text with [inline](https://inline.com) link".into(),
        },
    ];
    let links = collect_page_links(&nodes);
    assert_eq!(links.len(), 2);
    assert_eq!(
        links[0],
        ("standalone".into(), "https://standalone.com".into())
    );
    assert_eq!(links[1], ("inline".into(), "https://inline.com".into()));
}

#[test]
fn collect_page_links_no_links_in_plain_text() {
    let nodes = vec![Node::Paragraph {
        text: "just plain text, no links".into(),
    }];
    let links = collect_page_links(&nodes);
    assert!(links.is_empty());
}

#[test]
fn collect_page_links_list_items_with_inline_links() {
    let nodes = vec![Node::List {
        items: vec![vec![Node::Paragraph {
            text: "item with [link](url)".into(),
        }]],
    }];
    let links = collect_page_links(&nodes);
    assert_eq!(links, vec![("link".to_string(), "url".to_string())]);
}

#[test]
fn collect_page_links_code_nodes_ignored() {
    let nodes = vec![Node::Code {
        language: Some("rust".into()),
        code: "[not_a_link](http://example.com)".into(),
    }];
    let links = collect_page_links(&nodes);
    assert!(links.is_empty());
}
