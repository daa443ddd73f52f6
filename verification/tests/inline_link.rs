use lepiter::inline_link::{rewrite_inline_links, scan_inline_links, InlineLink, LinkKind};
use std::cell::RefCell;

fn scan(text: &str) -> Vec<InlineLink> {
    scan_inline_links(text).collect()
}

#[test]
fn scans_wiki_kind_label_target_range() {
    let links = scan("see [[My Page]] here");
    assert_eq!(links.len(), 1);
    let link = &links[0];
    assert_eq!(link.kind, LinkKind::Wiki);
    assert_eq!(link.label, "My Page");
    assert_eq!(link.target, "My Page");
    // "see " is 4 bytes; "[[My Page]]" is 11 bytes
    assert_eq!(link.range, 4..15);
    assert_eq!(&"see [[My Page]] here"[link.range.clone()], "[[My Page]]");
}

#[test]
fn scans_markdown_kind_label_target_range() {
    let links = scan("a [label](page:abc) b");
    assert_eq!(links.len(), 1);
    let link = &links[0];
    assert_eq!(link.kind, LinkKind::Markdown);
    assert_eq!(link.label, "label");
    assert_eq!(link.target, "page:abc");
    assert_eq!(link.range, 2..19);
    assert_eq!(
        &"a [label](page:abc) b"[link.range.clone()],
        "[label](page:abc)"
    );
}

#[test]
fn scans_mixed_in_source_order() {
    let links = scan("see [[wiki]] and [md](target) done");
    assert_eq!(links.len(), 2);
    assert_eq!(links[0].kind, LinkKind::Wiki);
    assert_eq!(links[0].target, "wiki");
    assert_eq!(links[1].kind, LinkKind::Markdown);
    assert_eq!(links[1].label, "md");
    assert_eq!(links[1].target, "target");
}

#[test]
fn target_is_trimmed_but_range_covers_whitespace() {
    let links = scan("[label](  url  )");
    assert_eq!(links.len(), 1);
    assert_eq!(links[0].target, "url");
    assert_eq!(links[0].range, 0..16);
}

#[test]
fn empty_targets_are_skipped() {
    assert!(scan("[]()").is_empty());
    assert!(scan("[[]]").is_empty());
    assert!(scan("[label](   )").is_empty());
    assert!(scan("[[   ]]").is_empty());
}

#[test]
fn wiki_takes_precedence_over_markdown() {
    // the `[[…]]` body itself contains `](`
    let links = scan("[[x](y)]]");
    assert_eq!(links.len(), 1);
    assert_eq!(links[0].kind, LinkKind::Wiki);
    assert_eq!(links[0].target, "x](y)");
}

#[test]
fn unclosed_wiki_falls_through_to_markdown() {
    let links = scan("[[text](url)");
    assert_eq!(links.len(), 1);
    assert_eq!(links[0].kind, LinkKind::Markdown);
    assert_eq!(links[0].label, "text");
    assert_eq!(links[0].target, "url");
    assert_eq!(links[0].range, 1..12);
}

#[test]
fn markdown_label_keeps_balanced_brackets() {
    let text = "[a [b] c](t)";
    let links = scan(text);
    assert_eq!(links.len(), 1);
    assert_eq!(links[0].label, "a [b] c");
    assert_eq!(links[0].target, "t");
    assert_eq!(links[0].range, 0..text.len());
}

#[test]
fn markdown_label_keeps_nested_brackets() {
    let text = "[a [b [c] d] e](t)";
    let links = scan(text);
    assert_eq!(links.len(), 1);
    assert_eq!(links[0].label, "a [b [c] d] e");
    assert_eq!(links[0].target, "t");
    assert_eq!(links[0].range, 0..text.len());
}

#[test]
fn linked_image_yields_the_outer_target() {
    let text = "[![img](a.png)](target)";
    let links = scan(text);
    assert_eq!(links.len(), 1);
    assert_eq!(links[0].kind, LinkKind::Markdown);
    assert_eq!(links[0].label, "![img](a.png)");
    assert_eq!(links[0].target, "target");
    assert_eq!(links[0].range, 0..text.len());
}

#[test]
fn unbalanced_open_bracket_yields_no_link() {
    assert!(scan("[a [b] c(t)").is_empty());
    assert!(scan("[a [b(t)").is_empty());
}

#[test]
fn unbalanced_close_bracket_yields_no_link() {
    assert!(scan("[a]](t)").is_empty());
    assert!(scan("a] b](t)").is_empty());
}

#[test]
fn unbalanced_label_does_not_swallow_a_later_link() {
    let links = scan("[a [unclosed and [b](ok)");
    assert_eq!(links.len(), 1);
    assert_eq!(links[0].label, "b");
    assert_eq!(links[0].target, "ok");
}

#[test]
fn bracket_label_link_beside_a_plain_one() {
    let links = scan("[a [b] c](t) and [d](e)");
    assert_eq!(links.len(), 2);
    assert_eq!(links[0].label, "a [b] c");
    assert_eq!(links[0].target, "t");
    assert_eq!(links[1].label, "d");
    assert_eq!(links[1].target, "e");
}

#[test]
fn wiki_nested_in_a_label_still_wins() {
    let links = scan("[label [[wiki]] more](t)");
    assert_eq!(links.len(), 1);
    assert_eq!(links[0].kind, LinkKind::Wiki);
    assert_eq!(links[0].target, "wiki");
}

#[test]
fn markdown_link_nested_in_a_label_wins_over_the_outer() {
    let links = scan("[a [b](ok) c](t)");
    assert_eq!(links.len(), 1);
    assert_eq!(links[0].label, "b");
    assert_eq!(links[0].target, "ok");
}

#[test]
fn a_link_in_an_images_alt_text_leaves_the_outer_target() {
    let text = "[![[x](y)](z)](t)";
    let links = scan(text);
    assert_eq!(links.len(), 1);
    assert_eq!(links[0].label, "![[x](y)](z)");
    assert_eq!(links[0].target, "t");
    assert_eq!(links[0].range, 0..text.len());
}

#[test]
fn deeply_nested_links_do_not_blow_up_the_scan() {
    for innermost in ["![a](p)", "[x](y)"] {
        let mut text = innermost.to_string();
        for _ in 0..24 {
            text = format!("[{text}](t)");
        }
        let started = std::time::Instant::now();
        let links = scan(&text);
        let elapsed = started.elapsed();
        assert_eq!(links.len(), 1);
        assert!(
            elapsed < std::time::Duration::from_secs(2),
            "scanning {} bytes of nesting took {elapsed:?}",
            text.len()
        );
    }
}

#[test]
fn rewrite_a_linked_image_touches_only_the_outer_target() {
    let seen = RefCell::new(Vec::new());
    let out = rewrite_inline_links("see [![img](a.png)](page:abc) here", |_, target| {
        seen.borrow_mut().push(target.to_string());
        Some(format!("{target}.md"))
    });
    assert_eq!(seen.into_inner(), vec!["page:abc"]);
    assert_eq!(out, "see [![img](a.png)](page:abc.md) here");
}

#[test]
fn rewrite_none_leaves_a_bracket_label_verbatim() {
    let text = "[a [b] c](  t  ) and [![img](a.png)](u)";
    assert_eq!(rewrite_inline_links(text, |_, _| None), text);
}

#[test]
fn markdown_target_keeps_balanced_parens() {
    let text = "see [Ruby](https://en.wikipedia.org/wiki/Ruby_(programming_language)) here";
    let links = scan(text);
    assert_eq!(links.len(), 1);
    assert_eq!(links[0].label, "Ruby");
    assert_eq!(
        links[0].target,
        "https://en.wikipedia.org/wiki/Ruby_(programming_language)"
    );
    assert_eq!(
        &text[links[0].range.clone()],
        "[Ruby](https://en.wikipedia.org/wiki/Ruby_(programming_language))"
    );
}

#[test]
fn markdown_target_keeps_nested_parens() {
    let text = "[x](a(b(c)d)e)";
    let links = scan(text);
    assert_eq!(links.len(), 1);
    assert_eq!(links[0].target, "a(b(c)d)e");
    assert_eq!(links[0].range, 0..text.len());
}

#[test]
fn unbalanced_open_paren_yields_no_link() {
    assert!(scan("[x](a(b)").is_empty());
    assert!(scan("[x](a(b").is_empty());
}

#[test]
fn inline_link_unbalanced_target_does_not_swallow_a_later_link() {
    let links = scan("[a](un(closed and [b](ok)");
    assert_eq!(links.len(), 1);
    assert_eq!(links[0].label, "b");
    assert_eq!(links[0].target, "ok");
}

#[test]
fn close_paren_after_a_link_is_not_part_of_the_target() {
    let links = scan("(see [a](b) too)");
    assert_eq!(links.len(), 1);
    assert_eq!(links[0].target, "b");
    assert_eq!(links[0].range, 5..11);
}

#[test]
fn unicode_content_in_labels_and_targets() {
    let links = scan("[名前](ページ) [[日本語]]");
    assert_eq!(links.len(), 2);
    assert_eq!(links[0].target, "ページ");
    assert_eq!(links[1].target, "日本語");
}

#[test]
fn rewrite_replaces_with_callback_target() {
    let out = rewrite_inline_links("see [a](b) and [[c]]", |kind, target| match kind {
        LinkKind::Markdown => Some(format!("md:{target}")),
        LinkKind::Wiki => Some(format!("wiki:{target}")),
    });
    assert_eq!(out, "see [a](md:b) and [c](wiki:c)");
}

#[test]
fn rewrite_none_leaves_span_verbatim() {
    // Whitespace inside an untouched span is preserved exactly.
    let out = rewrite_inline_links("[a](  keep  ) and [[ keep ]]", |_, _| None);
    assert_eq!(out, "[a](  keep  ) and [[ keep ]]");
}

#[test]
fn rewrite_callback_sees_kind_and_trimmed_target() {
    let seen = RefCell::new(Vec::new());
    let _ = rewrite_inline_links("[a]( b ) [[ c ]]", |kind, target| {
        seen.borrow_mut().push((kind, target.to_string()));
        None
    });
    assert_eq!(seen.into_inner(),
        vec![
            (LinkKind::Markdown, "b".to_string()),
            (LinkKind::Wiki, "c".to_string()),
        ]
    );
}

#[test]
fn rewrite_replaces_a_paren_url_without_orphaning_a_tail() {
    let text = "see [Ruby](https://en.wikipedia.org/wiki/Ruby_(programming_language)) here";
    let seen = RefCell::new(Vec::new());
    let out = rewrite_inline_links(text, |_, target| {
        seen.borrow_mut().push(target.to_string());
        Some("page:abc".to_string())
    });
    assert_eq!(seen.into_inner(),
        vec!["https://en.wikipedia.org/wiki/Ruby_(programming_language)"]
    );
    assert_eq!(out, "see [Ruby](page:abc) here");
}

#[test]
fn rewrite_is_identity_on_plain_text() {
    let out = rewrite_inline_links("no links here at all", |_, _| Some("x".to_string()));
    assert_eq!(out, "no links here at all");
}
