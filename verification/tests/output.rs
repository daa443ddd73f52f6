use lepiter::check::{write_check_text, CheckReport};
use lepiter::index::{KnowledgeBase, KnowledgeBaseIndex, LinkEdge, PageSource, ScannedFile};
use lepiter::info::{compute_detailed_info, kb_info, kb_info_json, kb_info_text};
use lepiter::json::{Json, Member};
use lepiter::links::{links_dot, links_json, links_text};
use lepiter::listing::{
    collect_tag_counts, content_snippets, matching_snippet, pages_with_tag, tags_json,
    truncate_chars, write_ids, write_list_plain, write_list_tsv, write_search_plain,
    write_tag_pages, write_tag_summary, write_tags_tsv,
};
use lepiter::model::{Node, Page};
use lepiter::parse::RawMeta;
use lepiter::show::{
    collect_page_links, describe_link, find_page_by_title, render_markdown_with_ansi,
    render_page_pretty, write_links,
};
use lepiter::strmap::StrMap;
use lepiter::time::Timestamp;

fn from_value(value: &serde_json::Value) -> Json {
    match value {
        serde_json::Value::Null => Json::Null,
        serde_json::Value::Bool(b) => Json::Bool(*b),
        serde_json::Value::Number(n) => Json::Number(n.to_string()),
        serde_json::Value::String(s) => Json::Str(s.clone()),
        serde_json::Value::Array(items) => Json::Array(items.iter().map(from_value).collect()),
        serde_json::Value::Object(members) => Json::Object(
            members
                .iter()
                .map(|(name, value)| Member { name: name.clone(), value: from_value(value) })
                .collect(),
        ),
    }
}

fn json(text: &str) -> Json {
    from_value(&serde_json::from_str(text).unwrap())
}

fn to_value(json: &Json) -> serde_json::Value {
    match json {
        Json::Null => serde_json::Value::Null,
        Json::Bool(b) => serde_json::Value::Bool(*b),
        Json::Number(n) => serde_json::from_str(n).unwrap(),
        Json::Str(s) => serde_json::Value::String(s.clone()),
        Json::Array(items) => serde_json::Value::Array(items.iter().map(to_value).collect()),
        Json::Object(members) => serde_json::Value::Object(
            members.iter().map(|m| (m.name.clone(), to_value(&m.value))).collect(),
        ),
    }
}

fn text_at(json: &Json, path: &[&str]) -> Option<String> {
    let mut at = json;
    for name in path {
        at = at.get(name)?;
    }
    at.as_str().map(str::to_string)
}

fn raw_meta(json: &Json) -> RawMeta {
    RawMeta {
        uuid: text_at(json, &["uid", "uuid"]),
        uid_string: text_at(json, &["uid", "uidString"]),
        page_title: text_at(json, &["pageType", "title"]),
        title: text_at(json, &["title"]),
        edited: text_at(json, &["editTime", "time", "dateAndTimeString"]),
        tags: json.get("tags").cloned(),
    }
}

/// A knowledge base of some files, each with its name and text, and what reading
/// each page comes to.
fn open_kb(files: &[(String, String)]) -> (KnowledgeBaseIndex, StrMap<PageSource>) {
    let mut scanned = Vec::new();
    let mut contents = Vec::new();
    for (name, text) in files {
        let path = format!("/kb/{name}");
        match serde_json::from_str::<serde_json::Value>(text) {
            Ok(value) if value.is_object() => {
                let json = from_value(&value);
                scanned.push(ScannedFile { path: path.clone(), meta: Ok(raw_meta(&json)) });
                contents.push((path, json));
            }
            _ => scanned.push(ScannedFile { meta: Err(format!("failed to decode {path}")), path }),
        }
    }
    let index = KnowledgeBase::open("/kb", &scanned);
    let mut sources = StrMap::new();
    for id in index.ordered_ids() {
        let path = index.page_meta(&id).unwrap().path.clone();
        for (at, json) in &contents {
            if *at == path {
                sources.insert(id.clone(), PageSource::Raw(json.clone()));
            }
        }
    }
    (index, sources)
}

fn quoted(text: &str) -> String {
    serde_json::Value::String(text.to_string()).to_string()
}

fn page_file(id: &str, title: &str, tags: &[&str], text: &str) -> (String, String) {
    let tags: Vec<_> = tags.iter().map(|t| quoted(t)).collect();
    (
        format!("{id}.lepiter"),
        format!(
            r#"{{
                "uid": {{"uuid": {}}},
                "pageType": {{"title": {}}},
                "tags": [{}],
                "editTime": {{"time": {{"dateAndTimeString": "2024-03-01T10:00:00+02:00"}}}},
                "children": {{"items": [{{"__type": "textSnippet", "string": {}}}]}}
            }}"#,
            quoted(id),
            quoted(title),
            tags.join(", "),
            quoted(text)
        ),
    )
}

/// Three pages: the first links to the second, to a page that does not exist and
/// to an attachment; nothing links to the third.
fn small_kb() -> (KnowledgeBaseIndex, StrMap<PageSource>) {
    open_kb(&[
        page_file(
            "p1",
            "Alpha",
            &["rust", "cli"],
            "see [[Beta]] and [gone](page:gone) and [pic](attachments/a.png)",
        ),
        page_file("p2", "Beta", &["rust"], "back to [one](page:p1)"),
        page_file("p3", "Gamma", &[], "on its own"),
    ])
}

#[test]
fn a_list_has_columns() {
    let (index, _) = small_kb();
    let pages = index.sorted_pages();
    assert_eq!(
        write_list_plain(&pages),
        "title  id\n\
         -----  ------------------------------------\n\
         Alpha  p1\n\
         Beta   p2\n\
         Gamma  p3\n"
    );
    assert_eq!(write_list_tsv(&pages), "Alpha\tp1\nBeta\tp2\nGamma\tp3\n");
    assert_eq!(write_ids(&pages), "p1\np2\np3\n");
}

#[test]
fn a_title_that_is_too_long_is_cut() {
    assert_eq!(truncate_chars("abcdef", 3), "abc");
    assert_eq!(truncate_chars("abc", 5), "abc");
    let long = "x".repeat(70);
    let (index, _) = open_kb(&[page_file("p1", &long, &[], "")]);
    let listed = write_list_plain(&index.sorted_pages());
    assert!(listed.ends_with(&format!("\n{}  p1\n", "x".repeat(64))));
}

#[test]
fn tags_are_counted_and_ranked() {
    let (index, _) = small_kb();
    let pages = index.sorted_pages();
    let counts = collect_tag_counts(&pages);
    assert_eq!(write_tag_summary(&counts), "Tags (2 unique)\n     2  rust\n     1  cli\n");
    assert_eq!(write_tags_tsv(&counts), "rust\t2\ncli\t1\n");
    assert_eq!(
        to_value(&tags_json(&counts)).to_string(),
        r#"[{"count":2,"tag":"rust"},{"count":1,"tag":"cli"}]"#
    );
    let tagged = pages_with_tag(&pages, "RUST");
    assert_eq!(
        write_tag_pages(&tagged, "RUST"),
        "Pages tagged \"RUST\" (2)\n  Alpha  p1\n  Beta   p2\n"
    );
    assert_eq!(
        write_tag_pages(&pages_with_tag(&pages, "none"), "none"),
        "Pages tagged \"none\" (0)\n  (none)\n"
    );
    assert_eq!(write_tag_summary(&vec![]), "Tags (0 unique)\n  (none)\n");
}

#[test]
fn a_search_shows_what_was_found() {
    let (index, sources) = small_kb();
    let hits = index.search_hits("own", true, &sources);
    let snippets = content_snippets(&index, &hits, "own", &sources);
    assert_eq!(
        write_search_plain(&index.sorted_pages(), &hits, &snippets),
        "title  id                                    match\n\
         -----  ------------------------------------  -------\n\
         Gamma  p3                                    content\n    on its own\n"
    );
}

#[test]
fn a_snippet_is_a_window_around_the_match() {
    let before = "b".repeat(60);
    let after = "a".repeat(100);
    let part = matching_snippet(&format!("{before}Needle{after}"), "needle").unwrap();
    assert_eq!(part, format!("{}Needle{}", "b".repeat(40), "a".repeat(74)));
    assert_eq!(matching_snippet("nothing", "needle"), None);
    assert_eq!(matching_snippet("nothing", ""), None);
}

#[test]
fn a_snippet_is_found_whatever_the_case() {
    assert_eq!(matching_snippet("die ÄPFEL fallen", "äpfel").unwrap(), "die ÄPFEL fallen");
    assert_eq!(matching_snippet("ΟΔΟΣ", "οδος").unwrap(), "ΟΔΟΣ");
}

fn edges_of(edges: &[LinkEdge]) -> Vec<&LinkEdge> {
    edges.iter().collect()
}

#[test]
fn the_link_graph_is_written() {
    let (index, sources) = small_kb();
    let graph = index.build_link_graph(&sources);
    let edges = edges_of(&graph.edges);
    assert_eq!(
        links_text(&index, &edges, None),
        "Link Graph\n  pages: 3\n  links: 2\n\nMost Linked Pages:\n     1  Alpha\n     1  Beta\n\nIsolated Pages (1):\n  Gamma\n"
    );
    assert_eq!(
        links_text(&index, &graph.ego("p1"), Some("p1")),
        "Link Graph (ego: Alpha)\n  pages: 2\n  links: 2\n\nMost Linked Pages:\n     1  Alpha\n     1  Beta\n"
    );
    assert_eq!(
        links_dot(&index, &edges),
        "digraph links {\n  rankdir=LR;\n  \"p1\" [label=\"Alpha\"];\n  \"p2\" [label=\"Beta\"];\n  \"p1\" -> \"p2\";\n  \"p2\" -> \"p1\";\n}\n"
    );
    assert_eq!(
        to_value(&links_json(&index, &vec![], Some("p3"))).to_string(),
        r#"{"edges":[],"nodes":[{"id":"p3","title":"Gamma"}]}"#
    );
}

#[test]
fn quotes_in_titles_are_escaped_for_graphviz() {
    let (index, sources) = open_kb(&[
        page_file("p1", "Say \"hi\" \\ bye", &[], "see [x](page:p2)"),
        page_file("p2", "Two", &[], ""),
    ]);
    let graph = index.build_link_graph(&sources);
    let dot = links_dot(&index, &edges_of(&graph.edges));
    assert!(dot.contains("  \"p1\" [label=\"Say \\\"hi\\\" \\\\ bye\"];\n"));
}

#[test]
fn a_report_lists_what_is_wrong() {
    let (index, sources) = small_kb();
    let analysis = index.analyze_all(&sources, &vec![]);
    let orphan_ids = index.orphan_ids(&analysis.linked_pages, None);
    let duplicate_titles = index.find_duplicate_titles();
    let report = CheckReport {
        index: &index,
        broken_links: &analysis.broken_links,
        orphan_ids: &orphan_ids,
        load_errors: &analysis.load_errors,
        index_issues: &index.index_issues,
        duplicate_titles: &duplicate_titles,
        missing_attachments: &analysis.missing_attachments,
    };
    assert!(!report.ok());
    assert_eq!(
        write_check_text(&report),
        "Knowledge Base Check\n  broken_links: 1\n  orphan_pages: 1\n  duplicate_titles: 0\n  missing_attachments: 1\n  load_errors: 0\n  index_issues: 0\n\nBroken Links (1):\n  Alpha -> page:gone\n\nOrphan Pages (1):\n  Gamma\n\nDuplicate Titles (0):\n  (none)\n\nMissing Attachments (1):\n  Alpha -> /kb/attachments/a.png\n"
    );
}

#[test]
fn the_summary_of_a_knowledge_base() {
    let (index, sources) = small_kb();
    let props = json(r#"{"databaseName": "Book", "uuid": "u-1", "tableOfContents": "p3"}"#);
    let detail = compute_detailed_info(&index, "p3", &sources, &vec![]);
    let info = kb_info("/kb", &index, &index.index_issues, Some(&props), Some(detail));
    assert_eq!(
        kb_info_text(&info),
        "Knowledge Base\n  path: /kb\n  name: Book\n  uuid: u-1\n  schema: <unknown>\n  table_of_contents: p3\n  pages: 3\n  unique_tags: 2\n  index_issues: 0\n  updated_range: 2024-03-01T10:00:00+02:00 .. 2024-03-01T10:00:00+02:00\n\nBroken Links (1):\n  - Alpha -> page:gone\n\nOrphan Pages (0):\n  (none)\n\nTag Distribution (2):\n     2  rust\n     1  cli\n\nSnippet Types (1):\n     3  textSnippet\n"
    );
    let value = to_value(&kb_info_json(&info));
    assert_eq!(value["pages"], 3);
    assert_eq!(value["tag_distribution"]["rust"], 2);
    assert_eq!(value["snippet_types"]["textSnippet"], 3);
    assert_eq!(value["updated_range"]["min"], "2024-03-01T10:00:00+02:00");
}

#[test]
fn a_summary_without_pages_or_properties() {
    let (index, _) = open_kb(&[]);
    let info = kb_info("/kb", &index, &index.index_issues, None, None);
    assert_eq!(
        kb_info_text(&info),
        "Knowledge Base\n  path: /kb\n  name: <unknown>\n  uuid: <unknown>\n  schema: <unknown>\n  table_of_contents: <none>\n  pages: 0\n  unique_tags: 0\n  index_issues: 0\n  updated_range: <none>\n"
    );
    assert_eq!(to_value(&kb_info_json(&info))["updated_range"], serde_json::Value::Null);
}

#[test]
fn a_page_is_found_by_its_title_or_an_error_says_why() {
    let (index, _) = small_kb();
    assert_eq!(find_page_by_title(&index, "beta").unwrap(), "p2");
    assert_eq!(
        find_page_by_title(&index, "zeta").unwrap_err(),
        "no page found with title matching `zeta`"
    );
    assert_eq!(
        find_page_by_title(&index, "a").unwrap_err(),
        "title match is ambiguous (3 matches): Alpha (p1), Beta (p2), Gamma (p3)"
    );
}

fn sample_page() -> Page {
    Page {
        id: "p1".to_string(),
        title: "Alpha".to_string(),
        updated_at: Timestamp::parse("2024-03-01T10:00:00Z"),
        tags: vec!["rust".to_string(), "cli".to_string()],
        content: vec![
            Node::Heading { level: 2, text: "Part".to_string() },
            Node::Paragraph { text: "some **bold** and [a](b)".to_string() },
        ],
    }
}

#[test]
fn a_page_is_shown_without_colours() {
    assert_eq!(
        render_page_pretty(&sample_page(), false),
        "# Alpha\n\ntags: rust, cli\nupdated: 2024-03-01T10:00:00+00:00\nid: p1\n\n---\n\n## Part\n\nsome **bold** and [a](b)\n"
    );
}

#[test]
fn a_page_is_shown_in_colours() {
    assert_eq!(
        render_page_pretty(&sample_page(), true),
        "\x1b[1;36m# Alpha\x1b[0m\n\n\x1b[2mtags: rust, cli\x1b[0m\n\x1b[2mupdated: 2024-03-01T10:00:00+00:00\x1b[0m\n\x1b[2mid: p1\x1b[0m\n\n\x1b[2m---\x1b[0m\n\n\x1b[1;36m## Part\x1b[0m\n\nsome \x1b[1mbold\x1b[0m and \x1b[4;94ma\x1b[0m\x1b[90m (b)\x1b[0m\n\n"
    );
}

#[test]
fn code_between_fences_is_coloured() {
    assert_eq!(
        render_markdown_with_ansi("```Python\ndef f\n```\n> q\n- *i*\n[[unknown: x]]"),
        "\x1b[90m```Python\x1b[0m\n\x1b[1;35mdef\x1b[0m f\n\x1b[90m```\x1b[0m\n\x1b[3;90m> q\x1b[0m\n- \x1b[3mi\x1b[0m\n\x1b[33m[[unknown: x]]\x1b[0m\n"
    );
}

#[test]
fn links_are_listed_with_what_they_lead_to() {
    let (index, sources) = small_kb();
    let page = index.load_from("p1", &sources).unwrap();
    let links = collect_page_links(&page.content);
    assert_eq!(
        write_links(&index, &links, &vec![]),
        "\nresolved links:\n  [1] Beta -> internal:p2\n  [2] gone -> unknown:page:gone\n  [3] pic -> attachment:/kb/attachments/a.png (missing)\n"
    );
    assert_eq!(write_links(&index, &vec![], &vec![]), "\nresolved links:\n  <none>\n");
    let there = vec!["/kb/attachments/a.png".to_string()];
    assert_eq!(
        describe_link(&index, "attachments/a.png", &there),
        "attachment:/kb/attachments/a.png"
    );
    assert_eq!(describe_link(&index, "https://x.org", &there), "external:https://x.org");
    assert_eq!(
        describe_link(&index, "attachments/../../x", &there),
        "attachment-error:attachment path escapes knowledge base root: attachments/../../x"
    );
}
