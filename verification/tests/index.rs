use lepiter::index::{KnowledgeBase, KnowledgeBaseIndex, PageSource, ScannedFile};
use lepiter::json::{Json, Member};
use lepiter::model::{LinkTargetKind, PageMeta, SearchMatchKind, TitleResolution};
use lepiter::parse::RawMeta;
use lepiter::strmap::StrMap;
use std::collections::HashMap;

fn from_value(value: &serde_json::Value) -> Json {
    match value {
        serde_json::Value::Null => Json::Null,
        serde_json::Value::Bool(b) => Json::Bool(*b),
        serde_json::Value::Number(n) => Json::Number(n.to_string()),
        serde_json::Value::String(s) => Json::Str(s.clone()),
        serde_json::Value::Array(items) => Json::Array(items.iter().map(from_value).collect()),
        serde_json::Value::Object(members) => Json::Object(
            members
                .iter()
                .map(|(name, value)| Member { name: name.clone(), value: from_value(value) })
                .collect(),
        ),
    }
}

fn json(text: &str) -> Json {
    from_value(&serde_json::from_str(text).unwrap())
}

fn text_at(json: &Json, path: &[&str]) -> Option<String> {
    let mut at = json;
    for name in path {
        at = at.get(name)?;
    }
    at.as_str().map(str::to_string)
}

fn raw_meta(json: &Json) -> RawMeta {
    RawMeta {
        uuid: text_at(json, &["uid", "uuid"]),
        uid_string: text_at(json, &["uid", "uidString"]),
        page_title: text_at(json, &["pageType", "title"]),
        title: text_at(json, &["title"]),
        edited: text_at(json, &["editTime", "time", "dateAndTimeString"]),
        tags: json.get("tags").cloned(),
    }
}

/// A knowledge base of some files, each with its name and text, and what reading
/// each page comes to.
fn open_kb(files: &[(String, String)]) -> (KnowledgeBaseIndex, StrMap<PageSource>) {
    let mut scanned = Vec::new();
    let mut contents = Vec::new();
    for (name, text) in files {
        let path = format!("/kb/{name}");
        match serde_json::from_str::<serde_json::Value>(text) {
            Ok(value) if value.is_object() => {
                let json = from_value(&value);
                scanned.push(ScannedFile { path: path.clone(), meta: Ok(raw_meta(&json)) });
                contents.push((path, json));
            }
            _ => scanned.push(ScannedFile { meta: Err(format!("failed to decode {path}")), path }),
        }
    }
    let index = KnowledgeBase::open("/kb", &scanned);
    let mut sources = StrMap::new();
    for id in index.ordered_ids() {
        let path = index.page_meta(&id).unwrap().path.clone();
        for (at, json) in &contents {
            if *at == path {
                sources.insert(id.clone(), PageSource::Raw(json.clone()));
            }
        }
    }
    (index, sources)
}

fn quoted(text: &str) -> String {
    serde_json::Value::String(text.to_string()).to_string()
}

fn file(name: &str, text: &str) -> (String, String) {
    (name.to_string(), text.to_string())
}

/// What reading a page comes to when it fails.
fn failing(id: &str, error: &str) -> StrMap<PageSource> {
    let mut sources = StrMap::new();
    sources.insert(id.to_string(), PageSource::Failed(error.to_string()));
    sources
}

fn make_kb(
    pages: &[(&str, &str, &[&str], &str)],
) -> (KnowledgeBaseIndex, StrMap<PageSource>) {
    let files: Vec<_> = pages
        .iter()
        .map(|(id, title, tags, body)| {
            let tags: Vec<_> = tags.iter().map(|t| quoted(t)).collect();
            (
                format!("{id}.lepiter"),
                format!(
                    r#"{{
                        "uid": {{"uuid": {}}},
                        "pageType": {{"title": {}}},
                        "tags": [{}],
                        "children": {{"items": [{{"__type": "textSnippet", "string": {}}}]}}
                    }}"#,
                    quoted(id),
                    quoted(title),
                    tags.join(", "),
                    quoted(body)
                ),
            )
        })
        .collect();
    open_kb(&files)
}

#[test]
fn filter_page_ids_matches_title_id_and_tags() {
    let mut index = KnowledgeBase::open("/tmp", &vec![]);
    index.register_page(PageMeta {
            id: "id-1".to_string(),
            id_lower: "id-1".to_string(),
            title: "Alpha".to_string(),
            title_lower: "alpha".to_string(),
            path: "/tmp/a".to_string(),
            updated_at: None,
            tags: vec!["rust".to_string()],
            tags_lower: vec!["rust".to_string()],
        });
    index.register_page(PageMeta {
            id: "id-2".to_string(),
            id_lower: "id-2".to_string(),
            title: "Beta".to_string(),
            title_lower: "beta".to_string(),
            path: "/tmp/b".to_string(),
            updated_at: None,
            tags: vec!["pharo".to_string()],
            tags_lower: vec!["pharo".to_string()],
        });

    assert_eq!(index.filter_page_ids("alpha"), vec!["id-1".to_string()]);
    assert_eq!(index.filter_page_ids("id-2"), vec!["id-2".to_string()]);
    assert_eq!(index.filter_page_ids("pharo"), vec!["id-2".to_string()]);
    assert_eq!(
        index.filter_page_ids(""),
        vec!["id-1".to_string(), "id-2".to_string()]
    );
}

#[test]
fn resolve_page_id_by_title_handles_unique_ambiguous_and_missing() {
    let mut index = KnowledgeBase::open("/tmp", &vec![]);
    index.register_page(PageMeta {
            id: "id-1".to_string(),
            id_lower: "id-1".to_string(),
            title: "Alpha".to_string(),
            title_lower: "alpha".to_string(),
            path: "/tmp/a".to_string(),
            updated_at: None,
            tags: Vec::new(),
            tags_lower: Vec::new(),
        });
    index.register_page(PageMeta {
            id: "id-2".to_string(),
            id_lower: "id-2".to_string(),
            title: "Alphabet".to_string(),
            title_lower: "alphabet".to_string(),
            path: "/tmp/b".to_string(),
            updated_at: None,
            tags: Vec::new(),
            tags_lower: Vec::new(),
        });

    assert_eq!(
        index.resolve_page_id_by_title("Alpha"),
        TitleResolution::Unique("id-1".to_string())
    );
    assert!(matches!(
        index.resolve_page_id_by_title("alp"),
        TitleResolution::Ambiguous(_)
    ));
    assert_eq!(
        index.resolve_page_id_by_title("zzz"),
        TitleResolution::NotFound
    );

    // The exact resolver agrees on a genuine exact match (case-insensitive)...
    assert_eq!(
        index.resolve_page_id_by_title_exact("ALPHA"),
        TitleResolution::Unique("id-1".to_string())
    );
    // ...but never falls back to a substring: "alp" resolves to nothing,
    // "alpha" only to its exact match.
    assert_eq!(
        index.resolve_page_id_by_title_exact("alp"),
        TitleResolution::NotFound
    );
    assert_eq!(
        index.resolve_page_id_by_title_exact("alpha"),
        TitleResolution::Unique("id-1".to_string())
    );
}

#[test]
fn resolve_page_id_by_title_exact_reports_duplicate_titles_as_ambiguous() {
    let (index, _) = make_kb(&[
        ("p1", "Rust", &[], "one"),
        ("p2", "Rust", &[], "two"),
        ("p3", "Rust Programming", &[], "three"),
    ]);
    assert!(matches!(
        index.resolve_page_id_by_title_exact("Rust"),
        TitleResolution::Ambiguous(ids) if ids.len() == 2
    ));
}

#[test]
fn classify_link_target_covers_internal_attachment_external_unknown() {
    let mut index = KnowledgeBase::open("/kb", &vec![]);
    index.register_page(PageMeta {
            id: "8a505fa0-2222-3333-4444-555555555555".to_string(),
            id_lower: "8a505fa0-2222-3333-4444-555555555555".to_string(),
            title: "Alpha".to_string(),
            title_lower: "alpha".to_string(),
            path: "/tmp/a".to_string(),
            updated_at: None,
            tags: Vec::new(),
            tags_lower: Vec::new(),
        });

    assert!(matches!(
        index.classify_link_target("8a505fa0-2222-3333-4444-555555555555"),
        LinkTargetKind::InternalPage(_)
    ));
    assert!(matches!(
        index.classify_link_target("title:alpha"),
        LinkTargetKind::InternalPage(_)
    ));
    assert!(matches!(
        index.classify_link_target("go to 8a505fa0-2222-3333-4444-555555555555 now"),
        LinkTargetKind::InternalPage(_)
    ));
    assert!(matches!(
        index.classify_link_target("attachments/image.png"),
        LinkTargetKind::AttachmentPath(_)
    ));
    assert!(matches!(
        index.classify_link_target("https://example.com"),
        LinkTargetKind::ExternalUrl(_)
    ));
    assert!(matches!(
        index.classify_link_target("not a thing"),
        LinkTargetKind::Unknown(_)
    ));
    // page: prefix falls back to title resolution
    assert!(matches!(
        index.classify_link_target("page:Alpha"),
        LinkTargetKind::InternalPage(_)
    ));
    // page: prefix with unknown title stays Unknown
    assert!(matches!(
        index.classify_link_target("page:Nonexistent"),
        LinkTargetKind::Unknown(_)
    ));
}

#[test]
fn search_hits_empty_query_returns_nothing() {
    let (index, sources) = make_kb(&[("p1", "Alpha", &[], "hello world")]);
    assert!(index.search_hits("", false, &sources).is_empty());
    assert!(index.search_hits("  ", true, &sources).is_empty());
}

#[test]
fn search_hits_matches_title_case_insensitively() {
    let (index, sources) = make_kb(&[
        ("p1", "Alpha Guide", &[], "nothing special"),
        ("p2", "Beta Notes", &[], "nothing special"),
    ]);
    let hits = index.search_hits("alpha", false, &sources);
    assert_eq!(hits.len(), 1);
    assert_eq!(hits[0].id, "p1");
    assert_eq!(hits[0].kind, SearchMatchKind::Title);
}

#[test]
fn search_hits_matches_tags() {
    let (index, sources) = make_kb(&[
        ("p1", "Page One", &["rust", "cli"], "body"),
        ("p2", "Page Two", &["pharo"], "body"),
    ]);
    let hits = index.search_hits("rust", false, &sources);
    assert_eq!(hits.len(), 1);
    assert_eq!(hits[0].id, "p1");
    assert_eq!(hits[0].kind, SearchMatchKind::Tag);
}

#[test]
fn search_hits_content_flag_searches_page_body() {
    let (index, sources) = make_kb(&[
        ("p1", "Alpha", &[], "the quick brown fox"),
        ("p2", "Beta", &[], "lazy dog sleeps"),
    ]);

    let no_content = index.search_hits("fox", false, &sources);
    assert!(no_content.is_empty());

    let with_content = index.search_hits("fox", true, &sources);
    assert_eq!(with_content.len(), 1);
    assert_eq!(with_content[0].id, "p1");
    assert_eq!(with_content[0].kind, SearchMatchKind::Content);
}

#[test]
fn search_hits_title_match_takes_priority_over_content() {
    let (index, sources) = make_kb(&[("p1", "Fox Guide", &[], "the fox jumps")]);
    let hits = index.search_hits("fox", true, &sources);
    assert_eq!(hits.len(), 1);
    assert_eq!(hits[0].kind, SearchMatchKind::Title);
}

#[test]
fn search_hits_same_score_sorted_alphabetically() {
    let (index, sources) = make_kb(&[
        ("p1", "Zebra", &["common"], "body"),
        ("p2", "Alpha", &["common"], "body"),
        ("p3", "Middle", &["common"], "body"),
    ]);
    let hits = index.search_hits("common", false, &sources);
    let ids: Vec<&str> = hits.iter().map(|h| h.id.as_str()).collect();
    // all tag matches → same score → alphabetical by title
    assert_eq!(ids, vec!["p2", "p3", "p1"]);
}

#[test]
fn search_hits_title_ranked_above_tag() {
    let (index, sources) = make_kb(&[
        ("p1", "Page One", &["rust"], "body"),
        ("p2", "Rust Guide", &[], "body"),
    ]);
    let hits = index.search_hits("rust", false, &sources);
    assert_eq!(hits.len(), 2);
    // title match first
    assert_eq!(hits[0].id, "p2");
    assert_eq!(hits[0].kind, SearchMatchKind::Title);
    // tag match second
    assert_eq!(hits[1].id, "p1");
    assert_eq!(hits[1].kind, SearchMatchKind::Tag);
}

#[test]
fn search_hits_title_ranked_above_content() {
    let (index, sources) = make_kb(&[
        ("p1", "Alpha", &[], "the word rust appears here"),
        ("p2", "Rust Guide", &[], "no match in body"),
    ]);
    let hits = index.search_hits("rust", true, &sources);
    assert_eq!(hits.len(), 2);
    assert_eq!(hits[0].id, "p2");
    assert_eq!(hits[0].kind, SearchMatchKind::Title);
    assert_eq!(hits[1].id, "p1");
    assert_eq!(hits[1].kind, SearchMatchKind::Content);
}

#[test]
fn search_hits_tag_ranked_above_content() {
    let (index, sources) = make_kb(&[
        ("p1", "Alpha", &[], "the word rust appears here"),
        ("p2", "Beta", &["rust"], "no match in body"),
    ]);
    let hits = index.search_hits("rust", true, &sources);
    assert_eq!(hits.len(), 2);
    assert_eq!(hits[0].id, "p2");
    assert_eq!(hits[0].kind, SearchMatchKind::Tag);
    assert_eq!(hits[1].id, "p1");
    assert_eq!(hits[1].kind, SearchMatchKind::Content);
}

#[test]
fn search_hits_mixed_kinds_ranked_correctly() {
    let (index, sources) = make_kb(&[
        ("p1", "Alpha", &[], "cli tools are great"),
        ("p2", "Beta", &["cli"], "no match"),
        ("p3", "CLI Reference", &[], "no match"),
        ("p4", "Delta", &[], "no match"),
    ]);
    let hits = index.search_hits("cli", true, &sources);
    assert_eq!(hits.len(), 3);
    // title match first
    assert_eq!(hits[0].id, "p3");
    assert_eq!(hits[0].kind, SearchMatchKind::Title);
    // tag match second
    assert_eq!(hits[1].id, "p2");
    assert_eq!(hits[1].kind, SearchMatchKind::Tag);
    // content match last
    assert_eq!(hits[2].id, "p1");
    assert_eq!(hits[2].kind, SearchMatchKind::Content);
}

#[test]
fn search_hits_title_with_tag_stays_title() {
    // page matches both title and tag — kind should be Title (highest)
    let (index, sources) =
        make_kb(&[("p1", "Rust Guide", &["rust"], "also mentions rust")]);
    let hits = index.search_hits("rust", true, &sources);
    assert_eq!(hits.len(), 1);
    assert_eq!(hits[0].kind, SearchMatchKind::Title);
}

#[test]
fn search_hits_tag_match_takes_priority_over_content() {
    let (index, sources) = make_kb(&[("p1", "Some Page", &["fox"], "the fox jumps")]);
    let hits = index.search_hits("fox", true, &sources);
    assert_eq!(hits.len(), 1);
    assert_eq!(hits[0].kind, SearchMatchKind::Tag);
}

#[test]
fn search_hits_id_match_counts_as_title() {
    let (index, sources) = make_kb(&[("rustacean", "Some Page", &[], "body")]);
    let hits = index.search_hits("rustacean", false, &sources);
    assert_eq!(hits.len(), 1);
    assert_eq!(hits[0].kind, SearchMatchKind::Title);
}

#[test]
fn filter_page_ids_scored_returns_kinds() {
    let (index, _) = make_kb(&[
        ("p1", "Rust Intro", &[], "body"),
        ("p2", "Beta", &["rust"], "body"),
        ("p3", "Gamma", &[], "body"),
    ]);
    let scored = index.filter_page_ids_scored("rust");
    assert_eq!(scored.len(), 2);
    let map: HashMap<&str, SearchMatchKind> =
        scored.iter().map(|(id, k)| (id.as_str(), *k)).collect();
    assert_eq!(map["p1"], SearchMatchKind::Title);
    assert_eq!(map["p2"], SearchMatchKind::Tag);
}

#[test]
fn classify_link_target_page_prefix() {
    let (index, _) = make_kb(&[("p1", "Alpha", &[], "body")]);
    assert!(matches!(
        index.classify_link_target("page:p1"),
        LinkTargetKind::InternalPage(id) if id == "p1"
    ));
    assert!(matches!(
        index.classify_link_target("page:nonexistent"),
        LinkTargetKind::Unknown(_)
    ));
}

#[test]
fn classify_link_target_empty_is_unknown() {
    let (index, _) = make_kb(&[("p1", "Alpha", &[], "body")]);
    assert!(matches!(
        index.classify_link_target(""),
        LinkTargetKind::Unknown(_)
    ));
}

#[test]
fn classify_link_target_title_fallback() {
    let (index, _) = make_kb(&[("p1", "My Special Page", &[], "body")]);
    assert!(matches!(
        index.classify_link_target("My Special Page"),
        LinkTargetKind::InternalPage(id) if id == "p1"
    ));
}

#[test]
fn classify_link_target_mixed_case_urls() {
    let (index, _) = make_kb(&[("p1", "Alpha", &[], "body")]);
    assert!(matches!(
        index.classify_link_target("HTTPS://EXAMPLE.COM"),
        LinkTargetKind::ExternalUrl(_)
    ));
    assert!(matches!(
        index.classify_link_target("Http://Example.Com"),
        LinkTargetKind::ExternalUrl(_)
    ));
    assert!(matches!(
        index.classify_link_target("MAILTO:user@host.com"),
        LinkTargetKind::ExternalUrl(_)
    ));
}

#[test]
fn classify_link_target_whitespace_only_is_unknown() {
    let (index, _) = make_kb(&[("p1", "Alpha", &[], "body")]);
    assert!(matches!(
        index.classify_link_target("   "),
        LinkTargetKind::Unknown(_)
    ));
    assert!(matches!(
        index.classify_link_target("\t\n"),
        LinkTargetKind::Unknown(_)
    ));
}

#[test]
fn classify_link_target_trims_whitespace_around_url() {
    let (index, _) = make_kb(&[("p1", "Alpha", &[], "body")]);
    assert!(matches!(
        index.classify_link_target("  https://example.com  "),
        LinkTargetKind::ExternalUrl(_)
    ));
}

#[test]
fn classify_link_target_unusual_schemes() {
    let (index, _) = make_kb(&[("p1", "Alpha", &[], "body")]);
    assert!(matches!(
        index.classify_link_target("ftp://files.example.com"),
        LinkTargetKind::ExternalUrl(_)
    ));
    assert!(matches!(
        index.classify_link_target("ssh://git.example.com"),
        LinkTargetKind::ExternalUrl(_)
    ));
}

#[test]
fn resolve_page_id_by_title_empty_and_whitespace() {
    let (index, _) = make_kb(&[("p1", "Alpha", &[], "body")]);
    assert_eq!(
        index.resolve_page_id_by_title(""),
        TitleResolution::NotFound
    );
    assert_eq!(
        index.resolve_page_id_by_title("   "),
        TitleResolution::NotFound
    );
}

#[test]
fn resolve_page_id_by_title_case_insensitive_exact() {
    let (index, _) = make_kb(&[("p1", "Alpha", &[], "body")]);
    assert_eq!(
        index.resolve_page_id_by_title("ALPHA"),
        TitleResolution::Unique("p1".to_string())
    );
}

#[test]
fn filter_page_ids_no_match_returns_empty() {
    let (index, _) = make_kb(&[("p1", "Alpha", &[], "body")]);
    assert!(index.filter_page_ids("zzzzz").is_empty());
}

#[test]
fn open_empty_directory_returns_empty_index() {
    let (index, _) = open_kb(&[]);
    assert!(index.pages.is_empty());
    assert!(index.index_issues.is_empty());
}

#[test]
fn open_skips_non_lepiter_files() {
    let (index, _) = open_kb(&[file("readme.txt", "hello"), file("data.json", "{}")]);
    assert!(index.pages.is_empty());
    assert!(index.index_issues.is_empty());
}

#[test]
fn open_reports_invalid_json_as_issue() {
    let (index, _) = open_kb(&[file("broken.lepiter", "not json at all")]);
    assert!(index.pages.is_empty());
    assert_eq!(index.index_issues.len(), 1);
    assert!(index.index_issues[0].message.contains("failed to decode"));
}

#[test]
fn open_reports_wrong_json_structure_as_issue() {
    let (index, _) = open_kb(&[file("array.lepiter", "[1, 2, 3]")]);
    assert!(index.pages.is_empty());
    assert_eq!(index.index_issues.len(), 1);
}

#[test]
fn open_fills_in_defaults_for_minimal_page() {
    let (index, _) = open_kb(&[file("mypage.lepiter", "{}")]);
    assert_eq!(index.pages.len(), 1);
    let meta = index.pages.value_at(0);
    assert_eq!(meta.id, "mypage");
    assert_eq!(meta.title, "mypage");
}

#[test]
fn open_reports_duplicate_ids_across_files() {
    let page = |name: &str, body: &str| {
        file(
            name,
            &format!(
                r#"{{
                    "uid": {{"uuid": "shared"}},
                    "pageType": {{"title": "Whatever"}},
                    "tags": [],
                    "children": {{"items": [{{"__type": "textSnippet", "string": "{body}"}}]}}
                }}"#
            ),
        )
    };
    let (index, _) = open_kb(&[page("a.lepiter", "first"), page("b.lepiter", "second")]);

    assert_eq!(index.pages.len(), 1);
    let dupes = index.find_duplicate_ids();
    assert_eq!(dupes.len(), 1);
    assert_eq!(dupes[0].id, "shared");
    assert_eq!(dupes[0].paths, vec!["/kb/a.lepiter", "/kb/b.lepiter"]);
}

#[test]
fn open_reports_no_duplicate_ids_for_unique_kb() {
    let (index, _) = make_kb(&[("p1", "Alpha", &[], "a"), ("p2", "Beta", &[], "b")]);
    assert!(index.find_duplicate_ids().is_empty());
}

#[test]
fn load_page_nonexistent_id_errors() {
    let (index, sources) = open_kb(&[]);
    let err = index.load_from("does-not-exist", &sources);
    assert!(err.is_err());
    assert!(err.unwrap_err().contains("page id not found"));
}

#[test]
fn load_page_missing_children_yields_empty_content() {
    let (index, sources) = open_kb(&[file(
        "pg-1.lepiter",
        r#"{"uid": {"uuid": "pg-1"}, "pageType": {"title": "T"}}"#,
    )]);
    let page = index.load_from("pg-1", &sources).unwrap();
    assert!(page.content.is_empty());
}

#[test]
fn build_backlinks_computes_reverse_index() {
    let (mut index, sources) = make_kb(&[
        ("p1", "Alpha", &[], "see [[Beta]]"),
        ("p2", "Beta", &[], "links to [a](page:p1) and [[Gamma]]"),
        ("p3", "Gamma", &[], "no links here"),
    ]);
    index.build_backlinks(&sources);

    // p1 is linked to by p2 (via page:p1)
    assert_eq!(index.backlinks_for("p1"), vec!["p2"]);
    // p2 ("Beta") is linked to by p1 (via [[Beta]])
    assert_eq!(index.backlinks_for("p2"), vec!["p1"]);
    // p3 ("Gamma") is linked to by p2 (via [[Gamma]])
    assert_eq!(index.backlinks_for("p3"), vec!["p2"]);

}

#[test]
fn build_backlinks_excludes_self_links() {
    let (mut index, sources) = make_kb(&[("p1", "Alpha", &[], "see [[Alpha]]")]);
    index.build_backlinks(&sources);
    assert!(index.backlinks_for("p1").is_empty());
}

#[test]
fn backlinks_for_unknown_page_returns_empty() {
    let (mut index, sources) = make_kb(&[("p1", "Alpha", &[], "text")]);
    index.build_backlinks(&sources);
    assert!(index.backlinks_for("nonexistent").is_empty());
}

#[test]
fn build_backlinks_deduplicates_multiple_links() {
    let (mut index, sources) = make_kb(&[
        ("p1", "Alpha", &[], "[[Beta]] and [[Beta]] again"),
        ("p2", "Beta", &[], "nothing"),
    ]);
    index.build_backlinks(&sources);
    // p1 links to p2 twice but should only appear once
    assert_eq!(index.backlinks_for("p2"), vec!["p1"]);
}

#[test]
fn build_backlinks_sorted_by_title() {
    let (mut index, sources) = make_kb(&[
        ("p1", "Zebra", &[], "links to [[Target]]"),
        ("p2", "Alpha", &[], "links to [[Target]]"),
        ("p3", "Target", &[], "nothing"),
    ]);
    index.build_backlinks(&sources);
    assert_eq!(index.backlinks_for("p3"), vec!["p2", "p1"]);
}

#[test]
fn update_backlinks_for_adds_new_links() {
    let (mut index, sources) = make_kb(&[
        ("p1", "Alpha", &[], "no links"),
        ("p2", "Beta", &[], "nothing"),
    ]);
    index.build_backlinks(&sources);
    assert!(index.backlinks_for("p2").is_empty());

    // Simulate editing p1 to add a link to Beta.
    let content = json(r##"{
        "uid": {"uuid": "p1"},
        "pageType": {"title": "Alpha"},
        "children": {"items": [
            {"__type": "textSnippet", "string": "now links to [[Beta]]"}
        ]}
    }"##);

    index.update_backlinks_for("p1", &PageSource::Raw(content));
    assert_eq!(index.backlinks_for("p2"), vec!["p1"]);

}

#[test]
fn update_backlinks_for_removes_stale_links() {
    let (mut index, sources) = make_kb(&[
        ("p1", "Alpha", &[], "see [[Beta]]"),
        ("p2", "Beta", &[], "nothing"),
    ]);
    index.build_backlinks(&sources);
    assert_eq!(index.backlinks_for("p2"), vec!["p1"]);

    // Edit p1 to remove the link.
    let content = json(r##"{
        "uid": {"uuid": "p1"},
        "pageType": {"title": "Alpha"},
        "children": {"items": [
            {"__type": "textSnippet", "string": "no links anymore"}
        ]}
    }"##);

    index.update_backlinks_for("p1", &PageSource::Raw(content));
    assert!(index.backlinks_for("p2").is_empty());

}

#[test]
fn update_backlinks_for_replaces_changed_link() {
    let (mut index, sources) = make_kb(&[
        ("p1", "Alpha", &[], "see [[Beta]]"),
        ("p2", "Beta", &[], "nothing"),
        ("p3", "Gamma", &[], "nothing"),
    ]);
    index.build_backlinks(&sources);
    assert_eq!(index.backlinks_for("p2"), vec!["p1"]);
    assert!(index.backlinks_for("p3").is_empty());

    // Edit p1 to link to Gamma instead of Beta.
    let content = json(r##"{
        "uid": {"uuid": "p1"},
        "pageType": {"title": "Alpha"},
        "children": {"items": [
            {"__type": "textSnippet", "string": "see [[Gamma]]"}
        ]}
    }"##);

    index.update_backlinks_for("p1", &PageSource::Raw(content));
    assert!(index.backlinks_for("p2").is_empty());
    assert_eq!(index.backlinks_for("p3"), vec!["p1"]);

}

#[test]
fn update_backlinks_for_preserves_other_sources() {
    let (mut index, sources) = make_kb(&[
        ("p1", "Alpha", &[], "see [[Gamma]]"),
        ("p2", "Beta", &[], "see [[Gamma]]"),
        ("p3", "Gamma", &[], "nothing"),
    ]);
    index.build_backlinks(&sources);
    assert_eq!(index.backlinks_for("p3"), vec!["p1", "p2"]);

    // Edit p1 to remove its link; p2's link should remain.
    let content = json(r##"{
        "uid": {"uuid": "p1"},
        "pageType": {"title": "Alpha"},
        "children": {"items": [
            {"__type": "textSnippet", "string": "no link"}
        ]}
    }"##);

    index.update_backlinks_for("p1", &PageSource::Raw(content));
    assert_eq!(index.backlinks_for("p3"), vec!["p2"]);

}

#[test]
fn update_backlinks_for_deduplicates() {
    let (mut index, sources) = make_kb(&[
        ("p1", "Alpha", &[], "nothing"),
        ("p2", "Beta", &[], "nothing"),
    ]);
    index.build_backlinks(&sources);

    // Edit p1 to link to Beta twice.
    let content = json(r##"{
        "uid": {"uuid": "p1"},
        "pageType": {"title": "Alpha"},
        "children": {"items": [
            {"__type": "textSnippet", "string": "[[Beta]] and [[Beta]] again"}
        ]}
    }"##);

    index.update_backlinks_for("p1", &PageSource::Raw(content));
    assert_eq!(index.backlinks_for("p2"), vec!["p1"]);

}

#[test]
fn update_backlinks_for_excludes_self_links() {
    let (mut index, sources) = make_kb(&[("p1", "Alpha", &[], "nothing")]);
    index.build_backlinks(&sources);

    // Edit p1 to link to itself.
    let content = json(r##"{
        "uid": {"uuid": "p1"},
        "pageType": {"title": "Alpha"},
        "children": {"items": [
            {"__type": "textSnippet", "string": "see [[Alpha]]"}
        ]}
    }"##);

    index.update_backlinks_for("p1", &PageSource::Raw(content));
    assert!(index.backlinks_for("p1").is_empty());

}

#[test]
fn update_backlinks_for_maintains_sort_order() {
    let (mut index, sources) = make_kb(&[
        ("p1", "Zebra", &[], "nothing"),
        ("p2", "Alpha", &[], "links to [[Target]]"),
        ("p3", "Target", &[], "nothing"),
    ]);
    index.build_backlinks(&sources);
    assert_eq!(index.backlinks_for("p3"), vec!["p2"]);

    // Edit p1 (Zebra) to also link to Target; result should be sorted Alpha, Zebra.
    let content = json(r##"{
        "uid": {"uuid": "p1"},
        "pageType": {"title": "Zebra"},
        "children": {"items": [
            {"__type": "textSnippet", "string": "links to [[Target]]"}
        ]}
    }"##);

    index.update_backlinks_for("p1", &PageSource::Raw(content));
    assert_eq!(index.backlinks_for("p3"), vec!["p2", "p1"]);

}

#[test]
fn register_page_adds_and_resorts() {
    let (mut index, _) = open_kb(&[]);
    assert!(index.sorted_ids.is_empty());

    let meta = PageMeta {
        id: "new-page".to_string(),
        id_lower: "new-page".to_string(),
        title: "My Page".to_string(),
        title_lower: "my page".to_string(),
        path: "/kb/new-page.lepiter".to_string(),
        updated_at: None,
        tags: Vec::new(),
        tags_lower: Vec::new(),
    };
    index.register_page(meta);
    assert_eq!(index.sorted_ids.len(), 1);
    assert_eq!(index.sorted_ids[0], "new-page");
    assert!(index.pages.contains_key("new-page"));

}

#[test]
fn register_page_reregistration_no_duplicate() {
    let (mut index, _) = open_kb(&[]);

    let meta = PageMeta {
        id: "dup".to_string(),
        id_lower: "dup".to_string(),
        title: "Original".to_string(),
        title_lower: "original".to_string(),
        path: "/kb/dup.lepiter".to_string(),
        updated_at: None,
        tags: Vec::new(),
        tags_lower: Vec::new(),
    };
    index.register_page(meta);
    assert_eq!(index.sorted_ids.len(), 1);

    // Re-register same id with a different title.
    let updated = PageMeta {
        id: "dup".to_string(),
        id_lower: "dup".to_string(),
        title: "Renamed".to_string(),
        title_lower: "renamed".to_string(),
        path: "/kb/dup.lepiter".to_string(),
        updated_at: None,
        tags: Vec::new(),
        tags_lower: Vec::new(),
    };
    index.register_page(updated);

    // sorted_ids must still contain the id exactly once.
    assert_eq!(index.sorted_ids.len(), 1);
    assert_eq!(index.sorted_ids[0], "dup");
    // The page data should reflect the updated title.
    assert_eq!(index.page_meta("dup").unwrap().title, "Renamed");

}

fn meta_with_title(id: &str, title: &str) -> PageMeta {
    PageMeta {
        id: id.to_string(),
        id_lower: id.to_lowercase(),
        title: title.to_string(),
        title_lower: title.to_lowercase(),
        path: format!("/tmp/{id}.lepiter"),
        updated_at: None,
        tags: Vec::new(),
        tags_lower: Vec::new(),
    }
}

#[test]
fn register_page_title_change_updates_exact_title_index() {
    let (mut index, _) = open_kb(&[]);

    index.register_page(meta_with_title("pg", "Old Title"));
    assert_eq!(
        index.resolve_page_id_by_title_exact("Old Title"),
        TitleResolution::Unique("pg".to_string())
    );

    // Rename the page; the exact index must follow the new title only.
    index.register_page(meta_with_title("pg", "New Title"));
    assert_eq!(
        index.resolve_page_id_by_title_exact("new title"),
        TitleResolution::Unique("pg".to_string())
    );
    assert_eq!(
        index.resolve_page_id_by_title_exact("Old Title"),
        TitleResolution::NotFound
    );

}

#[test]
fn register_page_duplicate_titles_resolve_ambiguous_via_index() {
    let (mut index, _) = open_kb(&[]);

    index.register_page(meta_with_title("p1", "Shared"));
    index.register_page(meta_with_title("p2", "Shared"));

    match index.resolve_page_id_by_title_exact("shared") {
        TitleResolution::Ambiguous(ids) => {
            assert_eq!(ids.len(), 2);
            assert!(ids.contains(&"p1".to_string()));
            assert!(ids.contains(&"p2".to_string()));
        }
        other => panic!("expected Ambiguous, got {other:?}"),
    }

}

#[test]
fn register_page_rename_out_of_shared_bucket_leaves_other_unique() {
    let (mut index, _) = open_kb(&[]);

    index.register_page(meta_with_title("p1", "Shared"));
    index.register_page(meta_with_title("p2", "Shared"));

    // Rename p1 away from the shared title: the bucket shrinks to one, so
    // "Shared" now resolves uniquely to p2 and "Renamed" to p1.
    index.register_page(meta_with_title("p1", "Renamed"));
    assert_eq!(
        index.resolve_page_id_by_title_exact("Shared"),
        TitleResolution::Unique("p2".to_string())
    );
    assert_eq!(
        index.resolve_page_id_by_title_exact("Renamed"),
        TitleResolution::Unique("p1".to_string())
    );

}

#[test]
fn build_link_graph_collects_edges() {
    let (index, sources) = make_kb(&[
        ("p1", "Alpha", &[], "see [[Beta]]"),
        ("p2", "Beta", &[], "links to [a](page:p1) and [[Gamma]]"),
        ("p3", "Gamma", &[], "no links here"),
    ]);
    let graph = index.build_link_graph(&sources);
    assert_eq!(graph.edges.len(), 3);
    let pairs: Vec<(&str, &str)> = graph
        .edges
        .iter()
        .map(|e| (e.source.as_str(), e.target.as_str()))
        .collect();
    assert!(pairs.contains(&("p1", "p2")));
    assert!(pairs.contains(&("p2", "p1")));
    assert!(pairs.contains(&("p2", "p3")));
}

#[test]
fn build_link_graph_excludes_self_links() {
    let (index, sources) = make_kb(&[("p1", "Alpha", &[], "see [[Alpha]]")]);
    let graph = index.build_link_graph(&sources);
    assert!(graph.edges.is_empty());
}

#[test]
fn build_link_graph_deduplicates() {
    let (index, sources) = make_kb(&[
        ("p1", "Alpha", &[], "[[Beta]] and [[Beta]] again"),
        ("p2", "Beta", &[], "nothing"),
    ]);
    let graph = index.build_link_graph(&sources);
    assert_eq!(graph.edges.len(), 1);
}

#[test]
fn link_graph_ego_filters_by_page() {
    let (index, sources) = make_kb(&[
        ("p1", "Alpha", &[], "see [[Beta]]"),
        ("p2", "Beta", &[], "see [[Gamma]]"),
        ("p3", "Gamma", &[], "nothing"),
    ]);
    let graph = index.build_link_graph(&sources);
    let ego = graph.ego("p2");
    assert_eq!(ego.len(), 2);
    let pairs: Vec<(&str, &str)> = ego
        .iter()
        .map(|e| (e.source.as_str(), e.target.as_str()))
        .collect();
    assert!(pairs.contains(&("p1", "p2")));
    assert!(pairs.contains(&("p2", "p3")));
}

#[test]
fn link_graph_ego_unconnected_page() {
    let (index, sources) = make_kb(&[
        ("p1", "Alpha", &[], "see [[Beta]]"),
        ("p2", "Beta", &[], "nothing"),
        ("p3", "Gamma", &[], "nothing"),
    ]);
    let graph = index.build_link_graph(&sources);
    assert!(graph.ego("p3").is_empty());
}

// -----------------------------------------------------------------------
// analyze_links
// -----------------------------------------------------------------------

#[test]
fn analyze_links_detects_broken_links() {
    let (index, sources) = make_kb(&[
        ("p1", "Page One", &[], "see [link](page:nonexistent) here"),
        ("p2", "Page Two", &[], "hello"),
    ]);
    let result = index.analyze_links(&sources, &vec![]);
    assert_eq!(result.broken_links.len(), 1);
    assert_eq!(result.broken_links[0].source_id, "p1");
    assert_eq!(result.broken_links[0].target, "page:nonexistent");
    assert!(result.load_errors.is_empty());
}

#[test]
fn analyze_links_tracks_linked_pages() {
    let (index, sources) = make_kb(&[
        ("p1", "Page One", &[], "see [link](page:p2) for more"),
        ("p2", "Page Two", &[], "target page"),
    ]);
    let result = index.analyze_links(&sources, &vec![]);
    assert!(result.linked_pages.contains(&"p2".to_string()));
    assert!(!result.linked_pages.contains(&"p1".to_string()));
    assert!(result.broken_links.is_empty());
}

#[test]
fn analyze_links_empty_kb() {
    let (index, sources) = make_kb(&[]);
    let result = index.analyze_links(&sources, &vec![]);
    assert!(result.broken_links.is_empty());
    assert!(result.linked_pages.is_empty());
    assert!(result.load_errors.is_empty());
}

#[test]
fn analyze_links_captures_load_errors() {
    // Create a valid page, then corrupt its file after indexing.
    let (index, sources) = make_kb(&[("p1", "Page One", &[], "hello")]);
    let sources = failing("p1", "NOT VALID JSON");
    let result = index.analyze_links(&sources, &vec![]);
    assert_eq!(result.load_errors.len(), 1);
    assert_eq!(result.load_errors[0].page_id, "p1");
    assert_eq!(result.load_errors[0].title, "Page One");
}

// -----------------------------------------------------------------------
// orphan_ids
// -----------------------------------------------------------------------

#[test]
fn orphan_ids_excludes_linked_pages() {
    let (index, sources) = make_kb(&[
        ("p1", "Page One", &[], "see [link](page:p2) for more"),
        ("p2", "Page Two", &[], "target page"),
    ]);
    let result = index.analyze_links(&sources, &vec![]);
    let orphans = index.orphan_ids(&result.linked_pages, None);
    // p2 is linked to by p1, so only p1 should be orphan.
    assert_eq!(orphans, vec!["p1"]);
}

#[test]
fn orphan_ids_excludes_toc_page() {
    let (index, sources) = make_kb(&[
        ("toc", "Table of Contents", &[], "hello"),
        ("p1", "Page One", &[], "world"),
    ]);
    let result = index.analyze_links(&sources, &vec![]);
    let orphans = index.orphan_ids(&result.linked_pages, Some("toc"));
    // toc excluded, only p1 should be orphan.
    assert_eq!(orphans, vec!["p1"]);
}

// -----------------------------------------------------------------------
// find_duplicate_titles
// -----------------------------------------------------------------------

#[test]
fn find_duplicate_titles_none_when_unique() {
    let (index, _) =
        make_kb(&[("p1", "Alpha", &[], "body"), ("p2", "Beta", &[], "body")]);
    assert!(index.find_duplicate_titles().is_empty());
}

#[test]
fn find_duplicate_titles_detects_exact_match() {
    let (index, _) =
        make_kb(&[("p1", "Alpha", &[], "body"), ("p2", "Alpha", &[], "body")]);
    let dupes = index.find_duplicate_titles();
    assert_eq!(dupes.len(), 1);
    assert_eq!(dupes[0].title, "Alpha");
    assert_eq!(dupes[0].page_ids.len(), 2);
    assert!(dupes[0].page_ids.contains(&"p1".to_string()));
    assert!(dupes[0].page_ids.contains(&"p2".to_string()));
}

#[test]
fn find_duplicate_titles_case_insensitive() {
    let (index, _) =
        make_kb(&[("p1", "Alpha", &[], "body"), ("p2", "ALPHA", &[], "body")]);
    let dupes = index.find_duplicate_titles();
    assert_eq!(dupes.len(), 1);
    assert_eq!(dupes[0].page_ids.len(), 2);
}

#[test]
fn find_duplicate_titles_multiple_groups() {
    let (index, _) = make_kb(&[
        ("p1", "Alpha", &[], "body"),
        ("p2", "Alpha", &[], "body"),
        ("p3", "Beta", &[], "body"),
        ("p4", "Beta", &[], "body"),
        ("p5", "Gamma", &[], "body"),
    ]);
    let dupes = index.find_duplicate_titles();
    assert_eq!(dupes.len(), 2);
    // sorted alphabetically
    assert_eq!(dupes[0].title, "Alpha");
    assert_eq!(dupes[1].title, "Beta");
}

#[test]
fn find_duplicate_titles_empty_kb() {
    let (index, _) = make_kb(&[]);
    assert!(index.find_duplicate_titles().is_empty());
}

// -----------------------------------------------------------------------
// find_missing_attachments
// -----------------------------------------------------------------------

#[test]
fn find_missing_attachments_none_when_no_refs() {
    let (index, sources) = make_kb(&[("p1", "Alpha", &[], "no attachment refs")]);
    assert!(index.find_missing_attachments(&sources, &vec![]).is_empty());
}

#[test]
fn find_missing_attachments_detects_missing_file() {
    let (index, sources) =
        make_kb(&[("p1", "Alpha", &[], "see [img](attachments/missing.png)")]);
    let missing = index.find_missing_attachments(&sources, &vec![]);
    assert_eq!(missing.len(), 1);
    assert_eq!(missing[0].source_id, "p1");
    assert_eq!(missing[0].target, "attachments/missing.png");
}

#[test]
fn find_missing_attachments_ignores_existing_file() {
    let (index, sources) =
        make_kb(&[("p1", "Alpha", &[], "see [img](attachments/present.png)")]);
    let missing = index.find_missing_attachments(&sources, &vec!["/kb/attachments/present.png".to_string()]);
    assert!(missing.is_empty());
}

#[test]
fn find_missing_attachments_mixed() {
    let (index, sources) = make_kb(&[(
        "p1",
        "Alpha",
        &[],
        "see [a](attachments/ok.png) and [b](attachments/gone.png)",
    )]);
    let missing = index.find_missing_attachments(&sources, &vec!["/kb/attachments/ok.png".to_string()]);
    assert_eq!(missing.len(), 1);
    assert_eq!(missing[0].target, "attachments/gone.png");
}

#[test]
fn find_missing_attachments_reports_every_referencing_page() {
    let (index, sources) = make_kb(&[
        ("p1", "Alpha", &[], "see [img](attachments/missing.png)"),
        ("p2", "Beta", &[], "see [img](attachments/missing.png)"),
    ]);
    let missing = index.find_missing_attachments(&sources, &vec![]);
    assert_eq!(missing.len(), 2);
    let sources: Vec<&str> = missing.iter().map(|m| m.source_id.as_str()).collect();
    assert_eq!(sources, vec!["p1", "p2"]);
}

#[test]
fn find_missing_attachments_deduplicates_within_a_page() {
    let (index, sources) = make_kb(&[(
        "p1",
        "Alpha",
        &[],
        "see [a](attachments/missing.png) and [b](attachments/missing.png)",
    )]);
    let missing = index.find_missing_attachments(&sources, &vec![]);
    assert_eq!(missing.len(), 1);
    assert_eq!(missing[0].source_id, "p1");
}

#[test]
fn find_missing_attachments_ignores_non_attachment_links() {
    let (index, sources) = make_kb(&[(
        "p1",
        "Alpha",
        &[],
        "see [link](page:p2) and [ext](https://example.com)",
    )]);
    assert!(index.find_missing_attachments(&sources, &vec![]).is_empty());
}

// -----------------------------------------------------------------------
// analyze_all
// -----------------------------------------------------------------------

#[test]
fn analyze_all_combines_broken_links_and_missing_attachments() {
    let (index, sources) = make_kb(&[(
        "p1",
        "Alpha",
        &[],
        "see [link](page:nonexistent) and [img](attachments/gone.png)",
    )]);
    let result = index.analyze_all(&sources, &vec![]);
    assert_eq!(result.broken_links.len(), 1);
    assert_eq!(result.broken_links[0].target, "page:nonexistent");
    assert_eq!(result.missing_attachments.len(), 1);
    assert_eq!(result.missing_attachments[0].target, "attachments/gone.png");
}

#[test]
fn analyze_all_tracks_linked_pages() {
    let (index, sources) = make_kb(&[
        ("p1", "Alpha", &[], "see [link](page:p2) here"),
        ("p2", "Beta", &[], "nothing"),
    ]);
    let result = index.analyze_all(&sources, &vec![]);
    assert!(result.linked_pages.contains(&"p2".to_string()));
    assert!(!result.linked_pages.contains(&"p1".to_string()));
    assert!(result.broken_links.is_empty());
    assert!(result.missing_attachments.is_empty());
}

#[test]
fn analyze_all_empty_kb() {
    let (index, sources) = make_kb(&[]);
    let result = index.analyze_all(&sources, &vec![]);
    assert!(result.broken_links.is_empty());
    assert!(result.linked_pages.is_empty());
    assert!(result.load_errors.is_empty());
    assert!(result.missing_attachments.is_empty());
}

#[test]
fn analyze_all_captures_load_errors() {
    let (index, sources) = make_kb(&[("p1", "Page One", &[], "hello")]);
    let sources = failing("p1", "NOT VALID JSON");
    let result = index.analyze_all(&sources, &vec![]);
    assert_eq!(result.load_errors.len(), 1);
    assert_eq!(result.load_errors[0].page_id, "p1");
}

#[test]
fn analyze_all_skips_existing_attachments() {
    let (index, sources) =
        make_kb(&[("p1", "Alpha", &[], "see [img](attachments/present.png)")]);
    let result = index.analyze_all(&sources, &vec!["/kb/attachments/present.png".to_string()]);
    assert!(result.missing_attachments.is_empty());
}

#[test]
fn analyze_all_reports_missing_attachment_once_per_page() {
    let (index, sources) = make_kb(&[
        ("p1", "Alpha", &[], "see [img](attachments/missing.png)"),
        (
            "p2",
            "Beta",
            &[],
            "see [a](attachments/missing.png) and [b](attachments/missing.png)",
        ),
        ("p3", "Gamma", &[], "see [img](attachments/missing.png)"),
    ]);
    let result = index.analyze_all(&sources, &vec![]);
    let reported: Vec<(&str, &str)> = result
        .missing_attachments
        .iter()
        .map(|m| (m.source_id.as_str(), m.source_title.as_str()))
        .collect();
    assert_eq!(
        reported,
        vec![("p1", "Alpha"), ("p2", "Beta"), ("p3", "Gamma")]
    );
}

#[test]
fn analyze_all_mixed_links_and_attachments() {
    let (index, sources) = make_kb(&[
        (
            "p1",
            "Alpha",
            &[],
            "see [link](page:p2) and [img](attachments/gone.png)",
        ),
        (
            "p2",
            "Beta",
            &[],
            "see [link](page:nonexistent) and [ext](https://example.com)",
        ),
    ]);
    let result = index.analyze_all(&sources, &vec![]);
    // p1 links to p2 (valid), p2 has a broken link
    assert!(result.linked_pages.contains(&"p2".to_string()));
    assert_eq!(result.broken_links.len(), 1);
    assert_eq!(result.broken_links[0].source_id, "p2");
    // p1 has a missing attachment
    assert_eq!(result.missing_attachments.len(), 1);
    assert_eq!(result.missing_attachments[0].source_id, "p1");
    assert!(result.load_errors.is_empty());
}

// -----------------------------------------------------------------------
// scan_all_pages
// -----------------------------------------------------------------------

#[test]
fn scan_all_pages_collects_edges_and_analysis() {
    let (index, sources) = make_kb(&[
        ("p1", "Alpha", &[], "see [[Beta]]"),
        ("p2", "Beta", &[], "links to [a](page:p1) and [[Gamma]]"),
        ("p3", "Gamma", &[], "no links here"),
    ]);
    let result = index.scan_all_pages(&sources, &vec![]);
    // edges match build_link_graph output
    assert_eq!(result.edges.len(), 3);
    let pairs: Vec<(&str, &str)> = result
        .edges
        .iter()
        .map(|e| (e.source.as_str(), e.target.as_str()))
        .collect();
    assert!(pairs.contains(&("p1", "p2")));
    assert!(pairs.contains(&("p2", "p1")));
    assert!(pairs.contains(&("p2", "p3")));
    // linked_pages consistent with edges
    assert!(result.linked_pages.contains(&"p1".to_string()));
    assert!(result.linked_pages.contains(&"p2".to_string()));
    assert!(result.linked_pages.contains(&"p3".to_string()));
    assert!(result.broken_links.is_empty());
}

#[test]
fn scan_all_pages_edges_exclude_self_links() {
    let (index, sources) = make_kb(&[("p1", "Alpha", &[], "see [[Alpha]]")]);
    let result = index.scan_all_pages(&sources, &vec![]);
    assert!(result.edges.is_empty());
}

#[test]
fn scan_all_pages_edges_deduplicated() {
    let (index, sources) = make_kb(&[
        ("p1", "Alpha", &[], "[[Beta]] and [[Beta]] again"),
        ("p2", "Beta", &[], "nothing"),
    ]);
    let result = index.scan_all_pages(&sources, &vec![]);
    assert_eq!(result.edges.len(), 1);
}

#[test]
fn scan_all_pages_mixed_edges_and_broken() {
    let (index, sources) = make_kb(&[
        (
            "p1",
            "Alpha",
            &[],
            "see [link](page:p2) and [bad](page:nonexistent)",
        ),
        ("p2", "Beta", &[], "nothing"),
    ]);
    let result = index.scan_all_pages(&sources, &vec![]);
    assert_eq!(result.edges.len(), 1);
    assert_eq!(result.edges[0].source, "p1");
    assert_eq!(result.edges[0].target, "p2");
    assert_eq!(result.broken_links.len(), 1);
    assert_eq!(result.broken_links[0].target, "page:nonexistent");
}

#[test]
fn scan_all_pages_wikilink_requires_exact_title_not_substring() {
    let (index, sources) = make_kb(&[
        ("p1", "Guide", &[], "see [[Rust]]"),
        ("p2", "Rust Programming", &[], "nothing"),
    ]);
    let result = index.scan_all_pages(&sources, &vec![]);
    // `[[Rust]]` has no exact-title match: no edge, one broken link.
    assert!(
        result.edges.is_empty(),
        "substring title match fabricated a graph edge: {:?}",
        result.edges
    );
    assert_eq!(result.broken_links.len(), 1);
    assert_eq!(result.broken_links[0].source_id, "p1");
    assert_eq!(result.broken_links[0].target, "Rust");
}

#[test]
fn scan_all_pages_empty_kb() {
    let (index, sources) = make_kb(&[]);
    let result = index.scan_all_pages(&sources, &vec![]);
    assert!(result.edges.is_empty());
    assert!(result.broken_links.is_empty());
    assert!(result.linked_pages.is_empty());
    assert!(result.load_errors.is_empty());
    assert!(result.missing_attachments.is_empty());
}

#[test]
fn scan_all_pages_edges_match_build_link_graph() {
    let (index, sources) = make_kb(&[
        ("p1", "Alpha", &[], "see [[Beta]]"),
        ("p2", "Beta", &[], "see [[Gamma]]"),
        ("p3", "Gamma", &[], "nothing"),
    ]);
    let scan = index.scan_all_pages(&sources, &vec![]);
    let graph = index.build_link_graph(&sources);
    assert_eq!(scan.edges.len(), graph.edges.len());
    for (a, b) in scan.edges.iter().zip(graph.edges.iter()) {
        assert_eq!(a.source, b.source);
        assert_eq!(a.target, b.target);
    }
}
