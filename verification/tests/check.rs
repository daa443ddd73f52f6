use lepiter::check::{check_json, write_check_text, CheckReport};
use lepiter::index::{
    BrokenLink, DuplicateTitle, KnowledgeBase, KnowledgeBaseIndex, MissingAttachment, PageLoadError,
    PageSource, ScannedFile,
};
use lepiter::json::{Json, Member};
use lepiter::model::ParseIssue;
use lepiter::parse::RawMeta;
use lepiter::strmap::StrMap;

fn from_value(value: &serde_json::Value) -> Json {
    match value {
        serde_json::Value::Null => Json::Null,
        serde_json::Value::Bool(b) => Json::Bool(*b),
        serde_json::Value::Number(n) => Json::Number(n.to_string()),
        serde_json::Value::String(s) => Json::Str(s.clone()),
        serde_json::Value::Array(items) => Json::Array(items.iter().map(from_value).collect()),
        serde_json::Value::Object(members) => Json::Object(
            members
                .iter()
                .map(|(name, value)| Member { name: name.clone(), value: from_value(value) })
                .collect(),
        ),
    }
}

fn to_value(json: &Json) -> serde_json::Value {
    match json {
        Json::Null => serde_json::Value::Null,
        Json::Bool(b) => serde_json::Value::Bool(*b),
        Json::Number(n) => serde_json::from_str(n).unwrap(),
        Json::Str(s) => serde_json::Value::String(s.clone()),
        Json::Array(items) => serde_json::Value::Array(items.iter().map(to_value).collect()),
        Json::Object(members) => serde_json::Value::Object(
            members.iter().map(|m| (m.name.clone(), to_value(&m.value))).collect(),
        ),
    }
}

fn text_at(json: &Json, path: &[&str]) -> Option<String> {
    let mut at = json;
    for name in path {
        at = at.get(name)?;
    }
    at.as_str().map(str::to_string)
}

fn raw_meta(json: &Json) -> RawMeta {
    RawMeta {
        uuid: text_at(json, &["uid", "uuid"]),
        uid_string: text_at(json, &["uid", "uidString"]),
        page_title: text_at(json, &["pageType", "title"]),
        title: text_at(json, &["title"]),
        edited: text_at(json, &["editTime", "time", "dateAndTimeString"]),
        tags: json.get("tags").cloned(),
    }
}

/// A knowledge base of some files, each with its name and text, and what reading
/// each page comes to.
fn open_kb(files: &[(String, String)]) -> (KnowledgeBaseIndex, StrMap<PageSource>) {
    let mut scanned = Vec::new();
    let mut contents = Vec::new();
    for (name, text) in files {
        let path = format!("/kb/{name}");
        match serde_json::from_str::<serde_json::Value>(text) {
            Ok(value) if value.is_object() => {
                let json = from_value(&value);
                scanned.push(ScannedFile { path: path.clone(), meta: Ok(raw_meta(&json)) });
                contents.push((path, json));
            }
            _ => scanned.push(ScannedFile { meta: Err(format!("failed to decode {path}")), path }),
        }
    }
    let index = KnowledgeBase::open("/kb", &scanned);
    let mut sources = StrMap::new();
    for id in index.ordered_ids() {
        let path = index.page_meta(&id).unwrap().path.clone();
        for (at, json) in &contents {
            if *at == path {
                sources.insert(id.clone(), PageSource::Raw(json.clone()));
            }
        }
    }
    (index, sources)
}

fn quoted(text: &str) -> String {
    serde_json::Value::String(text.to_string()).to_string()
}

fn make_test_kb(pages: &[(&str, &str, &str)]) -> (KnowledgeBaseIndex, StrMap<PageSource>) {
    let files: Vec<_> = pages
        .iter()
        .map(|(id, title, body)| {
            (
                format!("{id}.lepiter"),
                format!(
                    r#"{{
                        "uid": {{"uuid": {}}},
                        "pageType": {{"title": {}}},
                        "tags": [],
                        "children": {{"items": [{{"__type": "textSnippet", "string": {}}}]}}
                    }}"#,
                    quoted(id),
                    quoted(title),
                    quoted(body)
                ),
            )
        })
        .collect();
    open_kb(&files)
}

/// Lists of nothing found.
#[derive(Default)]
struct Nothing {
    broken_links: Vec<BrokenLink>,
    orphan_ids: Vec<String>,
    load_errors: Vec<PageLoadError>,
    index_issues: Vec<ParseIssue>,
    duplicate_titles: Vec<DuplicateTitle>,
    missing_attachments: Vec<MissingAttachment>,
}

fn empty_report<'a>(index: &'a KnowledgeBaseIndex, nothing: &'a Nothing) -> CheckReport<'a> {
    CheckReport {
        index,
        broken_links: &nothing.broken_links,
        orphan_ids: &nothing.orphan_ids,
        load_errors: &nothing.load_errors,
        index_issues: &nothing.index_issues,
        duplicate_titles: &nothing.duplicate_titles,
        missing_attachments: &nothing.missing_attachments,
    }
}

// --- CheckReport::ok ---

#[test]
fn report_ok_when_empty() {
    let nothing = Nothing::default();
    let (index, _) = make_test_kb(&[]);
    let report = empty_report(&index, &nothing);
    assert!(report.ok());
}

#[test]
fn report_not_ok_with_broken_links() {
    let nothing = Nothing::default();
    let (index, sources) = make_test_kb(&[("p1", "Page One", "see [link](page:gone)")]);
    let analysis = index.analyze_all(&sources, &vec![]);
    let report = CheckReport {
        broken_links: &analysis.broken_links,
        ..empty_report(&index, &nothing)
    };
    assert!(!report.ok());
}

// --- write_check_text: clean KB ---

#[test]
fn check_text_clean_kb_shows_zero_counts() {
    let nothing = Nothing::default();
    let (index, _) = make_test_kb(&[]);
    let report = empty_report(&index, &nothing);
    let out = write_check_text(&report);
    assert!(out.contains("broken_links: 0"));
    assert!(out.contains("orphan_pages: 0"));
    assert!(out.contains("duplicate_titles: 0"));
    assert!(out.contains("missing_attachments: 0"));
    assert!(out.contains("load_errors: 0"));
    assert!(out.contains("index_issues: 0"));
}

#[test]
fn check_text_clean_kb_shows_none_sections() {
    let nothing = Nothing::default();
    let (index, _) = make_test_kb(&[]);
    let report = empty_report(&index, &nothing);
    let out = write_check_text(&report);
    assert!(out.contains("Broken Links (0):"));
    assert!(out.contains("Orphan Pages (0):"));
    assert!(out.contains("Duplicate Titles (0):"));
    assert!(out.contains("Missing Attachments (0):"));
    // Load errors and index issues sections are omitted when empty.
    assert!(!out.contains("Load Errors"));
    assert!(!out.contains("Index Issues"));
}

// --- write_check_text: broken links ---

#[test]
fn check_text_broken_links_listed() {
    let nothing = Nothing::default();
    let (index, sources) = make_test_kb(&[("p1", "Page One", "see [link](page:gone)")]);
    let analysis = index.analyze_all(&sources, &vec![]);
    let report = CheckReport {
        broken_links: &analysis.broken_links,
        ..empty_report(&index, &nothing)
    };
    let out = write_check_text(&report);
    assert!(out.contains("broken_links: 1"));
    assert!(out.contains("Page One -> page:gone"));
}

// --- write_check_text: orphan pages ---

#[test]
fn check_text_orphan_pages_listed_by_title() {
    let nothing = Nothing::default();
    let (index, sources) = make_test_kb(&[("p1", "Alpha", "hello"), ("p2", "Beta", "world")]);
    let analysis = index.analyze_all(&sources, &vec![]);
    let orphan_ids = index.orphan_ids(&analysis.linked_pages, None);
    let report = CheckReport {
        orphan_ids: &orphan_ids,
        ..empty_report(&index, &nothing)
    };
    let out = write_check_text(&report);
    assert!(out.contains("orphan_pages: 2"));
    assert!(out.contains("  Alpha\n"));
    assert!(out.contains("  Beta\n"));
}

// --- write_check_text: duplicate titles ---

#[test]
fn check_text_duplicate_titles_listed() {
    let nothing = Nothing::default();
    let (index, _) = make_test_kb(&[("p1", "Alpha", "body"), ("p2", "Alpha", "body")]);
    let dupes = index.find_duplicate_titles();
    let report = CheckReport {
        duplicate_titles: &dupes,
        ..empty_report(&index, &nothing)
    };
    let out = write_check_text(&report);
    assert!(out.contains("duplicate_titles: 1"));
    assert!(out.contains("\"Alpha\" (2 pages)"));
    assert!(out.contains("    - p1"));
    assert!(out.contains("    - p2"));
}

// --- write_check_text: missing attachments ---

#[test]
fn check_text_missing_attachments_listed() {
    let nothing = Nothing::default();
    let (index, sources) = make_test_kb(&[("p1", "Alpha", "see [img](attachments/missing.png)")]);
    let analysis = index.analyze_all(&sources, &vec![]);
    let report = CheckReport {
        missing_attachments: &analysis.missing_attachments,
        ..empty_report(&index, &nothing)
    };
    let out = write_check_text(&report);
    assert!(out.contains("missing_attachments: 1"));
    assert!(out.contains("Alpha -> "));
    assert!(out.contains("missing.png"));
}

// --- write_check_text: load errors ---

#[test]
fn check_text_load_errors_shown() {
    let nothing = Nothing::default();
    let (index, _) = make_test_kb(&[]);
    let errors = vec![PageLoadError {
        page_id: "p1".into(),
        title: "Broken Page".into(),
        error: "invalid JSON".into(),
    }];
    let report = CheckReport {
        load_errors: &errors,
        ..empty_report(&index, &nothing)
    };
    let out = write_check_text(&report);
    assert!(out.contains("Load Errors (1):"));
    assert!(out.contains("Broken Page (p1): invalid JSON"));
}

// --- write_check_text: index issues ---

#[test]
fn check_text_index_issues_shown() {
    let nothing = Nothing::default();
    let (index, _) = make_test_kb(&[]);
    let issues = vec![ParseIssue {
        path: "/kb/bad.lepiter".into(),
        message: "failed to decode".into(),
    }];
    let report = CheckReport {
        index_issues: &issues,
        ..empty_report(&index, &nothing)
    };
    let out = write_check_text(&report);
    assert!(out.contains("Index Issues (1):"));
    assert!(out.contains("/kb/bad.lepiter: failed to decode"));
}

// --- write_check_json: clean KB ---

#[test]
fn check_json_clean_kb_has_empty_arrays_and_ok_true() {
    let nothing = Nothing::default();
    let (index, _) = make_test_kb(&[]);
    let report = empty_report(&index, &nothing);
    let parsed = to_value(&check_json(&report));
    assert_eq!(parsed["ok"], true);
    assert_eq!(parsed["broken_links"].as_array().unwrap().len(), 0);
    assert_eq!(parsed["orphan_pages"].as_array().unwrap().len(), 0);
    assert_eq!(parsed["duplicate_titles"].as_array().unwrap().len(), 0);
    assert_eq!(parsed["missing_attachments"].as_array().unwrap().len(), 0);
    assert_eq!(parsed["load_errors"].as_array().unwrap().len(), 0);
    assert_eq!(parsed["index_issues"].as_array().unwrap().len(), 0);
}

// --- write_check_json: broken links ---

#[test]
fn check_json_broken_links_populated() {
    let nothing = Nothing::default();
    let (index, sources) = make_test_kb(&[("p1", "Page One", "see [link](page:gone)")]);
    let analysis = index.analyze_all(&sources, &vec![]);
    let report = CheckReport {
        broken_links: &analysis.broken_links,
        ..empty_report(&index, &nothing)
    };
    let parsed = to_value(&check_json(&report));
    assert_eq!(parsed["ok"], false);
    let broken = parsed["broken_links"].as_array().unwrap();
    assert_eq!(broken.len(), 1);
    assert_eq!(broken[0]["source_title"], "Page One");
    assert_eq!(broken[0]["source_id"], "p1");
    assert_eq!(broken[0]["target"], "page:gone");
}

// --- write_check_json: orphan pages ---

#[test]
fn check_json_orphan_pages_include_title() {
    let nothing = Nothing::default();
    let (index, sources) = make_test_kb(&[("p1", "Alpha", "hello")]);
    let analysis = index.analyze_all(&sources, &vec![]);
    let orphan_ids = index.orphan_ids(&analysis.linked_pages, None);
    let report = CheckReport {
        orphan_ids: &orphan_ids,
        ..empty_report(&index, &nothing)
    };
    let parsed = to_value(&check_json(&report));
    let orphans = parsed["orphan_pages"].as_array().unwrap();
    assert_eq!(orphans.len(), 1);
    assert_eq!(orphans[0]["id"], "p1");
    assert_eq!(orphans[0]["title"], "Alpha");
}

// --- write_check_json: duplicate titles ---

#[test]
fn check_json_duplicate_titles_populated() {
    let nothing = Nothing::default();
    let (index, _) = make_test_kb(&[("p1", "Alpha", "body"), ("p2", "Alpha", "body")]);
    let dupes = index.find_duplicate_titles();
    let report = CheckReport {
        duplicate_titles: &dupes,
        ..empty_report(&index, &nothing)
    };
    let parsed = to_value(&check_json(&report));
    let dt = parsed["duplicate_titles"].as_array().unwrap();
    assert_eq!(dt.len(), 1);
    assert_eq!(dt[0]["title"], "Alpha");
    let ids = dt[0]["page_ids"].as_array().unwrap();
    assert_eq!(ids.len(), 2);
}

// --- write_check_json: missing attachments ---

#[test]
fn check_json_missing_attachments_populated() {
    let nothing = Nothing::default();
    let (index, sources) = make_test_kb(&[("p1", "Alpha", "see [img](attachments/missing.png)")]);
    let analysis = index.analyze_all(&sources, &vec![]);
    let report = CheckReport {
        missing_attachments: &analysis.missing_attachments,
        ..empty_report(&index, &nothing)
    };
    let parsed = to_value(&check_json(&report));
    let att = parsed["missing_attachments"].as_array().unwrap();
    assert_eq!(att.len(), 1);
    assert_eq!(att[0]["source_title"], "Alpha");
    assert_eq!(att[0]["source_id"], "p1");
    assert_eq!(att[0]["target"], "attachments/missing.png");
}

// --- write_check_json: load errors ---

#[test]
fn check_json_load_errors_populated() {
    let nothing = Nothing::default();
    let (index, _) = make_test_kb(&[]);
    let errors = vec![PageLoadError {
        page_id: "p1".into(),
        title: "Broken".into(),
        error: "bad json".into(),
    }];
    let report = CheckReport {
        load_errors: &errors,
        ..empty_report(&index, &nothing)
    };
    let parsed = to_value(&check_json(&report));
    let errs = parsed["load_errors"].as_array().unwrap();
    assert_eq!(errs.len(), 1);
    assert_eq!(errs[0]["page_id"], "p1");
    assert_eq!(errs[0]["title"], "Broken");
    assert_eq!(errs[0]["error"], "bad json");
}

// --- end-to-end with make_test_kb ---

#[test]
fn check_text_full_kb_with_all_issue_types() {
    let nothing = Nothing::default();
    let (index, sources) = make_test_kb(&[
        ("p1", "Alpha", "see [link](page:gone)"),
        ("p2", "Alpha", "duplicate title"),
        ("p3", "Beta", "see [img](attachments/missing.png)"),
    ]);
    let analysis = index.analyze_all(&sources, &vec![]);
    let orphan_ids = index.orphan_ids(&analysis.linked_pages, None);
    let dupes = index.find_duplicate_titles();
    let report = CheckReport {
        broken_links: &analysis.broken_links,
        orphan_ids: &orphan_ids,
        load_errors: &analysis.load_errors,
        index_issues: &index.index_issues,
        duplicate_titles: &dupes,
        missing_attachments: &analysis.missing_attachments,
        ..empty_report(&index, &nothing)
    };
    let out = write_check_text(&report);
    assert!(out.starts_with("Knowledge Base Check\n"));
    assert!(out.contains("broken_links: 1"));
    assert!(out.contains("duplicate_titles: 1"));
    assert!(out.contains("missing_attachments: 1"));
    // All three pages are orphans (none links to another with page: prefix
    // that resolves, since "page:gone" is broken).
    assert!(out.contains("orphan_pages: 3"));
}

#[test]
fn check_json_full_kb_is_valid_json() {
    let nothing = Nothing::default();
    let (index, sources) = make_test_kb(&[
        ("p1", "Alpha", "see [link](page:gone)"),
        ("p2", "Alpha", "duplicate title"),
    ]);
    let analysis = index.analyze_all(&sources, &vec![]);
    let orphan_ids = index.orphan_ids(&analysis.linked_pages, None);
    let dupes = index.find_duplicate_titles();
    let report = CheckReport {
        broken_links: &analysis.broken_links,
        orphan_ids: &orphan_ids,
        load_errors: &analysis.load_errors,
        index_issues: &index.index_issues,
        duplicate_titles: &dupes,
        missing_attachments: &analysis.missing_attachments,
        ..empty_report(&index, &nothing)
    };
    let parsed = to_value(&check_json(&report));
    assert!(parsed.is_object());
    assert_eq!(parsed["ok"], false);
    // All seven top-level keys present.
    assert!(parsed.get("ok").is_some());
    assert!(parsed.get("broken_links").is_some());
    assert!(parsed.get("orphan_pages").is_some());
    assert!(parsed.get("duplicate_titles").is_some());
    assert!(parsed.get("missing_attachments").is_some());
    assert!(parsed.get("load_errors").is_some());
    assert!(parsed.get("index_issues").is_some());
}

// --- ids that several files claim ---

fn claimed_twice() -> (KnowledgeBaseIndex, StrMap<PageSource>) {
    let text = r#"{"uid": {"uuid": "p1"}, "pageType": {"title": "One"}, "children": {"items": []}}"#;
    open_kb(&[
        ("b.lepiter".to_string(), text.to_string()),
        ("a.lepiter".to_string(), text.to_string()),
    ])
}

#[test]
fn report_not_ok_with_an_id_that_two_files_claim() {
    let nothing = Nothing::default();
    let (index, sources) = claimed_twice();
    let analysis = index.analyze_all(&sources, &vec![]);
    assert!(analysis.broken_links.is_empty() && analysis.load_errors.is_empty());
    assert!(!empty_report(&index, &nothing).ok());
}

#[test]
fn check_names_ids_that_two_files_claim() {
    let nothing = Nothing::default();
    let (index, _) = claimed_twice();
    let report = empty_report(&index, &nothing);
    let text = write_check_text(&report);
    assert!(text.contains("\n  duplicate_ids: 1\n"));
    assert!(text.ends_with(
        "\nDuplicate Ids (1):\n  p1 (2 files)\n    - /kb/a.lepiter\n    - /kb/b.lepiter\n"
    ));
    let json = check_json(&report);
    assert_eq!(json.get("ok"), Some(&Json::Bool(false)));
    let Some(Json::Array(dupes)) = json.get("duplicate_ids") else {
        panic!("expected duplicate ids");
    };
    assert_eq!(dupes.len(), 1);
    assert_eq!(dupes[0].get_str("id"), Some("p1"));
    assert!(matches!(dupes[0].get("paths"), Some(Json::Array(paths)) if paths.len() == 2));
}

#[test]
fn check_is_silent_about_ids_where_none_is_claimed_twice() {
    let nothing = Nothing::default();
    let (index, _) = make_test_kb(&[("p1", "One", ""), ("p2", "Two", "")]);
    let report = empty_report(&index, &nothing);
    assert!(report.ok());
    assert!(!write_check_text(&report).to_lowercase().contains("duplicate_ids"));
    assert!(check_json(&report).get("duplicate_ids").is_none());
}

// --- spellings of a path ---

#[test]
fn attachments_are_told_apart_by_components() {
    let (index, sources) = make_test_kb(&[(
        "p1",
        "One",
        "![a](attachments//a.png) ![d](attachments/dir/) ![b](attachments/b.png) ![b](attachments/./b.png)",
    )]);
    let existing =
        vec!["/kb/attachments/a.png".to_string(), "/kb/attachments/dir".to_string()];
    let found = index.analyze_all(&sources, &existing);
    let missing: Vec<&str> =
        found.missing_attachments.iter().map(|m| m.resolved_path.as_str()).collect();
    assert_eq!(missing, vec!["/kb/attachments/b.png"]);
}
