use lepiter::app::{
    page_scroll_half, AfterOpen, App, Key, KeyCode, KeyEnv, KeyResult, LinkTarget, Mode,
    RenderedPage, HISTORY_LIMIT,
};
use lepiter::edit::{
    autosave_delay, collect_snippets, delete_char_at, delete_char_before, insert_char_at,
    move_cursor_vertical, EditState, UNDO_LIMIT,
};
use lepiter::export::{build_slug_map, exported_file, slug_from_title};
use lepiter::highlight::{tokenize_code_line, CodeToken};
use lepiter::import::{plan_import, MarkdownFile};
use lepiter::index::{KnowledgeBase, KnowledgeBaseIndex, PageSource, ScannedFile};
use lepiter::inline::{parse_inline, InlineElement};
use lepiter::inline_link::rewrite_inline_links;
use lepiter::json::{set_member, Json, Member};
use lepiter::listing::pages_with_tag;
use lepiter::model::{Node, Page, PageMeta, TitleResolution};
use lepiter::new_page::{make_page, page_from};
use lepiter::parse::{parse_page_content, RawMeta};
use lepiter::render::{
    normalize_text, render_nodes_into, render_nodes_to_text, BlockEscaping, Position,
};
use lepiter::screen::{
    backlink_rows, backlinks_title, centered_rect, highlight_search_match, list_rows, list_title,
    search_title, settle_scroll, show_edit_header, show_list_status, show_page_footer,
    show_page_header, Area,
};
use lepiter::strmap::StrMap;
use lepiter::styled::{
    apply_cursor_marker, line_text, line_width, sanitize_for_terminal, styled_line, terminal_lines,
    wrap_line, Style,
};
use lepiter::time::Timestamp;
use lepiter::util::{AttachmentError, AttachmentResolver};

fn from_value(value: &serde_json::Value) -> Json {
    match value {
        serde_json::Value::Null => Json::Null,
        serde_json::Value::Bool(b) => Json::Bool(*b),
        serde_json::Value::Number(n) => Json::Number(n.to_string()),
        serde_json::Value::String(s) => Json::Str(s.clone()),
        serde_json::Value::Array(items) => Json::Array(items.iter().map(from_value).collect()),
        serde_json::Value::Object(members) => Json::Object(
            members
                .iter()
                .map(|(name, value)| Member { name: name.clone(), value: from_value(value) })
                .collect(),
        ),
    }
}

fn json(text: &str) -> Json {
    from_value(&serde_json::from_str(text).unwrap())
}

fn text_at(json: &Json, path: &[&str]) -> Option<String> {
    let mut at = json;
    for name in path {
        at = at.get(name)?;
    }
    at.as_str().map(str::to_string)
}

fn raw_meta(json: &Json) -> RawMeta {
    RawMeta {
        uuid: text_at(json, &["uid", "uuid"]),
        uid_string: text_at(json, &["uid", "uidString"]),
        page_title: text_at(json, &["pageType", "title"]),
        title: text_at(json, &["title"]),
        edited: text_at(json, &["editTime", "time", "dateAndTimeString"]),
        tags: json.get("tags").cloned(),
    }
}

/// A knowledge base of some files, each with its name and text, and what reading
/// each page comes to.
fn open_kb(files: &[(String, String)]) -> (KnowledgeBaseIndex, StrMap<PageSource>) {
    let mut scanned = Vec::new();
    let mut contents = Vec::new();
    for (name, text) in files {
        let path = format!("/kb/{name}");
        match serde_json::from_str::<serde_json::Value>(text) {
            Ok(value) if value.is_object() => {
                let json = from_value(&value);
                scanned.push(ScannedFile { path: path.clone(), meta: Ok(raw_meta(&json)) });
                contents.push((path, json));
            }
            _ => scanned.push(ScannedFile { meta: Err(format!("failed to decode {path}")), path }),
        }
    }
    let index = KnowledgeBase::open("/kb", &scanned);
    let mut sources = StrMap::new();
    for id in index.ordered_ids() {
        let path = index.page_meta(&id).unwrap().path.clone();
        for (at, json) in &contents {
            if *at == path {
                sources.insert(id.clone(), PageSource::Raw(json.clone()));
            }
        }
    }
    (index, sources)
}

fn quoted(text: &str) -> String {
    serde_json::Value::String(text.to_string()).to_string()
}

fn page_file(id: &str, title: &str, tags: &[&str], text: &str) -> (String, String) {
    let tags: Vec<_> = tags.iter().map(|t| quoted(t)).collect();
    (
        format!("{id}.lepiter"),
        format!(
            r#"{{
                "uid": {{"uuid": {}}},
                "pageType": {{"title": {}}},
                "tags": [{}],
                "children": {{"items": [{{"__type": "textSnippet", "string": {}}}]}}
            }}"#,
            quoted(id),
            quoted(title),
            tags.join(", "),
            quoted(text)
        ),
    )
}

fn three_pages() -> (KnowledgeBaseIndex, StrMap<PageSource>) {
    open_kb(&[
        page_file("p1", "Alpha", &["rust"], "see [[Beta]]"),
        page_file("p2", "Beta", &[], "back to [one](page:p1)"),
        page_file("p3", "Gamma", &[], "mentions Äpfel"),
    ])
}

fn make_app() -> App {
    let (index, sources) = three_pages();
    App::new(index, &sources, 16)
}

fn press(app: &mut App, code: KeyCode) -> KeyResult {
    let env = KeyEnv { half_page: 10, now: 0, open_command: None };
    app.handle_key(Key { code, ctrl: false }, &env).0
}

fn shown(id: &str, title: &str, lines: &[&str]) -> RenderedPage {
    RenderedPage {
        id: id.to_string(),
        title: title.to_string(),
        lines: lines.iter().map(|l| styled_line(l, Style::plain())).collect(),
        links: vec![],
    }
}

fn show(app: &mut App, id: &str, from_link: bool, lines: &[&str]) {
    let page = shown(id, id, lines);
    app.page_opened(id, from_link, AfterOpen::Nothing, Ok(page));
}

// ── The reader ─────────────────────────────────────────────────

#[test]
fn q_is_typed_where_text_is_typed() {
    for mode in [Mode::Search, Mode::PageSearch, Mode::NewPageTitle] {
        let mut app = make_app();
        app.mode = mode;
        assert_ne!(press(&mut app, KeyCode::Char('q')), KeyResult::Quit);
    }
    for mode in [Mode::List, Mode::Page, Mode::Backlinks] {
        let mut app = make_app();
        app.mode = mode;
        assert_eq!(press(&mut app, KeyCode::Char('q')), KeyResult::Quit);
    }
}

#[test]
fn a_question_mark_is_typed_where_text_is_typed() {
    let mut app = make_app();
    app.mode = Mode::Search;
    press(&mut app, KeyCode::Char('?'));
    assert_eq!(app.search, "?");
    assert!(!app.show_help);
}

#[test]
fn going_back_after_a_link_leads_to_the_page_it_was_on() {
    let mut app = make_app();
    show(&mut app, "p1", false, &[]);
    show(&mut app, "p2", true, &[]);
    assert_eq!(app.history, vec!["p1"]);
    let action = app.back_in_history();
    assert_eq!(
        action,
        lepiter::app::Action::OpenPage {
            id: "p1".to_string(),
            from_link: false,
            after: AfterOpen::Nothing,
        }
    );
    assert!(app.history.is_empty());
}

#[test]
fn the_history_forgets_the_oldest_page() {
    let mut app = make_app();
    show(&mut app, "first", false, &[]);
    for i in 0..HISTORY_LIMIT + 5 {
        show(&mut app, &format!("n{i}"), true, &[]);
    }
    assert_eq!(app.history.len(), HISTORY_LIMIT);
    assert_eq!(app.history[0], "n4");
}

#[test]
fn the_list_holds_what_matches_and_the_selection_stays_in_it() {
    let mut app = make_app();
    app.selected = 2;
    app.search = "  BETA ".to_string();
    app.update_search_needle();
    app.rebuild_visible_ids();
    assert_eq!(app.search_needle, "beta");
    assert_eq!(app.visible_ids, vec!["p2"]);
    assert_eq!(app.selected, 0);
    app.move_selection(7);
    assert_eq!(app.selected, 0);
}

#[test]
fn texts_are_read_in_batches_and_then_searched() {
    let (index, sources) = three_pages();
    let mut app = App::new(index, &sources, 16);
    app.search = "äpfel".to_string();
    app.update_search_needle();
    app.rebuild_visible_ids();
    assert!(app.visible_ids.is_empty());
    let ids = app.take_batch(2);
    assert_eq!(ids, vec!["p1", "p2"]);
    app.batch_read(&ids, &sources);
    assert!(app.visible_ids.is_empty());
    let ids = app.take_batch(2);
    assert_eq!(ids, vec!["p3"]);
    app.batch_read(&ids, &sources);
    assert_eq!(app.visible_ids, vec!["p3"]);
    let rows = list_rows(&app);
    assert_eq!(line_text(&rows[0]), "Gamma  [p3]  :: mentions Äpfel");
    assert_eq!(rows[0].spans[1].text, "Äpfel");
}

#[test]
fn matches_in_a_page_are_lines_that_hold_the_text() {
    let mut app = make_app();
    show(&mut app, "p1", false, &["One fox", "nothing", "two FOXES"]);
    app.page_search = " Fox ".to_string();
    app.update_page_search_needle();
    app.rebuild_page_search_matches();
    assert_eq!(app.page_search_match_lines, vec![0, 2]);
    app.page_search_next();
    assert_eq!((app.page_search_current, app.page_scroll), (1, 2));
    app.page_search_prev();
    assert_eq!((app.page_search_current, app.page_scroll), (0, 0));
    assert_eq!(
        show_page_footer(&app),
        "match 1/2 | n/N next/prev | / search | Esc clear | ? help | q quit\nno links on page"
    );
}

#[test]
fn a_failed_page_leaves_a_status() {
    let mut app = make_app();
    app.page_opened("p1", false, AfterOpen::Nothing, Err("gone".to_string()));
    assert_eq!(app.mode, Mode::List);
    assert_eq!(app.status, "failed to load page: gone");
    app.show_backlinks();
    assert_eq!(app.status, "no page open");
    show(&mut app, "p1", false, &[]);
    app.edit_loaded(Err("broken".to_string()));
    assert_eq!(app.status, "failed to load page json: broken");
    app.attachment_opened(Err("no viewer".to_string()));
    assert_eq!(app.status, "failed to open attachment: no viewer");
    app.attachment_missing(&AttachmentError::Empty);
    assert_eq!(app.status, "attachment error: attachment target was empty");
    app.url_opened("https://x.org", Ok(()));
    assert_eq!(app.status, "opened external link: https://x.org");
    app.command_run(Ok(()));
    assert_eq!(app.status, "opened externally");
}

#[test]
fn a_page_of_half_the_height_is_scrolled() {
    assert_eq!(page_scroll_half(None), 10);
    assert_eq!(page_scroll_half(Some(7)), 1);
    assert_eq!(page_scroll_half(Some(26)), 10);
}

#[test]
fn a_saved_edit_changes_the_backlinks() {
    let mut app = make_app();
    assert_eq!(app.index.backlinks_for("p2"), vec!["p1"]);
    show(&mut app, "p1", false, &[]);
    app.enter_edit_mode();
    let raw = json(
        r#"{"children": {"items": [{"__type": "textSnippet", "string": "now [[Gamma]]"}]}}"#,
    );
    app.edit_loaded(Ok(raw.clone()));
    assert_eq!(app.mode, Mode::Edit);
    app.edit_left(Ok(()), &PageSource::Raw(raw), None);
    assert_eq!(app.mode, Mode::Page);
    assert!(app.index.backlinks_for("p2").is_empty());
    assert_eq!(app.index.backlinks_for("p3"), vec!["p1"]);
}

// ── The screens ────────────────────────────────────────────────

#[test]
fn headers_and_footers_say_what_is_shown() {
    let mut app = make_app();
    assert_eq!(show_page_header(&app), "No page loaded");
    let mut page = shown("p1", "Alpha", &["x"]);
    page.links = vec![LinkTarget { label: "Beta".to_string(), target: "page:p2".to_string() }];
    app.page_opened("p1", false, AfterOpen::Nothing, Ok(page));
    assert_eq!(show_page_header(&app), "Alpha [p1]");
    assert!(show_page_footer(&app).ends_with("\nlink 1/1: Beta -> page:p2"));
    app.status = "hello".to_string();
    assert_eq!(
        show_list_status(&app, 2, 1),
        "matches: 3 | index: 0/3 | cache p/r: 2/1 | j/k move | enter open | / search | n new | ? help | q quit | hello"
    );
    app.show_backlinks();
    assert_eq!(backlink_rows(&app), vec!["Beta  [p2]"]);
    assert_eq!(backlinks_title(&app), "1 incoming links");
    assert_eq!(search_title(Mode::Search), "Search (typing)");
    assert_eq!(search_title(Mode::List), "Search (/)");
    assert_eq!(list_title(Mode::Search), "Pages (filtered)");
    assert_eq!(list_title(Mode::List), "Pages");
}

#[test]
fn rows_of_the_list_hold_title_id_and_tags() {
    let app = make_app();
    let rows: Vec<String> = list_rows(&app).iter().map(line_text).collect();
    assert_eq!(rows, vec!["Alpha  [p1]  #rust", "Beta  [p2]", "Gamma  [p3]"]);
}

#[test]
fn what_is_found_in_a_row_is_marked_and_the_row_keeps_its_text() {
    for (text, query, marked) in [
        ("Hello World", "WORLD", "World"),
        ("Grüße", " ÜSS", ""),
        ("ÄRGER", "ärg", "ÄRG"),
        ("ΟΔΟΣ", "οδος", "ΟΔΟΣ"),
        ("İstanbul", "stan", "stan"),
    ] {
        let row = highlight_search_match(text, query);
        assert_eq!(line_text(&row), text);
        let found: String = row.spans.iter().filter(|s| s.style.bold).map(|s| s.text.as_str()).collect();
        assert_eq!(found, marked, "{text} / {query}");
    }
}

#[test]
fn a_centered_area_lies_inside() {
    let area = Area { x: 2, y: 3, width: 20, height: 10 };
    let inner = centered_rect(10, 4, area);
    assert_eq!((inner.x, inner.y, inner.width, inner.height), (7, 6, 10, 4));
    let whole = centered_rect(100, 100, area);
    assert_eq!((whole.x, whole.y, whole.width, whole.height), (2, 3, 20, 10));
}

#[test]
fn wrapping_keeps_every_character_and_rows_fit() {
    let line = styled_line("abcdefg", Style::plain());
    let rows = wrap_line(&line, 3);
    let texts: Vec<String> = rows.iter().map(line_text).collect();
    assert_eq!(texts, vec!["abc", "def", "g"]);
    assert!(rows.iter().all(|row| line_width(row) <= 3));
}

#[test]
fn marking_the_cursor_keeps_the_text() {
    let mut lines = vec![styled_line("abc", Style::plain())];
    apply_cursor_marker(&mut lines, 0, 1);
    assert!(line_text(&lines[0]).starts_with("abc"));
    let untouched = line_text(&lines[0]);
    apply_cursor_marker(&mut lines, 5, 1);
    assert_eq!(line_text(&lines[0]), untouched);
}

// ── The editor ─────────────────────────────────────────────────

fn make_edit(text: &str) -> EditState {
    let raw = json(&format!(
        r#"{{"children": {{"items": [{{"__type": "textSnippet", "string": {}}}]}}}}"#,
        quoted(text)
    ));
    let mut snippets = Vec::new();
    collect_snippets(&raw, Vec::new(), &mut snippets);
    let buffer = snippets[0].text.clone();
    EditState::new("p".into(), "/tmp/t.json".into(), raw, snippets, buffer)
}

#[test]
fn deleting_undoes_typing_and_typing_undoes_deleting() {
    let mut text = "héllo".to_string();
    let mut cursor = 2;
    insert_char_at(&mut text, &mut cursor, 'ß');
    assert_eq!(text, "héßllo");
    assert!(delete_char_before(&mut text, &mut cursor));
    assert_eq!((text.as_str(), cursor), ("héllo", 2));
    assert!(delete_char_at(&mut text, &mut cursor));
    assert_eq!(text, "hélo");
    insert_char_at(&mut text, &mut cursor, 'l');
    assert_eq!(text, "héllo");
}

#[test]
fn undoing_gives_back_text_cursor_and_page() {
    let mut edit = make_edit("one");
    edit.cursor = 1;
    edit.push_undo_snapshot();
    edit.buffer = "two".to_string();
    edit.cursor = 3;
    edit.commit_buffer(10);
    assert_eq!(edit.last_edit, Some(10));
    assert!(edit.undo(20));
    assert_eq!((edit.buffer.as_str(), edit.cursor), ("one", 1));
    let mut found = Vec::new();
    collect_snippets(&edit.raw, Vec::new(), &mut found);
    assert_eq!(found[0].text, "one");
}

#[test]
fn committing_again_changes_nothing_and_a_commit_is_collected() {
    let mut edit = make_edit("one");
    edit.buffer = "two".to_string();
    edit.commit_buffer(10);
    edit.commit_buffer(99);
    assert_eq!(edit.last_edit, Some(10));
    let mut found = Vec::new();
    collect_snippets(&edit.raw, Vec::new(), &mut found);
    assert_eq!(found[0].text, "two");
}

#[test]
fn steps_to_undo_stay_within_the_limit() {
    let mut edit = make_edit("");
    for i in 0..UNDO_LIMIT + 3 {
        edit.buffer = i.to_string();
        edit.cursor = 0;
        edit.push_undo_snapshot();
    }
    let entry = edit.current().unwrap();
    assert_eq!(entry.undo.len(), UNDO_LIMIT);
    assert_eq!(entry.undo[0].text, "3");
}

#[test]
fn a_page_is_saved_once_nothing_was_typed_for_a_while() {
    let mut edit = make_edit("one");
    assert!(!edit.maybe_autosave(10_000, 500));
    edit.buffer = "two".to_string();
    edit.commit_buffer(1_000);
    assert!(!edit.maybe_autosave(1_499, 500));
    assert!(edit.maybe_autosave(1_500, 500));
    assert_eq!(autosave_delay(None), 500);
    assert_eq!(autosave_delay(Some("250")), 250);
    assert_eq!(autosave_delay(Some("+250")), 250);
    assert_eq!(autosave_delay(Some("soon")), 500);
    assert_eq!(autosave_delay(Some("99999999999999999999")), 500);
}

#[test]
fn the_cursor_moves_between_lines_and_stays_inside() {
    let mut edit = make_edit("abc\n\nde");
    edit.cursor = 2;
    move_cursor_vertical(&mut edit, 2);
    assert_eq!(edit.cursor, 7);
    move_cursor_vertical(&mut edit, 9);
    assert_eq!(edit.cursor, 7);
    move_cursor_vertical(&mut edit, -9);
    assert_eq!(edit.cursor, 2);
}

#[test]
fn the_view_follows_the_cursor() {
    let mut edit = make_edit("x");
    settle_scroll(&mut edit, Some(30), None, 40, 10);
    assert_eq!(edit.preview_scroll, 21);
    settle_scroll(&mut edit, None, Some(5), 40, 10);
    assert_eq!(edit.preview_scroll, 5);
    edit.follow_cursor = false;
    edit.preview_scroll = 100;
    settle_scroll(&mut edit, Some(0), None, 40, 10);
    assert_eq!(edit.preview_scroll, 30);
    assert_eq!(show_edit_header(&edit), "edit p (1/1) [textSnippet] editable");
}

#[test]
fn a_new_page_can_be_edited() {
    let made = page_from("/kb", "id-1", "My Page", "2024-01-01T00:00:00+00:00");
    assert_eq!(made.meta.path, "/kb/id-1.lepiter");
    assert_eq!(made.meta.title_lower, "my page");
    assert!(made.meta.updated_at.is_some());
    let mut snippets = Vec::new();
    collect_snippets(&made.raw, Vec::new(), &mut snippets);
    assert_eq!(snippets.len(), 1);
    assert!(snippets[0].editable);
    assert_eq!(snippets[0].text, "");
}

#[test]
fn new_pages_have_ids_of_their_own_and_a_time() {
    let one = make_page("/kb", "One");
    let two = make_page("/kb", "One");
    assert_ne!(one.meta.id, two.meta.id);
    assert_eq!(one.meta.id.len(), 36);
    for (i, c) in one.meta.id.chars().enumerate() {
        if [8, 13, 18, 23].contains(&i) {
            assert_eq!(c, '-');
        } else {
            assert!(c.is_ascii_hexdigit());
        }
    }
    assert!(one.meta.updated_at.is_some());
}

// ── Pages, links and texts ─────────────────────────────────────

#[test]
fn registering_keeps_the_order_of_titles() {
    let (mut index, _) = three_pages();
    let meta = PageMeta {
        id: "p4".to_string(),
        id_lower: "p4".to_string(),
        title: "Aztec".to_string(),
        title_lower: "aztec".to_string(),
        path: "/kb/p4.lepiter".to_string(),
        updated_at: None,
        tags: vec![],
        tags_lower: vec![],
    };
    index.register_page(meta);
    assert_eq!(index.ordered_ids(), vec!["p1", "p4", "p2", "p3"]);
    assert_eq!(
        index.resolve_page_id_by_title_exact("AZTEC"),
        TitleResolution::Unique("p4".to_string())
    );
}

#[test]
fn updating_one_page_agrees_with_building_anew() {
    let (mut updated, sources) = three_pages();
    updated.build_backlinks(&sources);
    let changed = json(
        r#"{"children": {"items": [{"__type": "textSnippet", "string": "[[Gamma]]"}]}}"#,
    );
    updated.update_backlinks_for("p1", &PageSource::Raw(changed.clone()));
    let (mut built, mut sources) = three_pages();
    sources.insert("p1".to_string(), PageSource::Raw(changed));
    built.build_backlinks(&sources);
    for id in ["p1", "p2", "p3"] {
        assert_eq!(updated.backlinks_for(id), built.backlinks_for(id));
    }
}

#[test]
fn titles_are_compared_whatever_the_case() {
    let (index, _) = open_kb(&[page_file("p1", "ÄPFEL", &[], "")]);
    assert_eq!(
        index.resolve_page_id_by_title_exact("äpfel"),
        TitleResolution::Unique("p1".to_string())
    );
    assert_eq!(index.filter_page_ids("pfe"), vec!["p1"]);
}

#[test]
fn each_fault_of_an_attachment_has_its_text() {
    let resolver = AttachmentResolver::new("/kb");
    let message = |raw: &str| resolver.resolve_existing(raw, |_| false).unwrap_err().message();
    assert_eq!(message("  "), "attachment target was empty");
    assert_eq!(message("x.png"), "attachment target not recognized: x.png");
    assert_eq!(
        message("attachments/../../x"),
        "attachment path escapes knowledge base root: attachments/../../x"
    );
    assert_eq!(
        message("attachments/x.png"),
        "attachment not found: /kb/attachments/x.png"
    );
    assert_eq!(resolver.resolve_path("x.png"), None);
}

#[test]
fn times_are_read_written_and_compared() {
    let one = Timestamp::parse("2024-03-01T10:00:00+02:00").unwrap();
    assert_eq!((one.seconds, one.nanos, one.offset), (1709280000, 0, 7200));
    assert_eq!(one.to_rfc3339().unwrap(), "2024-03-01T10:00:00+02:00");
    let two = Timestamp::parse("2024-03-01T09:00:00.5Z").unwrap();
    assert_eq!(two.to_rfc3339().unwrap(), "2024-03-01T09:00:00.500+00:00");
    assert!(one.is_earlier(two));
    assert!(!two.is_earlier(one));
    assert_eq!(Timestamp::parse("2024-03-01"), None);
    assert_eq!(Timestamp { seconds: i64::MAX, nanos: 0, offset: 0 }.to_rfc3339(), None);
}

#[test]
fn setting_a_member_sets_it() {
    let mut members = vec![];
    set_member(&mut members, "a", Json::Null);
    set_member(&mut members, "b", Json::Bool(true));
    set_member(&mut members, "a", Json::Bool(false));
    assert_eq!(
        Json::Object(members),
        json(r#"{"a": false, "b": true}"#)
    );
}

#[test]
fn tokens_make_up_the_line() {
    let line = "let x = \"a\\\"b\"; // done 42";
    let whole: String = tokenize_code_line(line, Some("javascript"))
        .iter()
        .map(|t| match t {
            CodeToken::Comment(s)
            | CodeToken::StringLit(s)
            | CodeToken::Number(s)
            | CodeToken::Keyword(s)
            | CodeToken::Ident(s) => s.to_string(),
            CodeToken::Punct(c) => c.to_string(),
        })
        .collect();
    assert_eq!(whole, line);
}

#[test]
fn normalizing_twice_changes_nothing_more() {
    let once = normalize_text("a\r\nb\rc");
    assert_eq!(once, "a\nb\nc");
    assert_eq!(normalize_text(&once), once);
}

#[test]
fn slugs_are_clean_and_distinct() {
    assert_eq!(slug_from_title("Ünïcode & more"), "n-code-more");
    let (index, _) = open_kb(&[
        page_file("p1", "Same", &[], ""),
        page_file("p2", "same!", &[], ""),
        page_file("p3", "Same 2", &[], ""),
    ]);
    let slugs = build_slug_map(&index);
    let mut all: Vec<&str> = (0..slugs.len()).map(|i| slugs.value_at(i).as_str()).collect();
    all.sort();
    all.dedup();
    assert_eq!(all.len(), 3);
}

#[test]
fn an_exported_page_is_imported_again() {
    let (index, _) = open_kb(&[
        page_file("p1", "Alpha", &[], ""),
        page_file("p2", "Beta", &[], ""),
    ]);
    let page = Page {
        id: "p1".to_string(),
        title: "Say \"hi\" \\".to_string(),
        updated_at: Timestamp::parse("2024-03-01T10:00:00+02:00"),
        tags: vec!["a".to_string(), "b c".to_string()],
        content: vec![
            Node::Heading { level: 2, text: "Part".to_string() },
            Node::Paragraph { text: "- not a list\nsecond line".to_string() },
            Node::Code {
                language: Some("python".to_string()),
                code: "s = 1\n```\nend".to_string(),
            },
            Node::Link { text: "go".to_string(), url: "page:p2".to_string() },
            Node::Unknown { typ: "wardleyMap".to_string(), raw: Json::Null },
        ],
    };
    let file = exported_file(&page, &index, &build_slug_map(&index)).unwrap();
    let plan = plan_import(&vec![
        MarkdownFile {
            name: "alpha.md".to_string(),
            linkable: true,
            content: file.content,
        },
        MarkdownFile {
            name: "beta.md".to_string(),
            linkable: true,
            content: "---\ntitle: \"Beta\"\nid: p2\n---\n\nb\n".to_string(),
        },
    ]);
    assert!(plan.skipped.is_empty());
    let back = &plan.pages[0];
    assert_eq!(back.id, "p1");
    let meta = raw_meta(&back.page);
    assert_eq!(meta.page_title.as_deref(), Some("Say \"hi\" \\"));
    assert_eq!(meta.edited.as_deref(), Some("2024-03-01T10:00:00+02:00"));
    let nodes = parse_page_content(&back.page);
    assert_eq!(render_nodes_to_text(&nodes), render_nodes_to_text(&page.content));
}

#[test]
fn what_is_not_understood_is_kept_however_deep_it_lies() {
    let raw = json(
        r#"{"children": {"items": [
            {"__type": "textSnippet", "string": "a", "children": {"items": [
                {"__type": "mysterySnippet", "x": [1]}
            ]}},
            {"y": 2}
        ]}}"#,
    );
    let nodes = parse_page_content(&raw);
    assert_eq!(nodes.len(), 3);
    assert_eq!(
        nodes[1],
        Node::Unknown {
            typ: "mysterySnippet".to_string(),
            raw: json(r#"{"__type": "mysterySnippet", "x": [1]}"#),
        }
    );
    assert_eq!(
        nodes[2],
        Node::Unknown { typ: "<missing-type>".to_string(), raw: json(r#"{"y": 2}"#) }
    );
}

#[test]
fn every_fault_of_a_page_is_reported() {
    let (index, sources) = open_kb(&[
        page_file("p1", "Alpha", &[], "[[Nowhere]] [[Beta]] ![x](attachments/x.png) [[Alpha]]"),
        page_file("p2", "Beta", &[], "![y](attachments/y.png)"),
    ]);
    let found = index.analyze_all(&sources, &vec!["/kb/attachments/y.png".to_string()]);
    assert_eq!(found.broken_links.len(), 1);
    assert_eq!(found.broken_links[0].target, "Nowhere");
    assert_eq!(found.missing_attachments.len(), 1);
    assert_eq!(found.missing_attachments[0].source_id, "p1");
    assert_eq!(found.edges.len(), 1);
    assert_eq!((found.edges[0].source.as_str(), found.edges[0].target.as_str()), ("p1", "p2"));
    assert_eq!(index.orphan_ids(&found.linked_pages, None), vec!["p1"]);
    assert!(index.orphan_ids(&found.linked_pages, Some("p1")).is_empty());
}

#[test]
fn pages_are_found_by_their_tags_in_any_case() {
    let (index, _) = three_pages();
    let found = pages_with_tag(&index.sorted_pages(), "RUST");
    assert_eq!(found.len(), 1);
    assert_eq!(found[0].id, "p1");
}

#[test]
fn attachments_lie_below_the_root_whatever_the_target_says() {
    let resolver = AttachmentResolver::new("/kb");
    assert_eq!(
        resolver.resolve_path("/elsewhere/attachments/a/b.png").as_deref(),
        Some("/kb/attachments/a/b.png")
    );
    assert_eq!(resolver.resolve_path("attachments/a/../../b.png"), None);
}

#[test]
fn unmarked_text_is_one_plain_element() {
    assert_eq!(
        parse_inline("just (some) text_"),
        vec![InlineElement::Styled {
            text: "just (some) text_".to_string(),
            bold: false,
            italic: false,
            code: false,
        }]
    );
    assert!(parse_inline("").is_empty());
}

#[test]
fn texts_beyond_the_limit_are_forgotten() {
    let (index, sources) = three_pages();
    let mut app = App::new(index, &sources, 2);
    app.search = "e".to_string();
    app.update_search_needle();
    let ids = app.take_batch(3);
    assert_eq!(ids, vec!["p1", "p2", "p3"]);
    app.batch_read(&ids, &sources);
    assert_eq!(app.text_index.len(), 2);
    assert!(!app.text_index.contains_key("p1"));
    app.batch_read(&vec!["p3".to_string(), "p1".to_string(), "p2".to_string()], &sources);
    assert!(app.text_index.contains_key("p1") && app.text_index.contains_key("p2"));
    assert!(!app.text_index.contains_key("p3"));
}

#[test]
fn rows_do_not_steer_the_terminal() {
    let (index, sources) = open_kb(&[page_file("p1", "A\tb\u{1b}[2J\u{9b}c", &[], "")]);
    let app = App::new(index, &sources, 16);
    assert_eq!(line_text(&list_rows(&app)[0]), "A    b [2J c  [p1]");
    assert_eq!(sanitize_for_terminal("x\ty"), "x    y");
    assert_eq!(sanitize_for_terminal("plain ü"), "plain ü");
    assert_eq!(terminal_lines("a\tb\r\nc"), vec!["a    b", "c"]);
}

#[test]
fn a_callback_may_answer_otherwise_each_time() {
    let asked = std::cell::Cell::new(0);
    let out = rewrite_inline_links("[[a]] x [b](a) [[a]]", |_, target| {
        asked.set(asked.get() + 1);
        match asked.get() {
            2 => None,
            n => Some(format!("{target}{n}")),
        }
    });
    assert_eq!(out, "[a](a1) x [b](a) [a](a3)");
    assert_eq!(rewrite_inline_links("[[a]] x", |_, _| None), "[[a]] x");
}

#[test]
fn rendering_appends_to_what_is_there() {
    let nodes = vec![
        Node::Paragraph { text: "see [[a]]".to_string() },
        Node::Link { text: "go".to_string(), url: "b".to_string() },
    ];
    let rewrite = |_, target: &str| Some(format!("{target}!"));
    let mut alone = String::new();
    let mut behind = "before ".to_string();
    for out in [&mut alone, &mut behind] {
        render_nodes_into(&nodes, &rewrite, BlockEscaping::Verbatim, Position::Snippet, out);
    }
    assert!(alone.contains("[a](a!)") && alone.contains("b!"));
    assert_eq!(behind, format!("before {alone}"));
}
