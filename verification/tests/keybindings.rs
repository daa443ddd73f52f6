use lepiter::app::{
    page_scroll_half, Action, App, Key, KeyCode, KeyEnv, KeyResult, LinkTarget, Mode, RenderedPage,
};
use lepiter::edit::{collect_snippets, EditState};
use lepiter::index::{KnowledgeBase, KnowledgeBaseIndex, PageSource, ScannedFile};
use lepiter::json::{Json, Member};
use lepiter::new_page::make_page;
use lepiter::parse::RawMeta;
use lepiter::render::render_page_to_text;
use lepiter::show::collect_page_links;
use lepiter::strmap::StrMap;
use lepiter::styled::{styled_line, Style};
use std::ops::{Deref, DerefMut};

fn from_value(value: &serde_json::Value) -> Json {
    match value {
        serde_json::Value::Null => Json::Null,
        serde_json::Value::Bool(b) => Json::Bool(*b),
        serde_json::Value::Number(n) => Json::Number(n.to_string()),
        serde_json::Value::String(s) => Json::Str(s.clone()),
        serde_json::Value::Array(items) => Json::Array(items.iter().map(from_value).collect()),
        serde_json::Value::Object(members) => Json::Object(
            members
                .iter()
                .map(|(name, value)| Member { name: name.clone(), value: from_value(value) })
                .collect(),
        ),
    }
}

fn json(text: &str) -> Json {
    from_value(&serde_json::from_str(text).unwrap())
}

fn text_at(json: &Json, path: &[&str]) -> Option<String> {
    let mut at = json;
    for name in path {
        at = at.get(name)?;
    }
    at.as_str().map(str::to_string)
}

fn raw_meta(json: &Json) -> RawMeta {
    RawMeta {
        uuid: text_at(json, &["uid", "uuid"]),
        uid_string: text_at(json, &["uid", "uidString"]),
        page_title: text_at(json, &["pageType", "title"]),
        title: text_at(json, &["title"]),
        edited: text_at(json, &["editTime", "time", "dateAndTimeString"]),
        tags: json.get("tags").cloned(),
    }
}

/// A knowledge base of some files, each with its name and text, and what reading
/// each page comes to.
fn open_kb(files: &[(String, String)]) -> (KnowledgeBaseIndex, StrMap<PageSource>) {
    let mut scanned = Vec::new();
    let mut contents = Vec::new();
    for (name, text) in files {
        let path = format!("/kb/{name}");
        match serde_json::from_str::<serde_json::Value>(text) {
            Ok(value) if value.is_object() => {
                let json = from_value(&value);
                scanned.push(ScannedFile { path: path.clone(), meta: Ok(raw_meta(&json)) });
                contents.push((path, json));
            }
            _ => scanned.push(ScannedFile { meta: Err(format!("failed to decode {path}")), path }),
        }
    }
    let index = KnowledgeBase::open("/kb", &scanned);
    let mut sources = StrMap::new();
    for id in index.ordered_ids() {
        let path = index.page_meta(&id).unwrap().path.clone();
        for (at, json) in &contents {
            if *at == path {
                sources.insert(id.clone(), PageSource::Raw(json.clone()));
            }
        }
    }
    (index, sources)
}

fn quoted(text: &str) -> String {
    serde_json::Value::String(text.to_string()).to_string()
}

fn key(code: KeyCode) -> Key {
    Key { code, ctrl: false }
}

fn key_ctrl(code: KeyCode) -> Key {
    Key { code, ctrl: true }
}

/// An app, and what its actions work on.
struct Ui {
    app: App,
    sources: StrMap<PageSource>,
}

impl Deref for Ui {
    type Target = App;

    fn deref(&self) -> &App {
        &self.app
    }
}

impl DerefMut for Ui {
    fn deref_mut(&mut self) -> &mut App {
        &mut self.app
    }
}

impl Ui {
    fn handle_key(&mut self, key: Key) -> KeyResult {
        let env = KeyEnv { half_page: page_scroll_half(None), now: 0, open_command: None };
        let (result, action) = self.app.handle_key(key, &env);
        self.perform(action);
        result
    }

    fn open_page(&mut self, id: &str, from_link: bool) {
        self.perform(Action::OpenPage {
            id: id.to_string(),
            from_link,
            after: lepiter::app::AfterOpen::Nothing,
        });
    }

    fn rendered(&self, id: &str) -> Result<RenderedPage, String> {
        let page = self.app.index.load_from(id, &self.sources)?;
        let lines = render_page_to_text(&page)
            .lines()
            .map(|line| styled_line(line, Style::plain()))
            .collect();
        let links = collect_page_links(&page.content)
            .into_iter()
            .map(|(label, target)| LinkTarget { label, target })
            .collect();
        Ok(RenderedPage { id: page.id, title: page.title, lines, links })
    }

    /// Performs an action, and what follows from it.
    fn perform(&mut self, action: Action) {
        let next = match action {
            Action::OpenPage { id, from_link, after } => {
                let page = self.rendered(&id);
                self.app.page_opened(&id, from_link, after, page)
            }
            Action::LoadForEdit { .. } => {
                let id = self.app.opened.clone().unwrap();
                let raw = match self.sources.get(&id).unwrap() {
                    PageSource::Raw(raw) => Ok(raw.clone()),
                    PageSource::Failed(e) => Err(e.clone()),
                };
                self.app.edit_loaded(raw);
                Action::Nothing
            }
            Action::Save | Action::SaveAndLeave => {
                let edit = self.app.edit.as_ref().unwrap();
                let source = PageSource::Raw(edit.raw.clone());
                if matches!(action, Action::Save) {
                    self.app.edit_saved(Ok(()), &source, None);
                } else {
                    self.app.edit_left(Ok(()), &source, None);
                }
                Action::Nothing
            }
            Action::CreatePage { title } => {
                let made = make_page("/kb", &title);
                self.sources.insert(made.meta.id.clone(), PageSource::Raw(made.raw));
                self.app.page_created(made.meta, &self.sources)
            }
            _ => Action::Nothing,
        };
        if next != Action::Nothing {
            self.perform(next);
        }
    }
}

fn page_file(id: &str, title: &str, text: &str) -> (String, String) {
    (
        format!("{id}.lepiter"),
        format!(
            r#"{{
                "uid": {{"uuid": {}}},
                "pageType": {{"title": {}}},
                "children": {{"items": [{{"__type": "textSnippet", "string": {}}}]}}
            }}"#,
            quoted(id),
            quoted(title),
            quoted(text)
        ),
    )
}

/// An app in list mode over three pages, two of which link to each other.
fn make_app() -> Ui {
    let lines: Vec<_> = (0..40).map(|i| format!("line {i} of the first page")).collect();
    let (index, sources) = open_kb(&[
        page_file("p1", "Alpha", &format!("see [[Beta]]\n{}", lines.join("\n"))),
        page_file("p2", "Beta", "back to [Alpha](page:p1) or [on](page:p3)"),
        page_file("p3", "Gamma", "no links here"),
    ]);
    let mut app = App::new(index, &sources, 16);
    app.visible_ids = Vec::new();
    Ui { app, sources }
}

/// An app that has a page opened, with a link.
fn make_app_on_page() -> Ui {
    let mut app = make_app();
    app.rebuild_visible_ids();
    let id = app.visible_ids[0].clone();
    app.open_page(&id, false);
    assert_eq!(app.mode, Mode::Page);
    app
}

fn make_edit_state() -> EditState {
    let raw = json(
        r#"{
        "children": {
            "items": [
                {"__type": "textSnippet", "string": "hello world"},
                {"__type": "textSnippet", "string": "second snippet"}
            ]
        }
    }"#,
    );
    let mut snippets = Vec::new();
    collect_snippets(&raw, Vec::new(), &mut snippets);
    let buffer = snippets[0].text.clone();
    EditState::new("test-page".into(), "/tmp/test.json".into(), raw, snippets, buffer)
}

// ── Help mode ──────────────────────────────────────────────────

#[test]
fn help_mode_question_mark_dismisses() {
    let mut app = make_app();
    app.show_help = true;
    let result = app.handle_key(key(KeyCode::Char('?')));
    assert!(!app.show_help);
    assert!(matches!(result, KeyResult::Continue));
}

#[test]
fn help_mode_esc_dismisses() {
    let mut app = make_app();
    app.show_help = true;
    let result = app.handle_key(key(KeyCode::Esc));
    assert!(!app.show_help);
    assert!(matches!(result, KeyResult::Continue));
}

#[test]
fn help_mode_ignores_other_keys() {
    let mut app = make_app();
    app.show_help = true;
    let result = app.handle_key(key(KeyCode::Char('q')));
    // 'q' should NOT quit while help is showing.
    assert!(app.show_help);
    assert!(matches!(result, KeyResult::Continue));
}

#[test]
fn help_mode_ignores_enter() {
    let mut app = make_app();
    app.show_help = true;
    let result = app.handle_key(key(KeyCode::Enter));
    assert!(app.show_help);
    assert!(matches!(result, KeyResult::Continue));
}

// ── List mode ──────────────────────────────────────────────────

#[test]
fn list_q_returns_quit() {
    let mut app = make_app();
    let result = app.handle_key(key(KeyCode::Char('q')));
    assert!(matches!(result, KeyResult::Quit));
}

#[test]
fn list_question_mark_shows_help() {
    let mut app = make_app();
    assert!(!app.show_help);
    app.handle_key(key(KeyCode::Char('?')));
    assert!(app.show_help);
}

#[test]
fn list_slash_enters_search_mode() {
    let mut app = make_app();
    app.handle_key(key(KeyCode::Char('/')));
    assert_eq!(app.mode, Mode::Search);
    assert!(app.search.is_empty());
}

#[test]
fn list_esc_stays_in_list() {
    let mut app = make_app();
    app.handle_key(key(KeyCode::Esc));
    assert_eq!(app.mode, Mode::List);
}

#[test]
fn list_j_moves_selection_down() {
    let mut app = make_app();
    app.rebuild_visible_ids();
    if app.visible_ids.len() < 2 {
        return; // need at least 2 pages for this test
    }
    app.selected = 0;
    app.handle_key(key(KeyCode::Char('j')));
    assert_eq!(app.selected, 1);
}

#[test]
fn list_k_moves_selection_up() {
    let mut app = make_app();
    app.rebuild_visible_ids();
    if app.visible_ids.len() < 2 {
        return;
    }
    app.selected = 1;
    app.handle_key(key(KeyCode::Char('k')));
    assert_eq!(app.selected, 0);
}

#[test]
fn list_down_arrow_moves_selection() {
    let mut app = make_app();
    app.rebuild_visible_ids();
    if app.visible_ids.len() < 2 {
        return;
    }
    app.selected = 0;
    app.handle_key(key(KeyCode::Down));
    assert_eq!(app.selected, 1);
}

#[test]
fn list_up_arrow_moves_selection() {
    let mut app = make_app();
    app.rebuild_visible_ids();
    if app.visible_ids.len() < 2 {
        return;
    }
    app.selected = 1;
    app.handle_key(key(KeyCode::Up));
    assert_eq!(app.selected, 0);
}

#[test]
fn list_selection_clamps_at_zero() {
    let mut app = make_app();
    app.rebuild_visible_ids();
    app.selected = 0;
    app.handle_key(key(KeyCode::Char('k')));
    assert_eq!(app.selected, 0);
}

#[test]
fn list_enter_opens_page() {
    let mut app = make_app();
    app.rebuild_visible_ids();
    if app.visible_ids.is_empty() {
        return;
    }
    app.selected = 0;
    app.handle_key(key(KeyCode::Enter));
    assert_eq!(app.mode, Mode::Page);
    assert!(app.opened.is_some());
}

#[test]
fn list_returns_tick() {
    let mut app = make_app();
    let result = app.handle_key(key(KeyCode::Esc));
    assert!(matches!(result, KeyResult::Tick));
}

// ── Search mode ────────────────────────────────────────────────

#[test]
fn search_typing_accumulates_chars() {
    let mut app = make_app();
    app.mode = Mode::Search;
    app.handle_key(key(KeyCode::Char('a')));
    app.handle_key(key(KeyCode::Char('b')));
    app.handle_key(key(KeyCode::Char('c')));
    assert_eq!(app.search, "abc");
}

#[test]
fn search_backspace_removes_last_char() {
    let mut app = make_app();
    app.mode = Mode::Search;
    app.search = "abc".to_string();
    app.handle_key(key(KeyCode::Backspace));
    assert_eq!(app.search, "ab");
}

#[test]
fn search_backspace_on_empty_is_noop() {
    let mut app = make_app();
    app.mode = Mode::Search;
    app.handle_key(key(KeyCode::Backspace));
    assert!(app.search.is_empty());
}

#[test]
fn search_esc_clears_and_returns_to_list() {
    let mut app = make_app();
    app.mode = Mode::Search;
    app.search = "query".to_string();
    app.handle_key(key(KeyCode::Esc));
    assert_eq!(app.mode, Mode::List);
    assert!(app.search.is_empty());
}

#[test]
fn search_enter_opens_selected_page() {
    let mut app = make_app();
    app.rebuild_visible_ids();
    app.mode = Mode::Search;
    app.handle_key(key(KeyCode::Enter));
    // With pages present, Enter opens the selected page (Page mode).
    // The code sets mode=List then calls open_selected_page which
    // transitions to Page if a page is available.
    if app.visible_ids.is_empty() {
        assert_eq!(app.mode, Mode::List);
    } else {
        assert_eq!(app.mode, Mode::Page);
    }
}

#[test]
fn search_up_down_navigate_results() {
    let mut app = make_app();
    app.rebuild_visible_ids();
    app.mode = Mode::Search;
    if app.visible_ids.len() < 2 {
        return;
    }
    app.selected = 0;
    app.handle_key(key(KeyCode::Down));
    assert_eq!(app.selected, 1);
    app.handle_key(key(KeyCode::Up));
    assert_eq!(app.selected, 0);
}

#[test]
fn search_always_returns_search_tick() {
    let mut app = make_app();
    app.mode = Mode::Search;
    let result = app.handle_key(key(KeyCode::Char('x')));
    assert!(matches!(result, KeyResult::SearchTick));
}

#[test]
fn search_esc_returns_search_tick() {
    let mut app = make_app();
    app.mode = Mode::Search;
    let result = app.handle_key(key(KeyCode::Esc));
    assert!(matches!(result, KeyResult::SearchTick));
}

#[test]
fn search_unrecognized_key_returns_search_tick() {
    let mut app = make_app();
    app.mode = Mode::Search;
    let result = app.handle_key(key(KeyCode::Other));
    assert!(matches!(result, KeyResult::SearchTick));
}

// ── Page mode ──────────────────────────────────────────────────

#[test]
fn page_b_returns_to_list() {
    let mut app = make_app_on_page();
    app.handle_key(key(KeyCode::Char('b')));
    assert_eq!(app.mode, Mode::List);
}

#[test]
fn page_j_scrolls_down() {
    let mut app = make_app_on_page();
    app.page_scroll = 0;
    app.handle_key(key(KeyCode::Char('j')));
    assert_eq!(app.page_scroll, 1);
}

#[test]
fn page_k_scrolls_up() {
    let mut app = make_app_on_page();
    app.page_scroll = 5;
    app.handle_key(key(KeyCode::Char('k')));
    assert_eq!(app.page_scroll, 4);
}

#[test]
fn page_k_clamps_at_zero() {
    let mut app = make_app_on_page();
    app.page_scroll = 0;
    app.handle_key(key(KeyCode::Char('k')));
    assert_eq!(app.page_scroll, 0);
}

#[test]
fn page_g_scrolls_to_top() {
    let mut app = make_app_on_page();
    app.page_scroll = 50;
    app.handle_key(key(KeyCode::Char('g')));
    assert_eq!(app.page_scroll, 0);
}

#[test]
fn page_big_g_scrolls_to_bottom() {
    let mut app = make_app_on_page();
    app.handle_key(key(KeyCode::Char('G')));
    assert!(app.page_scroll > 0);
}

#[test]
fn page_esc_returns_to_list() {
    let mut app = make_app_on_page();
    app.handle_key(key(KeyCode::Esc));
    assert_eq!(app.mode, Mode::List);
}

#[test]
fn page_q_quits() {
    let mut app = make_app_on_page();
    let result = app.handle_key(key(KeyCode::Char('q')));
    assert!(matches!(result, KeyResult::Quit));
}

#[test]
fn page_question_mark_shows_help() {
    let mut app = make_app_on_page();
    app.handle_key(key(KeyCode::Char('?')));
    assert!(app.show_help);
}

#[test]
fn page_slash_enters_page_search() {
    let mut app = make_app_on_page();
    app.handle_key(key(KeyCode::Char('/')));
    assert_eq!(app.mode, Mode::PageSearch);
}

#[test]
fn page_h_goes_back_in_history() {
    let mut app = make_app_on_page();
    // No history — should go to List.
    app.handle_key(key(KeyCode::Char('h')));
    assert_eq!(app.mode, Mode::List);
}

#[test]
fn page_h_with_history_opens_previous() {
    let mut app = make_app();
    app.rebuild_visible_ids();
    if app.visible_ids.len() < 2 {
        return;
    }
    // Open first page, then open second as a link follow.
    let first = app.visible_ids[0].clone();
    let second = app.visible_ids[1].clone();
    app.open_page(&first, false);
    app.open_page(&second, true); // pushes first to history
    assert_eq!(app.opened.as_deref(), Some(second.as_str()));

    app.handle_key(key(KeyCode::Char('h')));
    assert_eq!(app.opened.as_deref(), Some(first.as_str()));
    assert_eq!(app.mode, Mode::Page);
}

#[test]
fn page_tab_cycles_link_selection_forward() {
    let mut app = make_app_on_page();
    let initial = app.selected_link;
    app.handle_key(key(KeyCode::Tab));
    // If there are links, selection should advance (or stay at 0 if no links).
    if let Some(p) = &app.page {
        if !p.links.is_empty() {
            assert!(app.selected_link >= initial);
        }
    }
}

#[test]
fn page_backtab_cycles_link_selection_backward() {
    let mut app = make_app_on_page();
    // Set link selection to 1 to test backward.
    app.selected_link = 1;
    app.handle_key(key(KeyCode::BackTab));
    assert_eq!(app.selected_link, 0);
}

#[test]
fn page_down_arrow_scrolls() {
    let mut app = make_app_on_page();
    app.page_scroll = 0;
    app.handle_key(key(KeyCode::Down));
    assert_eq!(app.page_scroll, 1);
}

#[test]
fn page_up_arrow_scrolls() {
    let mut app = make_app_on_page();
    app.page_scroll = 3;
    app.handle_key(key(KeyCode::Up));
    assert_eq!(app.page_scroll, 2);
}

#[test]
fn page_pageup_scrolls_half_page() {
    let mut app = make_app_on_page();
    app.page_scroll = 20;
    app.handle_key(key(KeyCode::PageUp));
    assert!(app.page_scroll < 20);
}

#[test]
fn page_pagedown_scrolls_half_page() {
    let mut app = make_app_on_page();
    app.page_scroll = 0;
    app.handle_key(key(KeyCode::PageDown));
    assert!(app.page_scroll > 0);
}

// ── Edit mode ──────────────────────────────────────────────────

#[test]
fn edit_mode_returns_tick() {
    let mut app = make_app();
    app.mode = Mode::Edit;
    app.edit = Some(make_edit_state());
    let result = app.handle_key(key(KeyCode::Char('x')));
    assert!(matches!(result, KeyResult::Tick));
}

#[test]
fn edit_esc_exits_to_page_mode() {
    let mut app = make_app();
    app.mode = Mode::Edit;
    app.edit = Some(make_edit_state());
    app.handle_key(key(KeyCode::Esc));
    assert_eq!(app.mode, Mode::Page);
    assert!(app.edit.is_none());
}

#[test]
fn edit_pageup_decreases_scroll() {
    let mut app = make_app();
    app.mode = Mode::Edit;
    let mut edit = make_edit_state();
    edit.preview_scroll = 15;
    app.edit = Some(edit);
    app.handle_key(key(KeyCode::PageUp));
    assert_eq!(app.edit.as_ref().unwrap().preview_scroll, 5);
}

#[test]
fn edit_pagedown_increases_scroll() {
    let mut app = make_app();
    app.mode = Mode::Edit;
    let mut edit = make_edit_state();
    edit.preview_scroll = 0;
    app.edit = Some(edit);
    app.handle_key(key(KeyCode::PageDown));
    assert_eq!(app.edit.as_ref().unwrap().preview_scroll, 10);
}

#[test]
fn edit_pageup_clamps_at_zero() {
    let mut app = make_app();
    app.mode = Mode::Edit;
    let mut edit = make_edit_state();
    edit.preview_scroll = 3;
    app.edit = Some(edit);
    app.handle_key(key(KeyCode::PageUp));
    assert_eq!(app.edit.as_ref().unwrap().preview_scroll, 0);
}

#[test]
fn edit_left_arrow_moves_cursor() {
    let mut app = make_app();
    app.mode = Mode::Edit;
    let mut edit = make_edit_state();
    edit.cursor = 5;
    app.edit = Some(edit);
    app.handle_key(key(KeyCode::Left));
    assert_eq!(app.edit.as_ref().unwrap().cursor, 4);
}

#[test]
fn edit_right_arrow_moves_cursor() {
    let mut app = make_app();
    app.mode = Mode::Edit;
    let mut edit = make_edit_state();
    edit.cursor = 0;
    app.edit = Some(edit);
    app.handle_key(key(KeyCode::Right));
    assert_eq!(app.edit.as_ref().unwrap().cursor, 1);
}

#[test]
fn edit_left_clamps_at_zero() {
    let mut app = make_app();
    app.mode = Mode::Edit;
    let mut edit = make_edit_state();
    edit.cursor = 0;
    app.edit = Some(edit);
    app.handle_key(key(KeyCode::Left));
    assert_eq!(app.edit.as_ref().unwrap().cursor, 0);
}

#[test]
fn edit_right_clamps_at_buffer_len() {
    let mut app = make_app();
    app.mode = Mode::Edit;
    let mut edit = make_edit_state();
    let len = edit.buffer.chars().count();
    edit.cursor = len;
    app.edit = Some(edit);
    app.handle_key(key(KeyCode::Right));
    assert_eq!(app.edit.as_ref().unwrap().cursor, len);
}

#[test]
fn edit_home_moves_cursor_to_start() {
    let mut app = make_app();
    app.mode = Mode::Edit;
    let mut edit = make_edit_state();
    edit.cursor = 5;
    app.edit = Some(edit);
    app.handle_key(key(KeyCode::Home));
    assert_eq!(app.edit.as_ref().unwrap().cursor, 0);
}

#[test]
fn edit_end_moves_cursor_to_end() {
    let mut app = make_app();
    app.mode = Mode::Edit;
    let mut edit = make_edit_state();
    let len = edit.buffer.chars().count();
    edit.cursor = 0;
    app.edit = Some(edit);
    app.handle_key(key(KeyCode::End));
    assert_eq!(app.edit.as_ref().unwrap().cursor, len);
}

#[test]
fn edit_char_inserts_into_buffer() {
    let mut app = make_app();
    app.mode = Mode::Edit;
    let mut edit = make_edit_state();
    edit.cursor = 0;
    app.edit = Some(edit);
    app.handle_key(key(KeyCode::Char('X')));
    assert!(app.edit.as_ref().unwrap().buffer.starts_with('X'));
}

#[test]
fn edit_enter_inserts_newline() {
    let mut app = make_app();
    app.mode = Mode::Edit;
    let mut edit = make_edit_state();
    edit.cursor = 5;
    app.edit = Some(edit);
    let before = app.edit.as_ref().unwrap().buffer.clone();
    app.handle_key(key(KeyCode::Enter));
    assert!(app.edit.as_ref().unwrap().buffer.contains('\n'));
    assert!(app.edit.as_ref().unwrap().buffer.len() > before.len());
}

#[test]
fn edit_backspace_deletes_before_cursor() {
    let mut app = make_app();
    app.mode = Mode::Edit;
    let mut edit = make_edit_state();
    edit.cursor = 1;
    app.edit = Some(edit);
    let before_len = app.edit.as_ref().unwrap().buffer.len();
    app.handle_key(key(KeyCode::Backspace));
    assert_eq!(app.edit.as_ref().unwrap().buffer.len(), before_len - 1);
    assert_eq!(app.edit.as_ref().unwrap().cursor, 0);
}

#[test]
fn edit_delete_removes_char_at_cursor() {
    let mut app = make_app();
    app.mode = Mode::Edit;
    let mut edit = make_edit_state();
    edit.cursor = 0;
    let first_char = edit.buffer.chars().next().unwrap();
    app.edit = Some(edit);
    app.handle_key(key(KeyCode::Delete));
    assert!(!app.edit.as_ref().unwrap().buffer.starts_with(first_char));
}

#[test]
fn edit_ctrl_u_undoes() {
    let mut app = make_app();
    app.mode = Mode::Edit;
    let mut edit = make_edit_state();
    // Push a snapshot, then modify.
    edit.push_undo_snapshot();
    let original = edit.buffer.clone();
    edit.buffer = "modified".to_string();
    edit.cursor = 8;
    edit.commit_buffer(0);
    app.edit = Some(edit);

    app.handle_key(key_ctrl(KeyCode::Char('u')));
    assert_eq!(app.edit.as_ref().unwrap().buffer, original);
}

#[test]
fn edit_ctrl_char_is_ignored() {
    let mut app = make_app();
    app.mode = Mode::Edit;
    let edit = make_edit_state();
    let before = edit.buffer.clone();
    app.edit = Some(edit);
    app.handle_key(key_ctrl(KeyCode::Char('b')));
    assert_eq!(app.edit.as_ref().unwrap().buffer, before);
}

#[test]
fn edit_tab_switches_snippet_forward() {
    let mut app = make_app();
    app.mode = Mode::Edit;
    let edit = make_edit_state();
    assert_eq!(edit.selected, 0);
    app.edit = Some(edit);
    app.handle_key(key(KeyCode::Tab));
    assert_eq!(app.edit.as_ref().unwrap().selected, 1);
}

#[test]
fn edit_backtab_switches_snippet_backward() {
    let mut app = make_app();
    app.mode = Mode::Edit;
    let mut edit = make_edit_state();
    edit.selected = 1;
    let text = edit.snippets[1].text.clone();
    edit.set_buffer(text);
    app.edit = Some(edit);
    app.handle_key(key(KeyCode::BackTab));
    assert_eq!(app.edit.as_ref().unwrap().selected, 0);
}

#[test]
fn edit_tab_clamps_at_last_snippet() {
    let mut app = make_app();
    app.mode = Mode::Edit;
    let mut edit = make_edit_state();
    let last = edit.snippets.len() - 1;
    edit.selected = last;
    let text = edit.snippets[last].text.clone();
    edit.set_buffer(text);
    app.edit = Some(edit);
    app.handle_key(key(KeyCode::Tab));
    assert_eq!(app.edit.as_ref().unwrap().selected, last);
}

#[test]
fn edit_backtab_clamps_at_first_snippet() {
    let mut app = make_app();
    app.mode = Mode::Edit;
    let edit = make_edit_state();
    assert_eq!(edit.selected, 0);
    app.edit = Some(edit);
    app.handle_key(key(KeyCode::BackTab));
    assert_eq!(app.edit.as_ref().unwrap().selected, 0);
}

// ── Open externally ────────────────────────────────────────────

#[test]
fn page_shift_o_triggers_open_externally() {
    let mut app = make_app_on_page();
    app.handle_key(key(KeyCode::Char('O')));
    // Without LEPITER_OPEN_CMD set, the method prompts the user.
    assert!(app.status.contains("LEPITER_OPEN_CMD"));
}

#[test]
fn list_shift_o_is_noop() {
    let mut app = make_app();
    app.handle_key(key(KeyCode::Char('O')));
    assert!(app.status.is_empty());
}

// ── Mode transitions ───────────────────────────────────────────

#[test]
fn list_to_search_to_list_roundtrip() {
    let mut app = make_app();
    assert_eq!(app.mode, Mode::List);

    app.handle_key(key(KeyCode::Char('/')));
    assert_eq!(app.mode, Mode::Search);

    app.handle_key(key(KeyCode::Esc));
    assert_eq!(app.mode, Mode::List);
}

#[test]
fn list_to_page_to_list_via_b() {
    let mut app = make_app();
    app.rebuild_visible_ids();
    if app.visible_ids.is_empty() {
        return;
    }
    app.handle_key(key(KeyCode::Enter));
    assert_eq!(app.mode, Mode::Page);

    app.handle_key(key(KeyCode::Char('b')));
    assert_eq!(app.mode, Mode::List);
}

#[test]
fn page_to_edit_to_page_roundtrip() {
    let mut app = make_app_on_page();
    // 'e' enters edit mode.
    app.handle_key(key(KeyCode::Char('e')));
    // Whether we enter edit depends on whether the page has editable snippets.
    if app.mode == Mode::Edit {
        app.handle_key(key(KeyCode::Esc));
        assert_eq!(app.mode, Mode::Page);
    }
}

// ── Unrecognized keys ──────────────────────────────────────────

#[test]
fn list_unrecognized_key_returns_tick() {
    let mut app = make_app();
    let result = app.handle_key(key(KeyCode::Other));
    assert!(matches!(result, KeyResult::Tick));
}

#[test]
fn page_unrecognized_key_returns_tick() {
    let mut app = make_app_on_page();
    let result = app.handle_key(key(KeyCode::Other));
    assert!(matches!(result, KeyResult::Tick));
}

// ── Page mode: keys that should NOT work ───────────────────────

#[test]
fn page_j_k_dont_change_list_selection() {
    let mut app = make_app_on_page();
    let before = app.selected;
    app.handle_key(key(KeyCode::Char('j')));
    assert_eq!(app.selected, before); // j scrolls page, not selection
}

#[test]
fn list_g_does_not_change_scroll() {
    let mut app = make_app();
    app.page_scroll = 42;
    app.handle_key(key(KeyCode::Char('g')));
    // 'g' only works in Page mode; in List, it's a no-op.
    assert_eq!(app.page_scroll, 42);
}

// ── Page search mode ──────────────────────────────────────────

#[test]
fn page_search_accumulates_chars() {
    let mut app = make_app_on_page();
    app.handle_key(key(KeyCode::Char('/')));
    app.handle_key(key(KeyCode::Char('h')));
    app.handle_key(key(KeyCode::Char('e')));
    assert_eq!(app.page_search, "he");
    assert_eq!(app.page_search_needle, "he");
}

#[test]
fn page_search_backspace_removes_char() {
    let mut app = make_app_on_page();
    app.handle_key(key(KeyCode::Char('/')));
    app.handle_key(key(KeyCode::Char('a')));
    app.handle_key(key(KeyCode::Char('b')));
    app.handle_key(key(KeyCode::Backspace));
    assert_eq!(app.page_search, "a");
}

#[test]
fn page_search_esc_clears_and_returns_to_page() {
    let mut app = make_app_on_page();
    app.handle_key(key(KeyCode::Char('/')));
    app.handle_key(key(KeyCode::Char('x')));
    app.handle_key(key(KeyCode::Esc));
    assert_eq!(app.mode, Mode::Page);
    assert!(app.page_search.is_empty());
    assert!(app.page_search_needle.is_empty());
}

#[test]
fn page_search_enter_returns_to_page_with_search_active() {
    let mut app = make_app_on_page();
    app.handle_key(key(KeyCode::Char('/')));
    app.handle_key(key(KeyCode::Char('t')));
    app.handle_key(key(KeyCode::Enter));
    assert_eq!(app.mode, Mode::Page);
    // Search needle should be preserved after Enter.
    assert_eq!(app.page_search_needle, "t");
}

#[test]
fn page_search_returns_continue() {
    let mut app = make_app_on_page();
    app.handle_key(key(KeyCode::Char('/')));
    let result = app.handle_key(key(KeyCode::Char('x')));
    assert!(matches!(result, KeyResult::Continue));
}

#[test]
fn page_esc_clears_active_search_before_going_to_list() {
    let mut app = make_app_on_page();
    // Enter page search and confirm with Enter
    app.handle_key(key(KeyCode::Char('/')));
    app.handle_key(key(KeyCode::Char('t')));
    app.handle_key(key(KeyCode::Enter));
    assert_eq!(app.mode, Mode::Page);
    assert!(!app.page_search_needle.is_empty());
    // First Esc clears the search but stays in Page mode.
    app.handle_key(key(KeyCode::Esc));
    assert_eq!(app.mode, Mode::Page);
    assert!(app.page_search_needle.is_empty());
    // Second Esc goes to list.
    app.handle_key(key(KeyCode::Esc));
    assert_eq!(app.mode, Mode::List);
}

#[test]
fn page_n_without_search_is_noop() {
    let mut app = make_app_on_page();
    let scroll_before = app.page_scroll;
    app.handle_key(key(KeyCode::Char('n')));
    assert_eq!(app.page_scroll, scroll_before);
}

#[test]
fn page_search_n_cycles_forward() {
    let mut app = make_app_on_page();
    // Set up a fake match list to test cycling.
    app.page_search_needle = "test".to_string();
    app.page_search_match_lines = vec![5, 10, 20];
    app.page_search_current = 0;
    app.handle_key(key(KeyCode::Char('n')));
    assert_eq!(app.page_search_current, 1);
    assert_eq!(app.page_scroll, 10);
    app.handle_key(key(KeyCode::Char('n')));
    assert_eq!(app.page_search_current, 2);
    assert_eq!(app.page_scroll, 20);
    // Wraps around.
    app.handle_key(key(KeyCode::Char('n')));
    assert_eq!(app.page_search_current, 0);
    assert_eq!(app.page_scroll, 5);
}

#[test]
fn page_search_shift_n_cycles_backward() {
    let mut app = make_app_on_page();
    app.page_search_needle = "test".to_string();
    app.page_search_match_lines = vec![5, 10, 20];
    app.page_search_current = 0;
    // N (shift-n) goes backward, wrapping to end.
    app.handle_key(key(KeyCode::Char('N')));
    assert_eq!(app.page_search_current, 2);
    assert_eq!(app.page_scroll, 20);
    app.handle_key(key(KeyCode::Char('N')));
    assert_eq!(app.page_search_current, 1);
    assert_eq!(app.page_scroll, 10);
}

#[test]
fn list_slash_still_enters_list_search() {
    let mut app = make_app();
    app.handle_key(key(KeyCode::Char('/')));
    assert_eq!(app.mode, Mode::Search);
}

#[test]
fn open_page_clears_page_search() {
    let mut app = make_app_on_page();
    app.page_search = "something".to_string();
    app.page_search_needle = "something".to_string();
    app.page_search_match_lines = vec![1, 2];
    app.page_search_current = 1;
    // Go back and reopen.
    app.handle_key(key(KeyCode::Esc));
    if let Some(id) = app.visible_ids.first().cloned() {
        app.open_page(&id, false);
    }
    assert!(app.page_search.is_empty());
    assert!(app.page_search_needle.is_empty());
    assert!(app.page_search_match_lines.is_empty());
    assert_eq!(app.page_search_current, 0);
}

// ── Backlinks mode ─────────────────────────────────────────────

#[test]
fn page_shift_b_shows_backlinks_or_status() {
    let mut app = make_app_on_page();
    app.handle_key(key(KeyCode::Char('B')));
    // Either enters Backlinks mode (if backlinks exist) or stays
    // in Page mode with a status message.
    assert!(app.mode == Mode::Backlinks || app.status.contains("no backlinks"));
}

#[test]
fn backlinks_esc_returns_to_page() {
    let mut app = make_app_on_page();
    app.mode = Mode::Backlinks;
    app.backlink_ids = vec!["dummy".to_string()];
    app.handle_key(key(KeyCode::Esc));
    assert_eq!(app.mode, Mode::Page);
}

#[test]
fn backlinks_q_quits() {
    let mut app = make_app();
    app.mode = Mode::Backlinks;
    let result = app.handle_key(key(KeyCode::Char('q')));
    assert!(matches!(result, KeyResult::Quit));
}

#[test]
fn backlinks_j_k_navigate() {
    let mut app = make_app();
    app.mode = Mode::Backlinks;
    app.backlink_ids = vec!["a".to_string(), "b".to_string(), "c".to_string()];
    app.backlink_selected = 0;

    app.handle_key(key(KeyCode::Char('j')));
    assert_eq!(app.backlink_selected, 1);

    app.handle_key(key(KeyCode::Char('k')));
    assert_eq!(app.backlink_selected, 0);
}

#[test]
fn backlinks_selection_clamps() {
    let mut app = make_app();
    app.mode = Mode::Backlinks;
    app.backlink_ids = vec!["a".to_string()];
    app.backlink_selected = 0;

    app.handle_key(key(KeyCode::Char('k')));
    assert_eq!(app.backlink_selected, 0);

    app.handle_key(key(KeyCode::Char('j')));
    assert_eq!(app.backlink_selected, 0); // only 1 item
}

#[test]
fn backlinks_question_mark_shows_help() {
    let mut app = make_app();
    app.mode = Mode::Backlinks;
    app.handle_key(key(KeyCode::Char('?')));
    assert!(app.show_help);
}

#[test]
fn backlinks_returns_tick() {
    let mut app = make_app();
    app.mode = Mode::Backlinks;
    let result = app.handle_key(key(KeyCode::Char('j')));
    assert!(matches!(result, KeyResult::Tick));
}

// ── New page title mode ───────────────────────────────────────

#[test]
fn list_n_enters_new_page_title_mode() {
    let mut app = make_app();
    app.handle_key(key(KeyCode::Char('n')));
    assert_eq!(app.mode, Mode::NewPageTitle);
    assert!(app.new_page_title.is_empty());
}

#[test]
fn new_page_title_typing_accumulates() {
    let mut app = make_app();
    app.mode = Mode::NewPageTitle;
    app.handle_key(key(KeyCode::Char('H')));
    app.handle_key(key(KeyCode::Char('i')));
    assert_eq!(app.new_page_title, "Hi");
}

#[test]
fn new_page_title_backspace_removes_char() {
    let mut app = make_app();
    app.mode = Mode::NewPageTitle;
    app.new_page_title = "abc".to_string();
    app.handle_key(key(KeyCode::Backspace));
    assert_eq!(app.new_page_title, "ab");
}

#[test]
fn new_page_title_esc_cancels() {
    let mut app = make_app();
    app.mode = Mode::NewPageTitle;
    app.new_page_title = "something".to_string();
    app.handle_key(key(KeyCode::Esc));
    assert_eq!(app.mode, Mode::List);
    assert!(app.new_page_title.is_empty());
}

#[test]
fn new_page_title_empty_enter_returns_to_list() {
    let mut app = make_app();
    app.mode = Mode::NewPageTitle;
    app.handle_key(key(KeyCode::Enter));
    assert_eq!(app.mode, Mode::List);
}

#[test]
fn new_page_title_returns_tick() {
    let mut app = make_app();
    app.mode = Mode::NewPageTitle;
    let result = app.handle_key(key(KeyCode::Char('x')));
    assert!(matches!(result, KeyResult::Tick));
}

// ── Ctrl+A append snippet ─────────────────────────────────────

#[test]
fn edit_ctrl_a_appends_snippet() {
    let mut app = make_app();
    app.mode = Mode::Edit;
    let edit = make_edit_state();
    assert_eq!(edit.snippets.len(), 2);
    app.edit = Some(edit);
    app.handle_key(key_ctrl(KeyCode::Char('a')));
    let edit = app.edit.as_ref().unwrap();
    assert_eq!(edit.snippets.len(), 3);
    assert_eq!(edit.selected, 2);
    assert!(edit.buffer.is_empty());
    assert!(edit.dirty);
}
