//! The reader and editor as a state machine: what a key does to the state, and
//! what is then to be read, written or opened. Points in time are in
//! milliseconds.

use crate::edit::{
    a_read_page_is_ready, collect_snippets, count_chars, delete_char_at, delete_char_before,
    edits_stay_ready, entry_views, forest_entries, insert_char_at, least, move_cursor_vertical,
    moved_vertically, moving_vertically_stays_inside, path_view, typed, undoing_goes_back,
    EditModel, EditState, SnippetEntry,
};
use crate::index::{
    any_holds, classified, linked, loaded, meta_match, needle_of, outgoing, page_meta_match_kind, registered,
    registering_keeps_the_index, relinked, source_of, source_table, IndexModel, KnowledgeBaseIndex, PageSource, SourceModel,
    SourceTable,
};
use crate::json::{Json, JsonModel};
use crate::lists::{lemma_without, listed, without};
use crate::lru::{kept_keys, LruCache};
use crate::model::{LinkTargetKind, MetaModel, PageId, PageMeta, SearchMatchKind, TargetModel};
use crate::parse::{children_of, page_content};
use crate::render::{
    display_text, normalized, normalized_text_has_no_carriage_return, render_page_to_text,
};
use crate::strmap::StrMap;
use crate::styled::{line_text, line_views, spans_text, LineModel, StyledLine};
use crate::text::{
    chars_of, contains, contains_char, copy_of, lemma_views_push, lowercase, matches_at, opt_view, same_text,
    string_of, text_contains, to_lowercase, trim, trimmed, views,
};
use crate::util::{fault_message, AttachmentError};
use std::collections::VecDeque;
use vstd::prelude::*;

verus! {

// ---------------------------------------------------------------------------
// State
// ---------------------------------------------------------------------------

/// What is on the screen.
#[derive(Debug, Clone, Copy, PartialEq, Eq, Structural)]
pub enum Mode {
    List,
    Search,
    Page,
    PageSearch,
    Backlinks,
    Edit,
    NewPageTitle,
}

/// What the event loop does after a key.
#[derive(Debug, Clone, Copy, PartialEq, Eq, Structural)]
pub enum KeyResult {
    /// Exit the application.
    Quit,
    /// Continue without any tick processing.
    Continue,
    /// Run a full tick (text index + autosave).
    Tick,
    /// Advance the full-text search index only.
    SearchTick,
}

#[derive(Debug, Clone, Copy, PartialEq, Eq, Structural)]
pub enum KeyCode {
    Esc,
    Enter,
    Up,
    Down,
    Left,
    Right,
    Home,
    End,
    PageUp,
    PageDown,
    Tab,
    BackTab,
    Backspace,
    Delete,
    Char(char),
    Other,
}

/// A key that was pressed, with or without control.
#[derive(Debug, Clone, Copy, PartialEq, Eq, Structural)]
pub struct Key {
    pub code: KeyCode,
    pub ctrl: bool,
}

/// What follows once a page is open.
#[derive(Debug, Clone, Copy, PartialEq, Eq, Structural)]
pub enum AfterOpen {
    Nothing,
    /// Scroll to what the search found.
    Jump,
    /// Edit the page.
    Edit,
}

/// What is to be done outside of the state. Each is answered by a call.
#[derive(Debug, PartialEq, Eq)]
pub enum Action {
    Nothing,
    /// Load and render a page; then [`App::page_opened`].
    OpenPage { id: PageId, from_link: bool, after: AfterOpen },
    /// Read a page file; then [`App::edit_loaded`].
    LoadForEdit { path: String },
    /// Write the page under edit; then [`App::edit_saved`].
    Save,
    /// Write the page under edit; then [`App::edit_left`].
    SaveAndLeave,
    /// Write a new page file; then [`App::page_created`].
    CreatePage { title: String },
    /// Open an attachment; then [`App::attachment_opened`].
    OpenAttachment { target: String },
    /// Open an address; then [`App::url_opened`].
    OpenUrl { url: String },
    /// Run a command on a page; then [`App::command_run`].
    RunCommand { command: String, id: PageId, path: String },
}

/// What an [`Action`] holds.
#[verifier::ext_equal]
pub enum ActionModel {
    Nothing,
    OpenPage { id: Seq<char>, from_link: bool, after: AfterOpen },
    LoadForEdit { path: Seq<char> },
    Save,
    SaveAndLeave,
    CreatePage { title: Seq<char> },
    OpenAttachment { target: Seq<char> },
    OpenUrl { url: Seq<char> },
    RunCommand { command: Seq<char>, id: Seq<char>, path: Seq<char> },
}

impl View for Action {
    type V = ActionModel;

    open spec fn view(&self) -> ActionModel {
        match self {
            Action::Nothing => ActionModel::Nothing,
            Action::OpenPage { id, from_link, after } => ActionModel::OpenPage {
                id: id@,
                from_link: *from_link,
                after: *after,
            },
            Action::LoadForEdit { path } => ActionModel::LoadForEdit { path: path@ },
            Action::Save => ActionModel::Save,
            Action::SaveAndLeave => ActionModel::SaveAndLeave,
            Action::CreatePage { title } => ActionModel::CreatePage { title: title@ },
            Action::OpenAttachment { target } => ActionModel::OpenAttachment { target: target@ },
            Action::OpenUrl { url } => ActionModel::OpenUrl { url: url@ },
            Action::RunCommand { command, id, path } => ActionModel::RunCommand {
                command: command@,
                id: id@,
                path: path@,
            },
        }
    }
}

/// A link of a rendered page.
#[derive(Debug, Clone, PartialEq, Eq)]
pub struct LinkTarget {
    pub label: String,
    pub target: String,
}

/// A page as it is shown.
#[derive(Debug, Clone, PartialEq, Eq)]
pub struct RenderedPage {
    pub id: PageId,
    pub title: String,
    pub lines: Vec<StyledLine>,
    pub links: Vec<LinkTarget>,
}

/// The text of a page, for searching.
#[derive(Debug, Clone, PartialEq, Eq)]
pub struct IndexedPageText {
    pub raw: String,
    pub lower: String,
}

/// What a [`LinkTarget`] holds.
#[verifier::ext_equal]
pub struct LinkModel {
    pub label: Seq<char>,
    pub target: Seq<char>,
}

/// What a [`RenderedPage`] holds.
#[verifier::ext_equal]
pub struct RenderedModel {
    pub id: Seq<char>,
    pub title: Seq<char>,
    pub lines: Seq<LineModel>,
    pub links: Seq<LinkModel>,
}

/// What an [`IndexedPageText`] holds.
#[verifier::ext_equal]
pub struct TextModel {
    pub raw: Seq<char>,
    pub lower: Seq<char>,
}

impl View for LinkTarget {
    type V = LinkModel;

    open spec fn view(&self) -> LinkModel {
        LinkModel { label: self.label@, target: self.target@ }
    }
}

impl View for RenderedPage {
    type V = RenderedModel;

    open spec fn view(&self) -> RenderedModel {
        RenderedModel {
            id: self.id@,
            title: self.title@,
            lines: line_views(self.lines@),
            links: Seq::new(self.links@.len(), |i: int| self.links@[i]@),
        }
    }
}

impl View for IndexedPageText {
    type V = TextModel;

    open spec fn view(&self) -> TextModel {
        TextModel { raw: self.raw@, lower: self.lower@ }
    }
}

/// The state of the reader and editor.
#[derive(Debug)]
pub struct App {
    pub index: KnowledgeBaseIndex,
    pub edit: Option<EditState>,
    pub visible_ids: Vec<PageId>,
    pub selected: usize,
    pub opened: Option<PageId>,
    /// The opened page as it is shown.
    pub page: Option<RenderedPage>,
    pub page_scroll: usize,
    pub selected_link: usize,
    pub search: String,
    pub search_needle: String,
    pub search_hit_kind: StrMap<SearchMatchKind>,
    /// The texts that were read for searching, as many as its limit allows.
    pub text_index: LruCache<IndexedPageText>,
    pub text_index_queue: VecDeque<PageId>,
    pub history: VecDeque<PageId>,
    pub page_search: String,
    pub page_search_needle: String,
    pub page_search_match_lines: Vec<usize>,
    pub page_search_current: usize,
    pub backlink_ids: Vec<PageId>,
    pub backlink_selected: usize,
    pub new_page_title: String,
    pub mode: Mode,
    pub show_help: bool,
    pub status: String,
}

pub open spec fn kind_table(m: StrMap<SearchMatchKind>) -> Map<Seq<char>, SearchMatchKind> {
    Map::new(|k: Seq<char>| m.has(k), |k: Seq<char>| m.at(k))
}

pub open spec fn index_texts(m: LruCache<IndexedPageText>) -> Map<Seq<char>, TextModel> {
    Map::new(|k: Seq<char>| m.has(k), |k: Seq<char>| m.at(k)@)
}

pub open spec fn edit_view(e: Option<EditState>) -> Option<EditModel> {
    match e {
        Some(e) => Some(e@),
        None => None,
    }
}

pub open spec fn rendered_view(p: Option<RenderedPage>) -> Option<RenderedModel> {
    match p {
        Some(p) => Some(p@),
        None => None,
    }
}

/// What an [`App`] holds.
#[verifier::ext_equal]
pub struct AppModel {
    pub index: IndexModel,
    pub edit: Option<EditModel>,
    pub visible: Seq<Seq<char>>,
    pub selected: nat,
    pub opened: Option<Seq<char>>,
    pub page: Option<RenderedModel>,
    pub scroll: nat,
    pub link: nat,
    pub search: Seq<char>,
    pub needle: Seq<char>,
    pub hits: Map<Seq<char>, SearchMatchKind>,
    pub texts: Map<Seq<char>, TextModel>,
    /// The pages with a text, that which was read longest ago first.
    pub text_order: Seq<Seq<char>>,
    /// How many texts are kept.
    pub text_limit: nat,
    pub queue: Seq<Seq<char>>,
    pub history: Seq<Seq<char>>,
    pub page_search: Seq<char>,
    pub page_needle: Seq<char>,
    pub match_lines: Seq<nat>,
    pub match_at: nat,
    pub back_ids: Seq<Seq<char>>,
    pub back_at: nat,
    pub new_title: Seq<char>,
    pub mode: Mode,
    pub help: bool,
    pub status: Seq<char>,
}

impl View for App {
    type V = AppModel;

    open spec fn view(&self) -> AppModel {
        AppModel {
            index: self.index@,
            edit: edit_view(self.edit),
            visible: views(self.visible_ids@),
            selected: self.selected as nat,
            opened: opt_view(self.opened),
            page: rendered_view(self.page),
            scroll: self.page_scroll as nat,
            link: self.selected_link as nat,
            search: self.search@,
            needle: self.search_needle@,
            hits: kind_table(self.search_hit_kind),
            texts: index_texts(self.text_index),
            text_order: self.text_index.keys(),
            text_limit: self.text_index.limit(),
            queue: views(self.text_index_queue@),
            history: views(self.history@),
            page_search: self.page_search@,
            page_needle: self.page_search_needle@,
            match_lines: path_view(self.page_search_match_lines@),
            match_at: self.page_search_current as nat,
            back_ids: views(self.backlink_ids@),
            back_at: self.backlink_selected as nat,
            new_title: self.new_page_title@,
            mode: self.mode,
            help: self.show_help,
            status: self.status@,
        }
    }
}

impl AppModel {
    /// Whether the page under edit, if there is one, can be worked on: a snippet
    /// is selected and the cursor stands in its text.
    pub open spec fn edit_ready(self) -> bool {
        match self.edit {
            Some(e) => e.ready(),
            None => true,
        }
    }

    /// Whether the match that is shown is one of the matches.
    pub open spec fn match_ready(self) -> bool {
        self.match_lines.len() > 0 ==> self.match_at < self.match_lines.len()
    }

    pub open spec fn wf(self) -> bool {
        self.index.wf() && self.edit_ready() && self.match_ready()
    }
}

impl App {
    /// Whether the state can be worked on.
    pub open spec fn wf(&self) -> bool {
        &&& self.index.wf()
        &&& self@.wf()
        &&& self.search_hit_kind.wf()
        &&& self.text_index.wf()
    }
}

// ---------------------------------------------------------------------------
// Moving in a list
// ---------------------------------------------------------------------------

/// The place that lies `delta` places below another one in a list of `len`.
pub open spec fn moved_in(at: nat, delta: int, len: nat) -> nat {
    if len == 0 || at + delta < 0 {
        0
    } else if at + delta > len - 1 {
        (len - 1) as nat
    } else {
        (at + delta) as nat
    }
}

/// Moving in a list stays in the list.
pub proof fn selections_stay_in_range(at: nat, delta: int, len: nat)
    requires
        len > 0,
    ensures
        moved_in(at, delta, len) < len,
        delta == 0 && at < len ==> moved_in(at, delta, len) == at,
{
}

fn move_in(at: usize, delta: isize, len: usize) -> (moved: usize)
    ensures
        moved == moved_in(at as nat, delta as int, len as nat),
{
    if len == 0 {
        return 0;
    }
    if delta < 0 {
        let up: usize = below_zero(delta);
        if at < up {
            0
        } else if at - up > len - 1 {
            len - 1
        } else {
            at - up
        }
    } else {
        let down: usize = delta as usize;
        if at > len - 1 || down > len - 1 - at {
            len - 1
        } else {
            at + down
        }
    }
}

/// How far a negative number lies below zero.
fn below_zero(delta: isize) -> (n: usize)
    requires
        delta < 0,
    ensures
        n == -delta,
{
    let up: isize = -(delta + 1);
    up as usize + 1
}

/// A scroll position that lies `delta` lines below another one, not above the
/// first line.
pub open spec fn scrolled_by(at: nat, delta: int) -> nat {
    if at + delta < 0 {
        0
    } else if at + delta > usize::MAX {
        usize::MAX as nat
    } else {
        (at + delta) as nat
    }
}

fn scroll_by(at: usize, delta: isize) -> (moved: usize)
    ensures
        moved == scrolled_by(at as nat, delta as int),
{
    if delta < 0 {
        let up: usize = below_zero(delta);
        if at < up {
            0
        } else {
            at - up
        }
    } else {
        let down: usize = delta as usize;
        if down > usize::MAX - at {
            usize::MAX
        } else {
            at + down
        }
    }
}

/// Half the usable height of a terminal, for scrolling by pages; ten lines where
/// the height is not known.
pub fn page_scroll_half(height: Option<u16>) -> (half: u16)
    ensures
        half == match height {
            Some(h) => if h < 8 {
                1
            } else {
                (h - 6) / 2
            },
            None => 10,
        },
{
    match height {
        Some(h) => if h < 8 {
            1
        } else {
            (h - 6) / 2
        },
        None => 10,
    }
}

// ---------------------------------------------------------------------------
// The list of pages
// ---------------------------------------------------------------------------

impl AppModel {
    /// The state in which the pages are searched for what was typed.
    pub open spec fn with_needle(self) -> AppModel {
        AppModel { needle: needle_of(self.search), ..self }
    }

    /// How a page matches what was typed: by its metadata, else by the text of
    /// it that has been read.
    pub open spec fn hit_of(self, id: Seq<char>) -> Option<SearchMatchKind> {
        let by_meta = if needle_of(self.search).len() == 0 {
            None
        } else {
            meta_match(self.index.pages[id], needle_of(self.search))
        };
        match by_meta {
            Some(kind) => Some(kind),
            None => if self.texts.contains_key(id) && contains(self.texts[id].lower, self.needle) {
                Some(SearchMatchKind::Content)
            } else {
                None
            },
        }
    }

    /// The ids of the pages that match in the way `kind`.
    pub open spec fn ids_of_kind(self, ids: Seq<Seq<char>>, kind: SearchMatchKind) -> Seq<Seq<char>>
        decreases ids.len(),
    {
        if ids.len() == 0 {
            Seq::empty()
        } else {
            let before = self.ids_of_kind(ids.drop_last(), kind);
            if self.hit_of(ids.last()) == Some(kind) {
                before.push(ids.last())
            } else {
                before
            }
        }
    }

    /// How each page among `ids` that matches does so.
    pub open spec fn hit_table(self, ids: Seq<Seq<char>>) -> Map<Seq<char>, SearchMatchKind> {
        Map::new(
            |id: Seq<char>| ids.contains(id) && self.hit_of(id) is Some,
            |id: Seq<char>| self.hit_of(id)->0,
        )
    }

    /// The state in which the selection lies in the list.
    pub open spec fn selection_kept(self) -> AppModel {
        AppModel {
            selected: if self.selected < self.visible.len() {
                self.selected
            } else if self.visible.len() == 0 {
                0
            } else {
                (self.visible.len() - 1) as nat
            },
            ..self
        }
    }

    /// The state in which the list shows what was searched for: every page where
    /// nothing was, else the pages that match, titles before tags before texts,
    /// each in title order.
    pub open spec fn rebuilt(self) -> AppModel {
        let order = self.index.order;
        (if trimmed(self.search).len() == 0 {
            AppModel { visible: order, hits: Map::empty(), queue: order, ..self }
        } else {
            AppModel {
                visible: self.ids_of_kind(order, SearchMatchKind::Title) + self.ids_of_kind(
                    order,
                    SearchMatchKind::Tag,
                ) + self.ids_of_kind(order, SearchMatchKind::Content),
                hits: self.hit_table(order),
                ..self
            }
        }).selection_kept()
    }

    /// The page that is selected in the list.
    pub open spec fn selected_page(self) -> Option<Seq<char>> {
        if self.selected < self.visible.len() {
            Some(self.visible[self.selected as int])
        } else {
            None
        }
    }

    /// What opening the selected page takes. A page that was found by its text is
    /// scrolled to the text.
    pub open spec fn opening_selected(self) -> ActionModel {
        match self.selected_page() {
            Some(id) => ActionModel::OpenPage {
                id,
                from_link: false,
                after: if self.hits.contains_key(id) && self.hits[id] == SearchMatchKind::Content {
                    AfterOpen::Jump
                } else {
                    AfterOpen::Nothing
                },
            },
            None => ActionModel::Nothing,
        }
    }
}

fn put_kind(m: &mut StrMap<SearchMatchKind>, key: String, kind: SearchMatchKind)
    requires
        old(m).wf(),
    ensures
        final(m).wf(),
        kind_table(*final(m)) == kind_table(*old(m)).insert(key@, kind),
{
    let ghost before = *m;
    let ghost k0 = key@;
    m.insert(key, kind);
    proof {
        let after = kind_table(before).insert(k0, kind);
        assert forall|k: Seq<char>| #[trigger]
            kind_table(*m).contains_key(k) == after.contains_key(k) by {
            assert(m.find(k) == if k == k0 {
                Some(kind)
            } else {
                before.find(k)
            });
        }
        assert forall|k: Seq<char>| #[trigger] kind_table(*m).contains_key(k) implies kind_table(
            *m,
        )[k] == after[k] by {
            assert(m.find(k) == if k == k0 {
                Some(kind)
            } else {
                before.find(k)
            });
        }
        assert(kind_table(*m) =~= after);
    }
}

/// Texts with one more, without those that are no longer kept.
pub open spec fn text_put(
    texts: Map<Seq<char>, TextModel>,
    kept: Seq<Seq<char>>,
    id: Seq<char>,
    text: TextModel,
) -> Map<Seq<char>, TextModel> {
    Map::new(|k: Seq<char>| kept.contains(k), |k: Seq<char>| texts.insert(id, text)[k])
}

fn put_page_text(m: &mut LruCache<IndexedPageText>, key: String, text: IndexedPageText)
    requires
        old(m).wf(),
    ensures
        final(m).wf(),
        final(m).limit() == old(m).limit(),
        final(m).keys() == kept_keys(old(m).keys(), key@, old(m).limit()),
        index_texts(*final(m)) == text_put(
            index_texts(*old(m)),
            final(m).keys(),
            key@,
            text@,
        ),
{
    let ghost before = *m;
    let ghost k0 = key@;
    let ghost t0 = text;
    m.insert(key, text);
    proof {
        let after = text_put(index_texts(before), m.keys(), k0, t0@);
        assert forall|k: Seq<char>| #[trigger] index_texts(*m).contains_key(k) implies index_texts(
            *m,
        )[k] == after[k] by {
            assert(m.has(k));
            if k != k0 {
                lemma_without(before.keys(), k0);
                lemma_kept_was_there(before.keys(), k0, before.limit(), k);
            }
        }
        assert(index_texts(*m) =~= after);
    }
}

proof fn lemma_kept_was_there(keys: Seq<Seq<char>>, k0: Seq<char>, limit: nat, k: Seq<char>)
    requires
        k != k0,
        kept_keys(keys, k0, limit).contains(k),
    ensures
        keys.contains(k),
{
    let rest = without(keys, k0);
    let all = rest.push(k0);
    let kept = kept_keys(keys, k0, limit);
    lemma_without(keys, k0);
    let i = choose|i: int| 0 <= i < kept.len() && kept[i] == k;
    if all.len() > limit {
        assert(all[i + 1] == k);
        assert(rest[i + 1] == k);
    } else {
        assert(rest[i] == k);
    }
    assert(rest.contains(k));
}

/// Moves texts to the end of others.
fn append_texts(out: &mut Vec<String>, more: Vec<String>)
    ensures
        views(final(out)@) == views(old(out)@) + views(more@),
{
    let mut more = more;
    let ghost added = more@;
    out.append(&mut more);
    assert(views(out@) =~= views(old(out)@) + views(added));
}

fn push_copy(out: &mut Vec<String>, text: &str)
    ensures
        views(final(out)@) == views(old(out)@).push(text@),
{
    let t = copy_of(text);
    proof {
        lemma_views_push(out@, t);
    }
    out.push(t);
}

impl App {
    /// The state of a knowledge base that was just opened.
    ///
    /// At most `text_limit` texts are kept for searching, and at least one.
    pub fn new(
        index: KnowledgeBaseIndex,
        sources: &StrMap<PageSource>,
        text_limit: usize,
    ) -> (app: App)
        requires
            index.wf(),
            sources.wf(),
        ensures
            app.wf(),
            app@ == AppModel::fresh(
                linked(index@, source_table(*sources)),
                if text_limit == 0 {
                    1
                } else {
                    text_limit as nat
                },
            ).rebuilt(),
    {
        let mut index = index;
        index.build_backlinks(sources);
        let mut app = App {
            index,
            edit: None,
            visible_ids: Vec::new(),
            selected: 0,
            opened: None,
            page: None,
            page_scroll: 0,
            selected_link: 0,
            search: String::new(),
            search_needle: String::new(),
            search_hit_kind: StrMap::new(),
            text_index: LruCache::new(text_limit),
            text_index_queue: VecDeque::new(),
            history: VecDeque::new(),
            page_search: String::new(),
            page_search_needle: String::new(),
            page_search_match_lines: Vec::new(),
            page_search_current: 0,
            backlink_ids: Vec::new(),
            backlink_selected: 0,
            new_page_title: String::new(),
            mode: Mode::List,
            show_help: false,
            status: String::new(),
        };
        proof {
            assert(app@.texts =~= Map::empty());
            assert(app@ =~= AppModel::fresh(app.index@, app.text_index.limit()));
        }
        app.rebuild_visible_ids();
        app
    }

    /// Takes the search text, trimmed and in lower case, as the text to look for.
    pub fn update_search_needle(&mut self)
        ensures
            final(self)@ == old(self)@.with_needle(),
            old(self).wf() ==> final(self).wf(),
    {
        self.search_needle = to_lowercase(trim(self.search.as_str()).as_str());
    }

    /// How a page matches what was typed.
    fn hit_kind(&self, id: &str, needle: &str) -> (kind: Option<SearchMatchKind>)
        requires
            self.wf(),
            self@.index.pages.contains_key(id@),
            needle@ == needle_of(self@.search),
        ensures
            kind == self@.hit_of(id@),
    {
        if !needle.is_empty() {
            if let Some(meta) = self.index.page_meta(id) {
                if let Some(kind) = page_meta_match_kind(meta, needle) {
                    return Some(kind);
                }
            }
        }
        match self.text_index.peek(id) {
            Some(text) => if text_contains(text.lower.as_str(), self.search_needle.as_str()) {
                Some(SearchMatchKind::Content)
            } else {
                None
            },
            None => None,
        }
    }

    /// Puts the list together anew.
    pub fn rebuild_visible_ids(&mut self)
        requires
            old(self).wf(),
        ensures
            final(self)@ == old(self)@.rebuilt(),
            final(self).wf(),
    {
        let ghost before = self@;
        let query = trim(self.search.as_str());
        if query.as_str().is_empty() {
            self.visible_ids = self.index.ordered_ids();
            self.search_hit_kind = StrMap::new();
            assert(kind_table(self.search_hit_kind) =~= Map::empty());
            self.reset_text_index_queue();
        } else {
            let needle = to_lowercase(query.as_str());
            let order = self.index.ordered_ids();
            let ghost all = before.index.order;
            let mut titles: Vec<PageId> = Vec::new();
            let mut tags: Vec<PageId> = Vec::new();
            let mut texts: Vec<PageId> = Vec::new();
            let mut hits: StrMap<SearchMatchKind> = StrMap::new();
            let mut i: usize = 0;
            assert(all.take(0) =~= Seq::<Seq<char>>::empty());
            assert(views(titles@) =~= Seq::<Seq<char>>::empty());
            assert(views(tags@) =~= Seq::<Seq<char>>::empty());
            assert(views(texts@) =~= Seq::<Seq<char>>::empty());
            assert(kind_table(hits) =~= before.hit_table(all.take(0)));
            while i < order.len()
                invariant
                    i <= order@.len(),
                    self.wf(),
                    before == self@,
                    all == before.index.order,
                    all == views(order@),
                    needle@ == needle_of(before.search),
                    hits.wf(),
                    views(titles@) == before.ids_of_kind(
                        all.take(i as int),
                        SearchMatchKind::Title,
                    ),
                    views(tags@) == before.ids_of_kind(all.take(i as int), SearchMatchKind::Tag),
                    views(texts@) == before.ids_of_kind(
                        all.take(i as int),
                        SearchMatchKind::Content,
                    ),
                    kind_table(hits) == before.hit_table(all.take(i as int)),
                decreases order.len() - i,
            {
                let ghost done = all.take(i as int);
                let ghost next = all.take(i as int + 1);
                let ghost id = all[i as int];
                assert(next.drop_last() =~= done);
                assert(next.last() == order@[i as int]@);
                assert(all.contains(id));
                assert forall|k: Seq<char>| #[trigger] next.contains(k) == (done.contains(k) || k
                    == id) by {
                    lemma_take_contains(all, i as int, k);
                }
                let kind = self.hit_kind(order[i].as_str(), needle.as_str());
                if let Some(kind) = kind {
                    put_kind(&mut hits, copy_of(order[i].as_str()), kind);
                    match kind {
                        SearchMatchKind::Title => push_copy(&mut titles, order[i].as_str()),
                        SearchMatchKind::Tag => push_copy(&mut tags, order[i].as_str()),
                        SearchMatchKind::Content => push_copy(&mut texts, order[i].as_str()),
                    }
                }
                assert(kind_table(hits) =~= before.hit_table(next));
                i += 1;
            }
            assert(all.take(i as int) =~= all);
            append_texts(&mut titles, tags);
            append_texts(&mut titles, texts);
            self.visible_ids = titles;
            self.search_hit_kind = hits;
        }
        if self.selected >= self.visible_ids.len() {
            self.selected = if self.visible_ids.len() == 0 {
                0
            } else {
                self.visible_ids.len() - 1
            };
        }
        assert(self@ =~= before.rebuilt());
    }

    /// The page that is selected in the list.
    pub fn selected_id(&self) -> (id: Option<&str>)
        ensures
            match id {
                Some(id) => self@.selected_page() == Some(id@),
                None => self@.selected_page() is None,
            },
    {
        if self.selected < self.visible_ids.len() {
            Some(self.visible_ids[self.selected].as_str())
        } else {
            None
        }
    }

    /// Moves the selection in the list, which stops at both ends.
    pub fn move_selection(&mut self, delta: isize)
        ensures
            final(self)@ == (AppModel {
                selected: moved_in(old(self)@.selected, delta as int, old(self)@.visible.len()),
                ..old(self)@
            }),
            old(self).wf() ==> final(self).wf(),
    {
        self.selected = move_in(self.selected, delta, self.visible_ids.len());
    }

    /// What opening the selected page takes.
    pub fn open_selected_page(&self) -> (action: Action)
        requires
            self.wf(),
        ensures
            action@ == self@.opening_selected(),
    {
        match self.selected_id() {
            Some(id) => {
                let jump = match self.search_hit_kind.get(id) {
                    Some(kind) => match kind {
                        SearchMatchKind::Content => true,
                        _ => false,
                    },
                    None => false,
                };
                let after = if jump {
                    AfterOpen::Jump
                } else {
                    AfterOpen::Nothing
                };
                Action::OpenPage { id: copy_of(id), from_link: false, after }
            },
            None => Action::Nothing,
        }
    }

    fn reset_text_index_queue(&mut self)
        ensures
            final(self)@ == (AppModel { queue: old(self)@.index.order, ..old(self)@ }),
            old(self).wf() ==> final(self).wf(),
    {
        let ids = self.index.ordered_ids();
        let ghost all = views(ids@);
        let mut queue: VecDeque<PageId> = VecDeque::new();
        let mut i: usize = 0;
        assert(views(queue@) =~= all.take(0));
        while i < ids.len()
            invariant
                i <= ids@.len(),
                all == views(ids@),
                views(queue@) == all.take(i as int),
            decreases ids.len() - i,
        {
            let id = copy_of(ids[i].as_str());
            proof {
                lemma_views_push(queue@, id);
                assert(all.take(i as int + 1) =~= all.take(i as int).push(id@));
            }
            queue.push_back(id);
            i += 1;
        }
        assert(all.take(i as int) =~= all);
        self.text_index_queue = queue;
    }
}

proof fn lemma_take_contains(all: Seq<Seq<char>>, i: int, k: Seq<char>)
    requires
        0 <= i < all.len(),
    ensures
        all.take(i + 1).contains(k) == (all.take(i).contains(k) || k == all[i]),
{
    let next = all.take(i + 1);
    let done = all.take(i);
    if next.contains(k) {
        let j = choose|j: int| 0 <= j < next.len() && next[j] == k;
        if j < i {
            assert(done[j] == k);
        }
    }
    if done.contains(k) {
        let j = choose|j: int| 0 <= j < done.len() && done[j] == k;
        assert(next[j] == k);
    }
    if k == all[i] {
        assert(next[i] == k);
    }
}

impl AppModel {
    /// The state before anything has happened.
    pub open spec fn fresh(index: IndexModel, text_limit: nat) -> AppModel {
        AppModel {
            index,
            edit: None,
            visible: Seq::empty(),
            selected: 0,
            opened: None,
            page: None,
            scroll: 0,
            link: 0,
            search: Seq::empty(),
            needle: Seq::empty(),
            hits: Map::empty(),
            texts: Map::empty(),
            text_order: Seq::empty(),
            text_limit,
            queue: Seq::empty(),
            history: Seq::empty(),
            page_search: Seq::empty(),
            page_needle: Seq::empty(),
            match_lines: Seq::empty(),
            match_at: 0,
            back_ids: Seq::empty(),
            back_at: 0,
            new_title: Seq::empty(),
            mode: Mode::List,
            help: false,
            status: Seq::empty(),
        }
    }
}

// ---------------------------------------------------------------------------
// Opening pages
// ---------------------------------------------------------------------------

/// How many pages can be gone back to.
pub const HISTORY_LIMIT: usize = 200;

/// Whether a line holds a lowercased text.
pub open spec fn line_holds(line: LineModel, needle: Seq<char>) -> bool {
    contains(lowercase(spans_text(line.spans)), needle)
}

/// The first line from the `i`-th on that holds a text.
pub open spec fn first_line_with(lines: Seq<LineModel>, i: int, needle: Seq<char>) -> Option<nat>
    decreases lines.len() - i,
{
    if i < 0 || i >= lines.len() {
        None
    } else if line_holds(lines[i], needle) {
        Some(i as nat)
    } else {
        first_line_with(lines, i + 1, needle)
    }
}

/// The lines that hold a text.
pub open spec fn lines_with(lines: Seq<LineModel>, needle: Seq<char>) -> Seq<nat>
    decreases lines.len(),
{
    if lines.len() == 0 {
        Seq::empty()
    } else {
        let before = lines_with(lines.drop_last(), needle);
        if line_holds(lines.last(), needle) {
            before.push((lines.len() - 1) as nat)
        } else {
            before
        }
    }
}

impl AppModel {
    /// The state in which the page is not searched.
    pub open spec fn search_cleared(self) -> AppModel {
        AppModel {
            page_search: Seq::empty(),
            page_needle: Seq::empty(),
            match_lines: Seq::empty(),
            match_at: 0,
            ..self
        }
    }

    /// The pages to go back to once a link to another page is followed. The
    /// oldest makes room.
    pub open spec fn longer_history(self) -> Seq<Seq<char>> {
        match self.opened {
            Some(id) => (if self.history.len() >= HISTORY_LIMIT {
                self.history.drop_first()
            } else {
                self.history
            }).push(id),
            None => self.history,
        }
    }

    /// The state in which a page is shown from its start.
    pub open spec fn showing(self, id: Seq<char>, from_link: bool, page: RenderedModel) -> AppModel {
        AppModel {
            history: if from_link {
                self.longer_history()
            } else {
                self.history
            },
            opened: Some(id),
            page: Some(page),
            scroll: 0,
            link: 0,
            mode: Mode::Page,
            status: Seq::empty(),
            ..self.search_cleared()
        }
    }

    /// The state in which the page is scrolled to what the search found, or to
    /// its start where it does not show it.
    pub open spec fn jumped(self) -> AppModel {
        match self.page {
            Some(page) => if self.needle.len() == 0 {
                self
            } else {
                AppModel {
                    scroll: match first_line_with(page.lines, 0, self.needle) {
                        Some(line) => line,
                        None => 0,
                    },
                    ..self
                }
            },
            None => self,
        }
    }

    /// The state with another status line.
    pub open spec fn saying(self, status: Seq<char>) -> AppModel {
        AppModel { status, ..self }
    }

    /// What editing the opened page takes.
    pub open spec fn entering_edit(self) -> (AppModel, ActionModel) {
        match self.opened {
            Some(id) => if self.index.pages.contains_key(id) {
                (self, ActionModel::LoadForEdit { path: self.index.pages[id].path })
            } else {
                (self.saying("page not found"@), ActionModel::Nothing)
            },
            None => (self.saying("no page loaded"@), ActionModel::Nothing),
        }
    }

    /// The state once a page was to be opened, and what is to be done next.
    pub open spec fn after_open(
        self,
        id: Seq<char>,
        from_link: bool,
        after: AfterOpen,
        page: Result<RenderedModel, Seq<char>>,
    ) -> (AppModel, ActionModel) {
        let shown = match page {
            Ok(page) => if after == AfterOpen::Jump {
                self.showing(id, from_link, page).jumped()
            } else {
                self.showing(id, from_link, page)
            },
            Err(message) => self.saying("failed to load page: "@ + message),
        };
        if after == AfterOpen::Edit {
            shown.entering_edit()
        } else {
            (shown, ActionModel::Nothing)
        }
    }
}

pub open spec fn rendered_result(r: Result<RenderedPage, String>) -> Result<
    RenderedModel,
    Seq<char>,
> {
    match r {
        Ok(page) => Ok(page@),
        Err(message) => Err(message@),
    }
}

fn line_matches(line: &StyledLine, needle: &str) -> (found: bool)
    ensures
        found == line_holds(line@, needle@),
{
    let lower = to_lowercase(line_text(line).as_str());
    text_contains(lower.as_str(), needle)
}

/// The first line that holds a text.
fn find_line(lines: &Vec<StyledLine>, needle: &str) -> (line: Option<usize>)
    ensures
        match line {
            Some(n) => first_line_with(line_views(lines@), 0, needle@) == Some(n as nat),
            None => first_line_with(line_views(lines@), 0, needle@) is None,
        },
{
    let ghost all = line_views(lines@);
    let mut i: usize = 0;
    while i < lines.len()
        invariant
            i <= lines@.len(),
            all == line_views(lines@),
            first_line_with(all, 0, needle@) == first_line_with(all, i as int, needle@),
        decreases lines.len() - i,
    {
        assert(all[i as int] == lines@[i as int]@);
        if line_matches(&lines[i], needle) {
            return Some(i);
        }
        i += 1;
    }
    None
}

/// The lines that hold a text.
fn find_lines(lines: &Vec<StyledLine>, needle: &str) -> (found: Vec<usize>)
    ensures
        path_view(found@) == lines_with(line_views(lines@), needle@),
{
    let ghost all = line_views(lines@);
    let mut found: Vec<usize> = Vec::new();
    let mut i: usize = 0;
    assert(all.take(0) =~= Seq::<LineModel>::empty());
    assert(path_view(found@) =~= Seq::<nat>::empty());
    while i < lines.len()
        invariant
            i <= lines@.len(),
            all == line_views(lines@),
            path_view(found@) == lines_with(all.take(i as int), needle@),
        decreases lines.len() - i,
    {
        assert(all.take(i as int + 1).drop_last() =~= all.take(i as int));
        assert(all.take(i as int + 1).last() == lines@[i as int]@);
        let ghost before = path_view(found@);
        if line_matches(&lines[i], needle) {
            found.push(i);
            assert(path_view(found@) =~= before.push(i as nat));
        }
        i += 1;
    }
    assert(all.take(i as int) =~= all);
    found
}

/// A message and what it is about.
fn message(text: &str, about: &str) -> (out: String)
    ensures
        out@ == text@ + about@,
{
    let mut out = String::new();
    out.push_str(text);
    out.push_str(about);
    assert(out@ =~= text@ + about@);
    out
}

impl App {
    /// Forgets the search within the page.
    pub fn clear_page_search(&mut self)
        ensures
            final(self)@ == old(self)@.search_cleared(),
            old(self).wf() ==> final(self).wf(),
    {
        self.page_search = String::new();
        self.page_search_needle = String::new();
        self.page_search_match_lines = Vec::new();
        self.page_search_current = 0;
        assert(self@ =~= old(self)@.search_cleared());
    }

    /// Shows a page.
    fn show_page(&mut self, id: &str, from_link: bool, page: RenderedPage)
        ensures
            final(self)@ == old(self)@.showing(id@, from_link, page@),
            old(self).wf() ==> final(self).wf(),
    {
        let ghost before = self@;
        if from_link {
            if let Some(current) = &self.opened {
                let current = copy_of(current.as_str());
                let ghost held = self.history@;
                if self.history.len() >= HISTORY_LIMIT {
                    let _oldest = self.history.pop_front();
                    assert(views(self.history@) =~= views(held).drop_first());
                }
                proof {
                    lemma_views_push(self.history@, current);
                }
                self.history.push_back(current);
            }
        }
        self.opened = Some(copy_of(id));
        self.page = Some(page);
        self.page_scroll = 0;
        self.selected_link = 0;
        self.clear_page_search();
        self.mode = Mode::Page;
        self.status = String::new();
        assert(self@ =~= before.showing(id@, from_link, page@));
    }

    /// Scrolls the opened page to what the search found.
    fn jump_to_search_match(&mut self)
        ensures
            final(self)@ == old(self)@.jumped(),
            old(self).wf() ==> final(self).wf(),
    {
        if self.search_needle.as_str().is_empty() {
            return;
        }
        let line = match &self.page {
            Some(page) => match find_line(&page.lines, self.search_needle.as_str()) {
                Some(line) => line,
                None => 0,
            },
            None => {
                return;
            },
        };
        self.page_scroll = line;
    }

    /// What editing the opened page takes.
    pub fn enter_edit_mode(&mut self) -> (action: Action)
        requires
            old(self).wf(),
        ensures
            (final(self)@, action@) == old(self)@.entering_edit(),
            final(self).wf(),
    {
        let path = match &self.opened {
            Some(id) => match self.index.page_meta(id.as_str()) {
                Some(meta) => Some(copy_of(meta.path.as_str())),
                None => {
                    self.status = copy_of("page not found");
                    None
                },
            },
            None => {
                self.status = copy_of("no page loaded");
                None
            },
        };
        match path {
            Some(path) => Action::LoadForEdit { path },
            None => Action::Nothing,
        }
    }

    /// Takes in a page that was to be opened.
    pub fn page_opened(
        &mut self,
        id: &str,
        from_link: bool,
        after: AfterOpen,
        page: Result<RenderedPage, String>,
    ) -> (action: Action)
        requires
            old(self).wf(),
        ensures
            (final(self)@, action@) == old(self)@.after_open(
                id@,
                from_link,
                after,
                rendered_result(page),
            ),
            final(self).wf(),
    {
        match page {
            Ok(page) => {
                self.show_page(id, from_link, page);
                if after == AfterOpen::Jump {
                    self.jump_to_search_match();
                }
            },
            Err(error) => {
                self.status = message("failed to load page: ", error.as_str());
            },
        }
        if after == AfterOpen::Edit {
            self.enter_edit_mode()
        } else {
            Action::Nothing
        }
    }
}

// ---------------------------------------------------------------------------
// Reading a page
// ---------------------------------------------------------------------------

impl AppModel {
    /// The state in which the page is searched for what was typed.
    pub open spec fn with_page_needle(self) -> AppModel {
        AppModel { page_needle: needle_of(self.page_search), ..self }
    }

    /// The state in which the lines that match are known.
    pub open spec fn page_matched(self) -> AppModel {
        AppModel {
            match_lines: match self.page {
                Some(page) => if self.page_needle.len() == 0 {
                    Seq::empty()
                } else {
                    lines_with(page.lines, self.page_needle)
                },
                None => Seq::empty(),
            },
            match_at: 0,
            ..self
        }
    }

    /// The state once the text to search the page for has changed.
    pub open spec fn page_searched(self, text: Seq<char>) -> AppModel {
        let found = AppModel { page_search: text, ..self }.with_page_needle().page_matched();
        AppModel {
            scroll: if found.match_lines.len() > 0 {
                found.match_lines[0]
            } else {
                found.scroll
            },
            ..found
        }
    }

    /// The state at another match.
    pub open spec fn at_match(self, n: nat) -> AppModel {
        if self.match_lines.len() == 0 {
            self
        } else {
            AppModel { match_at: n, scroll: self.match_lines[n as int], ..self }
        }
    }

    pub open spec fn next_match(self) -> AppModel {
        self.at_match(
            if self.match_at + 1 >= self.match_lines.len() {
                0
            } else {
                self.match_at + 1
            },
        )
    }

    pub open spec fn previous_match(self) -> AppModel {
        self.at_match(
            if self.match_at == 0 {
                (self.match_lines.len() - 1) as nat
            } else {
                (self.match_at - 1) as nat
            },
        )
    }

    /// The state with the page scrolled by some lines, from its last line where
    /// it was scrolled beyond it.
    pub open spec fn page_scrolled(self, delta: int) -> AppModel {
        let from = match self.page {
            Some(page) => least(self.scroll, page.lines.len()),
            None => self.scroll,
        };
        AppModel { scroll: scrolled_by(from, delta), ..self }
    }

    /// The state with another link selected.
    pub open spec fn link_moved(self, delta: int) -> AppModel {
        match self.page {
            Some(page) => AppModel { link: moved_in(self.link, delta, page.links.len()), ..self },
            None => self,
        }
    }

    /// The state that shows which pages link to the opened one.
    pub open spec fn showing_backlinks(self) -> AppModel {
        match self.opened {
            Some(id) => {
                let ids = listed(self.index.back, id);
                if ids.len() == 0 {
                    self.saying("no backlinks for this page"@)
                } else {
                    AppModel { back_ids: ids, back_at: 0, mode: Mode::Backlinks, ..self }
                }
            },
            None => self.saying("no page open"@),
        }
    }

    /// What opening the selected backlink takes.
    pub open spec fn opening_backlink(self) -> ActionModel {
        if self.back_at < self.back_ids.len() {
            ActionModel::OpenPage {
                id: self.back_ids[self.back_at as int],
                from_link: true,
                after: AfterOpen::Nothing,
            }
        } else {
            ActionModel::Nothing
        }
    }

    /// Going back: to the last page in the history, else to the list.
    pub open spec fn going_back(self) -> (AppModel, ActionModel) {
        if self.history.len() > 0 {
            (
                AppModel { history: self.history.drop_last(), ..self },
                ActionModel::OpenPage {
                    id: self.history.last(),
                    from_link: false,
                    after: AfterOpen::Nothing,
                },
            )
        } else {
            (AppModel { mode: Mode::List, ..self }, ActionModel::Nothing)
        }
    }

    /// What following the selected link takes, by what the link leads to.
    pub open spec fn following_link(self) -> (AppModel, ActionModel) {
        match self.page {
            Some(page) => if self.link < page.links.len() {
                let target = page.links[self.link as int].target;
                match classified(self.index.catalog(), target) {
                    TargetModel::InternalPage(id) => (
                        self,
                        ActionModel::OpenPage { id, from_link: true, after: AfterOpen::Nothing },
                    ),
                    TargetModel::AttachmentPath(_) => (
                        self,
                        ActionModel::OpenAttachment { target },
                    ),
                    TargetModel::ExternalUrl(url) => (self, ActionModel::OpenUrl { url }),
                    TargetModel::Unknown(raw) => (
                        self.saying("unresolved link target: "@ + raw),
                        ActionModel::Nothing,
                    ),
                }
            } else {
                (self.saying("no link selected"@), ActionModel::Nothing)
            },
            None => (self, ActionModel::Nothing),
        }
    }

    /// What running the command on the opened page takes. A blank command is
    /// none.
    pub open spec fn running_command(self, command: Option<Seq<char>>) -> (AppModel, ActionModel) {
        match self.opened {
            Some(id) => if self.index.pages.contains_key(id) {
                match command {
                    Some(c) => if trimmed(c).len() > 0 {
                        (
                            self,
                            ActionModel::RunCommand {
                                command: c,
                                id,
                                path: self.index.pages[id].path,
                            },
                        )
                    } else {
                        (
                            self.saying("set LEPITER_OPEN_CMD to enable open-externally"@),
                            ActionModel::Nothing,
                        )
                    },
                    None => (
                        self.saying("set LEPITER_OPEN_CMD to enable open-externally"@),
                        ActionModel::Nothing,
                    ),
                }
            } else {
                (self.saying("page not found in index"@), ActionModel::Nothing)
            },
            None => (self.saying("no page open"@), ActionModel::Nothing),
        }
    }
}

impl App {
    /// Takes the page search text, trimmed and in lower case, as the text to look for.
    pub fn update_page_search_needle(&mut self)
        ensures
            final(self)@ == old(self)@.with_page_needle(),
            old(self).wf() ==> final(self).wf(),
    {
        self.page_search_needle = to_lowercase(trim(self.page_search.as_str()).as_str());
    }

    /// Collects the lines of the open page that hold the searched text.
    pub fn rebuild_page_search_matches(&mut self)
        ensures
            final(self)@ == old(self)@.page_matched(),
            old(self).wf() ==> final(self).wf(),
    {
        let found = if self.page_search_needle.as_str().is_empty() {
            Vec::new()
        } else {
            match &self.page {
                Some(page) => find_lines(&page.lines, self.page_search_needle.as_str()),
                None => Vec::new(),
            }
        };
        self.page_search_match_lines = found;
        self.page_search_current = 0;
        assert(self@ =~= old(self)@.page_matched());
    }

    /// Searches the page for another text.
    fn search_page(&mut self, text: String)
        ensures
            final(self)@ == old(self)@.page_searched(text@),
            old(self).wf() ==> final(self).wf(),
    {
        self.page_search = text;
        self.update_page_search_needle();
        self.rebuild_page_search_matches();
        if self.page_search_match_lines.len() > 0 {
            self.page_scroll = self.page_search_match_lines[0];
        }
    }

    /// Goes on to the next match, from the last one to the first.
    pub fn page_search_next(&mut self)
        requires
            old(self)@.match_ready(),
        ensures
            final(self)@ == old(self)@.next_match(),
            old(self).wf() ==> final(self).wf(),
    {
        if self.page_search_match_lines.len() == 0 {
            return;
        }
        let next: usize = if self.page_search_current + 1 >= self.page_search_match_lines.len() {
            0
        } else {
            self.page_search_current + 1
        };
        self.page_search_current = next;
        self.page_scroll = self.page_search_match_lines[next];
    }

    /// Goes back to the previous match, from the first one to the last.
    pub fn page_search_prev(&mut self)
        requires
            old(self)@.match_ready(),
        ensures
            final(self)@ == old(self)@.previous_match(),
            old(self).wf() ==> final(self).wf(),
    {
        if self.page_search_match_lines.len() == 0 {
            return;
        }
        let next: usize = if self.page_search_current == 0 {
            self.page_search_match_lines.len() - 1
        } else {
            self.page_search_current - 1
        };
        self.page_search_current = next;
        self.page_scroll = self.page_search_match_lines[next];
    }

    /// Scrolls the page, from its end where it stands beyond that, but not above its top.
    pub fn scroll_page(&mut self, delta: isize)
        ensures
            final(self)@ == old(self)@.page_scrolled(delta as int),
            old(self).wf() ==> final(self).wf(),
    {
        let from: usize = match &self.page {
            Some(page) => if self.page_scroll < page.lines.len() {
                self.page_scroll
            } else {
                page.lines.len()
            },
            None => self.page_scroll,
        };
        self.page_scroll = scroll_by(from, delta);
    }

    /// Moves the selection among the links of the page, which stops at both ends.
    pub fn move_link_selection(&mut self, delta: isize)
        ensures
            final(self)@ == old(self)@.link_moved(delta as int),
            old(self).wf() ==> final(self).wf(),
    {
        let count: usize = match &self.page {
            Some(page) => page.links.len(),
            None => {
                return;
            },
        };
        self.selected_link = move_in(self.selected_link, delta, count);
    }

    /// Shows the pages that link to the open page.
    pub fn show_backlinks(&mut self)
        requires
            old(self).wf(),
        ensures
            final(self)@ == old(self)@.showing_backlinks(),
            final(self).wf(),
    {
        let ids = match &self.opened {
            Some(id) => self.index.backlinks_for(id.as_str()),
            None => {
                self.status = copy_of("no page open");
                return;
            },
        };
        if ids.len() == 0 {
            self.status = copy_of("no backlinks for this page");
            return;
        }
        self.backlink_ids = ids;
        self.backlink_selected = 0;
        self.mode = Mode::Backlinks;
    }

    /// Moves the selection among the backlinks, which stops at both ends.
    pub fn move_backlink_selection(&mut self, delta: isize)
        ensures
            final(self)@ == (AppModel {
                back_at: moved_in(old(self)@.back_at, delta as int, old(self)@.back_ids.len()),
                ..old(self)@
            }),
            old(self).wf() ==> final(self).wf(),
    {
        self.backlink_selected = move_in(self.backlink_selected, delta, self.backlink_ids.len());
    }

    /// What opening the selected backlink takes.
    pub fn open_selected_backlink(&self) -> (action: Action)
        ensures
            action@ == self@.opening_backlink(),
    {
        if self.backlink_selected < self.backlink_ids.len() {
            Action::OpenPage {
                id: copy_of(self.backlink_ids[self.backlink_selected].as_str()),
                from_link: true,
                after: AfterOpen::Nothing,
            }
        } else {
            Action::Nothing
        }
    }

    /// Asks for the page that was left last, or goes back to the list.
    pub fn back_in_history(&mut self) -> (action: Action)
        ensures
            (final(self)@, action@) == old(self)@.going_back(),
            old(self).wf() ==> final(self).wf(),
    {
        let ghost held = self.history@;
        match self.history.pop_back() {
            Some(id) => {
                assert(views(self.history@) =~= views(held).drop_last());
                assert(views(held).last() == id@);
                Action::OpenPage { id, from_link: false, after: AfterOpen::Nothing }
            },
            None => {
                self.mode = Mode::List;
                Action::Nothing
            },
        }
    }

    /// What following the selected link takes.
    pub fn follow_selected_link(&mut self) -> (action: Action)
        requires
            old(self).wf(),
        ensures
            (final(self)@, action@) == old(self)@.following_link(),
            final(self).wf(),
    {
        let target = match &self.page {
            Some(page) => if self.selected_link < page.links.len() {
                Some(copy_of(page.links[self.selected_link].target.as_str()))
            } else {
                None
            },
            None => {
                return Action::Nothing;
            },
        };
        let target = match target {
            Some(t) => t,
            None => {
                self.status = copy_of("no link selected");
                return Action::Nothing;
            },
        };
        match self.index.classify_link_target(target.as_str()) {
            LinkTargetKind::InternalPage(id) => Action::OpenPage {
                id,
                from_link: true,
                after: AfterOpen::Nothing,
            },
            LinkTargetKind::AttachmentPath(_) => Action::OpenAttachment { target },
            LinkTargetKind::ExternalUrl(url) => Action::OpenUrl { url },
            LinkTargetKind::Unknown(raw) => {
                self.status = message("unresolved link target: ", raw.as_str());
                Action::Nothing
            },
        }
    }

    /// What running the command on the opened page takes.
    pub fn open_externally(&mut self, command: Option<&str>) -> (action: Action)
        requires
            old(self).wf(),
        ensures
            (final(self)@, action@) == old(self)@.running_command(
                match command {
                    Some(c) => Some(c@),
                    None => None,
                },
            ),
            final(self).wf(),
    {
        let id = match &self.opened {
            Some(id) => copy_of(id.as_str()),
            None => {
                self.status = copy_of("no page open");
                return Action::Nothing;
            },
        };
        let path = match self.index.page_meta(id.as_str()) {
            Some(meta) => copy_of(meta.path.as_str()),
            None => {
                self.status = copy_of("page not found in index");
                return Action::Nothing;
            },
        };
        if let Some(c) = command {
            let t = trim(c);
            if !t.as_str().is_empty() {
                return Action::RunCommand { command: copy_of(c), id, path };
            }
        }
        self.status = copy_of("set LEPITER_OPEN_CMD to enable open-externally");
        Action::Nothing
    }
}

// ---------------------------------------------------------------------------
// Editing a page
// ---------------------------------------------------------------------------

/// How far the page keys scroll the preview.
pub const PREVIEW_STEP: usize = 10;

/// A page under edit once the preview was scrolled up.
pub open spec fn preview_up(e: EditModel) -> EditModel {
    EditModel {
        preview_scroll: if e.preview_scroll < PREVIEW_STEP {
            0
        } else {
            (e.preview_scroll - PREVIEW_STEP) as nat
        },
        follow_cursor: false,
        snapshot_pending: true,
        ..e
    }
}

/// A page under edit once the preview was scrolled down.
pub open spec fn preview_down(e: EditModel) -> EditModel {
    EditModel {
        preview_scroll: if e.preview_scroll + PREVIEW_STEP > usize::MAX {
            usize::MAX as nat
        } else {
            e.preview_scroll + PREVIEW_STEP as nat
        },
        follow_cursor: false,
        snapshot_pending: true,
        ..e
    }
}

/// A page under edit once the cursor has moved. What is typed next starts
/// another step.
pub open spec fn cursor_at(e: EditModel, cursor: nat) -> EditModel {
    EditModel { cursor, snapshot_pending: true, ..e }
}

/// A page under edit once the buffer has changed.
pub open spec fn rewritten(e: EditModel, buffer: Seq<char>, cursor: nat, now: u64) -> EditModel {
    EditModel { buffer, cursor, ..e.snapped_if_due(now) }.committed(now)
}

/// A page under edit once a character was typed. There is no room behind the
/// largest number that a machine word can hold.
pub open spec fn after_typing(e: EditModel, ch: char, now: u64) -> EditModel {
    if e.cursor < usize::MAX {
        rewritten(e, e.buffer.insert(e.cursor as int, typed(ch)), e.cursor + 1, now)
    } else {
        e
    }
}

/// A page under edit once the cursor was to move to another line. Columns are
/// only counted where they fit into a machine word.
pub open spec fn line_moved(e: EditModel, delta: int) -> EditModel {
    cursor_at(
        e,
        if 4 * e.buffer.len() <= usize::MAX {
            moved_vertically(e.buffer, e.cursor, delta)
        } else {
            e.cursor
        },
    )
}

/// What a key does to the text under edit, where it can be edited.
pub open spec fn after_edit_key(e: EditModel, key: Key, now: u64) -> EditModel {
    match key.code {
        KeyCode::Left => cursor_at(
            e,
            if e.cursor == 0 {
                0
            } else {
                (e.cursor - 1) as nat
            },
        ),
        KeyCode::Right => cursor_at(
            e,
            if e.cursor < e.buffer.len() {
                e.cursor + 1
            } else {
                e.cursor
            },
        ),
        KeyCode::Up => line_moved(e, -1),
        KeyCode::Down => line_moved(e, 1),
        KeyCode::Home => cursor_at(e, 0),
        KeyCode::End => cursor_at(e, e.buffer.len()),
        KeyCode::Backspace => if e.cursor > 0 {
            rewritten(e, e.buffer.remove(e.cursor - 1), (e.cursor - 1) as nat, now)
        } else {
            e
        },
        KeyCode::Delete => if e.cursor < e.buffer.len() {
            rewritten(e, e.buffer.remove(e.cursor as int), e.cursor, now)
        } else {
            e
        },
        KeyCode::Enter => after_typing(e, '\n', now),
        KeyCode::Char(c) => if key.ctrl {
            e
        } else {
            after_typing(e, c, now)
        },
        _ => e,
    }
}

/// A page under edit once another snippet was selected. What was typed is
/// committed before.
pub open spec fn switched(e: EditModel, delta: int, now: u64) -> EditModel {
    let c = e.committed(now);
    let chosen = EditModel { selected: moved_in(c.selected, delta, c.snippets.len()), ..c };
    EditModel {
        follow_cursor: true,
        ..match chosen.current() {
            Some(entry) => chosen.with_buffer(entry.text),
            None => chosen,
        }
    }
}

impl AppModel {
    /// The state with another page under edit.
    pub open spec fn editing(self, e: EditModel) -> AppModel {
        AppModel { edit: Some(e), ..self }
    }

    /// The state without a page under edit.
    pub open spec fn edit_closed(self) -> AppModel {
        AppModel { edit: None, mode: Mode::Page, ..self }
    }

    /// The state once another snippet was selected, and whether the page is to
    /// be saved.
    pub open spec fn switching(self, delta: int, now: u64) -> (AppModel, ActionModel) {
        match self.edit {
            Some(e) => {
                let next = switched(e, delta, now);
                (
                    self.editing(next),
                    if next.dirty {
                        ActionModel::Save
                    } else {
                        ActionModel::Nothing
                    },
                )
            },
            None => (self, ActionModel::Nothing),
        }
    }

    /// What a key does while a page is edited.
    pub open spec fn edit_key(self, key: Key, now: u64) -> (AppModel, ActionModel) {
        match self.edit {
            None => (self, ActionModel::Nothing),
            Some(e) => match key.code {
                KeyCode::Esc => if e.dirty {
                    (self, ActionModel::SaveAndLeave)
                } else {
                    (self.edit_closed(), ActionModel::Nothing)
                },
                KeyCode::PageUp => (self.editing(preview_up(e)), ActionModel::Nothing),
                KeyCode::PageDown => (self.editing(preview_down(e)), ActionModel::Nothing),
                KeyCode::Tab => self.switching(1, now),
                KeyCode::BackTab => self.switching(-1, now),
                _ => if key.ctrl && key.code == KeyCode::Char('a') {
                    (self.editing(e.appended(now)), ActionModel::Nothing)
                } else if key.ctrl && key.code == KeyCode::Char('u') {
                    (
                        self.editing(e.undone(now)),
                        if e.can_undo() {
                            ActionModel::Save
                        } else {
                            ActionModel::Nothing
                        },
                    )
                } else if e.editable() {
                    (self.editing(after_edit_key(e, key, now)), ActionModel::Nothing)
                } else {
                    (self, ActionModel::Nothing)
                },
            },
        }
    }
}

proof fn lemma_switching_stays_ready(e: EditModel, delta: int, now: u64)
    requires
        e.ready(),
    ensures
        switched(e, delta, now).ready(),
{
    let c = e.committed(now);
    edits_stay_ready(e, Seq::empty(), now);
    let chosen = EditModel { selected: moved_in(c.selected, delta, c.snippets.len()), ..c };
    assert(chosen.ready());
    edits_stay_ready(chosen, chosen.snippets[chosen.selected as int].text, now);
}

proof fn lemma_rewriting_stays_ready(e: EditModel, buffer: Seq<char>, cursor: nat, now: u64)
    requires
        e.ready(),
        !contains_char(buffer, '\r'),
        cursor <= buffer.len(),
    ensures
        rewritten(e, buffer, cursor, now).ready(),
{
    edits_stay_ready(e, Seq::empty(), now);
    let s = EditModel { buffer, cursor, ..e.snapped_if_due(now) };
    assert(s.ready());
    edits_stay_ready(s, Seq::empty(), now);
}

/// Whatever key is pressed, the text under edit stays free of carriage returns,
/// the cursor stays in it, and a snippet stays selected.
pub proof fn edit_keys_stay_ready(e: EditModel, key: Key, now: u64)
    requires
        e.ready(),
    ensures
        after_edit_key(e, key, now).ready(),
{
    match key.code {
        KeyCode::Up => {
            moving_vertically_stays_inside(e.buffer, e.cursor, -1);
        },
        KeyCode::Down => {
            moving_vertically_stays_inside(e.buffer, e.cursor, 1);
        },
        KeyCode::Backspace => {
            if e.cursor > 0 {
                lemma_removed_char(e.buffer, e.cursor - 1);
                lemma_rewriting_stays_ready(
                    e,
                    e.buffer.remove(e.cursor - 1),
                    (e.cursor - 1) as nat,
                    now,
                );
            }
        },
        KeyCode::Delete => {
            if e.cursor < e.buffer.len() {
                lemma_removed_char(e.buffer, e.cursor as int);
                lemma_rewriting_stays_ready(e, e.buffer.remove(e.cursor as int), e.cursor, now);
            }
        },
        KeyCode::Enter => {
            if e.cursor < usize::MAX {
                lemma_inserted_char(e.buffer, e.cursor as int, '\n');
                lemma_rewriting_stays_ready(
                    e,
                    e.buffer.insert(e.cursor as int, typed('\n')),
                    e.cursor + 1,
                    now,
                );
            }
        },
        KeyCode::Char(c) => {
            if !key.ctrl && e.cursor < usize::MAX {
                lemma_inserted_char(e.buffer, e.cursor as int, c);
                lemma_rewriting_stays_ready(
                    e,
                    e.buffer.insert(e.cursor as int, typed(c)),
                    e.cursor + 1,
                    now,
                );
            }
        },
        _ => {},
    }
}

proof fn lemma_removed_char(s: Seq<char>, i: int)
    requires
        !contains_char(s, '\r'),
        0 <= i < s.len(),
    ensures
        !contains_char(s.remove(i), '\r'),
        s.remove(i).len() == s.len() - 1,
{
    let r = s.remove(i);
    assert forall|k: int| 0 <= k < r.len() implies r[k] != '\r' by {
        if k < i {
            assert(s[k] == r[k]);
        } else {
            assert(s[k + 1] == r[k]);
        }
    }
}

proof fn lemma_inserted_char(s: Seq<char>, i: int, c: char)
    requires
        !contains_char(s, '\r'),
        0 <= i <= s.len(),
    ensures
        !contains_char(s.insert(i, typed(c)), '\r'),
        s.insert(i, typed(c)).len() == s.len() + 1,
{
    let r = s.insert(i, typed(c));
    assert forall|k: int| 0 <= k < r.len() implies r[k] != '\r' by {
        if k < i {
            assert(s[k] == r[k]);
        } else if k > i {
            assert(s[k - 1] == r[k]);
        }
    }
}

/// Puts a character in at the cursor of a page under edit.
fn type_char(edit: &mut EditState, ch: char, now: u64)
    requires
        old(edit)@.clean(),
    ensures
        final(edit)@ == after_typing(old(edit)@, ch, now),
{
    if edit.cursor < usize::MAX {
        let ghost before = edit@;
        edit.maybe_push_undo_snapshot(now);
        insert_char_at(&mut edit.buffer, &mut edit.cursor, ch);
        assert(edit@ =~= EditModel {
            buffer: before.buffer.insert(before.cursor as int, typed(ch)),
            cursor: before.cursor + 1,
            ..before.snapped_if_due(now)
        });
        edit.commit_buffer(now);
    }
}

/// Moves the cursor of a page under edit to another line.
fn move_line(edit: &mut EditState, delta: isize)
    requires
        old(edit)@.clean(),
    ensures
        final(edit)@ == line_moved(old(edit)@, delta as int),
{
    if count_chars(edit.buffer.as_str()) <= usize::MAX / 4 {
        move_cursor_vertical(edit, delta);
    }
    edit.snapshot_pending = true;
}

/// What a key does to the text under edit.
fn press_edit_key(edit: &mut EditState, key: Key, now: u64)
    requires
        old(edit)@.clean(),
    ensures
        final(edit)@ == after_edit_key(old(edit)@, key, now),
{
    let ghost before = edit@;
    match key.code {
        KeyCode::Left => {
            edit.cursor = if edit.cursor == 0 {
                0
            } else {
                edit.cursor - 1
            };
            edit.snapshot_pending = true;
        },
        KeyCode::Right => {
            if edit.cursor < count_chars(edit.buffer.as_str()) {
                edit.cursor = edit.cursor + 1;
            }
            edit.snapshot_pending = true;
        },
        KeyCode::Up => move_line(edit, -1),
        KeyCode::Down => move_line(edit, 1),
        KeyCode::Home => {
            edit.cursor = 0;
            edit.snapshot_pending = true;
        },
        KeyCode::End => {
            edit.cursor = count_chars(edit.buffer.as_str());
            edit.snapshot_pending = true;
        },
        KeyCode::Backspace => {
            if edit.cursor > 0 {
                edit.maybe_push_undo_snapshot(now);
                if delete_char_before(&mut edit.buffer, &mut edit.cursor) {
                    assert(edit@ =~= EditModel {
                        buffer: before.buffer.remove(before.cursor - 1),
                        cursor: (before.cursor - 1) as nat,
                        ..before.snapped_if_due(now)
                    });
                    edit.commit_buffer(now);
                }
            }
        },
        KeyCode::Delete => {
            if edit.cursor < count_chars(edit.buffer.as_str()) {
                edit.maybe_push_undo_snapshot(now);
                if delete_char_at(&mut edit.buffer, &mut edit.cursor) {
                    assert(edit@ =~= EditModel {
                        buffer: before.buffer.remove(before.cursor as int),
                        cursor: before.cursor,
                        ..before.snapped_if_due(now)
                    });
                    edit.commit_buffer(now);
                }
            }
        },
        KeyCode::Enter => type_char(edit, '\n', now),
        KeyCode::Char(c) => {
            if !key.ctrl {
                type_char(edit, c, now);
            }
        },
        _ => {},
    }
}

/// Selects another snippet of a page under edit.
fn switch_snippet(edit: &mut EditState, delta: isize, now: u64)
    ensures
        final(edit)@ == switched(old(edit)@, delta as int, now),
{
    edit.commit_buffer(now);
    let ghost c = edit@;
    edit.selected = move_in(edit.selected, delta, edit.snippets.len());
    let text = match edit.current() {
        Some(entry) => Some(copy_of(entry.text.as_str())),
        None => None,
    };
    if let Some(t) = text {
        edit.set_buffer(t);
    }
    edit.follow_cursor = true;
}

// ---------------------------------------------------------------------------
// Keys
// ---------------------------------------------------------------------------

/// What a key press depends on besides the state.
#[derive(Debug)]
pub struct KeyEnv {
    /// How far the page keys scroll a page.
    pub half_page: u16,
    /// The time.
    pub now: u64,
    /// The command that opens a page outside.
    pub open_command: Option<String>,
}

/// What a [`KeyEnv`] holds.
#[verifier::ext_equal]
pub struct EnvModel {
    pub half_page: nat,
    pub now: u64,
    pub open_command: Option<Seq<char>>,
}

impl View for KeyEnv {
    type V = EnvModel;

    open spec fn view(&self) -> EnvModel {
        EnvModel {
            half_page: self.half_page as nat,
            now: self.now,
            open_command: opt_view(self.open_command),
        }
    }
}

/// What a key does: the state after it, what the event loop does, and what is to
/// be done outside.
#[verifier::ext_equal]
pub struct StepModel {
    pub app: AppModel,
    pub result: KeyResult,
    pub action: ActionModel,
}

/// A step that asks for nothing outside.
pub open spec fn quiet(app: AppModel, result: KeyResult) -> StepModel {
    StepModel { app, result, action: ActionModel::Nothing }
}

/// A step of some state and action.
pub open spec fn step(next: (AppModel, ActionModel), result: KeyResult) -> StepModel {
    StepModel { app: next.0, result, action: next.1 }
}

/// A text without its last character.
pub open spec fn shortened(text: Seq<char>) -> Seq<char> {
    if text.len() == 0 {
        text
    } else {
        text.drop_last()
    }
}

impl AppModel {
    /// The state in another mode.
    pub open spec fn in_mode(self, mode: Mode) -> AppModel {
        AppModel { mode, ..self }
    }

    /// The state once the text to search the pages for has changed.
    pub open spec fn searched(self, text: Seq<char>) -> AppModel {
        AppModel { search: text, ..self }.with_needle().rebuilt()
    }

    /// The state with another page selected.
    pub open spec fn selection_moved(self, delta: int) -> AppModel {
        AppModel { selected: moved_in(self.selected, delta, self.visible.len()), ..self }
    }

    /// A key while the help is shown: it is closed, or nothing happens.
    pub open spec fn help_key(self, code: KeyCode) -> StepModel {
        quiet(
            if code == KeyCode::Char('?') || code == KeyCode::Esc {
                AppModel { help: false, ..self }
            } else {
                self
            },
            KeyResult::Continue,
        )
    }

    /// A key while the text to search the pages for is typed.
    pub open spec fn search_key(self, code: KeyCode) -> StepModel {
        match code {
            KeyCode::Esc => quiet(
                self.searched(Seq::empty()).in_mode(Mode::List),
                KeyResult::SearchTick,
            ),
            KeyCode::Enter => StepModel {
                app: self.in_mode(Mode::List),
                result: KeyResult::SearchTick,
                action: self.opening_selected(),
            },
            KeyCode::Up => quiet(self.selection_moved(-1), KeyResult::SearchTick),
            KeyCode::Down => quiet(self.selection_moved(1), KeyResult::SearchTick),
            KeyCode::Backspace => quiet(
                self.searched(shortened(self.search)),
                KeyResult::SearchTick,
            ),
            KeyCode::Char(c) => quiet(self.searched(self.search.push(c)), KeyResult::SearchTick),
            _ => quiet(self, KeyResult::SearchTick),
        }
    }

    /// A key while the text to search the page for is typed.
    pub open spec fn page_search_key(self, code: KeyCode) -> StepModel {
        quiet(
            match code {
                KeyCode::Esc => self.search_cleared().in_mode(Mode::Page),
                KeyCode::Enter => self.at_match(self.match_at).in_mode(Mode::Page),
                KeyCode::Backspace => self.page_searched(shortened(self.page_search)),
                KeyCode::Char(c) => self.page_searched(self.page_search.push(c)),
                _ => self,
            },
            KeyResult::Continue,
        )
    }

    /// A key while the title of a new page is typed. A blank title makes no
    /// page.
    pub open spec fn naming_key(self, code: KeyCode) -> StepModel {
        let untitled = AppModel { new_title: Seq::empty(), ..self };
        match code {
            KeyCode::Esc => quiet(untitled.in_mode(Mode::List), KeyResult::Tick),
            KeyCode::Enter => if trimmed(self.new_title).len() == 0 {
                quiet(untitled.in_mode(Mode::List), KeyResult::Tick)
            } else {
                StepModel {
                    app: untitled,
                    result: KeyResult::Tick,
                    action: ActionModel::CreatePage { title: trimmed(self.new_title) },
                }
            },
            KeyCode::Backspace => quiet(
                AppModel { new_title: shortened(self.new_title), ..self },
                KeyResult::Tick,
            ),
            KeyCode::Char(c) => quiet(
                AppModel { new_title: self.new_title.push(c), ..self },
                KeyResult::Tick,
            ),
            _ => quiet(self, KeyResult::Tick),
        }
    }

    /// The state with another backlink selected.
    pub open spec fn backlink_moved(self, delta: int) -> AppModel {
        AppModel { back_at: moved_in(self.back_at, delta, self.back_ids.len()), ..self }
    }

    /// A key while the backlinks are shown.
    pub open spec fn backlinks_key(self, code: KeyCode) -> StepModel {
        match code {
            KeyCode::Char('q') => quiet(self, KeyResult::Quit),
            KeyCode::Char('?') => quiet(AppModel { help: true, ..self }, KeyResult::Tick),
            KeyCode::Esc => quiet(self.in_mode(Mode::Page), KeyResult::Tick),
            KeyCode::Enter => StepModel {
                app: self,
                result: KeyResult::Tick,
                action: self.opening_backlink(),
            },
            KeyCode::Up => quiet(self.backlink_moved(-1), KeyResult::Tick),
            KeyCode::Char('k') => quiet(self.backlink_moved(-1), KeyResult::Tick),
            KeyCode::Down => quiet(self.backlink_moved(1), KeyResult::Tick),
            KeyCode::Char('j') => quiet(self.backlink_moved(1), KeyResult::Tick),
            _ => quiet(self, KeyResult::Tick),
        }
    }

    /// A key while the list is shown.
    pub open spec fn list_key(self, code: KeyCode) -> StepModel {
        match code {
            KeyCode::Char('q') => quiet(self, KeyResult::Quit),
            KeyCode::Char('?') => quiet(AppModel { help: true, ..self }, KeyResult::Tick),
            KeyCode::Char('/') => quiet(
                self.searched(Seq::empty()).in_mode(Mode::Search),
                KeyResult::Tick,
            ),
            KeyCode::Esc => quiet(self.in_mode(Mode::List), KeyResult::Tick),
            KeyCode::Enter => StepModel {
                app: self,
                result: KeyResult::Tick,
                action: self.opening_selected(),
            },
            KeyCode::Up => quiet(self.selection_moved(-1), KeyResult::Tick),
            KeyCode::Char('k') => quiet(self.selection_moved(-1), KeyResult::Tick),
            KeyCode::Down => quiet(self.selection_moved(1), KeyResult::Tick),
            KeyCode::Char('j') => quiet(self.selection_moved(1), KeyResult::Tick),
            KeyCode::Char('n') => quiet(
                AppModel { new_title: Seq::empty(), ..self }.in_mode(Mode::NewPageTitle),
                KeyResult::Tick,
            ),
            _ => quiet(self, KeyResult::Tick),
        }
    }

    /// A key while a page is shown.
    pub open spec fn page_key(self, code: KeyCode, env: EnvModel) -> StepModel {
        match code {
            KeyCode::Char('q') => quiet(self, KeyResult::Quit),
            KeyCode::Char('?') => quiet(AppModel { help: true, ..self }, KeyResult::Tick),
            KeyCode::Char('/') => quiet(
                AppModel {
                    page_search: Seq::empty(),
                    ..self
                }.with_page_needle().page_matched().in_mode(Mode::PageSearch),
                KeyResult::Tick,
            ),
            KeyCode::Esc => quiet(
                if self.page_needle.len() > 0 {
                    self.search_cleared()
                } else {
                    self.in_mode(Mode::List)
                },
                KeyResult::Tick,
            ),
            KeyCode::Enter => step(self.following_link(), KeyResult::Tick),
            KeyCode::Char('n') => quiet(self.next_match(), KeyResult::Tick),
            KeyCode::Char('N') => quiet(self.previous_match(), KeyResult::Tick),
            KeyCode::Up => quiet(self.page_scrolled(-1), KeyResult::Tick),
            KeyCode::Char('k') => quiet(self.page_scrolled(-1), KeyResult::Tick),
            KeyCode::Down => quiet(self.page_scrolled(1), KeyResult::Tick),
            KeyCode::Char('j') => quiet(self.page_scrolled(1), KeyResult::Tick),
            KeyCode::PageUp => quiet(self.page_scrolled(-env.half_page), KeyResult::Tick),
            KeyCode::PageDown => quiet(self.page_scrolled(env.half_page as int), KeyResult::Tick),
            KeyCode::Char('g') => quiet(AppModel { scroll: 0, ..self }, KeyResult::Tick),
            KeyCode::Char('G') => quiet(
                AppModel { scroll: (usize::MAX / 2) as nat, ..self },
                KeyResult::Tick,
            ),
            KeyCode::Char('b') => quiet(self.in_mode(Mode::List), KeyResult::Tick),
            KeyCode::Char('B') => quiet(self.showing_backlinks(), KeyResult::Tick),
            KeyCode::Char('e') => step(self.entering_edit(), KeyResult::Tick),
            KeyCode::Char('h') => step(self.going_back(), KeyResult::Tick),
            KeyCode::Char('O') => step(self.running_command(env.open_command), KeyResult::Tick),
            KeyCode::Tab => quiet(self.link_moved(1), KeyResult::Tick),
            KeyCode::BackTab => quiet(self.link_moved(-1), KeyResult::Tick),
            _ => quiet(self, KeyResult::Tick),
        }
    }

    /// What a key does.
    pub open spec fn after_key(self, key: Key, env: EnvModel) -> StepModel {
        if self.help {
            self.help_key(key.code)
        } else {
            match self.mode {
                Mode::Search => self.search_key(key.code),
                Mode::PageSearch => self.page_search_key(key.code),
                Mode::NewPageTitle => self.naming_key(key.code),
                Mode::Edit => step(self.edit_key(key, env.now), KeyResult::Tick),
                Mode::Backlinks => self.backlinks_key(key.code),
                Mode::List => self.list_key(key.code),
                Mode::Page => self.page_key(key.code, env),
            }
        }
    }
}

/// A text without its last character.
fn without_last(text: &str) -> (out: String)
    ensures
        out@ == shortened(text@),
{
    let v = chars_of(text);
    if v.len() == 0 {
        return copy_of(text);
    }
    let out = string_of(&v, 0, v.len() - 1);
    assert(out@ =~= text@.drop_last());
    out
}

/// A text with a character behind it.
fn with_char(text: &str, c: char) -> (out: String)
    ensures
        out@ == text@.push(c),
{
    let mut out = copy_of(text);
    out.push(c);
    out
}

impl App {
    /// Searches the pages for another text.
    fn search_pages(&mut self, text: String)
        requires
            old(self).wf(),
        ensures
            final(self)@ == old(self)@.searched(text@),
            final(self).wf(),
    {
        self.search = text;
        self.update_search_needle();
        self.rebuild_visible_ids();
    }

    fn press_help_key(&mut self, code: KeyCode) -> (done: (KeyResult, Action))
        requires
            old(self).wf(),
        ensures
            (StepModel { app: final(self)@, result: done.0, action: done.1@ }) == old(
                self,
            )@.help_key(code),
            final(self).wf(),
    {
        match code {
            KeyCode::Char(c) => {
                if c == '?' {
                    self.show_help = false;
                }
            },
            KeyCode::Esc => {
                self.show_help = false;
            },
            _ => {},
        }
        (KeyResult::Continue, Action::Nothing)
    }

    fn press_search_key(&mut self, code: KeyCode) -> (done: (KeyResult, Action))
        requires
            old(self).wf(),
        ensures
            (StepModel { app: final(self)@, result: done.0, action: done.1@ }) == old(
                self,
            )@.search_key(code),
            final(self).wf(),
    {
        match code {
            KeyCode::Esc => {
                let none = String::new();
                assert(none@ =~= Seq::<char>::empty());
                self.search_pages(none);
                self.mode = Mode::List;
            },
            KeyCode::Enter => {
                self.mode = Mode::List;
                return (KeyResult::SearchTick, self.open_selected_page());
            },
            KeyCode::Up => self.move_selection(-1),
            KeyCode::Down => self.move_selection(1),
            KeyCode::Backspace => {
                let text = without_last(self.search.as_str());
                self.search_pages(text);
            },
            KeyCode::Char(c) => {
                let text = with_char(self.search.as_str(), c);
                self.search_pages(text);
            },
            _ => {},
        }
        (KeyResult::SearchTick, Action::Nothing)
    }

    fn press_page_search_key(&mut self, code: KeyCode) -> (done: (KeyResult, Action))
        requires
            old(self).wf(),
        ensures
            (StepModel { app: final(self)@, result: done.0, action: done.1@ }) == old(
                self,
            )@.page_search_key(code),
            final(self).wf(),
    {
        match code {
            KeyCode::Esc => {
                self.clear_page_search();
                self.mode = Mode::Page;
            },
            KeyCode::Enter => {
                self.mode = Mode::Page;
                if self.page_search_match_lines.len() > 0 {
                    self.page_scroll = self.page_search_match_lines[self.page_search_current];
                }
            },
            KeyCode::Backspace => {
                let text = without_last(self.page_search.as_str());
                self.search_page(text);
            },
            KeyCode::Char(c) => {
                let text = with_char(self.page_search.as_str(), c);
                self.search_page(text);
            },
            _ => {},
        }
        (KeyResult::Continue, Action::Nothing)
    }

    fn press_naming_key(&mut self, code: KeyCode) -> (done: (KeyResult, Action))
        requires
            old(self).wf(),
        ensures
            (StepModel { app: final(self)@, result: done.0, action: done.1@ }) == old(
                self,
            )@.naming_key(code),
            final(self).wf(),
    {
        match code {
            KeyCode::Esc => {
                self.new_page_title = String::new();
                self.mode = Mode::List;
                assert(self@.new_title =~= Seq::<char>::empty());
            },
            KeyCode::Enter => {
                let title = trim(self.new_page_title.as_str());
                self.new_page_title = String::new();
                assert(self@.new_title =~= Seq::<char>::empty());
                if title.as_str().is_empty() {
                    self.mode = Mode::List;
                } else {
                    return (KeyResult::Tick, Action::CreatePage { title });
                }
            },
            KeyCode::Backspace => {
                self.new_page_title = without_last(self.new_page_title.as_str());
            },
            KeyCode::Char(c) => {
                self.new_page_title = with_char(self.new_page_title.as_str(), c);
            },
            _ => {},
        }
        (KeyResult::Tick, Action::Nothing)
    }

    fn press_backlinks_key(&mut self, code: KeyCode) -> (done: (KeyResult, Action))
        requires
            old(self).wf(),
        ensures
            (StepModel { app: final(self)@, result: done.0, action: done.1@ }) == old(
                self,
            )@.backlinks_key(code),
            final(self).wf(),
    {
        match code {
            KeyCode::Char('q') => {
                return (KeyResult::Quit, Action::Nothing);
            },
            KeyCode::Char('?') => {
                self.show_help = true;
            },
            KeyCode::Esc => {
                self.mode = Mode::Page;
            },
            KeyCode::Enter => {
                return (KeyResult::Tick, self.open_selected_backlink());
            },
            KeyCode::Up | KeyCode::Char('k') => self.move_backlink_selection(-1),
            KeyCode::Down | KeyCode::Char('j') => self.move_backlink_selection(1),
            _ => {},
        }
        (KeyResult::Tick, Action::Nothing)
    }

    fn press_list_key(&mut self, code: KeyCode) -> (done: (KeyResult, Action))
        requires
            old(self).wf(),
        ensures
            (StepModel { app: final(self)@, result: done.0, action: done.1@ }) == old(
                self,
            )@.list_key(code),
            final(self).wf(),
    {
        match code {
            KeyCode::Char('q') => {
                return (KeyResult::Quit, Action::Nothing);
            },
            KeyCode::Char('?') => {
                self.show_help = true;
            },
            KeyCode::Char('/') => {
                let none = String::new();
                assert(none@ =~= Seq::<char>::empty());
                self.search_pages(none);
                self.mode = Mode::Search;
            },
            KeyCode::Esc => {
                self.mode = Mode::List;
            },
            KeyCode::Enter => {
                return (KeyResult::Tick, self.open_selected_page());
            },
            KeyCode::Up | KeyCode::Char('k') => self.move_selection(-1),
            KeyCode::Down | KeyCode::Char('j') => self.move_selection(1),
            KeyCode::Char('n') => {
                self.new_page_title = String::new();
                assert(self@.new_title =~= Seq::<char>::empty());
                self.mode = Mode::NewPageTitle;
            },
            _ => {},
        }
        (KeyResult::Tick, Action::Nothing)
    }

    fn press_page_key(&mut self, code: KeyCode, env: &KeyEnv) -> (done: (KeyResult, Action))
        requires
            old(self).wf(),
        ensures
            (StepModel { app: final(self)@, result: done.0, action: done.1@ }) == old(
                self,
            )@.page_key(code, env@),
            final(self).wf(),
    {
        match code {
            KeyCode::Char('q') => {
                return (KeyResult::Quit, Action::Nothing);
            },
            KeyCode::Char('?') => {
                self.show_help = true;
            },
            KeyCode::Char('/') => {
                self.page_search = String::new();
                assert(self@.page_search =~= Seq::<char>::empty());
                self.update_page_search_needle();
                self.rebuild_page_search_matches();
                self.mode = Mode::PageSearch;
            },
            KeyCode::Esc => {
                if !self.page_search_needle.as_str().is_empty() {
                    self.clear_page_search();
                } else {
                    self.mode = Mode::List;
                }
            },
            KeyCode::Enter => {
                return (KeyResult::Tick, self.follow_selected_link());
            },
            KeyCode::Char('n') => self.page_search_next(),
            KeyCode::Char('N') => self.page_search_prev(),
            KeyCode::Up | KeyCode::Char('k') => self.scroll_page(-1),
            KeyCode::Down | KeyCode::Char('j') => self.scroll_page(1),
            KeyCode::PageUp => self.scroll_page(-(env.half_page as isize)),
            KeyCode::PageDown => self.scroll_page(env.half_page as isize),
            KeyCode::Char('g') => {
                self.page_scroll = 0;
            },
            KeyCode::Char('G') => {
                self.page_scroll = usize::MAX / 2;
            },
            KeyCode::Char('b') => {
                self.mode = Mode::List;
            },
            KeyCode::Char('B') => self.show_backlinks(),
            KeyCode::Char('e') => {
                return (KeyResult::Tick, self.enter_edit_mode());
            },
            KeyCode::Char('h') => {
                return (KeyResult::Tick, self.back_in_history());
            },
            KeyCode::Char('O') => {
                let action = match &env.open_command {
                    Some(c) => self.open_externally(Some(c.as_str())),
                    None => self.open_externally(None),
                };
                return (KeyResult::Tick, action);
            },
            KeyCode::Tab => self.move_link_selection(1),
            KeyCode::BackTab => self.move_link_selection(-1),
            _ => {},
        }
        (KeyResult::Tick, Action::Nothing)
    }

    /// What a key does while a page is edited.
    pub fn handle_edit_key(&mut self, key: Key, now: u64) -> (action: Action)
        requires
            old(self).wf(),
        ensures
            (final(self)@, action@) == old(self)@.edit_key(key, now),
            final(self).wf(),
    {
        let ghost before = self@;
        let mut edit = match self.edit.take() {
            Some(edit) => edit,
            None => {
                assert(self@ =~= before);
                return Action::Nothing;
            },
        };
        let ghost e = edit@;
        let mut action = Action::Nothing;
        proof {
            edits_stay_ready(e, Seq::empty(), now);
            lemma_switching_stays_ready(e, 1, now);
            lemma_switching_stays_ready(e, -1, now);
            edit_keys_stay_ready(e, key, now);
        }
        match key.code {
            KeyCode::Esc => {
                if edit.dirty {
                    action = Action::SaveAndLeave;
                } else {
                    self.mode = Mode::Page;
                    assert(self@ =~= before.edit_closed());
                    return action;
                }
            },
            KeyCode::PageUp => {
                edit.preview_scroll = if edit.preview_scroll < PREVIEW_STEP {
                    0
                } else {
                    edit.preview_scroll - PREVIEW_STEP
                };
                edit.follow_cursor = false;
                edit.snapshot_pending = true;
            },
            KeyCode::PageDown => {
                edit.preview_scroll = if edit.preview_scroll > usize::MAX - PREVIEW_STEP {
                    usize::MAX
                } else {
                    edit.preview_scroll + PREVIEW_STEP
                };
                edit.follow_cursor = false;
                edit.snapshot_pending = true;
            },
            KeyCode::Tab => {
                switch_snippet(&mut edit, 1, now);
                if edit.dirty {
                    action = Action::Save;
                }
            },
            KeyCode::BackTab => {
                switch_snippet(&mut edit, -1, now);
                if edit.dirty {
                    action = Action::Save;
                }
            },
            _ => {
                let control_a = match key.code {
                    KeyCode::Char(c) => key.ctrl && c == 'a',
                    _ => false,
                };
                let control_u = match key.code {
                    KeyCode::Char(c) => key.ctrl && c == 'u',
                    _ => false,
                };
                if control_a {
                    edit.append_text_snippet(now);
                } else if control_u {
                    if edit.undo(now) {
                        action = Action::Save;
                    }
                } else if edit.is_editable() {
                    press_edit_key(&mut edit, key, now);
                }
            },
        }
        self.edit = Some(edit);
        assert(self@ =~= before.editing(edit@));
        action
    }

    /// What a key does. The state machine of the reader and editor: each mode has
    /// keys of its own, and the help takes all of them while it is shown.
    pub fn handle_key(&mut self, key: Key, env: &KeyEnv) -> (done: (KeyResult, Action))
        requires
            old(self).wf(),
        ensures
            (StepModel { app: final(self)@, result: done.0, action: done.1@ }) == old(
                self,
            )@.after_key(key, env@),
            final(self).wf(),
    {
        if self.show_help {
            return self.press_help_key(key.code);
        }
        match self.mode {
            Mode::Search => self.press_search_key(key.code),
            Mode::PageSearch => self.press_page_search_key(key.code),
            Mode::NewPageTitle => self.press_naming_key(key.code),
            Mode::Edit => {
                let action = self.handle_edit_key(key, env.now);
                (KeyResult::Tick, action)
            },
            Mode::Backlinks => self.press_backlinks_key(key.code),
            Mode::List => self.press_list_key(key.code),
            Mode::Page => self.press_page_key(key.code, env),
        }
    }
}

// ---------------------------------------------------------------------------
// What comes back from outside
// ---------------------------------------------------------------------------

/// A page that was just read, under edit.
pub open spec fn fresh_edit(id: Seq<char>, path: Seq<char>, raw: JsonModel) -> EditModel {
    let snippets = forest_entries(children_of(raw), Seq::empty());
    EditModel {
        page_id: id,
        path,
        raw,
        snippets,
        selected: 0,
        buffer: normalized(snippets[0].text),
        cursor: normalized(snippets[0].text).len(),
        preview_scroll: 0,
        follow_cursor: true,
        last_snapshot: None,
        snapshot_pending: true,
        dirty: false,
        last_edit: None,
    }
}

/// The text of a page, for searching.
pub open spec fn indexed_text(text: Seq<char>) -> TextModel {
    TextModel { raw: text, lower: lowercase(text) }
}

impl AppModel {
    /// The state once the file of the opened page was read for editing.
    pub open spec fn edit_begun(self, raw: Result<JsonModel, Seq<char>>) -> AppModel {
        match self.opened {
            Some(id) => if self.index.pages.contains_key(id) {
                match raw {
                    Ok(raw) => if forest_entries(children_of(raw), Seq::empty()).len() == 0 {
                        self.saying("no editable snippets"@)
                    } else {
                        AppModel {
                            mode: Mode::Edit,
                            status: Seq::empty(),
                            ..self.editing(fresh_edit(id, self.index.pages[id].path, raw))
                        }
                    },
                    Err(message) => self.saying("failed to load page json: "@ + message),
                }
            } else {
                self.saying("page not found"@)
            },
            None => self.saying("no page loaded"@),
        }
    }

    /// The state once a page that was written has been read again: its text, how
    /// it is shown and its links are those of the file.
    pub open spec fn refreshed(
        self,
        id: Seq<char>,
        source: SourceModel,
        rendered: Option<RenderedModel>,
    ) -> AppModel {
        let page = loaded(self.index.pages, id, source);
        AppModel {
            page: if page is Ok && rendered is Some && self.opened == Some(id) {
                rendered
            } else {
                self.page
            },
            index: relinked(self.index, id, outgoing(self.index.catalog(), id, source)),
            ..match page {
                Ok(page) => self.with_text(id, indexed_text(display_text(page.content))),
                Err(_) => self,
            }
        }
    }

    /// The state once the page under edit was to be written.
    pub open spec fn after_save(
        self,
        failed: Option<Seq<char>>,
        source: SourceModel,
        rendered: Option<RenderedModel>,
    ) -> AppModel {
        match (self.edit, failed) {
            (Some(e), None) => self.editing(EditModel { dirty: false, ..e }).refreshed(
                e.page_id,
                source,
                rendered,
            ),
            (Some(_), Some(message)) => self.saying("edit save failed: "@ + message),
            (None, _) => self,
        }
    }

    /// The state once a new page was written.
    pub open spec fn with_new_page(self, meta: MetaModel, sources: SourceTable) -> AppModel {
        AppModel { index: linked(registered(self.index, meta), sources), ..self }.rebuilt()
    }

    /// The ids of the next pages whose text is asked for, and the state without
    /// them in the queue. No text is read while nothing is searched for.
    pub open spec fn next_batch(self, size: nat) -> (AppModel, Seq<Seq<char>>) {
        if self.needle.len() == 0 {
            (self, Seq::empty())
        } else {
            let n = least(size, self.queue.len()) as int;
            (
                AppModel { queue: self.queue.skip(n), ..self },
                self.queue.take(n),
            )
        }
    }

    /// The state with the text of one more page, without that which was read
    /// longest ago where there are too many.
    pub open spec fn with_text(self, id: Seq<char>, text: TextModel) -> AppModel {
        let kept = kept_keys(self.text_order, id, self.text_limit);
        AppModel { texts: text_put(self.texts, kept, id, text), text_order: kept, ..self }
    }

    /// The text of a page that is to be read: none where there is one, or where
    /// the page cannot be loaded.
    pub open spec fn new_text(self, id: Seq<char>, sources: SourceTable) -> Option<TextModel> {
        if self.texts.contains_key(id) {
            None
        } else {
            match loaded(self.index.pages, id, source_of(sources, id)) {
                Ok(page) => Some(indexed_text(display_text(page.content))),
                Err(_) => None,
            }
        }
    }

    /// The state once the texts of some pages have been read, one after the other.
    pub open spec fn texts_read(self, ids: Seq<Seq<char>>, sources: SourceTable) -> AppModel
        decreases ids.len(),
    {
        if ids.len() == 0 {
            self
        } else {
            let before = self.texts_read(ids.drop_last(), sources);
            match before.new_text(ids.last(), sources) {
                Some(text) => before.with_text(ids.last(), text),
                None => before,
            }
        }
    }

    /// Whether one of the texts that are read holds what is searched for.
    pub open spec fn text_found(self, ids: Seq<Seq<char>>, sources: SourceTable) -> bool
        decreases ids.len(),
    {
        ids.len() > 0 && (self.text_found(ids.drop_last(), sources) || match self.texts_read(
            ids.drop_last(),
            sources,
        ).new_text(ids.last(), sources) {
            Some(text) => contains(text.lower, self.needle),
            None => false,
        })
    }

    /// The state once the texts of some pages have been read. The list is put
    /// together anew where one of them holds what is searched for.
    pub open spec fn after_batch(self, ids: Seq<Seq<char>>, sources: SourceTable) -> AppModel {
        if self.text_found(ids, sources) {
            self.texts_read(ids, sources).rebuilt()
        } else {
            self.texts_read(ids, sources)
        }
    }

    /// What is to be done as time passes: the page under edit is saved.
    pub open spec fn autosaving(self, now: u64, delay: u64) -> ActionModel {
        if self.mode == Mode::Edit && self.edit is Some && (self.edit->0).autosave_due(now, delay) {
            ActionModel::Save
        } else {
            ActionModel::Nothing
        }
    }
}

pub open spec fn json_result(r: Result<Json, String>) -> Result<JsonModel, Seq<char>> {
    match r {
        Ok(j) => Ok(j@),
        Err(message) => Err(message@),
    }
}

/// How many texts are kept for searching where nothing else is set.
pub const TEXT_LIMIT: usize = 512;

/// How many parsed pages, and how many shown ones, are kept where nothing else is
/// set.
pub const PAGE_LIMIT: usize = 128;

/// How many pages are read in one go for searching.
pub const INDEX_BATCH: usize = 4;

impl App {
    /// Takes in the file of the opened page, to edit it.
    pub fn edit_loaded(&mut self, raw: Result<Json, String>)
        requires
            old(self).wf(),
        ensures
            final(self)@ == old(self)@.edit_begun(json_result(raw)),
            final(self).wf(),
    {
        let ghost before = self@;
        let id = match &self.opened {
            Some(id) => copy_of(id.as_str()),
            None => {
                self.status = copy_of("no page loaded");
                return;
            },
        };
        let path = match self.index.page_meta(id.as_str()) {
            Some(meta) => copy_of(meta.path.as_str()),
            None => {
                self.status = copy_of("page not found");
                return;
            },
        };
        let raw = match raw {
            Ok(raw) => raw,
            Err(error) => {
                self.status = message("failed to load page json: ", error.as_str());
                return;
            },
        };
        let mut snippets: Vec<SnippetEntry> = Vec::new();
        let none: Vec<usize> = Vec::new();
        assert(path_view(none@) =~= Seq::<nat>::empty());
        collect_snippets(&raw, none, &mut snippets);
        assert(entry_views(snippets@) =~= forest_entries(children_of(raw@), Seq::empty()));
        if snippets.len() == 0 {
            self.status = copy_of("no editable snippets");
            return;
        }
        let buffer = copy_of(snippets[0].text.as_str());
        assert(entry_views(snippets@)[0] == snippets@[0]@);
        let edit = EditState::new(id, path, raw, snippets, buffer);
        proof {
            normalized_text_has_no_carriage_return(buffer@);
            a_read_page_is_ready(raw@, edit@);
        }
        self.edit = Some(edit);
        self.mode = Mode::Edit;
        self.status = String::new();
        assert(self@ =~= before.edit_begun(Ok(raw@)));
    }

    /// Takes in a page that was written and read again.
    fn refresh_after_edit(&mut self, id: &str, source: &PageSource, rendered: Option<RenderedPage>)
        requires
            old(self).wf(),
        ensures
            final(self)@ == old(self)@.refreshed(id@, source@, rendered_view(rendered)),
            final(self).wf(),
    {
        let ghost before = self@;
        if let Ok(page) = self.index.load_page(id, source) {
            if let Some(rendered) = rendered {
                let shown = match &self.opened {
                    Some(opened) => same_text(opened.as_str(), id),
                    None => false,
                };
                if shown {
                    self.page = Some(rendered);
                }
            }
            let raw = render_page_to_text(&page);
            let lower = to_lowercase(raw.as_str());
            put_page_text(&mut self.text_index, copy_of(id), IndexedPageText { raw, lower });
        }
        self.index.update_backlinks_for(id, source);
        assert(self@ =~= before.refreshed(id@, source@, rendered_view(rendered)));
    }

    /// Takes in how writing the page under edit went, and what the file holds
    /// now.
    pub fn edit_saved(
        &mut self,
        saved: Result<(), String>,
        source: &PageSource,
        rendered: Option<RenderedPage>,
    )
        requires
            old(self).wf(),
        ensures
            final(self)@ == old(self)@.after_save(
                match saved {
                    Ok(_) => None,
                    Err(message) => Some(message@),
                },
                source@,
                rendered_view(rendered),
            ),
            final(self).wf(),
    {
        let ghost before = self@;
        let mut edit = match self.edit.take() {
            Some(edit) => edit,
            None => {
                assert(self@ =~= before);
                return;
            },
        };
        match saved {
            Ok(_) => {
                edit.dirty = false;
                let id = copy_of(edit.page_id.as_str());
                self.edit = Some(edit);
                assert(self@ =~= before.editing(
                    EditModel { dirty: false, ..before.edit->0 },
                ));
                self.refresh_after_edit(id.as_str(), source, rendered);
            },
            Err(error) => {
                self.edit = Some(edit);
                self.status = message("edit save failed: ", error.as_str());
                assert(self@ =~= before.saying("edit save failed: "@ + error@));
            },
        }
    }

    /// Takes in how writing the page under edit went, and stops editing it.
    pub fn edit_left(
        &mut self,
        saved: Result<(), String>,
        source: &PageSource,
        rendered: Option<RenderedPage>,
    )
        requires
            old(self).wf(),
        ensures
            final(self)@ == old(self)@.after_save(
                match saved {
                    Ok(_) => None,
                    Err(message) => Some(message@),
                },
                source@,
                rendered_view(rendered),
            ).edit_closed(),
            final(self).wf(),
    {
        self.edit_saved(saved, source, rendered);
        self.edit = None;
        self.mode = Mode::Page;
    }

    /// Takes in a page that was made and written.
    pub fn page_created(&mut self, meta: PageMeta, sources: &StrMap<PageSource>) -> (action: Action)
        requires
            old(self).wf(),
            sources.wf(),
        ensures
            final(self)@ == old(self)@.with_new_page(meta@, source_table(*sources)),
            action@ == (ActionModel::OpenPage {
                id: meta@.id,
                from_link: false,
                after: AfterOpen::Edit,
            }),
            final(self).wf(),
    {
        let ghost before = self@;
        let id = copy_of(meta.id.as_str());
        self.index.register_page(meta);
        self.index.build_backlinks(sources);
        assert(self@ =~= AppModel {
            index: linked(registered(before.index, meta@), source_table(*sources)),
            ..before
        });
        self.rebuild_visible_ids();
        Action::OpenPage { id, from_link: false, after: AfterOpen::Edit }
    }

    /// Takes in how opening an attachment went: the path that was opened, or
    /// what went wrong.
    pub fn attachment_opened(&mut self, opened: Result<String, String>)
        ensures
            final(self)@ == old(self)@.saying(
                match opened {
                    Ok(path) => "opened attachment: "@ + path@,
                    Err(error) => "failed to open attachment: "@ + error@,
                },
            ),
            old(self).wf() ==> final(self).wf(),
    {
        self.status = match opened {
            Ok(path) => message("opened attachment: ", path.as_str()),
            Err(error) => message("failed to open attachment: ", error.as_str()),
        };
    }

    /// Takes in that an attachment could not be found.
    pub fn attachment_missing(&mut self, error: &AttachmentError)
        ensures
            final(self)@ == old(self)@.saying("attachment error: "@ + fault_message(error@)),
            old(self).wf() ==> final(self).wf(),
    {
        let text = error.message();
        self.status = message("attachment error: ", text.as_str());
    }

    /// Takes in how opening an address went.
    pub fn url_opened(&mut self, url: &str, opened: Result<(), String>)
        ensures
            final(self)@ == old(self)@.saying(
                match opened {
                    Ok(_) => "opened external link: "@ + url@,
                    Err(error) => "failed to open external link: "@ + error@,
                },
            ),
            old(self).wf() ==> final(self).wf(),
    {
        self.status = match opened {
            Ok(_) => message("opened external link: ", url),
            Err(error) => message("failed to open external link: ", error.as_str()),
        };
    }

    /// Takes in how running a command went.
    pub fn command_run(&mut self, run: Result<(), String>)
        ensures
            final(self)@ == old(self)@.saying(
                match run {
                    Ok(_) => "opened externally"@,
                    Err(error) => "failed to open externally: "@ + error@,
                },
            ),
            old(self).wf() ==> final(self).wf(),
    {
        self.status = match run {
            Ok(_) => copy_of("opened externally"),
            Err(error) => message("failed to open externally: ", error.as_str()),
        };
    }

    /// Takes the ids of the next pages whose text is asked for out of the queue.
    pub fn take_batch(&mut self, size: usize) -> (ids: Vec<PageId>)
        requires
            old(self).wf(),
        ensures
            (final(self)@, views(ids@)) == old(self)@.next_batch(size as nat),
            final(self).wf(),
    {
        let ghost before = self@;
        let mut ids: Vec<PageId> = Vec::new();
        assert(views(ids@) =~= Seq::<Seq<char>>::empty());
        if self.search_needle.as_str().is_empty() {
            return ids;
        }
        let ghost all = before.queue;
        let mut i: usize = 0;
        assert(all.take(0) =~= Seq::<Seq<char>>::empty());
        assert(all.skip(0) =~= all);
        while i < size && self.text_index_queue.len() > 0
            invariant
                i <= size,
                i <= all.len(),
                all == before.queue,
                self.wf(),
                self@ == (AppModel { queue: all.skip(i as int), ..before }),
                views(ids@) == all.take(i as int),
            decreases size - i,
        {
            let ghost held = self.text_index_queue@;
            let ghost state = self@;
            assert(state.queue == views(held));
            if let Some(id) = self.text_index_queue.pop_front() {
                proof {
                    assert(views(self.text_index_queue@) =~= views(held).skip(1));
                    assert(all.skip(i as int).skip(1) =~= all.skip(i as int + 1));
                    assert(views(held)[0] == id@);
                    assert(all[i as int] == id@);
                    assert(all.take(i as int + 1) =~= all.take(i as int).push(id@));
                    lemma_views_push(ids@, id);
                    assert(self@ =~= AppModel { queue: all.skip(i as int + 1), ..before });
                }
                ids.push(id);
            }
            i += 1;
        }
        proof {
            assert(self@.queue == views(self.text_index_queue@));
            assert(i == least(size as nat, all.len()));
            assert(self@ =~= before.next_batch(size as nat).0);
        }
        ids
    }

    /// Takes in pages that were read for searching. Those that have a text keep it.
    pub fn batch_read(&mut self, ids: &Vec<PageId>, sources: &StrMap<PageSource>)
        requires
            old(self).wf(),
            sources.wf(),
        ensures
            final(self)@ == old(self)@.after_batch(views(ids@), source_table(*sources)),
            final(self).wf(),
    {
        let ghost before = self@;
        let ghost all = views(ids@);
        let ghost table = source_table(*sources);
        let mut changed = false;
        let mut i: usize = 0;
        assert(all.take(0) =~= Seq::<Seq<char>>::empty());
        while i < ids.len()
            invariant
                i <= ids@.len(),
                self.wf(),
                sources.wf(),
                all == views(ids@),
                table == source_table(*sources),
                self@ == before.texts_read(all.take(i as int), table),
                self@.needle == before.needle,
                self@.index == before.index,
                changed == before.text_found(all.take(i as int), table),
            decreases ids.len() - i,
        {
            let ghost done = all.take(i as int);
            assert(all.take(i as int + 1).drop_last() =~= done);
            assert(all.take(i as int + 1).last() == ids@[i as int]@);
            let ghost state = self@;
            if !self.text_index.contains_key(ids[i].as_str()) {
                if let Ok(page) = self.index.load_from(ids[i].as_str(), sources) {
                    let raw = render_page_to_text(&page);
                    let lower = to_lowercase(raw.as_str());
                    if text_contains(lower.as_str(), self.search_needle.as_str()) {
                        changed = true;
                    }
                    let text = IndexedPageText { raw, lower };
                    let ghost held = text@;
                    put_page_text(&mut self.text_index, copy_of(ids[i].as_str()), text);
                    assert(state.new_text(ids@[i as int]@, table) == Some(held));
                    assert(self@ =~= state.with_text(ids@[i as int]@, held));
                }
            }
            i += 1;
        }
        assert(all.take(i as int) =~= all);
        if changed {
            self.rebuild_visible_ids();
        }
    }

    /// What is to be done as time passes: the ids of the pages whose text is to
    /// be read, and whether the page under edit is to be saved.
    pub fn tick(&mut self, now: u64, delay: u64) -> (work: (Vec<PageId>, Action))
        requires
            old(self).wf(),
        ensures
            (final(self)@, views(work.0@)) == old(self)@.next_batch(INDEX_BATCH as nat),
            work.1@ == old(self)@.autosaving(now, delay),
            final(self).wf(),
    {
        let due = match &self.edit {
            Some(edit) => edit.maybe_autosave(now, delay),
            None => false,
        };
        let save = match self.mode {
            Mode::Edit => due,
            _ => false,
        };
        let action = if save {
            Action::Save
        } else {
            Action::Nothing
        };
        (self.take_batch(INDEX_BATCH), action)
    }
}

// ---------------------------------------------------------------------------
// What holds of every key
// ---------------------------------------------------------------------------

/// Only `q` quits, and only where no text is typed and no help is shown.
pub proof fn only_q_quits(app: AppModel, key: Key, env: EnvModel)
    ensures
        app.after_key(key, env).result == KeyResult::Quit <==> !app.help && key.code
            == KeyCode::Char('q') && (app.mode == Mode::List || app.mode == Mode::Page || app.mode
            == Mode::Backlinks),
{
}

/// While the help is shown, a key closes it or does nothing.
pub proof fn help_takes_every_key(app: AppModel, key: Key, env: EnvModel)
    requires
        app.help,
    ensures
        app.after_key(key, env).app == (AppModel {
            help: app.after_key(key, env).app.help,
            ..app
        }),
        app.after_key(key, env).action == ActionModel::Nothing,
{
}

/// Going back after following a link leads to the page that the link was on, and
/// leaves the history as it was, unless the history was full.
pub proof fn going_back_undoes_a_link(app: AppModel, id: Seq<char>, page: RenderedModel)
    requires
        app.opened is Some,
    ensures
        ({
            let (back, action) = app.showing(id, true, page).going_back();
            &&& action == (ActionModel::OpenPage {
                id: app.opened->0,
                from_link: false,
                after: AfterOpen::Nothing,
            })
            &&& app.history.len() < HISTORY_LIMIT ==> back.history == app.history
        }),
{
    let longer = app.longer_history();
    assert(longer.last() == app.opened->0);
    if app.history.len() < HISTORY_LIMIT {
        assert(longer.drop_last() =~= app.history);
    }
}

/// The history never grows beyond its limit.
pub proof fn history_stays_within_its_limit(
    app: AppModel,
    id: Seq<char>,
    from_link: bool,
    page: RenderedModel,
)
    requires
        app.history.len() <= HISTORY_LIMIT,
    ensures
        app.showing(id, from_link, page).history.len() <= HISTORY_LIMIT,
{
}

/// However the list changes, the selection lies in it.
pub proof fn the_selection_stays_in_the_list(app: AppModel, delta: int)
    ensures
        app.rebuilt().visible.len() > 0 ==> app.rebuilt().selected < app.rebuilt().visible.len(),
        app.visible.len() > 0 ==> app.selection_moved(delta).selected < app.visible.len(),
{
}

/// Going to the next match and back leads to the same match.
pub proof fn previous_match_undoes_next_match(app: AppModel)
    requires
        app.match_lines.len() > 0,
        app.match_at < app.match_lines.len(),
    ensures
        app.next_match().previous_match().match_at == app.match_at,
        app.previous_match().next_match().match_at == app.match_at,
{
}

/// A match that is shown is a line of the page that holds the text.
pub proof fn matches_hold_the_text(lines: Seq<LineModel>, needle: Seq<char>, i: int)
    requires
        0 <= i < lines_with(lines, needle).len(),
    ensures
        lines_with(lines, needle)[i] < lines.len(),
        line_holds(lines[lines_with(lines, needle)[i] as int], needle),
    decreases lines.len(),
{
    if lines.len() > 0 {
        let before = lines_with(lines.drop_last(), needle);
        if i < before.len() {
            matches_hold_the_text(lines.drop_last(), needle, i);
            assert(lines_with(lines, needle)[i] == before[i]);
            assert(lines.drop_last()[before[i] as int] == lines[before[i] as int]);
        }
    }
}

/// Every page that matches what was typed is in the list, and no other.
pub proof fn the_list_shows_what_matches(app: AppModel, id: Seq<char>)
    requires
        app.index.wf(),
        trimmed(app.search).len() > 0,
    ensures
        app.rebuilt().visible.contains(id) <==> (app.index.pages.contains_key(id) && app.hit_of(id)
            is Some),
        app.rebuilt().hits.contains_key(id) <==> app.rebuilt().visible.contains(id),
{
    let order = app.index.order;
    lemma_ids_of_kind(app, order, SearchMatchKind::Title, id);
    lemma_ids_of_kind(app, order, SearchMatchKind::Tag, id);
    lemma_ids_of_kind(app, order, SearchMatchKind::Content, id);
    let a = app.ids_of_kind(order, SearchMatchKind::Title);
    let b = app.ids_of_kind(order, SearchMatchKind::Tag);
    let c = app.ids_of_kind(order, SearchMatchKind::Content);
    let all = a + b + c;
    assert(all.contains(id) == (a.contains(id) || b.contains(id) || c.contains(id))) by {
        if a.contains(id) {
            let k = choose|k: int| 0 <= k < a.len() && a[k] == id;
            assert(all[k] == id);
        }
        if b.contains(id) {
            let k = choose|k: int| 0 <= k < b.len() && b[k] == id;
            assert(all[a.len() + k] == id);
        }
        if c.contains(id) {
            let k = choose|k: int| 0 <= k < c.len() && c[k] == id;
            assert(all[a.len() + b.len() + k] == id);
        }
        if all.contains(id) {
            let k = choose|k: int| 0 <= k < all.len() && all[k] == id;
            if k < a.len() {
                assert(a[k] == id);
            } else if k < a.len() + b.len() {
                assert(b[k - a.len()] == id);
            } else {
                assert(c[k - a.len() - b.len()] == id);
            }
        }
    }
    assert(order.contains(id) == app.index.pages.contains_key(id));
}

proof fn lemma_ids_of_kind(app: AppModel, ids: Seq<Seq<char>>, kind: SearchMatchKind, id: Seq<char>)
    ensures
        app.ids_of_kind(ids, kind).contains(id) == (ids.contains(id) && app.hit_of(id) == Some(
            kind,
        )),
    decreases ids.len(),
{
    if ids.len() > 0 {
        let before = app.ids_of_kind(ids.drop_last(), kind);
        lemma_ids_of_kind(app, ids.drop_last(), kind, id);
        let n = ids.len() - 1;
        assert(ids.take(n) =~= ids.drop_last());
        assert(ids.take(n + 1) =~= ids);
        lemma_take_contains(ids, n, id);
        if app.hit_of(ids.last()) == Some(kind) {
            let after = before.push(ids.last());
            assert(after.take(before.len() as int) =~= before);
            assert(after.take(before.len() as int + 1) =~= after);
            lemma_take_contains(after, before.len() as int, id);
        }
    }
}

// ---------------------------------------------------------------------------
// What the keys are for
// ---------------------------------------------------------------------------

/// No key loses unsaved text: where the page under edit has changes, it is still
/// under edit after every key, with its changes. Escape asks for it to be written
/// first, and closes only what has no changes.
pub proof fn no_key_loses_unsaved_text(app: AppModel, key: Key, env: EnvModel)
    requires
        app.edit is Some,
    ensures
        (app.edit->0).dirty ==> app.after_key(key, env).app.edit is Some && (app.after_key(
            key,
            env,
        ).app.edit->0).dirty,
        app.after_key(key, env).app.edit is None <==> !app.help && app.mode == Mode::Edit
            && key.code == KeyCode::Esc && !(app.edit->0).dirty,
        !app.help && app.mode == Mode::Edit && key.code == KeyCode::Esc && (app.edit->0).dirty
            ==> app.after_key(key, env).action == ActionModel::SaveAndLeave && app.after_key(
            key,
            env,
        ).app == app,
        !app.help && app.mode == Mode::Edit && key.code == KeyCode::Esc && !(app.edit->0).dirty
            ==> app.after_key(key, env).action == ActionModel::Nothing && app.after_key(
            key,
            env,
        ).app.mode == Mode::Page,
        app.after_key(key, env).action == ActionModel::SaveAndLeave ==> key.code == KeyCode::Esc
            && (app.edit->0).dirty,
{
}

/// Leaving a page to another of its snippets asks for the changes to be written,
/// and so does undoing a step; nothing is asked where nothing has changed.
pub proof fn leaving_a_snippet_saves_it(app: AppModel, key: Key, env: EnvModel)
    requires
        !app.help,
        app.mode == Mode::Edit,
        app.edit is Some,
        key.code == KeyCode::Tab || key.code == KeyCode::BackTab,
    ensures
        app.after_key(key, env).app.edit is Some,
        (app.edit->0).dirty ==> app.after_key(key, env).action == ActionModel::Save,
        (app.edit->0).editable() && (app.edit->0).snippets[(app.edit->0).selected as int].text
            != (app.edit->0).buffer ==> app.after_key(key, env).action == ActionModel::Save,
        app.after_key(key, env).action == (if (app.after_key(key, env).app.edit->0).dirty {
            ActionModel::Save
        } else {
            ActionModel::Nothing
        }),
{
}

/// Tab goes to the next snippet and Shift-Tab to the one before, and at the ends
/// they stay. The text of the snippet gone to is what is edited, with the cursor
/// behind it.
pub proof fn tabs_walk_over_the_snippets(app: AppModel, env: EnvModel, ctrl: bool)
    requires
        !app.help,
        app.mode == Mode::Edit,
        app.edit is Some,
        (app.edit->0).selected < (app.edit->0).snippets.len(),
    ensures
        ({
            let e = app.edit->0;
            let n = e.snippets.len();
            let next = app.after_key(Key { code: KeyCode::Tab, ctrl }, env).app.edit->0;
            let back = app.after_key(Key { code: KeyCode::BackTab, ctrl }, env).app.edit->0;
            &&& next.snippets.len() == n
            &&& back.snippets.len() == n
            &&& next.selected == if e.selected + 1 < n {
                e.selected + 1
            } else {
                e.selected
            }
            &&& back.selected == if e.selected > 0 {
                e.selected - 1
            } else {
                0
            }
            &&& next.buffer == normalized(next.snippets[next.selected as int].text)
            &&& back.buffer == normalized(back.snippets[back.selected as int].text)
            &&& next.cursor == next.buffer.len()
            &&& back.cursor == back.buffer.len()
            &&& e.selected + 1 < n ==> next.snippets[next.selected as int].text
                == e.snippets[e.selected as int + 1].text
            &&& e.selected > 0 ==> back.snippets[back.selected as int].text
                == e.snippets[e.selected - 1].text
        }),
{
    let e = app.edit->0;
    let c = e.committed(env.now);
    assert(c.snippets.len() == e.snippets.len());
    assert(c.selected == e.selected);
}

/// The snippets that are walked over keep what was typed into them: the snippet
/// left holds what was in the buffer.
pub proof fn a_snippet_left_keeps_its_text(app: AppModel, key: Key, env: EnvModel)
    requires
        !app.help,
        app.mode == Mode::Edit,
        app.edit is Some,
        (app.edit->0).selected < (app.edit->0).snippets.len(),
        (app.edit->0).snippets[(app.edit->0).selected as int].editable,
        key.code == KeyCode::Tab || key.code == KeyCode::BackTab,
    ensures
        (app.after_key(key, env).app.edit->0).snippets[(app.edit->0).selected as int].text == (
        app.edit->0).buffer,
        forall|i: int|
            0 <= i < (app.edit->0).snippets.len() && i != (app.edit->0).selected ==> (
            app.after_key(key, env).app.edit->0).snippets[i] == #[trigger] (
            app.edit->0).snippets[i],
{
}

/// What a typed character does: it stands in the text at the cursor, the cursor
/// goes behind it, and the text is what the snippet then holds. A carriage return
/// is typed as a line feed, and Enter types a line feed.
pub proof fn a_typed_character_is_inserted(app: AppModel, c: char, env: EnvModel)
    requires
        !app.help,
        app.mode == Mode::Edit,
        app.edit is Some,
        (app.edit->0).selected < (app.edit->0).snippets.len(),
        (app.edit->0).snippets[(app.edit->0).selected as int].editable,
        (app.edit->0).cursor <= (app.edit->0).buffer.len() < usize::MAX,
    ensures
        ({
            let e = app.edit->0;
            let typed_c = app.after_key(Key { code: KeyCode::Char(c), ctrl: false }, env);
            let entered = app.after_key(Key { code: KeyCode::Enter, ctrl: false }, env);
            let t = typed_c.app.edit->0;
            let n = entered.app.edit->0;
            let before = e.buffer.take(e.cursor as int);
            let behind = e.buffer.skip(e.cursor as int);
            &&& t.buffer == before.push(if c == '\r' {
                '\n'
            } else {
                c
            }) + behind
            &&& t.cursor == e.cursor + 1
            &&& n.buffer == before.push('\n') + behind
            &&& n.cursor == e.cursor + 1
            &&& t.selected == e.selected
            &&& n.selected == e.selected
            &&& t.snippets[t.selected as int].text == t.buffer
            &&& n.snippets[n.selected as int].text == n.buffer
            &&& typed_c.action == ActionModel::Nothing
            &&& entered.action == ActionModel::Nothing
            &&& e.snippets[e.selected as int].text == e.buffer ==> t.dirty && n.dirty
        }),
{
    let e = app.edit->0;
    let before = e.buffer.take(e.cursor as int);
    let behind = e.buffer.skip(e.cursor as int);
    let d = if c == '\r' {
        '\n'
    } else {
        c
    };
    assert(e.buffer.insert(e.cursor as int, d) =~= before.push(d) + behind);
    assert(e.buffer.insert(e.cursor as int, '\n') =~= before.push('\n') + behind);
    assert(e.buffer.insert(e.cursor as int, d).len() == e.buffer.len() + 1);
    assert(e.buffer.insert(e.cursor as int, '\n').len() == e.buffer.len() + 1);
}

/// Backspace takes away the character before the cursor and Delete the one behind
/// it; where there is none the text stays. The snippet then holds the text.
pub proof fn erasing_takes_one_character(app: AppModel, env: EnvModel, ctrl: bool)
    requires
        !app.help,
        app.mode == Mode::Edit,
        app.edit is Some,
        (app.edit->0).selected < (app.edit->0).snippets.len(),
        (app.edit->0).snippets[(app.edit->0).selected as int].editable,
        (app.edit->0).cursor <= (app.edit->0).buffer.len(),
    ensures
        ({
            let e = app.edit->0;
            let b = app.after_key(Key { code: KeyCode::Backspace, ctrl }, env).app.edit->0;
            let d = app.after_key(Key { code: KeyCode::Delete, ctrl }, env).app.edit->0;
            &&& e.cursor > 0 ==> b.buffer == e.buffer.take(e.cursor - 1) + e.buffer.skip(
                e.cursor as int,
            ) && b.cursor == e.cursor - 1 && b.snippets[b.selected as int].text == b.buffer
            &&& e.cursor == 0 ==> b == e
            &&& e.cursor < e.buffer.len() ==> d.buffer == e.buffer.take(e.cursor as int)
                + e.buffer.skip(e.cursor as int + 1) && d.cursor == e.cursor
                && d.snippets[d.selected as int].text == d.buffer
            &&& e.cursor == e.buffer.len() ==> d == e
        }),
{
    let e = app.edit->0;
    if e.cursor > 0 {
        assert(e.buffer.remove(e.cursor - 1) =~= e.buffer.take(e.cursor - 1) + e.buffer.skip(
            e.cursor as int,
        ));
    }
    if e.cursor < e.buffer.len() {
        assert(e.buffer.remove(e.cursor as int) =~= e.buffer.take(e.cursor as int) + e.buffer.skip(
            e.cursor as int + 1,
        ));
    }
}

/// The arrows, Home and End move the cursor alone: one character to the left or
/// the right, to the start or the end of the text.
pub proof fn cursor_keys_move_the_cursor(app: AppModel, env: EnvModel, ctrl: bool)
    requires
        !app.help,
        app.mode == Mode::Edit,
        app.edit is Some,
        (app.edit->0).selected < (app.edit->0).snippets.len(),
        (app.edit->0).snippets[(app.edit->0).selected as int].editable,
        (app.edit->0).cursor <= (app.edit->0).buffer.len(),
    ensures
        ({
            let e = app.edit->0;
            let left = app.after_key(Key { code: KeyCode::Left, ctrl }, env).app.edit->0;
            let right = app.after_key(Key { code: KeyCode::Right, ctrl }, env).app.edit->0;
            let home = app.after_key(Key { code: KeyCode::Home, ctrl }, env).app.edit->0;
            let end = app.after_key(Key { code: KeyCode::End, ctrl }, env).app.edit->0;
            &&& left.cursor == if e.cursor > 0 {
                e.cursor - 1
            } else {
                0
            }
            &&& right.cursor == if e.cursor < e.buffer.len() {
                e.cursor + 1
            } else {
                e.cursor
            }
            &&& home.cursor == 0
            &&& end.cursor == e.buffer.len()
            &&& left.buffer == e.buffer && right.buffer == e.buffer && home.buffer == e.buffer
                && end.buffer == e.buffer
            &&& left.raw == e.raw && right.raw == e.raw && home.raw == e.raw && end.raw == e.raw
            &&& left.dirty == e.dirty && right.dirty == e.dirty && home.dirty == e.dirty
                && end.dirty == e.dirty
            &&& left.snippets == e.snippets && right.snippets == e.snippets && home.snippets
                == e.snippets && end.snippets == e.snippets
        }),
{
}

/// A snippet that cannot be edited keeps its text under every key but those that
/// leave it.
pub proof fn other_snippets_cannot_be_edited(app: AppModel, key: Key, env: EnvModel)
    requires
        !app.help,
        app.mode == Mode::Edit,
        app.edit is Some,
        (app.edit->0).selected < (app.edit->0).snippets.len(),
        !(app.edit->0).snippets[(app.edit->0).selected as int].editable,
        !(key.ctrl && key.code == KeyCode::Char('a')),
        app.after_key(key, env).app.edit is Some,
    ensures
        (app.after_key(key, env).app.edit->0).raw == (app.edit->0).raw,
        (app.after_key(key, env).app.edit->0).snippets == (app.edit->0).snippets,
        (app.after_key(key, env).app.edit->0).dirty == (app.edit->0).dirty,
{
}

/// The preview scrolls by its step, to its start at most, and then no longer
/// follows the cursor; the text stays.
pub proof fn page_keys_scroll_the_preview(app: AppModel, env: EnvModel, ctrl: bool)
    requires
        !app.help,
        app.mode == Mode::Edit,
        app.edit is Some,
    ensures
        ({
            let e = app.edit->0;
            let up = app.after_key(Key { code: KeyCode::PageUp, ctrl }, env).app.edit->0;
            let down = app.after_key(Key { code: KeyCode::PageDown, ctrl }, env).app.edit->0;
            &&& up.preview_scroll == if e.preview_scroll >= 10 {
                e.preview_scroll - 10
            } else {
                0
            }
            &&& e.preview_scroll + 10 <= usize::MAX ==> down.preview_scroll == e.preview_scroll + 10
            &&& !up.follow_cursor && !down.follow_cursor
            &&& up.buffer == e.buffer && down.buffer == e.buffer
            &&& up.raw == e.raw && down.raw == e.raw
            &&& up.dirty == e.dirty && down.dirty == e.dirty
        }),
{
}

/// Enter on a page follows the selected link, whichever it is: what is opened is
/// decided by the target of that very link.
pub proof fn enter_follows_the_selected_link(app: AppModel, env: EnvModel, ctrl: bool)
    requires
        !app.help,
        app.mode == Mode::Page,
        app.page is Some,
        app.link < (app.page->0).links.len(),
    ensures
        ({
            let target = (app.page->0).links[app.link as int].target;
            let step = app.after_key(Key { code: KeyCode::Enter, ctrl }, env);
            &&& forall|id: Seq<char>|
                classified(app.index.catalog(), target) == TargetModel::InternalPage(id)
                    ==> step.action == (ActionModel::OpenPage {
                    id,
                    from_link: true,
                    after: AfterOpen::Nothing,
                }) && step.app == app
            &&& forall|url: Seq<char>|
                classified(app.index.catalog(), target) == TargetModel::ExternalUrl(url)
                    ==> step.action == (ActionModel::OpenUrl { url }) && step.app == app
            &&& forall|path: Seq<char>|
                classified(app.index.catalog(), target) == TargetModel::AttachmentPath(path)
                    ==> step.action == (ActionModel::OpenAttachment { target }) && step.app == app
            &&& forall|raw: Seq<char>|
                classified(app.index.catalog(), target) == TargetModel::Unknown(raw) ==> step.action
                    == ActionModel::Nothing && step.app == (AppModel {
                    status: "unresolved link target: "@ + raw,
                    ..app
                })
        }),
{
}

/// Where the page has no link, Enter says so and opens nothing.
pub proof fn enter_without_a_link_says_so(app: AppModel, env: EnvModel, ctrl: bool)
    requires
        !app.help,
        app.mode == Mode::Page,
        app.page is Some,
        app.link >= (app.page->0).links.len(),
    ensures
        ({
            let step = app.after_key(Key { code: KeyCode::Enter, ctrl }, env);
            &&& step.action == ActionModel::Nothing
            &&& step.app == (AppModel { status: "no link selected"@, ..app })
        }),
{
}

/// Tab selects the next link of a page and Shift-Tab the one before; at the ends
/// they stay. Nothing else changes.
pub proof fn tabs_walk_over_the_links(app: AppModel, env: EnvModel, ctrl: bool)
    requires
        !app.help,
        app.mode == Mode::Page,
        app.page is Some,
        app.link < (app.page->0).links.len(),
    ensures
        app.after_key(Key { code: KeyCode::Tab, ctrl }, env).app == (AppModel {
            link: if app.link + 1 < (app.page->0).links.len() {
                app.link + 1
            } else {
                app.link
            },
            ..app
        }),
        app.after_key(Key { code: KeyCode::BackTab, ctrl }, env).app == (AppModel {
            link: if app.link > 0 {
                (app.link - 1) as nat
            } else {
                0
            },
            ..app
        }),
{
}

/// Every link of a page can be followed: when it is selected, Enter asks for what
/// its own target leads to.
pub proof fn a_link_reached_by_tab_is_followed(
    app: AppModel,
    env: EnvModel,
    ctrl: bool,
    id: Seq<char>,
)
    requires
        !app.help,
        app.mode == Mode::Page,
        app.page is Some,
        app.link + 1 < (app.page->0).links.len(),
        classified(app.index.catalog(), (app.page->0).links[app.link as int + 1].target)
            == TargetModel::InternalPage(id),
    ensures
        app.after_key(Key { code: KeyCode::Tab, ctrl }, env).app.after_key(
            Key { code: KeyCode::Enter, ctrl },
            env,
        ).action == (ActionModel::OpenPage { id, from_link: true, after: AfterOpen::Nothing }),
{
    tabs_walk_over_the_links(app, env, ctrl);
    let next = app.after_key(Key { code: KeyCode::Tab, ctrl }, env).app;
    enter_follows_the_selected_link(next, env, ctrl);
}

/// Enter in the list or while searching opens the page that is selected, and
/// scrolls to what was searched where the page was found by its text.
pub proof fn enter_opens_the_selected_page(app: AppModel, env: EnvModel, ctrl: bool)
    requires
        !app.help,
        app.mode == Mode::List || app.mode == Mode::Search,
    ensures
        ({
            let step = app.after_key(Key { code: KeyCode::Enter, ctrl }, env);
            &&& step.app == (AppModel { mode: Mode::List, ..app })
            &&& app.selected < app.visible.len() ==> {
                let id = app.visible[app.selected as int];
                &&& step.action is OpenPage
                &&& step.action->OpenPage_id == id
                &&& !step.action->from_link
                &&& step.action->after == (if app.hits.contains_key(id) && app.hits[id]
                    == SearchMatchKind::Content {
                    AfterOpen::Jump
                } else {
                    AfterOpen::Nothing
                })
            }
            &&& app.selected >= app.visible.len() ==> step.action == ActionModel::Nothing
        }),
{
}

/// Up and down move the selection in the list by one, and stop at its ends; `k`
/// and `j` do so in the list too. Nothing else changes.
pub proof fn arrows_walk_over_the_list(app: AppModel, env: EnvModel, ctrl: bool)
    requires
        !app.help,
        app.mode == Mode::List || app.mode == Mode::Search,
        app.selected < app.visible.len(),
    ensures
        ({
            let up = AppModel {
                selected: if app.selected > 0 {
                    (app.selected - 1) as nat
                } else {
                    0
                },
                ..app
            };
            let down = AppModel {
                selected: if app.selected + 1 < app.visible.len() {
                    app.selected + 1
                } else {
                    app.selected
                },
                ..app
            };
            &&& app.after_key(Key { code: KeyCode::Up, ctrl }, env).app == up
            &&& app.after_key(Key { code: KeyCode::Down, ctrl }, env).app == down
            &&& app.mode == Mode::List ==> app.after_key(
                Key { code: KeyCode::Char('k'), ctrl },
                env,
            ).app == up && app.after_key(Key { code: KeyCode::Char('j'), ctrl }, env).app == down
        }),
{
}

/// The keys that leave a mode: a search is left for the list and forgotten, the
/// search in a page for the page, the title of a new page for the list, the pages
/// that link here for the page, and a page for the list unless there is a search
/// in it to be forgotten first.
pub proof fn escape_leaves_the_mode(app: AppModel, env: EnvModel, ctrl: bool)
    requires
        !app.help,
    ensures
        ({
            let step = app.after_key(Key { code: KeyCode::Esc, ctrl }, env);
            &&& app.mode != Mode::Edit ==> step.action == ActionModel::Nothing
            &&& app.mode == Mode::List ==> step.app == app
            &&& app.mode == Mode::Search ==> step.app.mode == Mode::List && step.app.search
                =~= Seq::<char>::empty() && step.app.needle == lowercase(Seq::empty())
                && step.app.visible == app.index.order
            &&& app.mode == Mode::Page && app.page_needle.len() == 0 ==> step.app == (AppModel {
                mode: Mode::List,
                ..app
            })
            &&& app.mode == Mode::Page && app.page_needle.len() > 0 ==> step.app.mode == Mode::Page
                && step.app.page_search.len() == 0 && step.app.page_needle.len() == 0
                && step.app.match_lines.len() == 0 && step.app.scroll == app.scroll
                && step.app.page == app.page
            &&& app.mode == Mode::PageSearch ==> step.app.mode == Mode::Page
                && step.app.page_search.len() == 0 && step.app.page_needle.len() == 0
                && step.app.match_lines.len() == 0 && step.app.scroll == app.scroll
                && step.app.page == app.page
            &&& app.mode == Mode::Backlinks ==> step.app == (AppModel { mode: Mode::Page, ..app })
            &&& app.mode == Mode::NewPageTitle ==> step.app.mode == Mode::List
                && step.app.new_title.len() == 0
        }),
{
    assert(trimmed(Seq::<char>::empty()) =~= Seq::<char>::empty());
}

/// The keys that enter a mode: `/` searches the list, or the page where one is
/// shown, with nothing typed yet; `n` in the list names a new page; `b` goes from
/// a page to the list; `?` shows the help, which `?` and Escape close.
pub proof fn letters_enter_a_mode(app: AppModel, env: EnvModel, ctrl: bool)
    ensures
        ({
            let slash = app.after_key(Key { code: KeyCode::Char('/'), ctrl }, env);
            let name = app.after_key(Key { code: KeyCode::Char('n'), ctrl }, env);
            let list = app.after_key(Key { code: KeyCode::Char('b'), ctrl }, env);
            let help = app.after_key(Key { code: KeyCode::Char('?'), ctrl }, env);
            let close = app.after_key(Key { code: KeyCode::Esc, ctrl }, env);
            &&& !app.help && app.mode == Mode::List ==> slash.app.mode == Mode::Search
                && slash.app.search.len() == 0 && slash.app.visible == app.index.order
            &&& !app.help && app.mode == Mode::Page ==> slash.app.mode == Mode::PageSearch
                && slash.app.page_search.len() == 0 && slash.app.scroll == app.scroll
            &&& !app.help && app.mode == Mode::List ==> name.app == (AppModel {
                mode: Mode::NewPageTitle,
                new_title: Seq::empty(),
                ..app
            })
            &&& !app.help && app.mode == Mode::Page ==> list.app == (AppModel {
                mode: Mode::List,
                ..app
            })
            &&& !app.help && (app.mode == Mode::List || app.mode == Mode::Page || app.mode
                == Mode::Backlinks) ==> help.app == (AppModel { help: true, ..app })
            &&& app.help ==> help.app == (AppModel { help: false, ..app }) && close.app == (
            AppModel { help: false, ..app })
        }),
{
    assert(trimmed(Seq::<char>::empty()) =~= Seq::<char>::empty());
}

/// What is typed while searching goes to the end of what is searched, and
/// Backspace takes its last character away.
pub proof fn what_is_typed_is_searched(app: AppModel, c: char, env: EnvModel, ctrl: bool)
    requires
        !app.help,
        app.mode == Mode::Search,
    ensures
        ({
            let typed_c = app.after_key(Key { code: KeyCode::Char(c), ctrl }, env);
            let erased = app.after_key(Key { code: KeyCode::Backspace, ctrl }, env);
            &&& typed_c.app.search == app.search.push(c)
            &&& typed_c.app.needle == lowercase(trimmed(app.search.push(c)))
            &&& typed_c.app == app.searched(app.search.push(c))
            &&& typed_c.app.mode == Mode::Search
            &&& app.search.len() > 0 ==> erased.app.search == app.search.take(app.search.len() - 1)
                && erased.app == app.searched(app.search.take(app.search.len() - 1))
            &&& app.search.len() == 0 ==> erased.app.search.len() == 0
            &&& erased.app.mode == Mode::Search
        }),
{
    assert(app.search.len() > 0 ==> app.search.drop_last() =~= app.search.take(
        app.search.len() - 1,
    ));
}

/// Whatever is searched, a page is listed by every part of its title, of its id,
/// of each of its tags, and of its text where that was read.
pub proof fn a_page_is_listed_by_every_part(
    app: AppModel,
    text: Seq<char>,
    id: Seq<char>,
    whole: Seq<char>,
    a: int,
    b: int,
)
    requires
        app.index.wf(),
        app.index.pages.contains_key(id),
        ({
            let meta = app.index.pages[id];
            ||| whole == meta.title_lower
            ||| whole == meta.id_lower
            ||| meta.tags_lower.contains(whole)
            ||| app.texts.contains_key(id) && whole == app.texts[id].lower
        }),
        0 <= a < b <= whole.len(),
        lowercase(trimmed(text)) == whole.subrange(a, b),
    ensures
        app.searched(text).visible.contains(id),
{
    let needle = lowercase(trimmed(text));
    assert(matches_at(whole, a, needle));
    assert(contains(whole, needle));
    let next = AppModel { search: text, ..app }.with_needle();
    let meta = app.index.pages[id];
    if meta.tags_lower.contains(whole) {
        let k = choose|k: int| 0 <= k < meta.tags_lower.len() && meta.tags_lower[k] == whole;
        assert(contains(meta.tags_lower[k], needle));
        assert(any_holds(meta.tags_lower, needle));
    }
    assert(next.hit_of(id) is Some);
    if trimmed(text).len() > 0 {
        the_list_shows_what_matches(next, id);
    }
}

/// Conversely, where something is searched, a page that is listed holds it: in
/// its title, its id, one of its tags or its text. The list says which.
pub proof fn a_listed_page_holds_the_text(app: AppModel, text: Seq<char>, id: Seq<char>)
    requires
        app.index.wf(),
        trimmed(text).len() > 0,
        lowercase(trimmed(text)).len() > 0,
        app.searched(text).visible.contains(id),
    ensures
        ({
            let meta = app.index.pages[id];
            let needle = lowercase(trimmed(text));
            let shown = app.searched(text);
            &&& app.index.pages.contains_key(id)
            &&& shown.hits.contains_key(id)
            &&& shown.hits[id] == SearchMatchKind::Title ==> contains(meta.title_lower, needle)
                || contains(meta.id_lower, needle)
            &&& shown.hits[id] == SearchMatchKind::Tag ==> exists|k: int|
                0 <= k < meta.tags_lower.len() && contains(
                    #[trigger] meta.tags_lower[k],
                    needle,
                )
            &&& shown.hits[id] == SearchMatchKind::Content ==> app.texts.contains_key(id)
                && contains(app.texts[id].lower, needle)
        }),
{
    let needle = lowercase(trimmed(text));
    let next = AppModel { search: text, ..app }.with_needle();
    let meta = app.index.pages[id];
    the_list_shows_what_matches(next, id);
    assert(contains(meta.title_lower, needle) ==> contains(meta.title_lower, needle));
    assert(contains(meta.id_lower, needle) ==> contains(meta.id_lower, needle));
    assert(contains(app.texts[id].lower, needle) ==> contains(app.texts[id].lower, needle));
    if any_holds(meta.tags_lower, needle) {
        let k = choose|k: int|
            0 <= k < meta.tags_lower.len() && contains(#[trigger] meta.tags_lower[k], needle);
        assert(contains(meta.tags_lower[k], needle));
    }
}

/// The pages that were found by their title come first, then those found by a
/// tag, then those found by their text; each of these in the order of the index.
pub proof fn the_list_puts_titles_first(app: AppModel, i: int, j: int)
    requires
        app.index.wf(),
        trimmed(app.search).len() > 0,
        0 <= i < j < app.rebuilt().visible.len(),
    ensures
        ({
            let shown = app.rebuilt();
            let a = shown.visible[i];
            let b = shown.visible[j];
            &&& shown.hits[b] == SearchMatchKind::Title ==> shown.hits[a] == SearchMatchKind::Title
            &&& shown.hits[a] == SearchMatchKind::Content ==> shown.hits[b]
                == SearchMatchKind::Content
            &&& shown.hits[a] == shown.hits[b] ==> exists|p: int, q: int|
                0 <= p < q < app.index.order.len() && #[trigger] app.index.order[p] == a
                    && #[trigger] app.index.order[q] == b
        }),
{
    let order = app.index.order;
    let x = app.ids_of_kind(order, SearchMatchKind::Title);
    let y = app.ids_of_kind(order, SearchMatchKind::Tag);
    let z = app.ids_of_kind(order, SearchMatchKind::Content);
    let shown = app.rebuilt();
    let a = shown.visible[i];
    let b = shown.visible[j];
    assert(shown.visible == x + y + z);
    lemma_kind_at(app, order, SearchMatchKind::Title);
    lemma_kind_at(app, order, SearchMatchKind::Tag);
    lemma_kind_at(app, order, SearchMatchKind::Content);
    let la = x.len() as int;
    let lb = x.len() + y.len();
    if i < la {
        assert(a == x[i]);
    } else if i < lb {
        assert(a == y[i - la]);
    } else {
        assert(a == z[i - lb]);
    }
    if j < la {
        assert(b == x[j]);
        lemma_kind_places(app, order, SearchMatchKind::Title, i, j);
    } else if j < lb {
        assert(b == y[j - la]);
        if i >= la {
            lemma_kind_places(app, order, SearchMatchKind::Tag, i - la, j - la);
        }
    } else {
        assert(b == z[j - lb]);
        if i >= lb {
            lemma_kind_places(app, order, SearchMatchKind::Content, i - lb, j - lb);
        }
    }
}

proof fn lemma_kind_at(app: AppModel, ids: Seq<Seq<char>>, kind: SearchMatchKind)
    ensures
        forall|k: int|
            0 <= k < app.ids_of_kind(ids, kind).len() ==> app.hit_of(
                #[trigger] app.ids_of_kind(ids, kind)[k],
            ) == Some(kind) && ids.contains(app.ids_of_kind(ids, kind)[k]),
{
    let found = app.ids_of_kind(ids, kind);
    assert forall|k: int| 0 <= k < found.len() implies app.hit_of(#[trigger] found[k]) == Some(kind)
        && ids.contains(found[k]) by {
        lemma_ids_of_kind(app, ids, kind, found[k]);
        assert(found.contains(found[k]));
    }
}

proof fn lemma_kind_places(
    app: AppModel,
    ids: Seq<Seq<char>>,
    kind: SearchMatchKind,
    i: int,
    j: int,
)
    requires
        0 <= i < j < app.ids_of_kind(ids, kind).len(),
    ensures
        exists|p: int, q: int|
            0 <= p < q < ids.len() && #[trigger] ids[p] == app.ids_of_kind(ids, kind)[i]
                && #[trigger] ids[q] == app.ids_of_kind(ids, kind)[j],
    decreases ids.len(),
{
    let found = app.ids_of_kind(ids, kind);
    let before = app.ids_of_kind(ids.drop_last(), kind);
    let n = ids.len() - 1;
    if j < before.len() {
        lemma_kind_places(app, ids.drop_last(), kind, i, j);
        let (p, q) = choose|p: int, q: int|
            0 <= p < q < ids.drop_last().len() && #[trigger] ids.drop_last()[p] == before[i]
                && #[trigger] ids.drop_last()[q] == before[j];
        assert(ids[p] == found[i] && ids[q] == found[j]);
    } else {
        assert(i < before.len());
        lemma_kind_at(app, ids.drop_last(), kind);
        assert(ids.drop_last().contains(before[i]));
        let p = choose|p: int| 0 <= p < n && ids.drop_last()[p] == before[i];
        assert(ids[p] == found[i] && ids[n] == found[j]);
    }
}

/// With nothing searched the list shows every page, in the order of the index.
pub proof fn an_empty_search_lists_every_page(app: AppModel, text: Seq<char>)
    requires
        trimmed(text).len() == 0,
    ensures
        app.searched(text).visible == app.index.order,
        app.searched(text).hits.dom() =~= Set::empty(),
{
}

/// On a page the arrows scroll by one line, `k` and `j` too, and the page keys by
/// half a page, to the start at most; `g` goes to the start and `G` beyond the
/// end. Nothing else changes.
pub proof fn keys_scroll_the_page(app: AppModel, env: EnvModel, ctrl: bool)
    requires
        !app.help,
        app.mode == Mode::Page,
        app.page is Some,
        app.scroll <= (app.page->0).lines.len(),
        (app.page->0).lines.len() + env.half_page + 1 <= usize::MAX,
    ensures
        ({
            let up = |n: nat|
                AppModel {
                    scroll: if app.scroll >= n {
                        (app.scroll - n) as nat
                    } else {
                        0
                    },
                    ..app
                };
            let down = |n: nat| AppModel { scroll: app.scroll + n, ..app };
            &&& app.after_key(Key { code: KeyCode::Up, ctrl }, env).app == up(1)
            &&& app.after_key(Key { code: KeyCode::Char('k'), ctrl }, env).app == up(1)
            &&& app.after_key(Key { code: KeyCode::Down, ctrl }, env).app == down(1)
            &&& app.after_key(Key { code: KeyCode::Char('j'), ctrl }, env).app == down(1)
            &&& app.after_key(Key { code: KeyCode::PageUp, ctrl }, env).app == up(env.half_page)
            &&& app.after_key(Key { code: KeyCode::PageDown, ctrl }, env).app == down(env.half_page)
            &&& app.after_key(Key { code: KeyCode::Char('g'), ctrl }, env).app == (AppModel {
                scroll: 0,
                ..app
            })
            &&& app.after_key(Key { code: KeyCode::Char('G'), ctrl }, env).app.scroll
                == usize::MAX / 2
        }),
{
}

/// From beyond the end of a page, scrolling starts at its end.
pub proof fn scrolling_starts_inside_the_page(app: AppModel, delta: int)
    requires
        app.page is Some,
        app.scroll > (app.page->0).lines.len(),
        0 <= (app.page->0).lines.len() + delta <= usize::MAX,
    ensures
        app.page_scrolled(delta).scroll == (app.page->0).lines.len() + delta,
{
}

/// A page that was opened is what is shown, from its start, with its first link
/// selected and no search in it. The page that was open is remembered where a link
/// led away from it.
pub proof fn an_opened_page_is_shown(
    app: AppModel,
    id: Seq<char>,
    from_link: bool,
    page: RenderedModel,
)
    ensures
        ({
            let (shown, action) = app.after_open(id, from_link, AfterOpen::Nothing, Ok(page));
            &&& shown.page == Some(page)
            &&& shown.opened == Some(id)
            &&& shown.mode == Mode::Page
            &&& shown.scroll == 0
            &&& shown.link == 0
            &&& shown.page_search.len() == 0 && shown.page_needle.len() == 0
                && shown.match_lines.len() == 0
            &&& shown.status.len() == 0
            &&& !from_link ==> shown.history == app.history
            &&& from_link && app.opened is Some && app.history.len() < 200 ==> shown.history
                == app.history.push(app.opened->0)
            &&& from_link && app.opened is Some ==> shown.history.last() == app.opened->0
            &&& shown.edit == app.edit && shown.visible == app.visible && shown.selected
                == app.selected && shown.search == app.search && shown.index == app.index
            &&& action == ActionModel::Nothing
        }),
{
}

/// A page that could not be read leaves what is shown as it was, and says why.
pub proof fn an_unreadable_page_is_not_shown(
    app: AppModel,
    id: Seq<char>,
    from_link: bool,
    after: AfterOpen,
    message: Seq<char>,
)
    requires
        after != AfterOpen::Edit,
    ensures
        app.after_open(id, from_link, after, Err(message)) == (
            (AppModel { status: "failed to load page: "@ + message, ..app }),
            ActionModel::Nothing,
        ),
{
}

/// A page that was found by its text is shown from the first line that holds what
/// was searched.
pub proof fn a_found_page_is_shown_from_its_match(
    app: AppModel,
    id: Seq<char>,
    from_link: bool,
    page: RenderedModel,
    k: int,
)
    requires
        app.needle.len() > 0,
        0 <= k < page.lines.len(),
        contains(lowercase(spans_text(page.lines[k].spans)), app.needle),
        forall|j: int|
            0 <= j < k ==> !contains(lowercase(spans_text((#[trigger] page.lines[j]).spans)), app.needle),
    ensures
        app.after_open(id, from_link, AfterOpen::Jump, Ok(page)).0.scroll == k,
        app.after_open(id, from_link, AfterOpen::Jump, Ok(page)).0.page == Some(page),
        app.after_open(id, from_link, AfterOpen::Jump, Ok(page)).0.mode == Mode::Page,
{
    lemma_first_line_at(page.lines, 0, k, app.needle);
}

proof fn lemma_first_line_at(lines: Seq<LineModel>, i: int, k: int, needle: Seq<char>)
    requires
        0 <= i <= k < lines.len(),
        line_holds(lines[k], needle),
        forall|j: int| i <= j < k ==> !line_holds(#[trigger] lines[j], needle),
    ensures
        first_line_with(lines, i, needle) == Some(k as nat),
    decreases k - i,
{
    if i < k {
        lemma_first_line_at(lines, i + 1, k, needle);
    }
}

/// What is typed while searching in a page goes to the end of what is searched,
/// and Backspace takes its last character away. Enter goes back to the page and
/// keeps the search.
pub proof fn what_is_typed_is_searched_in_the_page(
    app: AppModel,
    c: char,
    env: EnvModel,
    ctrl: bool,
)
    requires
        !app.help,
        app.mode == Mode::PageSearch,
    ensures
        ({
            let typed_c = app.after_key(Key { code: KeyCode::Char(c), ctrl }, env).app;
            let erased = app.after_key(Key { code: KeyCode::Backspace, ctrl }, env).app;
            let entered = app.after_key(Key { code: KeyCode::Enter, ctrl }, env).app;
            &&& typed_c.page_search == app.page_search.push(c)
            &&& typed_c.mode == Mode::PageSearch
            &&& typed_c == app.page_searched(app.page_search.push(c))
            &&& app.page_search.len() > 0 ==> erased == app.page_searched(
                app.page_search.take(app.page_search.len() - 1),
            )
            &&& erased.mode == Mode::PageSearch
            &&& entered.mode == Mode::Page
            &&& entered.page_search == app.page_search
            &&& entered.match_lines == app.match_lines
            &&& entered.match_at == app.match_at
            &&& app.match_lines.len() > 0 ==> entered.scroll
                == app.match_lines[app.match_at as int]
        }),
{
    assert(app.page_search.len() > 0 ==> app.page_search.drop_last() =~= app.page_search.take(
        app.page_search.len() - 1,
    ));
}

/// A search in a page finds every line that holds the text, whatever its case, and
/// no other line; the lines stand in their order, and the first is scrolled to.
pub proof fn a_page_search_finds_every_line(app: AppModel, text: Seq<char>, k: nat)
    requires
        app.page is Some,
        lowercase(trimmed(text)).len() > 0,
    ensures
        ({
            let found = app.page_searched(text);
            let lines = (app.page->0).lines;
            &&& found.match_lines.contains(k) <==> k < lines.len() && contains(
                lowercase(spans_text(lines[k as int].spans)),
                lowercase(trimmed(text)),
            )
            &&& forall|i: int, j: int|
                0 <= i < j < found.match_lines.len() ==> #[trigger] found.match_lines[i]
                    < #[trigger] found.match_lines[j]
            &&& found.match_at == 0
            &&& found.match_lines.len() > 0 ==> found.scroll == found.match_lines[0]
            &&& found.match_lines.len() == 0 ==> found.scroll == app.scroll
            &&& found.page == app.page && found.link == app.link && found.mode == app.mode
        }),
{
    let lines = (app.page->0).lines;
    let needle = lowercase(trimmed(text));
    lemma_lines_with(lines, needle, k);
    lemma_lines_rise(lines, needle);
}

proof fn lemma_lines_with(lines: Seq<LineModel>, needle: Seq<char>, k: nat)
    ensures
        lines_with(lines, needle).contains(k) <==> k < lines.len() && line_holds(
            lines[k as int],
            needle,
        ),
    decreases lines.len(),
{
    if lines.len() > 0 {
        let before = lines_with(lines.drop_last(), needle);
        let n = (lines.len() - 1) as nat;
        lemma_lines_with(lines.drop_last(), needle, k);
        vstd::seq_lib::lemma_seq_contains_after_push(before, n, k);
        if k < n {
            assert(lines.drop_last()[k as int] == lines[k as int]);
        }
    }
}

proof fn lemma_lines_rise(lines: Seq<LineModel>, needle: Seq<char>)
    ensures
        forall|i: int|
            0 <= i < lines_with(lines, needle).len() ==> #[trigger] lines_with(lines, needle)[i]
                < lines.len(),
        forall|i: int, j: int|
            0 <= i < j < lines_with(lines, needle).len() ==> #[trigger] lines_with(lines, needle)[i]
                < #[trigger] lines_with(lines, needle)[j],
    decreases lines.len(),
{
    if lines.len() > 0 {
        lemma_lines_rise(lines.drop_last(), needle);
        let before = lines_with(lines.drop_last(), needle);
        let found = lines_with(lines, needle);
        assert forall|i: int| 0 <= i < found.len() implies #[trigger] found[i] < lines.len() by {
            if i < before.len() {
                assert(found[i] == before[i]);
            }
        }
        assert forall|i: int, j: int| 0 <= i < j < found.len() implies #[trigger] found[i]
            < #[trigger] found[j] by {
            assert(found[i] == before[i]);
            if j < before.len() {
                assert(found[j] == before[j]);
            }
        }
    }
}

/// `n` goes to the next line that was found and `N` to the one before, round from
/// the last to the first and back.
pub proof fn letters_walk_over_the_matches(app: AppModel, env: EnvModel, ctrl: bool)
    requires
        !app.help,
        app.mode == Mode::Page,
        app.match_at < app.match_lines.len(),
    ensures
        ({
            let n = app.match_lines.len();
            let next = if app.match_at + 1 < n {
                app.match_at + 1
            } else {
                0
            };
            let back = if app.match_at > 0 {
                (app.match_at - 1) as nat
            } else {
                (n - 1) as nat
            };
            &&& app.after_key(Key { code: KeyCode::Char('n'), ctrl }, env).app == (AppModel {
                match_at: next,
                scroll: app.match_lines[next as int],
                ..app
            })
            &&& app.after_key(Key { code: KeyCode::Char('N'), ctrl }, env).app == (AppModel {
                match_at: back,
                scroll: app.match_lines[back as int],
                ..app
            })
        }),
{
}

/// `B` on a page shows the pages that link to it, the first of them selected.
/// Where there is none it says so, and the page stays.
pub proof fn the_pages_that_link_here_are_shown(app: AppModel, env: EnvModel, ctrl: bool)
    requires
        !app.help,
        app.mode == Mode::Page,
        app.opened is Some,
    ensures
        ({
            let step = app.after_key(Key { code: KeyCode::Char('B'), ctrl }, env);
            let ids = if app.index.back.contains_key(app.opened->0) {
                app.index.back[app.opened->0]
            } else {
                Seq::empty()
            };
            &&& ids.len() > 0 ==> step.app == (AppModel {
                back_ids: ids,
                back_at: 0,
                mode: Mode::Backlinks,
                ..app
            })
            &&& ids.len() == 0 ==> step.app == (AppModel {
                status: "no backlinks for this page"@,
                ..app
            })
            &&& step.action == ActionModel::Nothing
        }),
{
}

/// Among the pages that link here Enter opens the selected one, as a link would;
/// the arrows, `k` and `j` move by one and stop at the ends.
pub proof fn keys_walk_over_the_pages_that_link_here(app: AppModel, env: EnvModel, ctrl: bool)
    requires
        !app.help,
        app.mode == Mode::Backlinks,
        app.back_at < app.back_ids.len(),
    ensures
        ({
            let enter = app.after_key(Key { code: KeyCode::Enter, ctrl }, env);
            let up = AppModel {
                back_at: if app.back_at > 0 {
                    (app.back_at - 1) as nat
                } else {
                    0
                },
                ..app
            };
            let down = AppModel {
                back_at: if app.back_at + 1 < app.back_ids.len() {
                    app.back_at + 1
                } else {
                    app.back_at
                },
                ..app
            };
            &&& enter.action == (ActionModel::OpenPage {
                id: app.back_ids[app.back_at as int],
                from_link: true,
                after: AfterOpen::Nothing,
            })
            &&& enter.app == app
            &&& app.after_key(Key { code: KeyCode::Up, ctrl }, env).app == up
            &&& app.after_key(Key { code: KeyCode::Char('k'), ctrl }, env).app == up
            &&& app.after_key(Key { code: KeyCode::Down, ctrl }, env).app == down
            &&& app.after_key(Key { code: KeyCode::Char('j'), ctrl }, env).app == down
        }),
{
}

/// What is typed while a new page is named goes to the end of its title, and
/// Backspace takes the last character away. Enter asks for a page with the title,
/// without the white space around it, and where that is empty goes back to the
/// list.
pub proof fn a_new_page_is_named(app: AppModel, c: char, env: EnvModel, ctrl: bool)
    requires
        !app.help,
        app.mode == Mode::NewPageTitle,
    ensures
        ({
            let typed_c = app.after_key(Key { code: KeyCode::Char(c), ctrl }, env);
            let erased = app.after_key(Key { code: KeyCode::Backspace, ctrl }, env);
            let entered = app.after_key(Key { code: KeyCode::Enter, ctrl }, env);
            &&& typed_c.app == (AppModel { new_title: app.new_title.push(c), ..app })
            &&& app.new_title.len() > 0 ==> erased.app == (AppModel {
                new_title: app.new_title.take(app.new_title.len() - 1),
                ..app
            })
            &&& app.new_title.len() == 0 ==> erased.app == app
            &&& trimmed(app.new_title).len() > 0 ==> entered.action == (ActionModel::CreatePage {
                title: trimmed(app.new_title),
            }) && entered.app == (AppModel { new_title: Seq::empty(), ..app })
            &&& trimmed(app.new_title).len() == 0 ==> entered.action == ActionModel::Nothing
                && entered.app == (AppModel {
                new_title: Seq::empty(),
                mode: Mode::List,
                ..app
            })
            &&& typed_c.action == ActionModel::Nothing && erased.action == ActionModel::Nothing
        }),
{
    assert(app.new_title.len() > 0 ==> app.new_title.drop_last() =~= app.new_title.take(
        app.new_title.len() - 1,
    ));
}

/// `h` goes back to the page that was left last, and to the list where there is
/// none.
pub proof fn a_letter_goes_back(app: AppModel, env: EnvModel, ctrl: bool)
    requires
        !app.help,
        app.mode == Mode::Page,
    ensures
        ({
            let step = app.after_key(Key { code: KeyCode::Char('h'), ctrl }, env);
            let n = app.history.len();
            &&& n > 0 ==> step.action == (ActionModel::OpenPage {
                id: app.history[n - 1],
                from_link: false,
                after: AfterOpen::Nothing,
            }) && step.app.history == app.history.take(n - 1)
            &&& n == 0 ==> step.action == ActionModel::Nothing && step.app == (AppModel {
                mode: Mode::List,
                ..app
            })
        }),
{
    let n = app.history.len();
    if n > 0 {
        assert(app.history.drop_last() =~= app.history.take(n - 1));
    }
}

/// `e` asks for the file of the page that is open, and `O` for the command to be
/// run on it where one is set.
pub proof fn letters_act_on_the_open_page(app: AppModel, env: EnvModel, ctrl: bool, id: Seq<char>)
    requires
        !app.help,
        app.mode == Mode::Page,
        app.opened == Some(id),
        app.index.pages.contains_key(id),
    ensures
        ({
            let edit = app.after_key(Key { code: KeyCode::Char('e'), ctrl }, env);
            let run = app.after_key(Key { code: KeyCode::Char('O'), ctrl }, env);
            let path = app.index.pages[id].path;
            &&& edit.action == (ActionModel::LoadForEdit { path })
            &&& edit.app == app
            &&& forall|c: Seq<char>|
                #![trigger trimmed(c)]
                env.open_command == Some(c) && trimmed(c).len() > 0 ==> run.action == (
                ActionModel::RunCommand { command: c, id, path }) && run.app == app
            &&& env.open_command is None ==> run.action == ActionModel::Nothing && run.app == (
            AppModel { status: "set LEPITER_OPEN_CMD to enable open-externally"@, ..app })
        }),
{
}

/// A page that was read for editing is edited from its first snippet, with the
/// cursor behind its text and nothing changed yet.
pub proof fn editing_starts_at_the_first_snippet(app: AppModel, id: Seq<char>, raw: JsonModel)
    requires
        app.opened == Some(id),
        app.index.pages.contains_key(id),
        forest_entries(children_of(raw), Seq::empty()).len() > 0,
    ensures
        ({
            let begun = app.edit_begun(Ok(raw));
            let e = begun.edit->0;
            &&& begun.mode == Mode::Edit
            &&& begun.edit is Some
            &&& e.page_id == id
            &&& e.path == app.index.pages[id].path
            &&& e.raw == raw
            &&& e.selected == 0
            &&& e.snippets == forest_entries(children_of(raw), Seq::empty())
            &&& e.buffer == normalized(e.snippets[0].text)
            &&& e.cursor == e.buffer.len()
            &&& !e.dirty
            &&& begun.page == app.page && begun.opened == app.opened
        }),
{
}

/// A page that could not be read for editing, or that holds no snippet, is not
/// edited.
pub proof fn what_cannot_be_read_is_not_edited(app: AppModel, message: Seq<char>, raw: JsonModel)
    requires
        forest_entries(children_of(raw), Seq::empty()).len() == 0,
    ensures
        app.edit_begun(Err(message)).edit == app.edit,
        app.edit_begun(Err(message)).mode == app.mode,
        app.edit_begun(Ok(raw)).edit == app.edit,
        app.edit_begun(Ok(raw)).mode == app.mode,
        app.opened is Some && app.index.pages.contains_key(app.opened->0) ==> app.edit_begun(
            Err(message),
        ).status == "failed to load page json: "@ + message && app.edit_begun(Ok(raw)).status
            == "no editable snippets"@,
{
}

/// Writing the page takes its changes to be saved, and nothing else of what is
/// edited; where it fails they are still to be saved, and that is said.
pub proof fn saving_keeps_what_is_edited(
    app: AppModel,
    source: SourceModel,
    rendered: Option<RenderedModel>,
    message: Seq<char>,
)
    requires
        app.edit is Some,
    ensures
        ({
            let saved = app.after_save(None, source, rendered);
            let failed = app.after_save(Some(message), source, rendered);
            &&& saved.edit == Some(EditModel { dirty: false, ..app.edit->0 })
            &&& saved.mode == app.mode
            &&& failed == (AppModel { status: "edit save failed: "@ + message, ..app })
        }),
{
}

/// A page that was written is shown as it now is where it is the open page, its
/// text is what a search goes by, and its links are those of the index.
pub proof fn a_written_page_is_shown_anew(
    app: AppModel,
    raw: JsonModel,
    rendered: RenderedModel,
)
    requires
        app.edit is Some,
        app.index.wf(),
        app.text_limit > 0,
        app.index.pages.contains_key((app.edit->0).page_id),
    ensures
        ({
            let id = (app.edit->0).page_id;
            let saved = app.after_save(None, SourceModel::Raw(raw), Some(rendered));
            let text = display_text(page_content(raw));
            &&& saved.page == (if app.opened == Some(id) {
                Some(rendered)
            } else {
                app.page
            })
            &&& saved.texts.contains_key(id)
            &&& saved.texts[id].lower == lowercase(text)
            &&& saved.texts[id].raw == text
            &&& saved.index.pages == app.index.pages && saved.index.order == app.index.order
            &&& listed(saved.index.forward, id) == outgoing(
                app.index.catalog(),
                id,
                SourceModel::Raw(raw),
            )
        }),
{
    let id = (app.edit->0).page_id;
    let kept = kept_keys(app.text_order, id, app.text_limit);
    assert(kept.contains(id)) by {
        assert(kept.last() == id);
    }
}

/// A step that is due is saved by itself: where the page under edit has changes
/// and the time since the last of them has reached the delay. Nothing is saved
/// otherwise.
pub proof fn changes_are_saved_after_the_delay(app: AppModel, now: u64, delay: u64)
    ensures
        app.autosaving(now, delay) == ActionModel::Save <==> app.mode == Mode::Edit && app.edit
            is Some && (app.edit->0).dirty && (app.edit->0).last_edit is Some && (now
            >= (app.edit->0).last_edit->0 + delay || delay == 0),
        app.autosaving(now, delay) == ActionModel::Save || app.autosaving(now, delay)
            == ActionModel::Nothing,
{
}

/// While something is searched, the pages whose text is still to be read are taken
/// from the front of the queue, so many at a time, and none twice.
pub proof fn texts_are_read_in_turn(app: AppModel, size: nat)
    ensures
        ({
            let (left, ids) = app.next_batch(size);
            &&& app.needle.len() > 0 ==> ids + left.queue == app.queue && ids.len() == (if size
                < app.queue.len() {
                size
            } else {
                app.queue.len()
            })
            &&& app.needle.len() == 0 ==> ids.len() == 0 && left == app
        }),
{
}

/// A text that was read is found by a search: every page whose text was read and
/// holds what is searched is then listed.
pub proof fn a_text_that_was_read_is_searched(
    app: AppModel,
    id: Seq<char>,
    sources: SourceTable,
    raw: JsonModel,
)
    requires
        app.index.wf(),
        app.text_limit > 0,
        app.index.pages.contains_key(id),
        !app.texts.contains_key(id),
        sources.contains_key(id),
        sources[id] == SourceModel::Raw(raw),
        app.needle == lowercase(trimmed(app.search)),
        app.needle.len() > 0,
        contains(lowercase(display_text(page_content(raw))), app.needle),
    ensures
        app.after_batch(seq![id], sources).visible.contains(id),
        app.after_batch(seq![id], sources).texts.contains_key(id),
        app.after_batch(seq![id], sources).texts[id].lower == lowercase(
            display_text(page_content(raw)),
        ),
{
    let ids = seq![id];
    assert(ids.drop_last() =~= Seq::empty());
    assert(app.texts_read(ids.drop_last(), sources) == app);
    let kept = kept_keys(app.text_order, id, app.text_limit);
    assert(kept.contains(id)) by {
        assert(kept.last() == id);
    }
    let read = app.texts_read(ids, sources);
    assert(read.texts.contains_key(id));
    assert(read.hit_of(id) is Some);
    if trimmed(app.search).len() > 0 {
        the_list_shows_what_matches(read, id);
    }
}

/// A page that was made is in the index and in the list, and is opened for
/// editing.
pub proof fn a_new_page_is_listed(app: AppModel, meta: MetaModel, sources: SourceTable)
    requires
        app.index.wf(),
        trimmed(app.search).len() == 0,
    ensures
        ({
            let next = app.with_new_page(meta, sources);
            &&& next.index.pages.contains_key(meta.id)
            &&& next.index.pages[meta.id] == meta
            &&& next.visible.contains(meta.id)
            &&& forall|id: Seq<char>|
                app.index.pages.contains_key(id) && id != meta.id ==> next.visible.contains(id)
                    && next.index.pages[id] == #[trigger] app.index.pages[id]
        }),
{
    registering_keeps_the_index(app.index, meta);
    let r = registered(app.index, meta);
    assert(r.order.contains(meta.id));
    assert forall|id: Seq<char>| app.index.pages.contains_key(id) && id != meta.id implies
        app.with_new_page(meta, sources).visible.contains(id)
        && app.with_new_page(meta, sources).index.pages[id] == #[trigger] app.index.pages[id] by {
        assert(r.pages.contains_key(id));
        assert(r.order.contains(id));
    }
}

/// A fresh reader shows the list, with every page of the index and nothing open.
pub proof fn a_fresh_reader_lists_every_page(index: IndexModel, text_limit: nat)
    ensures
        ({
            let app = AppModel::fresh(index, text_limit).rebuilt();
            &&& app.visible == index.order
            &&& app.selected == 0
            &&& app.mode == Mode::List
            &&& !app.help
            &&& app.opened is None && app.page is None && app.edit is None
            &&& app.history.len() == 0
            &&& app.index == index
        }),
{
    assert(trimmed(Seq::<char>::empty()) =~= Seq::<char>::empty());
}

/// Undoing takes back what was typed: where a step is due, typing a character and
/// undoing it gives back the text and the cursor, and asks for the page to be
/// written.
pub proof fn undoing_takes_back_what_was_typed(app: AppModel, c: char, env: EnvModel)
    requires
        !app.help,
        app.mode == Mode::Edit,
        app.edit is Some,
        (app.edit->0).selected < (app.edit->0).snippets.len(),
        (app.edit->0).snippets[(app.edit->0).selected as int].editable,
        (app.edit->0).cursor <= (app.edit->0).buffer.len() < usize::MAX,
        (app.edit->0).snapshot_pending,
    ensures
        ({
            let e = app.edit->0;
            let step = app.after_key(Key { code: KeyCode::Char(c), ctrl: false }, env);
            let undo = step.app.after_key(Key { code: KeyCode::Char('u'), ctrl: true }, env);
            let back = undo.app.edit->0;
            &&& back.buffer == e.buffer
            &&& back.cursor == e.cursor
            &&& back.snippets[back.selected as int].text == e.buffer
            &&& back.dirty
            &&& undo.action == ActionModel::Save
        }),
{
    let e = app.edit->0;
    let buffer = e.buffer.insert(e.cursor as int, typed(c));
    assert(e.snapshot_due(env.now));
    undoing_goes_back(e, buffer, e.cursor + 1, env.now, env.now);
}

/// Where there is nothing to undo, undoing changes nothing and asks for nothing.
pub proof fn nothing_is_undone_where_nothing_was_done(app: AppModel, env: EnvModel)
    requires
        !app.help,
        app.mode == Mode::Edit,
        app.edit is Some,
        (app.edit->0).selected < (app.edit->0).snippets.len(),
        (app.edit->0).snippets[(app.edit->0).selected as int].undo.len() == 0,
    ensures
        app.after_key(Key { code: KeyCode::Char('u'), ctrl: true }, env).app == app,
        app.after_key(Key { code: KeyCode::Char('u'), ctrl: true }, env).action
            == ActionModel::Nothing,
{
}

/// What the event loop does after a key: while something is searched it only reads
/// texts for the search, while something is searched in a page or the help is
/// shown it goes on at once, and otherwise it does all that is due.
pub proof fn what_follows_a_key(app: AppModel, key: Key, env: EnvModel)
    ensures
        ({
            let r = app.after_key(key, env).result;
            &&& app.help ==> r == KeyResult::Continue
            &&& !app.help && app.mode == Mode::PageSearch ==> r == KeyResult::Continue
            &&& !app.help && app.mode == Mode::Search ==> r == KeyResult::SearchTick
            &&& !app.help && (app.mode == Mode::Edit || app.mode == Mode::NewPageTitle) ==> r
                == KeyResult::Tick
            &&& !app.help && (app.mode == Mode::List || app.mode == Mode::Page || app.mode
                == Mode::Backlinks) && key.code != KeyCode::Char('q') ==> r == KeyResult::Tick
        }),
{
}

/// A key leaves the pages, the texts that were read and the history alone, but for
/// going back in the history.
pub proof fn keys_keep_what_was_read(app: AppModel, key: Key, env: EnvModel)
    ensures
        app.after_key(key, env).app.index == app.index,
        app.after_key(key, env).app.texts == app.texts,
        app.after_key(key, env).app.page == app.page,
        app.after_key(key, env).app.opened == app.opened,
        key.code != KeyCode::Char('h') ==> app.after_key(key, env).app.history == app.history,
{
}

/// A full history forgets the page that was left longest ago.
pub proof fn a_full_history_forgets_the_oldest(
    app: AppModel,
    id: Seq<char>,
    page: RenderedModel,
)
    requires
        app.opened is Some,
        app.history.len() == 200,
    ensures
        app.after_open(id, true, AfterOpen::Nothing, Ok(page)).0.history == app.history.skip(1).push(
            app.opened->0,
        ),
{
    assert(app.history.drop_first() =~= app.history.skip(1));
}

/// A text that was found while texts are read makes the list anew, whatever is read
/// behind it.
pub proof fn a_found_text_makes_the_list_anew(
    app: AppModel,
    ids: Seq<Seq<char>>,
    more: Seq<Seq<char>>,
    sources: SourceTable,
)
    requires
        app.text_found(ids, sources),
    ensures
        app.after_batch(ids + more, sources) == app.texts_read(ids + more, sources).rebuilt(),
    decreases more.len(),
{
    if more.len() > 0 {
        a_found_text_makes_the_list_anew(app, ids, more.drop_last(), sources);
        assert((ids + more).drop_last() =~= ids + more.drop_last());
        lemma_found_stays(app, ids, more, sources);
    } else {
        assert(ids + more =~= ids);
    }
}

proof fn lemma_found_stays(
    app: AppModel,
    ids: Seq<Seq<char>>,
    more: Seq<Seq<char>>,
    sources: SourceTable,
)
    requires
        app.text_found(ids, sources),
    ensures
        app.text_found(ids + more, sources),
    decreases more.len(),
{
    if more.len() > 0 {
        lemma_found_stays(app, ids, more.drop_last(), sources);
        assert((ids + more).drop_last() =~= ids + more.drop_last());
    } else {
        assert(ids + more =~= ids);
    }
}

/// Leaving the editor closes it whether or not the page could be written, and the
/// page is shown.
pub proof fn leaving_the_editor_shows_the_page(
    app: AppModel,
    failed: Option<Seq<char>>,
    source: SourceModel,
    rendered: Option<RenderedModel>,
)
    ensures
        ({
            let left = app.after_save(failed, source, rendered).edit_closed();
            &&& left.edit is None
            &&& left.mode == Mode::Page
            &&& app.edit is Some && failed is Some ==> left.status == "edit save failed: "@
                + failed->0
        }),
{
}

/// A page opened to be edited is shown, and its file is asked for.
pub proof fn a_page_opened_for_editing_is_loaded(
    app: AppModel,
    id: Seq<char>,
    page: RenderedModel,
)
    requires
        app.index.pages.contains_key(id),
    ensures
        ({
            let (shown, action) = app.after_open(id, false, AfterOpen::Edit, Ok(page));
            &&& shown.page == Some(page)
            &&& shown.opened == Some(id)
            &&& action == (ActionModel::LoadForEdit { path: app.index.pages[id].path })
        }),
{
}

} // verus!
