//! The texts of the screens: the help, the rows of the list, and the lines above
//! and below a page.

use crate::app::{App, AppModel, Mode};
use crate::edit::{ensure_scroll, scrolled, EditModel, EditState};
use crate::listing::{matching_snippet, part_with};
use crate::model::{MetaModel, PageMeta, SearchMatchKind};
use crate::number::{decimal, decimal_of, push_decimal};
use crate::styled::{
    bold_colored, colored, line_of, line_of_spans, line_views, plain_style, sanitize_for_terminal,
    sanitized, span, span_views, styled_line, Color, LineModel, SpanModel, Style, StyledLine,
    StyledSpan,
};
use crate::text::{
    chars_of, contains, copy_of, find_chars, find_from, join, joined, lemma_find_from,
    lemma_find_is_contains, lowercase, matches_at, opt_view, repeat_char, repeated, string_of,
    to_lowercase, trim, trimmed, views,
};
use vstd::prelude::*;

verus! {

// ---------------------------------------------------------------------------
// Help
// ---------------------------------------------------------------------------

/// A key and what it does.
#[derive(Debug, PartialEq, Eq)]
pub struct Binding {
    pub key: String,
    pub effect: String,
}

/// What a [`Binding`] holds.
#[verifier::ext_equal]
pub struct BindingModel {
    pub key: Seq<char>,
    pub effect: Seq<char>,
}

impl View for Binding {
    type V = BindingModel;

    open spec fn view(&self) -> BindingModel {
        BindingModel { key: self.key@, effect: self.effect@ }
    }
}

pub open spec fn binding_views(v: Seq<Binding>) -> Seq<BindingModel> {
    Seq::new(v.len(), |i: int| v[i]@)
}

pub open spec fn bound(key: Seq<char>, effect: Seq<char>) -> BindingModel {
    BindingModel { key, effect }
}

/// The keys that work everywhere.
pub open spec fn global_keys() -> Seq<BindingModel> {
    seq![bound("q"@, "quit"@), bound("?"@, "toggle this help"@), bound("Esc"@, "back / dismiss"@)]
}

/// The name of a mode in the help.
pub open spec fn mode_title(mode: Mode) -> Seq<char> {
    match mode {
        Mode::List => "List"@,
        Mode::NewPageTitle => "List"@,
        Mode::Search => "Search"@,
        Mode::Page => "Page"@,
        Mode::PageSearch => "Page Search"@,
        Mode::Backlinks => "Backlinks"@,
        Mode::Edit => "Edit"@,
    }
}

/// The keys of a mode.
pub open spec fn mode_keys(mode: Mode) -> Seq<BindingModel> {
    match mode {
        Mode::List => list_keys(),
        Mode::NewPageTitle => list_keys(),
        Mode::Search => seq![
            bound("type"@, "filter pages"@),
            bound("Backspace"@, "delete character"@),
            bound("Up / Down"@, "navigate results"@),
            bound("Enter"@, "open selected"@),
            bound("Esc"@, "cancel search"@),
        ],
        Mode::Page => seq![
            bound("j / Down"@, "scroll down"@),
            bound("k / Up"@, "scroll up"@),
            bound("PgUp / PgDn"@, "half-page scroll"@),
            bound("g"@, "go to top"@),
            bound("G"@, "go to bottom"@),
            bound("/"@, "search in page"@),
            bound("n / N"@, "next / prev match"@),
            bound("Tab / Shift+Tab"@, "next / prev link"@),
            bound("Enter"@, "follow link"@),
            bound("B"@, "show backlinks"@),
            bound("e"@, "edit page"@),
            bound("O"@, "open externally"@),
            bound("h"@, "back in history"@),
            bound("b"@, "back to list"@),
            bound("Esc"@, "clear search / back"@),
        ],
        Mode::PageSearch => seq![
            bound("type"@, "search page content"@),
            bound("Backspace"@, "delete character"@),
            bound("Enter"@, "confirm search"@),
            bound("Esc"@, "cancel search"@),
        ],
        Mode::Backlinks => seq![
            bound("j / Down"@, "move down"@),
            bound("k / Up"@, "move up"@),
            bound("Enter"@, "open page"@),
            bound("Esc"@, "back to page"@),
        ],
        Mode::Edit => seq![
            bound("Arrows"@, "move cursor"@),
            bound("Home / End"@, "start / end of text"@),
            bound("PgUp / PgDn"@, "scroll preview"@),
            bound("Tab / Shift+Tab"@, "next / prev snippet"@),
            bound("Ctrl+A"@, "append new text snippet"@),
            bound("Ctrl+U"@, "undo"@),
            bound("Esc"@, "save and exit"@),
        ],
    }
}

/// The keys of the list.
pub open spec fn list_keys() -> Seq<BindingModel> {
    seq![
        bound("j / Down"@, "move down"@),
        bound("k / Up"@, "move up"@),
        bound("Enter"@, "open page"@),
        bound("/"@, "search pages"@),
        bound("n"@, "create new page"@),
    ]
}

/// A text with blanks behind it, up to a width.
pub open spec fn padded(text: Seq<char>, width: nat) -> Seq<char> {
    if text.len() < width {
        text + repeated(' ', (width - text.len()) as nat)
    } else {
        text
    }
}

/// The line of a key in the help.
pub open spec fn binding_line(b: BindingModel) -> LineModel {
    LineModel {
        spans: seq![
            SpanModel { text: "    "@, style: plain_style() },
            SpanModel { text: padded(b.key, 16), style: bold_colored(Color::Yellow) },
            SpanModel { text: b.effect, style: colored(Color::White) },
        ],
        style: plain_style(),
    }
}

/// A section of the help: its title, its keys, and an empty line.
pub open spec fn help_section(title: Seq<char>, keys: Seq<BindingModel>) -> Seq<LineModel> {
    seq![
        LineModel {
            spans: seq![
                SpanModel { text: "  "@, style: colored(Color::DarkGray) },
                SpanModel { text: title, style: bold_colored(Color::Cyan) },
            ],
            style: plain_style(),
        },
    ] + Seq::new(keys.len(), |i: int| binding_line(keys[i])) + seq![line_of(""@, plain_style())]
}

/// The lines of the help of a mode.
pub open spec fn help_text(mode: Mode) -> Seq<LineModel> {
    seq![
        line_of("  Keyboard Shortcuts"@, bold_colored(Color::Cyan)),
        line_of(""@, plain_style()),
    ] + help_section("Global"@, global_keys()) + help_section(mode_title(mode), mode_keys(mode))
        + seq![line_of("  press ? or Esc to close"@, colored(Color::DarkGray))]
}

fn bind(keys: &mut Vec<Binding>, key: &str, effect: &str)
    ensures
        binding_views(final(keys)@) == binding_views(old(keys)@).push(bound(key@, effect@)),
{
    let b = Binding { key: copy_of(key), effect: copy_of(effect) };
    keys.push(b);
    assert(binding_views(keys@) =~= binding_views(old(keys)@).push(bound(key@, effect@)));
}

fn no_keys() -> (keys: Vec<Binding>)
    ensures
        binding_views(keys@) == Seq::<BindingModel>::empty(),
{
    let keys: Vec<Binding> = Vec::new();
    assert(binding_views(keys@) =~= Seq::<BindingModel>::empty());
    keys
}

fn list_bindings() -> (keys: Vec<Binding>)
    ensures
        binding_views(keys@) == list_keys(),
{
    let mut keys = no_keys();
    bind(&mut keys, "j / Down", "move down");
    bind(&mut keys, "k / Up", "move up");
    bind(&mut keys, "Enter", "open page");
    bind(&mut keys, "/", "search pages");
    bind(&mut keys, "n", "create new page");
    assert(binding_views(keys@) =~= list_keys());
    keys
}

fn page_bindings() -> (keys: Vec<Binding>)
    ensures
        binding_views(keys@) == mode_keys(Mode::Page),
{
    let mut keys = no_keys();
    bind(&mut keys, "j / Down", "scroll down");
    bind(&mut keys, "k / Up", "scroll up");
    bind(&mut keys, "PgUp / PgDn", "half-page scroll");
    bind(&mut keys, "g", "go to top");
    bind(&mut keys, "G", "go to bottom");
    bind(&mut keys, "/", "search in page");
    bind(&mut keys, "n / N", "next / prev match");
    bind(&mut keys, "Tab / Shift+Tab", "next / prev link");
    bind(&mut keys, "Enter", "follow link");
    bind(&mut keys, "B", "show backlinks");
    bind(&mut keys, "e", "edit page");
    bind(&mut keys, "O", "open externally");
    bind(&mut keys, "h", "back in history");
    bind(&mut keys, "b", "back to list");
    bind(&mut keys, "Esc", "clear search / back");
    assert(binding_views(keys@) =~= mode_keys(Mode::Page));
    keys
}

/// The keys of a mode.
pub fn mode_bindings(mode: Mode) -> (keys: Vec<Binding>)
    ensures
        binding_views(keys@) == mode_keys(mode),
{
    let mut keys = no_keys();
    match mode {
        Mode::List | Mode::NewPageTitle => {
            return list_bindings();
        },
        Mode::Page => {
            return page_bindings();
        },
        Mode::Search => {
            bind(&mut keys, "type", "filter pages");
            bind(&mut keys, "Backspace", "delete character");
            bind(&mut keys, "Up / Down", "navigate results");
            bind(&mut keys, "Enter", "open selected");
            bind(&mut keys, "Esc", "cancel search");
        },
        Mode::PageSearch => {
            bind(&mut keys, "type", "search page content");
            bind(&mut keys, "Backspace", "delete character");
            bind(&mut keys, "Enter", "confirm search");
            bind(&mut keys, "Esc", "cancel search");
        },
        Mode::Backlinks => {
            bind(&mut keys, "j / Down", "move down");
            bind(&mut keys, "k / Up", "move up");
            bind(&mut keys, "Enter", "open page");
            bind(&mut keys, "Esc", "back to page");
        },
        Mode::Edit => {
            bind(&mut keys, "Arrows", "move cursor");
            bind(&mut keys, "Home / End", "start / end of text");
            bind(&mut keys, "PgUp / PgDn", "scroll preview");
            bind(&mut keys, "Tab / Shift+Tab", "next / prev snippet");
            bind(&mut keys, "Ctrl+A", "append new text snippet");
            bind(&mut keys, "Ctrl+U", "undo");
            bind(&mut keys, "Esc", "save and exit");
        },
    }
    assert(binding_views(keys@) =~= mode_keys(mode));
    keys
}

/// Puts blanks behind a text, up to a width.
pub fn pad(text: &str, width: usize) -> (out: String)
    ensures
        out@ == padded(text@, width as nat),
{
    let chars = chars_of(text);
    let mut out = copy_of(text);
    if chars.len() < width {
        let blanks = repeat_char(' ', width - chars.len());
        out.push_str(blanks.as_str());
        assert(out@ =~= padded(text@, width as nat));
    }
    out
}

fn show_binding(b: &Binding) -> (line: StyledLine)
    ensures
        line@ == binding_line(b@),
{
    let mut spans: Vec<StyledSpan> = Vec::new();
    spans.push(span("    ", Style::plain()));
    spans.push(span(pad(b.key.as_str(), 16).as_str(), Style::bold_fg(Color::Yellow)));
    spans.push(span(b.effect.as_str(), Style::fg(Color::White)));
    assert(span_views(spans@) =~= binding_line(b@).spans);
    line_of_spans(spans)
}

fn push_line(lines: &mut Vec<StyledLine>, line: StyledLine)
    ensures
        line_views(final(lines)@) == line_views(old(lines)@).push(line@),
{
    lines.push(line);
    assert(line_views(lines@) =~= line_views(old(lines)@).push(line@));
}

fn add_section(lines: &mut Vec<StyledLine>, title: &str, keys: &Vec<Binding>)
    ensures
        line_views(final(lines)@) == line_views(old(lines)@) + help_section(
            title@,
            binding_views(keys@),
        ),
{
    let ghost start = line_views(lines@);
    let ghost all = binding_views(keys@);
    let ghost shown = Seq::new(all.len(), |i: int| binding_line(all[i]));
    let mut spans: Vec<StyledSpan> = Vec::new();
    spans.push(span("  ", Style::fg(Color::DarkGray)));
    spans.push(span(title, Style::bold_fg(Color::Cyan)));
    let heading = line_of_spans(spans);
    let ghost head = heading@;
    assert(head.spans =~= help_section(title@, all)[0].spans);
    push_line(lines, heading);
    let mut i: usize = 0;
    assert(line_views(lines@) =~= start + seq![head] + shown.take(0));
    while i < keys.len()
        invariant
            i <= keys@.len(),
            all == binding_views(keys@),
            shown == Seq::new(all.len(), |k: int| binding_line(all[k])),
            line_views(lines@) == start + seq![head] + shown.take(i as int),
        decreases keys.len() - i,
    {
        let line = show_binding(&keys[i]);
        push_line(lines, line);
        i += 1;
        assert(line_views(lines@) =~= start + seq![head] + shown.take(i as int));
    }
    push_line(lines, styled_line("", Style::plain()));
    assert(shown.take(i as int) =~= shown);
    assert(line_views(lines@) =~= start + help_section(title@, all));
}

/// The lines of the help of a mode.
pub fn help_lines(mode: Mode) -> (lines: Vec<StyledLine>)
    ensures
        line_views(lines@) == help_text(mode),
{
    let mut lines: Vec<StyledLine> = Vec::new();
    assert(line_views(lines@) =~= Seq::<LineModel>::empty());
    push_line(&mut lines, styled_line("  Keyboard Shortcuts", Style::bold_fg(Color::Cyan)));
    push_line(&mut lines, styled_line("", Style::plain()));
    let mut global = no_keys();
    bind(&mut global, "q", "quit");
    bind(&mut global, "?", "toggle this help");
    bind(&mut global, "Esc", "back / dismiss");
    assert(binding_views(global@) =~= global_keys());
    let ghost top = line_views(lines@);
    add_section(&mut lines, "Global", &global);
    let title = match mode {
        Mode::List | Mode::NewPageTitle => "List",
        Mode::Search => "Search",
        Mode::Page => "Page",
        Mode::PageSearch => "Page Search",
        Mode::Backlinks => "Backlinks",
        Mode::Edit => "Edit",
    };
    let keys = mode_bindings(mode);
    add_section(&mut lines, title, &keys);
    push_line(&mut lines, styled_line("  press ? or Esc to close", Style::fg(Color::DarkGray)));
    assert(line_views(lines@) =~= help_text(mode));
    lines
}

// ---------------------------------------------------------------------------
// Areas
// ---------------------------------------------------------------------------

/// A part of the screen.
#[derive(Debug, Clone, Copy, PartialEq, Eq, Structural)]
pub struct Area {
    pub x: u16,
    pub y: u16,
    pub width: u16,
    pub height: u16,
}

/// An area of a size in the middle of another one, cut to what fits.
pub open spec fn centered(width: nat, height: nat, area: Area) -> (nat, nat, nat, nat) {
    (
        if width < area.width {
            (area.x + (area.width - width) / 2) as nat
        } else {
            area.x as nat
        },
        if height < area.height {
            (area.y + (area.height - height) / 2) as nat
        } else {
            area.y as nat
        },
        if width < area.width {
            width
        } else {
            area.width as nat
        },
        if height < area.height {
            height
        } else {
            area.height as nat
        },
    )
}

/// An area of a size in the middle of another one.
pub fn centered_rect(width: u16, height: u16, area: Area) -> (inner: Area)
    requires
        area.x + area.width <= u16::MAX,
        area.y + area.height <= u16::MAX,
    ensures
        (inner.x as nat, inner.y as nat, inner.width as nat, inner.height as nat) == centered(
            width as nat,
            height as nat,
            area,
        ),
{
    let x: u16 = if width < area.width {
        area.x + (area.width - width) / 2
    } else {
        area.x
    };
    let y: u16 = if height < area.height {
        area.y + (area.height - height) / 2
    } else {
        area.y
    };
    let w: u16 = if width < area.width {
        width
    } else {
        area.width
    };
    let h: u16 = if height < area.height {
        height
    } else {
        area.height
    };
    Area { x, y, width: w, height: h }
}

/// An area in the middle of another one lies within it.
pub proof fn centered_areas_lie_inside(width: nat, height: nat, area: Area)
    ensures
        ({
            let (x, y, w, h) = centered(width, height, area);
            &&& area.x <= x && x + w <= area.x + area.width
            &&& area.y <= y && y + h <= area.y + area.height
        }),
{
}

/// The area of the help on the screen: wide enough for its texts, and as high as
/// its lines and the border.
pub fn help_area(lines: &Vec<StyledLine>, area: Area) -> (inner: Area)
    requires
        lines@.len() + 2 <= u16::MAX,
        area.x + area.width <= u16::MAX,
        area.y + area.height <= u16::MAX,
    ensures
        (inner.x as nat, inner.y as nat, inner.width as nat, inner.height as nat) == centered(
            46,
            lines@.len() + 2,
            area,
        ),
{
    let height: u16 = lines.len() as u16 + 2;
    centered_rect(46, height, area)
}

// ---------------------------------------------------------------------------
// Rows, headers and footers
// ---------------------------------------------------------------------------

/// The row of a page: its title and id.
pub open spec fn page_row(meta: MetaModel) -> Seq<char> {
    meta.title + "  ["@ + meta.id + "]"@
}

/// The row of a page in the list: its title and id, what was found in its text,
/// and its tags.
pub open spec fn list_row(meta: MetaModel, snippet: Option<Seq<char>>) -> Seq<char> {
    page_row(meta) + match snippet {
        Some(s) => "  :: "@ + s,
        None => Seq::empty(),
    } + if meta.tags.len() == 0 {
        Seq::empty()
    } else {
        "  #"@ + joined(meta.tags, " #"@)
    }
}

/// The row of a page.
pub fn backlink_row(meta: &PageMeta) -> (row: String)
    ensures
        row@ == page_row(meta@),
{
    let mut row = copy_of(meta.title.as_str());
    row.push_str("  [");
    row.push_str(meta.id.as_str());
    row.push_str("]");
    assert(row@ =~= page_row(meta@));
    row
}

/// The row of a page in the list.
pub fn page_list_row(meta: &PageMeta, snippet: Option<&str>) -> (row: String)
    ensures
        row@ == list_row(
            meta@,
            match snippet {
                Some(s) => Some(s@),
                None => None,
            },
        ),
{
    let mut row = backlink_row(meta);
    if let Some(s) = snippet {
        row.push_str("  :: ");
        row.push_str(s);
    }
    if meta.tags.len() > 0 {
        row.push_str("  #");
        row.push_str(join(&meta.tags, " #").as_str());
    }
    assert(row@ =~= list_row(
        meta@,
        match snippet {
            Some(s) => Some(s@),
            None => None,
        },
    ));
    row
}

/// Where the character of a text begins whose lowercase form covers the place
/// `pos` of the lowercased text.
pub open spec fn raw_place(text: Seq<char>, i: int, pos: int) -> int
    decreases text.len() - i,
{
    if i < 0 || i >= text.len() || pos < crate::text::lower_char(text[i]).len() {
        i
    } else {
        raw_place(text, i + 1, pos - crate::text::lower_char(text[i]).len())
    }
}

/// The line below the list: what is found, what is read, and the keys.
pub open spec fn list_status(app: AppModel, parsed: nat, rendered: nat) -> Seq<char> {
    "matches: "@ + decimal(app.visible.len()) + " | index: "@ + decimal(app.texts.dom().len()) + "/"@
        + decimal(app.index.order.len()) + " | cache p/r: "@ + decimal(parsed) + "/"@ + decimal(
        rendered,
    ) + " | j/k move | enter open | / search | n new | ? help | q quit"@ + if app.status.len()
        == 0 {
        Seq::empty()
    } else {
        " | "@ + app.status
    }
}

/// The line above a page.
pub open spec fn page_header(app: AppModel) -> Seq<char> {
    match app.page {
        Some(page) => page.title + " ["@ + page.id + "]"@,
        None => "No page loaded"@,
    }
}

/// The lines below a page: where the search stands, or the keys, and the link
/// that is selected.
pub open spec fn page_footer(app: AppModel) -> Seq<char> {
    (if app.page_needle.len() == 0 {
        "j/k scroll | tab/backtab link | enter follow | / search | B backlinks | h back | b list | ? help | q quit"@
    } else if app.match_lines.len() == 0 {
        "no matches | / search | Esc clear | ? help | q quit"@
    } else {
        "match "@ + decimal(app.match_at + 1) + "/"@ + decimal(app.match_lines.len())
            + " | n/N next/prev | / search | Esc clear | ? help | q quit"@
    }) + match app.page {
        Some(page) => if app.link < page.links.len() {
            let link = page.links[app.link as int];
            "\nlink "@ + decimal(app.link + 1) + "/"@ + decimal(page.links.len()) + ": "@
                + link.label + " -> "@ + link.target
        } else {
            "\nno links on page"@
        },
        None => Seq::empty(),
    }
}

/// The line above a page under edit.
pub open spec fn edit_header(e: EditModel) -> Seq<char> {
    "edit "@ + e.page_id + " ("@ + decimal(e.selected + 1) + "/"@ + decimal(e.snippets.len())
        + ") ["@ + match e.current() {
        Some(entry) => entry.typ,
        None => "<unknown>"@,
    } + "] "@ + if e.editable() {
        "editable"@
    } else {
        "read-only"@
    }
}

/// The line above a page.
pub fn show_page_header(app: &App) -> (header: String)
    ensures
        header@ == page_header(app@),
{
    match &app.page {
        Some(page) => {
            let mut out = copy_of(page.title.as_str());
            out.push_str(" [");
            out.push_str(page.id.as_str());
            out.push_str("]");
            assert(out@ =~= page_header(app@));
            out
        },
        None => copy_of("No page loaded"),
    }
}

fn show_search_state(app: &App) -> (line: String)
    requires
        app.page_search_current < usize::MAX,
    ensures
        line@ == if app@.page_needle.len() == 0 {
            "j/k scroll | tab/backtab link | enter follow | / search | B backlinks | h back | b list | ? help | q quit"@
        } else if app@.match_lines.len() == 0 {
            "no matches | / search | Esc clear | ? help | q quit"@
        } else {
            "match "@ + decimal(app@.match_at + 1) + "/"@ + decimal(app@.match_lines.len())
                + " | n/N next/prev | / search | Esc clear | ? help | q quit"@
        },
{
    if app.page_search_needle.as_str().is_empty() {
        return copy_of(
            "j/k scroll | tab/backtab link | enter follow | / search | B backlinks | h back | b list | ? help | q quit",
        );
    }
    let total: usize = app.page_search_match_lines.len();
    if total == 0 {
        return copy_of("no matches | / search | Esc clear | ? help | q quit");
    }
    let mut out = copy_of("match ");
    push_decimal(&mut out, app.page_search_current + 1);
    out.push_str("/");
    push_decimal(&mut out, total);
    out.push_str(" | n/N next/prev | / search | Esc clear | ? help | q quit");
    assert(out@ =~= "match "@ + decimal(app@.match_at + 1) + "/"@ + decimal(app@.match_lines.len())
        + " | n/N next/prev | / search | Esc clear | ? help | q quit"@);
    out
}

/// The lines below a page.
pub fn show_page_footer(app: &App) -> (footer: String)
    requires
        app.page_search_current < usize::MAX,
    ensures
        footer@ == page_footer(app@),
{
    let mut out = show_search_state(app);
    let ghost first = out@;
    if let Some(page) = &app.page {
        if app.selected_link < page.links.len() {
            let link = &page.links[app.selected_link];
            out.push_str("\nlink ");
            push_decimal(&mut out, app.selected_link + 1);
            out.push_str("/");
            push_decimal(&mut out, page.links.len());
            out.push_str(": ");
            out.push_str(link.label.as_str());
            out.push_str(" -> ");
            out.push_str(link.target.as_str());
            assert(out@ =~= first + ("\nlink "@ + decimal(app@.link + 1) + "/"@ + decimal(
                page@.links.len(),
            ) + ": "@ + link@.label + " -> "@ + link@.target));
        } else {
            out.push_str("\nno links on page");
        }
    }
    assert(out@ =~= page_footer(app@));
    out
}

/// The line below the list.
pub fn show_list_status(app: &App, parsed: usize, rendered: usize) -> (status: String)
    requires
        app.wf(),
    ensures
        status@ == list_status(app@, parsed as nat, rendered as nat),
{
    let mut out = copy_of("matches: ");
    push_decimal(&mut out, app.visible_ids.len());
    out.push_str(" | index: ");
    proof {
        lemma_text_count(app);
    }
    push_decimal(&mut out, app.text_index.len());
    out.push_str("/");
    push_decimal(&mut out, app.index.page_count());
    out.push_str(" | cache p/r: ");
    push_decimal(&mut out, parsed);
    out.push_str("/");
    push_decimal(&mut out, rendered);
    out.push_str(" | j/k move | enter open | / search | n new | ? help | q quit");
    if !app.status.as_str().is_empty() {
        out.push_str(" | ");
        out.push_str(app.status.as_str());
    }
    assert(out@ =~= list_status(app@, parsed as nat, rendered as nat));
    out
}

/// The number of texts that were read is the number of keys they stand under.
proof fn lemma_text_count(app: &App)
    requires
        app.text_index.wf(),
    ensures
        app@.texts.dom().len() == app.text_index.keys().len(),
{
    let keys = app.text_index.keys();
    keys.unique_seq_to_set();
    assert(app@.texts.dom() =~= keys.to_set());
}

/// The line above a page under edit.
pub fn show_edit_header(edit: &EditState) -> (header: String)
    requires
        edit.selected < usize::MAX,
    ensures
        header@ == edit_header(edit@),
{
    let mut out = copy_of("edit ");
    out.push_str(edit.page_id.as_str());
    out.push_str(" (");
    push_decimal(&mut out, edit.selected + 1);
    out.push_str("/");
    push_decimal(&mut out, edit.snippets.len());
    out.push_str(") [");
    let (typ, editable) = match edit.current() {
        Some(entry) => (copy_of(entry.typ.as_str()), entry.editable),
        None => (copy_of("<unknown>"), false),
    };
    out.push_str(typ.as_str());
    out.push_str("] ");
    out.push_str(
        if editable {
            "editable"
        } else {
            "read-only"
        },
    );
    assert(out@ =~= edit_header(edit@));
    out
}

/// The title of the page that the backlinks lead to.
pub open spec fn backlinks_header(app: AppModel) -> Seq<char> {
    "Backlinks to: "@ + match app.opened {
        Some(id) => if app.index.pages.contains_key(id) {
            app.index.pages[id].title
        } else {
            "?"@
        },
        None => "?"@,
    }
}

/// The line above the backlinks.
pub fn show_backlinks_header(app: &App) -> (header: String)
    requires
        app.wf(),
    ensures
        header@ == backlinks_header(app@),
{
    let mut out = copy_of("Backlinks to: ");
    let title = match &app.opened {
        Some(id) => match app.index.page_meta(id.as_str()) {
            Some(meta) => copy_of(meta.title.as_str()),
            None => copy_of("?"),
        },
        None => copy_of("?"),
    };
    out.push_str(title.as_str());
    assert(out@ =~= backlinks_header(app@));
    out
}

// ---------------------------------------------------------------------------
// The search in a row
// ---------------------------------------------------------------------------

/// How a text that was found looks.
pub open spec fn found_style() -> Style {
    Style { fg: Some(Color::Black), bg: Some(Color::Yellow), bold: true }
}

/// A row in which the part from one place to another is marked.
pub open spec fn marked_row(text: Seq<char>, from: int, to: int) -> LineModel {
    LineModel {
        spans: seq![
            SpanModel { text: text.take(from), style: plain_style() },
            SpanModel { text: text.subrange(from, to), style: found_style() },
            SpanModel { text: text.skip(to), style: plain_style() },
        ],
        style: plain_style(),
    }
}

/// Which part of a text is what a query looks for, whatever the case: the
/// characters whose lowercase forms make up the first place that holds it.
pub open spec fn found_part(text: Seq<char>, query: Seq<char>) -> Option<(int, int)> {
    let needle = lowercase(trimmed(query));
    if needle.len() == 0 {
        None
    } else {
        match find_from(lowercase(text), 0, needle) {
            Some(pos) => {
                let from = raw_place(text, 0, pos);
                let last = raw_place(text, 0, pos + needle.len() - 1);
                Some(
                    (
                        from,
                        if last < text.len() {
                            last + 1
                        } else {
                            text.len() as int
                        },
                    ),
                )
            },
            None => None,
        }
    }
}

/// A row with what a query looks for marked.
pub open spec fn searched_row(text: Seq<char>, query: Seq<char>) -> LineModel {
    match found_part(text, query) {
        Some((from, to)) => marked_row(text, from, to),
        None => line_of(text, plain_style()),
    }
}

proof fn lemma_raw_place(text: Seq<char>, i: int, pos: int)
    requires
        0 <= i <= text.len(),
    ensures
        i <= raw_place(text, i, pos) <= text.len(),
    decreases text.len() - i,
{
    if i < text.len() && pos >= crate::text::lower_char(text[i]).len() {
        lemma_raw_place(text, i + 1, pos - crate::text::lower_char(text[i]).len());
    }
}

proof fn lemma_raw_place_grows(text: Seq<char>, i: int, a: int, b: int)
    requires
        0 <= i <= text.len(),
        0 <= a <= b,
    ensures
        raw_place(text, i, a) <= raw_place(text, i, b),
    decreases text.len() - i,
{
    if i < text.len() {
        let n = crate::text::lower_char(text[i]).len();
        lemma_raw_place(text, i, b);
        if a >= n {
            lemma_raw_place_grows(text, i + 1, a - n, b - n);
        }
    }
}

/// Marking what was found keeps the text of the row.
pub proof fn marking_a_row_keeps_its_text(text: Seq<char>, query: Seq<char>)
    ensures
        found_part(text, query) matches Some((from, to)) ==> 0 <= from <= to <= text.len(),
        found_part(text, query) matches Some((from, to)) ==> text.take(from) + text.subrange(
            from,
            to,
        ) + text.skip(to) == text,
{
    let needle = lowercase(trimmed(query));
    if needle.len() > 0 {
        lemma_find_from(lowercase(text), 0, needle);
        if let Some(pos) = find_from(lowercase(text), 0, needle) {
            let last = pos + needle.len() - 1;
            lemma_raw_place(text, 0, pos);
            lemma_raw_place(text, 0, last);
            lemma_raw_place_grows(text, 0, pos, last);
            let (from, to) = found_part(text, query)->0;
            assert(text.take(from) + text.subrange(from, to) + text.skip(to) =~= text);
        }
    }
}

/// The character of a text whose lower case holds a position of the lowercased text.
pub fn find_place(chars: &Vec<char>, pos: usize) -> (at: usize)
    ensures
        at == raw_place(chars@, 0, pos as int),
        at <= chars@.len(),
{
    let mut rest: usize = pos;
    let mut i: usize = 0;
    while i < chars.len()
        invariant
            i <= chars@.len(),
            raw_place(chars@, 0, pos as int) == raw_place(chars@, i as int, rest as int),
        decreases chars.len() - i,
    {
        let lower = crate::text::char_to_lowercase(chars[i]);
        if rest < lower.len() {
            return i;
        }
        rest = rest - lower.len();
        i += 1;
    }
    i
}

/// A row with what a query looks for marked.
pub fn highlight_search_match(text: &str, query: &str) -> (row: StyledLine)
    ensures
        row@ == searched_row(text@, query@),
{
    let needle = to_lowercase(trim(query).as_str());
    let wanted = chars_of(needle.as_str());
    if wanted.len() == 0 {
        return styled_line(text, Style::plain());
    }
    let lower = to_lowercase(text);
    let haystack = chars_of(lower.as_str());
    let total: usize = haystack.len();
    proof {
        marking_a_row_keeps_its_text(text@, query@);
        lemma_find_from(lowercase(text@), 0, lowercase(trimmed(query@)));
    }
    match find_chars(&haystack, 0, &wanted) {
        Some(pos) => {
            let chars = chars_of(text);
            proof {
                assert(matches_at(haystack@, pos as int, wanted@));
                assert(pos + wanted@.len() <= total);
                assert(found_part(text@, query@) is Some);
            }
            let from: usize = find_place(&chars, pos);
            let last: usize = find_place(&chars, pos + (wanted.len() - 1));
            let to: usize = if last < chars.len() {
                last + 1
            } else {
                chars.len()
            };
            proof {
                assert(found_part(text@, query@) == Some((from as int, to as int)));
            }
            let mut spans: Vec<StyledSpan> = Vec::new();
            let before = string_of(&chars, 0, from);
            let found = string_of(&chars, from, to);
            let after = string_of(&chars, to, chars.len());
            spans.push(span(before.as_str(), Style::plain()));
            spans.push(
                span(
                    found.as_str(),
                    Style { fg: Some(Color::Black), bg: Some(Color::Yellow), bold: true },
                ),
            );
            spans.push(span(after.as_str(), Style::plain()));
            proof {
                assert(before@ =~= text@.take(from as int));
                assert(after@ =~= text@.skip(to as int));
                assert(span_views(spans@) =~= marked_row(
                    text@,
                    from as int,
                    to as int,
                ).spans);
            }
            line_of_spans(spans)
        },
        None => styled_line(text, Style::plain()),
    }
}

// ---------------------------------------------------------------------------
// The lists
// ---------------------------------------------------------------------------

/// What was found in the text of a page, where that is why the page is listed.
pub open spec fn row_snippet(app: AppModel, id: Seq<char>) -> Option<Seq<char>> {
    if app.hits.contains_key(id) && app.hits[id] == SearchMatchKind::Content
        && app.texts.contains_key(id) {
        part_with(app.texts[id].raw, app.needle)
    } else {
        None
    }
}

/// The row of a page in the list as a terminal can show it, with what the search
/// looks for marked.
pub open spec fn shown_row(app: AppModel, id: Seq<char>) -> LineModel {
    searched_row(sanitized(list_row(app.index.pages[id], row_snippet(app, id))), app.search)
}

/// Whether the pages of a list are known.
pub open spec fn all_known(app: AppModel, ids: Seq<Seq<char>>) -> bool {
    forall|i: int| 0 <= i < ids.len() ==> app.index.pages.contains_key(#[trigger] ids[i])
}

/// What was found in the text of a page, where that is why the page is listed.
pub fn snippet_for(app: &App, id: &str) -> (snippet: Option<String>)
    requires
        app.wf(),
    ensures
        opt_view(snippet) == row_snippet(app@, id@),
{
    match app.search_hit_kind.get(id) {
        Some(kind) => match kind {
            SearchMatchKind::Content => match app.text_index.peek(id) {
                Some(text) => matching_snippet(text.raw.as_str(), app.search_needle.as_str()),
                None => None,
            },
            _ => None,
        },
        None => None,
    }
}

/// The rows of the list of pages.
pub fn list_rows(app: &App) -> (rows: Vec<StyledLine>)
    requires
        app.wf(),
        all_known(app@, app@.visible),
    ensures
        line_views(rows@) == Seq::new(
            app@.visible.len(),
            |i: int| shown_row(app@, app@.visible[i]),
        ),
{
    let ghost whole = Seq::new(app@.visible.len(), |i: int| shown_row(app@, app@.visible[i]));
    let mut rows: Vec<StyledLine> = Vec::new();
    let mut i: usize = 0;
    while i < app.visible_ids.len()
        invariant
            i <= app.visible_ids@.len(),
            app.wf(),
            all_known(app@, app@.visible),
            whole == Seq::new(app@.visible.len(), |i: int| shown_row(app@, app@.visible[i])),
            rows@.len() == i,
            forall|k: int| 0 <= k < i ==> (#[trigger] rows@[k])@ == whole[k],
        decreases app.visible_ids.len() - i,
    {
        let id = app.visible_ids[i].as_str();
        assert(app@.visible[i as int] == id@);
        if let Some(meta) = app.index.page_meta(id) {
            let snippet = snippet_for(app, id);
            let text = match &snippet {
                Some(s) => page_list_row(meta, Some(s.as_str())),
                None => page_list_row(meta, None),
            };
            let text = sanitize_for_terminal(text.as_str());
            rows.push(highlight_search_match(text.as_str(), app.search.as_str()));
        }
        i += 1;
    }
    assert(line_views(rows@) =~= whole);
    rows
}

/// The rows of the backlinks as a terminal can show them.
pub fn backlink_rows(app: &App) -> (rows: Vec<String>)
    requires
        app.wf(),
        all_known(app@, app@.back_ids),
    ensures
        views(rows@) == Seq::new(
            app@.back_ids.len(),
            |i: int| sanitized(page_row(app@.index.pages[app@.back_ids[i]])),
        ),
{
    let ghost whole = Seq::new(
        app@.back_ids.len(),
        |i: int| sanitized(page_row(app@.index.pages[app@.back_ids[i]])),
    );
    let mut rows: Vec<String> = Vec::new();
    let mut i: usize = 0;
    while i < app.backlink_ids.len()
        invariant
            i <= app.backlink_ids@.len(),
            app.wf(),
            all_known(app@, app@.back_ids),
            whole == Seq::new(
                app@.back_ids.len(),
                |i: int| sanitized(page_row(app@.index.pages[app@.back_ids[i]])),
            ),
            rows@.len() == i,
            forall|k: int| 0 <= k < i ==> (#[trigger] rows@[k])@ == whole[k],
        decreases app.backlink_ids.len() - i,
    {
        let id = app.backlink_ids[i].as_str();
        assert(app@.back_ids[i as int] == id@);
        if let Some(meta) = app.index.page_meta(id) {
            rows.push(sanitize_for_terminal(backlink_row(meta).as_str()));
        }
        i += 1;
    }
    assert(views(rows@) =~= whole);
    rows
}

/// What stands above the field where the search is typed.
pub fn search_title(mode: Mode) -> (title: &'static str)
    ensures
        title@ == if mode == Mode::NewPageTitle {
            "New Page Title (Enter to create, Esc to cancel)"@
        } else if mode == Mode::Search {
            "Search (typing)"@
        } else {
            "Search (/)"@
        },
{
    match mode {
        Mode::NewPageTitle => "New Page Title (Enter to create, Esc to cancel)",
        Mode::Search => "Search (typing)",
        _ => "Search (/)",
    }
}

/// What stands above the list of pages.
pub fn list_title(mode: Mode) -> (title: &'static str)
    ensures
        title@ == if mode == Mode::Search {
            "Pages (filtered)"@
        } else {
            "Pages"@
        },
{
    match mode {
        Mode::Search => "Pages (filtered)",
        _ => "Pages",
    }
}

/// What stands above the backlinks: how many there are.
pub fn backlinks_title(app: &App) -> (title: String)
    ensures
        title@ == decimal(app@.back_ids.len()) + " incoming links"@,
{
    let mut out = decimal_of(app.backlink_ids.len());
    out.push_str(" incoming links");
    out
}

// ---------------------------------------------------------------------------
// The scroll position of a page under edit
// ---------------------------------------------------------------------------

/// Where a page under edit is scrolled to: to the cursor, or else to the selected
/// snippet, if the view follows it, and not past the last line.
pub open spec fn settled(
    e: EditModel,
    cursor_line: Option<nat>,
    start: Option<nat>,
    total: nat,
    height: nat,
) -> nat {
    let wanted = if !e.follow_cursor {
        e.preview_scroll
    } else {
        match (cursor_line, start) {
            (Some(line), _) => scrolled(line, e.preview_scroll, height),
            (None, Some(line)) => scrolled(line, e.preview_scroll, height),
            (None, None) => e.preview_scroll,
        }
    };
    let furthest = if total > height {
        (total - height) as nat
    } else {
        0
    };
    if wanted > furthest {
        furthest
    } else {
        wanted
    }
}

/// Scrolls a page under edit.
pub fn settle_scroll(
    edit: &mut EditState,
    cursor_line: Option<usize>,
    start: Option<usize>,
    total: usize,
    height: usize,
)
    requires
        old(edit).preview_scroll + height <= usize::MAX,
    ensures
        final(edit)@ == (EditModel {
            preview_scroll: settled(
                old(edit)@,
                line_number(cursor_line),
                line_number(start),
                total as nat,
                height as nat,
            ),
            ..old(edit)@
        }),
{
    if edit.follow_cursor {
        if let Some(line) = cursor_line {
            edit.preview_scroll = ensure_scroll(line, edit.preview_scroll, height);
        } else if let Some(line) = start {
            edit.preview_scroll = ensure_scroll(line, edit.preview_scroll, height);
        }
    }
    let furthest: usize = if total > height {
        total - height
    } else {
        0
    };
    if edit.preview_scroll > furthest {
        edit.preview_scroll = furthest;
    }
}

pub open spec fn line_number(line: Option<usize>) -> Option<nat> {
    match line {
        Some(n) => Some(n as nat),
        None => None,
    }
}

/// A page under edit whose view follows the cursor shows the line that the cursor
/// stands on.
pub proof fn the_cursor_is_in_view(
    e: EditModel,
    line: nat,
    start: Option<nat>,
    total: nat,
    height: nat,
)
    requires
        e.follow_cursor,
        line < total,
        height > 0,
    ensures
        settled(e, Some(line), start, total, height) <= line,
        line < settled(e, Some(line), start, total, height) + height,
{
}

// ---------------------------------------------------------------------------
// What the screen says
// ---------------------------------------------------------------------------

/// A row of the list shows the title and the id of its page, what was found in it
/// where something was, and its tags.
pub proof fn a_row_shows_its_page(meta: MetaModel, found: Seq<char>)
    ensures
        meta.tags.len() == 0 ==> list_row(meta, None) == meta.title + "  ["@ + meta.id + "]"@,
        meta.tags.len() == 0 ==> list_row(meta, Some(found)) == meta.title + "  ["@ + meta.id
            + "]"@ + ("  :: "@ + found),
        meta.tags.len() == 1 ==> list_row(meta, None) == meta.title + "  ["@ + meta.id + "]"@ + (
        "  #"@ + meta.tags[0]),
        meta.tags.len() == 1 ==> list_row(meta, Some(found)) == meta.title + "  ["@ + meta.id
            + "]"@ + ("  :: "@ + found) + ("  #"@ + meta.tags[0]),
{
    let row = meta.title + "  ["@ + meta.id + "]"@;
    let none = Seq::<char>::empty();
    assert(row + none + none =~= row);
    assert(row + ("  :: "@ + found) + none =~= row + ("  :: "@ + found));
    if meta.tags.len() == 1 {
        assert(joined(meta.tags, " #"@) == meta.tags[0]);
        assert(row + none + ("  #"@ + meta.tags[0]) =~= row + ("  #"@ + meta.tags[0]));
    }
}

/// Below the list it is said how many pages match, how many texts were read of how
/// many pages, and what the last action said.
pub proof fn the_line_below_the_list(app: AppModel, parsed: nat, rendered: nat)
    ensures
        app.status.len() == 0 ==> list_status(app, parsed, rendered) == "matches: "@ + decimal(
            app.visible.len(),
        ) + " | index: "@ + decimal(app.texts.dom().len()) + "/"@ + decimal(app.index.order.len())
            + " | cache p/r: "@ + decimal(parsed) + "/"@ + decimal(rendered)
            + " | j/k move | enter open | / search | n new | ? help | q quit"@,
        app.status.len() > 0 ==> list_status(app, parsed, rendered) == "matches: "@ + decimal(
            app.visible.len(),
        ) + " | index: "@ + decimal(app.texts.dom().len()) + "/"@ + decimal(app.index.order.len())
            + " | cache p/r: "@ + decimal(parsed) + "/"@ + decimal(rendered)
            + " | j/k move | enter open | / search | n new | ? help | q quit"@ + (" | "@
            + app.status),
{
    if app.status.len() == 0 {
        let line = "matches: "@ + decimal(app.visible.len()) + " | index: "@ + decimal(
            app.texts.dom().len(),
        ) + "/"@ + decimal(app.index.order.len()) + " | cache p/r: "@ + decimal(parsed) + "/"@
            + decimal(rendered) + " | j/k move | enter open | / search | n new | ? help | q quit"@;
        assert(line + Seq::<char>::empty() =~= line);
    }
}

/// The head of a page names its title and its id.
pub proof fn the_head_of_a_page(app: AppModel)
    ensures
        app.page is Some ==> page_header(app) == (app.page->0).title + " ["@ + (app.page->0).id
            + "]"@,
        app.page is None ==> page_header(app) == "No page loaded"@,
{
}

/// The foot of a page says which match of how many is shown, and which link of how
/// many is selected, with its label and its target.
pub proof fn the_foot_of_a_page(app: AppModel)
    requires
        app.page is Some,
    ensures
        ({
            let links = (app.page->0).links;
            let at = if app.link < links.len() {
                "\nlink "@ + decimal(app.link + 1) + "/"@ + decimal(links.len()) + ": "@
                    + links[app.link as int].label + " -> "@ + links[app.link as int].target
            } else {
                "\nno links on page"@
            };
            &&& app.page_needle.len() > 0 && app.match_lines.len() > 0 ==> page_footer(app)
                == "match "@ + decimal(app.match_at + 1) + "/"@ + decimal(app.match_lines.len())
                + " | n/N next/prev | / search | Esc clear | ? help | q quit"@ + at
            &&& app.page_needle.len() > 0 && app.match_lines.len() == 0 ==> page_footer(app)
                == "no matches | / search | Esc clear | ? help | q quit"@ + at
            &&& app.page_needle.len() == 0 ==> page_footer(app)
                == "j/k scroll | tab/backtab link | enter follow | / search | B backlinks | h back | b list | ? help | q quit"@
                + at
        }),
{
}

/// The head of the editor names the page, which snippet of how many is edited, its
/// type and whether it can be edited.
pub proof fn the_head_of_the_editor(e: EditModel)
    requires
        e.selected < e.snippets.len(),
    ensures
        e.snippets[e.selected as int].editable ==> edit_header(e) == "edit "@ + e.page_id + " ("@
            + decimal(e.selected + 1) + "/"@ + decimal(e.snippets.len()) + ") ["@
            + e.snippets[e.selected as int].typ + "] "@ + "editable"@,
        !e.snippets[e.selected as int].editable ==> edit_header(e) == "edit "@ + e.page_id + " ("@
            + decimal(e.selected + 1) + "/"@ + decimal(e.snippets.len()) + ") ["@
            + e.snippets[e.selected as int].typ + "] "@ + "read-only"@,
{
}

/// The head of the pages that link here names the page that they link to.
pub proof fn the_head_of_the_pages_that_link_here(app: AppModel, id: Seq<char>)
    requires
        app.opened == Some(id),
        app.index.pages.contains_key(id),
    ensures
        backlinks_header(app) == "Backlinks to: "@ + app.index.pages[id].title,
{
}

/// A row is shown with what was found in the text of its page where the page was
/// found by its text alone.
pub proof fn a_row_shows_what_was_found(app: AppModel, id: Seq<char>)
    ensures
        app.hits.contains_key(id) && app.hits[id] == SearchMatchKind::Content
            && app.texts.contains_key(id) ==> row_snippet(app, id) == part_with(
            app.texts[id].raw,
            app.needle,
        ),
        app.hits.contains_key(id) && app.hits[id] != SearchMatchKind::Content ==> row_snippet(
            app,
            id,
        ) is None,
        !app.hits.contains_key(id) ==> row_snippet(app, id) is None,
{
}

/// A row in which nothing was found is plain; one in which something was found is
/// shown in three parts, of which the middle one is marked.
pub proof fn what_was_found_in_a_row_is_marked(text: Seq<char>, query: Seq<char>)
    ensures
        lowercase(trimmed(query)).len() > 0 && contains(
            lowercase(text),
            lowercase(trimmed(query)),
        ) ==> searched_row(text, query).spans.len() == 3 && searched_row(text, query).spans[1].style
            == (Style { fg: Some(Color::Black), bg: Some(Color::Yellow), bold: true }),
        lowercase(trimmed(query)).len() == 0 || !contains(
            lowercase(text),
            lowercase(trimmed(query)),
        ) ==> searched_row(text, query) == line_of(text, plain_style()),
{
    lemma_find_is_contains(lowercase(text), lowercase(trimmed(query)));
}

/// A text is filled with spaces up to a width; a longer one stays.
pub proof fn texts_are_filled_up(text: Seq<char>, width: nat)
    ensures
        text.len() <= width ==> padded(text, width).len() == width,
        padded(text, width).take(text.len() as int) == text,
        forall|k: int| text.len() <= k < padded(text, width).len() ==> padded(text, width)[k] == ' ',
        text.len() >= width ==> padded(text, width) == text,
{
    assert(padded(text, width).take(text.len() as int) =~= text);
}

/// The preview stays where it was scrolled to unless it follows the cursor, and
/// never beyond its last line.
pub proof fn the_preview_stays_inside(
    e: EditModel,
    cursor_line: Option<nat>,
    start: Option<nat>,
    total: nat,
    height: nat,
)
    ensures
        settled(e, cursor_line, start, total, height) + height <= total || settled(
            e,
            cursor_line,
            start,
            total,
            height,
        ) == 0,
        !e.follow_cursor && e.preview_scroll + height <= total ==> settled(
            e,
            cursor_line,
            start,
            total,
            height,
        ) == e.preview_scroll,
        e.follow_cursor && cursor_line is Some && height > 0 && cursor_line->0 < total ==> settled(
            e,
            cursor_line,
            start,
            total,
            height,
        ) <= cursor_line->0 < settled(e, cursor_line, start, total, height) + height,
{
}

/// The help names the keys of the mode, between what every mode has and how it is
/// closed.
pub proof fn the_help_of_a_mode(mode: Mode, i: int)
    requires
        0 <= i < mode_keys(mode).len(),
    ensures
        help_text(mode).contains(binding_line(mode_keys(mode)[i])),
{
    let head = seq![
        line_of("  Keyboard Shortcuts"@, bold_colored(Color::Cyan)),
        line_of(""@, plain_style()),
    ];
    let a = help_section("Global"@, global_keys());
    let b = help_section(mode_title(mode), mode_keys(mode));
    let k = head.len() + a.len() + 1 + i;
    assert(b[1 + i] == binding_line(mode_keys(mode)[i]));
    assert(help_text(mode)[k as int] == b[1 + i]);
}

} // verus!
