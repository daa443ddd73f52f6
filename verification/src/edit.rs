//! Editing the snippets of a page: collecting them, changing the buffer, moving
//! the cursor, and undoing.

use crate::json::{
    find_member, json_views, lemma_json_view, member_from, member_of_text, member_position,
    member_set, member_views, object_of, opt_json_view, set_member, setting_a_member_sets_it,
    text_member, Json, JsonModel, Member, MemberModel,
};
use crate::number::{all_digits, number_value, parse_number, unsigned_part};
use crate::parse::{children, children_of, code_snippet, is_code_snippet, or_text};
use crate::render::{
    lemma_normalized_is_kept, normalize_text, normalized, normalized_text_has_no_carriage_return,
};
use crate::text::{
    byte_len, byte_length, chars_of, contains_char, copy_of, lemma_byte_len_prefix,
    lemma_byte_len_step, lemma_next_pos, next_pos, opt_view, same_text, split_char, split_from,
    split_on, string_of, views, width_of,
};
use std::collections::VecDeque;
use vstd::prelude::*;

verus! {

// ---------------------------------------------------------------------------
// The buffer
// ---------------------------------------------------------------------------

/// The smaller of two numbers.
pub open spec fn least(a: nat, b: nat) -> nat {
    if a < b {
        a
    } else {
        b
    }
}

/// What a typed character is kept as: a carriage return is a line feed.
pub open spec fn typed(ch: char) -> char {
    if ch == '\r' {
        '\n'
    } else {
        ch
    }
}

/// The byte index of a character; the length in bytes behind the last one.
pub fn char_to_byte_idx(buf: &str, char_idx: usize) -> (idx: usize)
    ensures
        idx == byte_len(buf@.take(least(char_idx as nat, buf@.len()) as int)),
{
    let v = chars_of(buf);
    let total: usize = byte_length(buf);
    let mut idx: usize = 0;
    let mut i: usize = 0;
    assert(buf@.take(0) =~= Seq::<char>::empty());
    while i < v.len() && i < char_idx
        invariant
            v@ == buf@,
            i <= v@.len(),
            i <= char_idx,
            total == byte_len(buf@),
            idx == byte_len(buf@.take(i as int)),
        decreases v.len() - i,
    {
        proof {
            lemma_byte_len_step(buf@, i as int);
            lemma_byte_len_prefix(buf@, i as int + 1);
        }
        idx += width_of(v[i]);
        i += 1;
    }
    idx
}

/// Puts a character in at the cursor and moves the cursor behind it. A cursor
/// beyond the text counts as its end.
pub fn insert_char_at(buf: &mut String, cursor: &mut usize, ch: char)
    requires
        *old(cursor) < usize::MAX,
    ensures
        final(buf)@ == old(buf)@.insert(
            least(*old(cursor) as nat, old(buf)@.len()) as int,
            typed(ch),
        ),
        *final(cursor) == *old(cursor) + 1,
{
    let ch = if ch == '\r' {
        '\n'
    } else {
        ch
    };
    let mut v = chars_of(buf.as_str());
    let at: usize = if *cursor < v.len() {
        *cursor
    } else {
        v.len()
    };
    v.insert(at, ch);
    *buf = string_of(&v, 0, v.len());
    assert(buf@ =~= v@);
    *cursor = *cursor + 1;
}

/// Takes out the character before the cursor.
pub fn delete_char_before(buf: &mut String, cursor: &mut usize) -> (deleted: bool)
    requires
        *old(cursor) <= old(buf)@.len(),
    ensures
        deleted == (*old(cursor) > 0),
        deleted ==> final(buf)@ == old(buf)@.remove(*old(cursor) - 1) && *final(cursor) == *old(
            cursor,
        ) - 1,
        !deleted ==> final(buf)@ == old(buf)@ && *final(cursor) == *old(cursor),
{
    if *cursor == 0 {
        return false;
    }
    let mut v = chars_of(buf.as_str());
    let _gone = v.remove(*cursor - 1);
    *buf = string_of(&v, 0, v.len());
    assert(buf@ =~= v@);
    *cursor = *cursor - 1;
    true
}

/// Takes out the character at the cursor.
pub fn delete_char_at(buf: &mut String, cursor: &mut usize) -> (deleted: bool)
    ensures
        deleted == (*old(cursor) < old(buf)@.len()),
        deleted ==> final(buf)@ == old(buf)@.remove(*old(cursor) as int),
        !deleted ==> final(buf)@ == old(buf)@,
        *final(cursor) == *old(cursor),
{
    let mut v = chars_of(buf.as_str());
    if *cursor >= v.len() {
        return false;
    }
    let _gone = v.remove(*cursor);
    *buf = string_of(&v, 0, v.len());
    assert(buf@ =~= v@);
    true
}

/// Deleting the character that was just typed gives the text back.
pub proof fn deleting_undoes_typing(text: Seq<char>, cursor: nat, ch: char)
    requires
        cursor <= text.len(),
    ensures
        text.insert(cursor as int, typed(ch)).remove(cursor as int) == text,
{
    assert(text.insert(cursor as int, typed(ch)).remove(cursor as int) =~= text);
}

/// Typing the character that was just deleted gives the text back.
pub proof fn typing_undoes_deleting(text: Seq<char>, cursor: nat)
    requires
        cursor < text.len(),
        text[cursor as int] != '\r',
    ensures
        text.remove(cursor as int).insert(cursor as int, typed(text[cursor as int])) == text,
{
    assert(text.remove(cursor as int).insert(cursor as int, typed(text[cursor as int])) =~= text);
}

// ---------------------------------------------------------------------------
// Lines and columns
// ---------------------------------------------------------------------------

/// How many columns a character takes.
pub open spec fn column_width(ch: char) -> nat {
    if ch == '\t' {
        4
    } else {
        1
    }
}

/// The line and the column behind the first `n` characters of a text.
pub open spec fn line_col(text: Seq<char>, n: int) -> (nat, nat)
    decreases n,
{
    if n <= 0 || n > text.len() {
        (0, 0)
    } else {
        let (line, col) = line_col(text, n - 1);
        let ch = text[n - 1];
        if ch == '\n' || ch == '\r' {
            (line + 1, 0)
        } else {
            (line, col + column_width(ch))
        }
    }
}

proof fn lemma_line_col(text: Seq<char>, n: int)
    requires
        0 <= n <= text.len(),
    ensures
        line_col(text, n).0 <= n,
        line_col(text, n).1 <= 4 * n,
    decreases n,
{
    if n > 0 {
        lemma_line_col(text, n - 1);
    }
}

/// The line and the column of the cursor as they are displayed, where a tab
/// takes four columns.
pub fn cursor_line_col_display(text: &str, cursor: usize) -> (at: (usize, usize))
    requires
        4 * text@.len() <= usize::MAX,
    ensures
        (at.0 as nat, at.1 as nat) == line_col(
            text@,
            least(cursor as nat, text@.len()) as int,
        ),
{
    let v = chars_of(text);
    let mut line: usize = 0;
    let mut col: usize = 0;
    let mut i: usize = 0;
    while i < v.len() && i < cursor
        invariant
            v@ == text@,
            4 * text@.len() <= usize::MAX,
            i <= v@.len(),
            i <= cursor,
            (line as nat, col as nat) == line_col(text@, i as int),
        decreases v.len() - i,
    {
        proof {
            lemma_line_col(text@, i as int);
        }
        let ch = v[i];
        if ch == '\n' || ch == '\r' {
            line += 1;
            col = 0;
        } else if ch == '\t' {
            col += 4;
        } else {
            col += 1;
        }
        i += 1;
    }
    (line, col)
}

/// The first character from `i` on that does not fit into `target` columns,
/// `col` of them being taken.
pub open spec fn char_at_column(line: Seq<char>, i: int, col: nat, target: nat) -> int
    decreases line.len() - i,
{
    if 0 <= i < line.len() && col + column_width(line[i]) <= target {
        char_at_column(line, i + 1, col + column_width(line[i]), target)
    } else {
        i
    }
}

/// The character of a line that stands at a displayed column.
pub fn display_col_to_char_idx(line: &str, target_col: usize) -> (idx: usize)
    ensures
        idx == char_at_column(line@, 0, 0, target_col as nat),
        idx <= line@.len(),
{
    let v = chars_of(line);
    let mut col: usize = 0;
    let mut idx: usize = 0;
    while idx < v.len()
        invariant
            v@ == line@,
            idx <= v@.len(),
            col <= target_col,
            char_at_column(line@, 0, 0, target_col as nat) == char_at_column(
                line@,
                idx as int,
                col as nat,
                target_col as nat,
            ),
        decreases v.len() - idx,
    {
        let width: usize = if v[idx] == '\t' {
            4
        } else {
            1
        };
        if width > target_col - col {
            return idx;
        }
        col += width;
        idx += 1;
    }
    idx
}

/// Where the `n`-th of some lines starts, counting one character between lines.
pub open spec fn line_start(ls: Seq<Seq<char>>, n: int) -> nat
    decreases n,
{
    if n <= 0 || n > ls.len() {
        0
    } else {
        line_start(ls, n - 1) + ls[n - 1].len() + 1
    }
}

/// The line that lies `delta` lines below `line`, within a text of `count`
/// lines.
pub open spec fn line_below(line: nat, delta: int, count: nat) -> nat {
    if line + delta < 0 {
        0
    } else if delta < 0 {
        (line + delta) as nat
    } else {
        least((line + delta) as nat, (count - 1) as nat)
    }
}

/// Where the cursor is once it has moved by `delta` lines: at the same column,
/// or at the end of a line that is too short for it.
pub open spec fn moved_vertically(text: Seq<char>, cursor: nat, delta: int) -> nat {
    let (line, col) = line_col(text, least(cursor, text.len()) as int);
    let ls = split_on(text, '\n');
    let next = line_below(line, delta, ls.len());
    (line_start(ls, next as int) + char_at_column(ls[next as int], 0, 0, col)) as nat
}

/// The line of the cursor is the number of line feeds before it.
proof fn lemma_line_bound(text: Seq<char>, i: int, n: int)
    requires
        !contains_char(text, '\r'),
        0 <= i <= n <= text.len(),
    ensures
        line_col(text, n).0 - line_col(text, i).0 < split_from(text, i, '\n').len(),
        line_col(text, i).0 <= line_col(text, n).0,
        split_from(text, i, '\n').len() >= 1,
    decreases text.len() - i,
{
    lemma_next_pos(text, i, '\n');
    let k = next_pos(text, i, '\n');
    if n <= k {
        lemma_same_line(text, i, n);
    } else {
        lemma_same_line(text, i, k);
        assert(line_col(text, k + 1).0 == line_col(text, k).0 + 1);
        lemma_line_bound(text, k + 1, n);
        assert(split_from(text, i, '\n').len() == 1 + split_from(text, k + 1, '\n').len());
    }
}

proof fn lemma_same_line(text: Seq<char>, i: int, n: int)
    requires
        !contains_char(text, '\r'),
        0 <= i <= n <= text.len(),
        forall|j: int| i <= j < n ==> text[j] != '\n',
    ensures
        line_col(text, n).0 == line_col(text, i).0,
    decreases n - i,
{
    if i < n {
        assert(text[n - 1] != '\r') by {
            if text[n - 1] == '\r' {
                assert(text.contains('\r'));
            }
        }
        lemma_same_line(text, i, n - 1);
    }
}

/// The lines of a text and the line feeds between them make up the text.
proof fn lemma_line_starts(text: Seq<char>, i: int, n: int)
    requires
        0 <= i <= text.len(),
        0 <= n < split_from(text, i, '\n').len(),
    ensures
        i + line_start(split_from(text, i, '\n'), n) + split_from(text, i, '\n')[n].len()
            <= text.len(),
    decreases text.len() - i,
{
    lemma_next_pos(text, i, '\n');
    let k = next_pos(text, i, '\n');
    let ls = split_from(text, i, '\n');
    if n > 0 {
        let more = split_from(text, k + 1, '\n');
        lemma_line_starts(text, k + 1, n - 1);
        assert(ls == seq![text.subrange(i, k)] + more);
        lemma_line_start_front(text.subrange(i, k), more, n);
        assert(ls[n] == more[n - 1]);
    }
}

proof fn lemma_line_start_front(first: Seq<char>, more: Seq<Seq<char>>, n: int)
    requires
        1 <= n <= more.len() + 1,
    ensures
        line_start(seq![first] + more, n) == first.len() + 1 + line_start(more, n - 1),
    decreases n,
{
    let all = seq![first] + more;
    reveal_with_fuel(line_start, 2);
    if n > 1 {
        lemma_line_start_front(first, more, n - 1);
        assert(all[n - 1] == more[n - 2]);
    } else {
        assert(all[0] == first);
    }
}

/// The cursor stays within the text when it moves to another line.
pub proof fn moving_vertically_stays_inside(text: Seq<char>, cursor: nat, delta: int)
    requires
        !contains_char(text, '\r'),
    ensures
        moved_vertically(text, cursor, delta) <= text.len(),
{
    let n = least(cursor, text.len()) as int;
    let (line, col) = line_col(text, n);
    let ls = split_on(text, '\n');
    lemma_line_bound(text, 0, n);
    assert(line_col(text, 0).0 == 0);
    let next = line_below(line, delta, ls.len()) as int;
    assert(0 <= next < ls.len());
    lemma_line_starts(text, 0, next);
    lemma_char_at_column(ls[next], 0, 0, col);
}

proof fn lemma_char_at_column(line: Seq<char>, i: int, col: nat, target: nat)
    requires
        0 <= i <= line.len(),
    ensures
        i <= char_at_column(line, i, col, target) <= line.len(),
    decreases line.len() - i,
{
    if i < line.len() && col + column_width(line[i]) <= target {
        lemma_char_at_column(line, i + 1, col + column_width(line[i]), target);
    }
}

/// Where the cursor is once it has moved by `delta` lines.
pub fn cursor_moved_vertically(text: &str, cursor: usize, delta: isize) -> (moved: usize)
    requires
        !contains_char(text@, '\r'),
        4 * text@.len() <= usize::MAX,
    ensures
        moved == moved_vertically(text@, cursor as nat, delta as int),
        moved <= text@.len(),
{
    let (line, col) = cursor_line_col_display(text, cursor);
    let ls = split_char(text, '\n');
    let ghost all = split_on(text@, '\n');
    let ghost n = least(cursor as nat, text@.len()) as int;
    proof {
        lemma_line_bound(text@, 0, n);
        assert(line_col(text@, 0).0 == 0);
        moving_vertically_stays_inside(text@, cursor as nat, delta as int);
    }
    let last: usize = ls.len() - 1;
    let next: usize = next_line_index(line, delta, last);
    let target: usize = display_col_to_char_idx(ls[next].as_str(), col);
    assert(all[next as int] == ls@[next as int]@);
    let mut idx: usize = 0;
    let mut i: usize = 0;
    proof {
        lemma_line_starts(text@, 0, next as int);
    }
    while i < next
        invariant
            all == views(ls@),
            all == split_on(text@, '\n'),
            text@.len() <= usize::MAX,
            i <= next < ls@.len(),
            line_start(all, next as int) <= text@.len(),
            idx == line_start(all, i as int),
        decreases next - i,
    {
        proof {
            lemma_line_start_grows(all, i as int + 1, next as int);
            assert(all[i as int] == ls@[i as int]@);
        }
        let chars = chars_of(ls[i].as_str());
        idx += chars.len() + 1;
        i += 1;
    }
    idx + target
}

proof fn lemma_line_start_grows(ls: Seq<Seq<char>>, i: int, n: int)
    requires
        0 <= i <= n <= ls.len(),
    ensures
        line_start(ls, i) <= line_start(ls, n),
    decreases n - i,
{
    if i < n {
        lemma_line_start_grows(ls, i, n - 1);
    }
}

/// The line that lies `delta` lines below `line`, `last` being the last one.
fn next_line_index(line: usize, delta: isize, last: usize) -> (next: usize)
    requires
        line <= last,
    ensures
        next <= last,
        next == line_below(line as nat, delta as int, (last + 1) as nat),
{
    if delta < 0 {
        let up: usize = magnitude(delta);
        if up > line {
            0
        } else {
            line - up
        }
    } else {
        let down: usize = delta as usize;
        if down > last - line {
            last
        } else {
            line + down
        }
    }
}

/// How far a negative number lies below zero.
fn magnitude(delta: isize) -> (n: usize)
    requires
        delta < 0,
    ensures
        n == -delta,
{
    let up: isize = -(delta + 1);
    up as usize + 1
}

/// The scroll position at which a line can be seen.
pub open spec fn scrolled(cursor_line: nat, scroll: nat, view_height: nat) -> nat {
    if view_height == 0 {
        scroll
    } else if cursor_line < scroll {
        cursor_line
    } else if cursor_line >= scroll + view_height {
        (cursor_line - (view_height - 1)) as nat
    } else {
        scroll
    }
}

/// Moves the scroll position no further than it takes to see the cursor line.
pub fn ensure_scroll(cursor_line: usize, scroll: usize, view_height: usize) -> (next: usize)
    requires
        scroll + view_height <= usize::MAX,
    ensures
        next == scrolled(cursor_line as nat, scroll as nat, view_height as nat),
{
    if view_height == 0 {
        return scroll;
    }
    if cursor_line < scroll {
        return cursor_line;
    }
    if cursor_line >= scroll + view_height {
        return cursor_line - (view_height - 1);
    }
    scroll
}

/// After scrolling the cursor line is in view, and scrolling again changes
/// nothing.
pub proof fn scrolling_shows_the_cursor(cursor_line: nat, scroll: nat, view_height: nat)
    requires
        view_height > 0,
    ensures
        scrolled(cursor_line, scroll, view_height) <= cursor_line,
        cursor_line < scrolled(cursor_line, scroll, view_height) + view_height,
        scrolled(cursor_line, scrolled(cursor_line, scroll, view_height), view_height) == scrolled(
            cursor_line,
            scroll,
            view_height,
        ),
{
}

// ---------------------------------------------------------------------------
// Snippets
// ---------------------------------------------------------------------------

/// A text and a cursor to go back to.
#[derive(Debug)]
pub struct UndoEntry {
    pub text: String,
    pub cursor: usize,
}

/// One snippet of the page under edit.
#[derive(Debug)]
pub struct SnippetEntry {
    pub path: Vec<usize>,
    pub typ: String,
    pub field: Option<String>,
    pub text: String,
    pub editable: bool,
    pub undo: VecDeque<UndoEntry>,
}

/// What an [`UndoEntry`] holds.
#[verifier::ext_equal]
pub struct UndoModel {
    pub text: Seq<char>,
    pub cursor: nat,
}

/// What a [`SnippetEntry`] holds.
#[verifier::ext_equal]
pub struct EntryModel {
    pub path: Seq<nat>,
    pub typ: Seq<char>,
    pub field: Option<Seq<char>>,
    pub text: Seq<char>,
    pub editable: bool,
    pub undo: Seq<UndoModel>,
}

impl View for UndoEntry {
    type V = UndoModel;

    open spec fn view(&self) -> UndoModel {
        UndoModel { text: self.text@, cursor: self.cursor as nat }
    }
}

pub open spec fn path_view(path: Seq<usize>) -> Seq<nat> {
    Seq::new(path.len(), |i: int| path[i] as nat)
}

pub open spec fn undo_views(v: Seq<UndoEntry>) -> Seq<UndoModel> {
    Seq::new(v.len(), |i: int| v[i]@)
}

impl View for SnippetEntry {
    type V = EntryModel;

    open spec fn view(&self) -> EntryModel {
        EntryModel {
            path: path_view(self.path@),
            typ: self.typ@,
            field: opt_view(self.field),
            text: self.text@,
            editable: self.editable,
            undo: undo_views(self.undo@),
        }
    }
}

pub open spec fn entry_views(v: Seq<SnippetEntry>) -> Seq<EntryModel> {
    Seq::new(v.len(), |i: int| v[i]@)
}

/// The first of some fields under which an item has a text.
pub open spec fn first_field(item: JsonModel, fields: Seq<Seq<char>>) -> Option<Seq<char>>
    decreases fields.len(),
{
    if fields.len() == 0 {
        None
    } else if item.get_str(fields[0]) is Some {
        Some(fields[0])
    } else {
        first_field(item, fields.drop_first())
    }
}

/// The fields that may hold the text of a text snippet, in order of priority.
pub open spec fn text_fields() -> Seq<Seq<char>> {
    seq!["string"@, "text"@, "content"@]
}

/// The fields that may hold the code of a code snippet, in order of priority.
pub open spec fn code_fields() -> Seq<Seq<char>> {
    seq!["code"@, "source"@]
}

/// Whether snippets of a type can be edited.
pub open spec fn editable_type(typ: Seq<char>) -> bool {
    typ == "textSnippet"@ || code_snippet(typ)
}

/// The field in which an item of an editable type keeps its text.
pub open spec fn field_of(typ: Seq<char>, item: JsonModel) -> Option<Seq<char>> {
    if typ == "textSnippet"@ {
        Some(or_text(first_field(item, text_fields()), "string"@))
    } else if code_snippet(typ) {
        Some(or_text(first_field(item, code_fields()), "code"@))
    } else {
        None
    }
}

fn has_text_field(item: &Json, field: &str) -> (found: bool)
    ensures
        found == (item@.get_str(field@) is Some),
{
    match item.get_str(field) {
        Some(_) => true,
        None => false,
    }
}

fn pick_text_field(item: &Json) -> (field: Option<String>)
    ensures
        opt_view(field) == first_field(item@, text_fields()),
{
    proof {
        reveal_with_fuel(first_field, 4);
        assert(text_fields().drop_first() =~= seq!["text"@, "content"@]);
        assert(seq!["text"@, "content"@].drop_first() =~= seq!["content"@]);
        assert(seq!["content"@].drop_first() =~= Seq::<Seq<char>>::empty());
    }
    if has_text_field(item, "string") {
        Some(copy_of("string"))
    } else if has_text_field(item, "text") {
        Some(copy_of("text"))
    } else if has_text_field(item, "content") {
        Some(copy_of("content"))
    } else {
        None
    }
}

fn pick_code_field(item: &Json) -> (field: Option<String>)
    ensures
        opt_view(field) == first_field(item@, code_fields()),
{
    proof {
        reveal_with_fuel(first_field, 3);
        assert(code_fields().drop_first() =~= seq!["source"@]);
        assert(seq!["source"@].drop_first() =~= Seq::<Seq<char>>::empty());
    }
    if has_text_field(item, "code") {
        Some(copy_of("code"))
    } else if has_text_field(item, "source") {
        Some(copy_of("source"))
    } else {
        None
    }
}

/// Whether an item can be edited, and in which field its text stands.
pub fn editable_field(typ: &str, item: &Json) -> (found: (bool, Option<String>))
    ensures
        found.0 == editable_type(typ@),
        opt_view(found.1) == field_of(typ@, item@),
{
    if same_text(typ, "textSnippet") {
        let field = match pick_text_field(item) {
            Some(f) => f,
            None => copy_of("string"),
        };
        return (true, Some(field));
    }
    if is_code_snippet(typ) {
        let field = match pick_code_field(item) {
            Some(f) => f,
            None => copy_of("code"),
        };
        return (true, Some(field));
    }
    (false, None)
}

/// The text that stands for an item that cannot be edited.
pub open spec fn preview_of(item: JsonModel) -> Seq<char> {
    match first_field(item, text_fields()) {
        Some(f) => or_text(item.get_str(f), Seq::empty()),
        None => match first_field(item, code_fields()) {
            Some(f) => or_text(item.get_str(f), Seq::empty()),
            None => Seq::empty(),
        },
    }
}

fn text_under(item: &Json, field: &str) -> (text: String)
    ensures
        text@ == or_text(item@.get_str(field@), Seq::empty()),
{
    match item.get_str(field) {
        Some(t) => copy_of(t),
        None => String::new(),
    }
}

fn snippet_preview(item: &Json) -> (text: String)
    ensures
        text@ == preview_of(item@),
{
    match pick_text_field(item) {
        Some(f) => text_under(item, f.as_str()),
        None => match pick_code_field(item) {
            Some(f) => text_under(item, f.as_str()),
            None => String::new(),
        },
    }
}

/// The type that the editor takes an item to have.
pub open spec fn edited_type(item: JsonModel) -> Seq<char> {
    or_text(item.get_str("__type"@), "<missing-type>"@)
}

/// The entry of the item at a path.
pub open spec fn entry_of(item: JsonModel, path: Seq<nat>) -> EntryModel {
    let typ = edited_type(item);
    let field = field_of(typ, item);
    EntryModel {
        path,
        typ,
        field,
        text: normalized(
            match field {
                Some(f) => or_text(item.get_str(f), Seq::empty()),
                None => preview_of(item),
            },
        ),
        editable: editable_type(typ),
        undo: Seq::empty(),
    }
}

/// The entries of the item at a path and of the items below it.
pub open spec fn item_entries(item: JsonModel, path: Seq<nat>) -> Seq<EntryModel>
    decreases item, 1nat,
{
    if children_of(item).len() == 0 {
        seq![entry_of(item, path)]
    } else {
        proof {
            crate::parse::lemma_children_decrease(item);
        }
        seq![entry_of(item, path)] + forest_entries(children_of(item), path)
    }
}

/// The entries of some items below the item at a path, and of the items below
/// them.
pub open spec fn forest_entries(items: Seq<JsonModel>, path: Seq<nat>) -> Seq<EntryModel>
    decreases items, 0nat,
{
    if items.len() == 0 {
        Seq::empty()
    } else {
        forest_entries(items.take(items.len() - 1), path) + item_entries(
            items[items.len() - 1],
            path.push((items.len() - 1) as nat),
        )
    }
}

fn entry_for(item: &Json, path: Vec<usize>) -> (entry: SnippetEntry)
    ensures
        entry@ == entry_of(item@, path_view(path@)),
{
    let typ = match item.get_str("__type") {
        Some(t) => copy_of(t),
        None => copy_of("<missing-type>"),
    };
    let (editable, field) = editable_field(typ.as_str(), item);
    let text = match &field {
        Some(f) => text_under(item, f.as_str()),
        None => snippet_preview(item),
    };
    let text = normalize_text(text.as_str());
    let undo: VecDeque<UndoEntry> = VecDeque::new();
    assert(undo_views(undo@) =~= Seq::<UndoModel>::empty());
    SnippetEntry { path, typ, field, text, editable, undo }
}

fn longer_path(path: &Vec<usize>, idx: usize) -> (longer: Vec<usize>)
    ensures
        path_view(longer@) == path_view(path@).push(idx as nat),
{
    let mut longer: Vec<usize> = Vec::new();
    let mut i: usize = 0;
    while i < path.len()
        invariant
            i <= path@.len(),
            longer@ == path@.take(i as int),
        decreases path.len() - i,
    {
        longer.push(path[i]);
        i += 1;
        assert(longer@ =~= path@.take(i as int));
    }
    longer.push(idx);
    assert(path_view(longer@) =~= path_view(path@).push(idx as nat));
    longer
}

fn copy_path(path: &Vec<usize>) -> (copy: Vec<usize>)
    ensures
        copy@ == path@,
{
    let mut copy: Vec<usize> = Vec::new();
    let mut i: usize = 0;
    while i < path.len()
        invariant
            i <= path@.len(),
            copy@ == path@.take(i as int),
        decreases path.len() - i,
    {
        copy.push(path[i]);
        i += 1;
        assert(copy@ =~= path@.take(i as int));
    }
    assert(path@.take(i as int) =~= path@);
    copy
}

/// Adds the entries of the snippets below an item, in the order of the page.
pub fn collect_snippets(raw: &Json, path: Vec<usize>, out: &mut Vec<SnippetEntry>)
    ensures
        entry_views(final(out)@) == entry_views(old(out)@) + forest_entries(
            children_of(raw@),
            path_view(path@),
        ),
    decreases raw,
{
    let kids = match children(raw) {
        Some(v) => v,
        None => {
            assert(children_of(raw@) =~= Seq::<JsonModel>::empty());
            assert(entry_views(out@) =~= entry_views(old(out)@) + forest_entries(
                children_of(raw@),
                path_view(path@),
            ));
            return;
        },
    };
    let ghost all = json_views(kids@);
    let ghost start = entry_views(out@);
    let ghost at = path_view(path@);
    let mut idx: usize = 0;
    assert(all.take(0) =~= Seq::<JsonModel>::empty());
    assert(entry_views(out@) =~= start + forest_entries(all.take(0), at));
    while idx < kids.len()
        invariant
            idx <= kids@.len(),
            all == json_views(kids@),
            at == path_view(path@),
            decreases_to!(*raw => *kids),
            entry_views(out@) == start + forest_entries(all.take(idx as int), at),
        decreases kids.len() - idx,
    {
        let item = &kids[idx];
        proof {
            let next = all.take(idx as int + 1);
            assert(next.take(next.len() - 1) =~= all.take(idx as int));
            assert(next[next.len() - 1] == item@);
            assert(decreases_to!(*kids => kids@));
            assert(decreases_to!(kids@ => kids@[idx as int]));
        }
        let current_path = longer_path(&path, idx);
        let entry = entry_for(item, copy_path(&current_path));
        let ghost before = entry_views(out@);
        let ghost there = path_view(current_path@);
        out.push(entry);
        assert(entry_views(out@) =~= before.push(entry_of(item@, there)));
        collect_snippets(item, current_path, out);
        proof {
            assert(entry_views(out@) =~= before + item_entries(item@, there)) by {
                if children_of(item@).len() == 0 {
                    assert(children_of(item@) =~= Seq::<JsonModel>::empty());
                }
            }
            let next = all.take(idx as int + 1);
            assert(entry_views(out@) =~= start + forest_entries(next, at));
        }
        idx += 1;
    }
    assert(all.take(idx as int) =~= all);
}

/// An item once its children are `kids`, where it has a list of children.
pub open spec fn with_children(item: JsonModel, kids: Seq<JsonModel>) -> JsonModel {
    match item {
        JsonModel::Object(members) => match member_from(members, 0, "children"@) {
            Some(JsonModel::Object(inner)) => match member_from(inner, 0, "items"@) {
                Some(JsonModel::Array(_)) => JsonModel::Object(
                    member_set(
                        members,
                        "children"@,
                        JsonModel::Object(member_set(inner, "items"@, JsonModel::Array(kids))),
                    ),
                ),
                _ => item,
            },
            _ => item,
        },
        _ => item,
    }
}

/// An item once a field of the item at a path below it holds `text`.
pub open spec fn with_text_at(
    item: JsonModel,
    path: Seq<nat>,
    field: Seq<char>,
    text: Seq<char>,
) -> JsonModel
    decreases path.len(),
{
    if path.len() == 0 {
        match item {
            JsonModel::Object(members) => JsonModel::Object(
                member_set(members, field, JsonModel::Str(text)),
            ),
            _ => item,
        }
    } else {
        let kids = children_of(item);
        if path[0] < kids.len() {
            with_children(
                item,
                kids.update(
                    path[0] as int,
                    with_text_at(kids[path[0] as int], path.drop_first(), field, text),
                ),
            )
        } else {
            item
        }
    }
}

/// The item at a path below an item.
pub open spec fn item_at(item: JsonModel, path: Seq<nat>) -> Option<JsonModel>
    decreases path.len(),
{
    if path.len() == 0 {
        Some(item)
    } else if path[0] < children_of(item).len() {
        item_at(children_of(item)[path[0] as int], path.drop_first())
    } else {
        None
    }
}

/// The item at a path below an item.
pub fn snippet_at_path<'a>(raw: &'a Json, path: &Vec<usize>) -> (found: Option<&'a Json>)
    ensures
        opt_json_view(found) == item_at(raw@, path_view(path@)),
{
    let ghost steps = path_view(path@);
    let mut current = raw;
    let mut i: usize = 0;
    assert(steps.skip(0) =~= steps);
    while i < path.len()
        invariant
            i <= path@.len(),
            steps == path_view(path@),
            item_at(raw@, steps) == item_at(current@, steps.skip(i as int)),
        decreases path.len() - i,
    {
        assert(steps.skip(i as int)[0] == path@[i as int]);
        assert(steps.skip(i as int).drop_first() =~= steps.skip(i as int + 1));
        match children(current) {
            Some(kids) => {
                if path[i] >= kids.len() {
                    return None;
                }
                current = &kids[path[i]];
            },
            None => {
                return None;
            },
        }
        i += 1;
    }
    Some(current)
}

proof fn lemma_with_children(item: JsonModel, kids: Seq<JsonModel>)
    requires
        has_child_list(item),
    ensures
        children_of(with_children(item, kids)) == kids,
{
    let members = item->Object_0;
    let inner = (member_from(members, 0, "children"@)->0)->Object_0;
    setting_a_member_sets_it(inner, "items"@, JsonModel::Array(kids), "items"@);
    setting_a_member_sets_it(
        members,
        "children"@,
        JsonModel::Object(member_set(inner, "items"@, JsonModel::Array(kids))),
        "children"@,
    );
}

/// A text that was written at a path is read back there, and the other fields of
/// the item keep their values.
pub proof fn a_written_text_is_read_back(
    item: JsonModel,
    path: Seq<nat>,
    field: Seq<char>,
    text: Seq<char>,
    other: Seq<char>,
)
    requires
        item_at(item, path) is Some,
        item_at(item, path)->0 is Object,
    ensures
        item_at(with_text_at(item, path, field, text), path) is Some,
        (item_at(with_text_at(item, path, field, text), path)->0).get(other) == (if other == field {
            Some(JsonModel::Str(text))
        } else {
            (item_at(item, path)->0).get(other)
        }),
    decreases path.len(),
{
    if path.len() == 0 {
        setting_a_member_sets_it(item->Object_0, field, JsonModel::Str(text), other);
    } else {
        let kids = children_of(item);
        let kid = kids[path[0] as int];
        a_written_text_is_read_back(kid, path.drop_first(), field, text, other);
        let changed = with_text_at(kid, path.drop_first(), field, text);
        lemma_with_children(item, kids.update(path[0] as int, changed));
    }
}

/// Writes a text into a field of the item at the rest of a path.
fn write_text_at(item: &mut Json, path: &Vec<usize>, depth: usize, field: &str, text: &str)
    requires
        depth <= path@.len(),
    ensures
        final(item)@ == with_text_at(
            old(item)@,
            path_view(path@).skip(depth as int),
            field@,
            text@,
        ),
    decreases path@.len() - depth,
{
    let ghost rest = path_view(path@).skip(depth as int);
    let ghost before = *item;
    proof {
        lemma_json_view(before);
    }
    if depth == path.len() {
        if let Json::Object(members) = item {
            set_member(members, field, Json::Str(copy_of(text)));
        }
        proof {
            lemma_json_view(*item);
        }
        return;
    }
    let p: usize = path[depth];
    proof {
        assert(rest[0] == p);
        assert(rest.drop_first() =~= path_view(path@).skip(depth + 1));
    }
    if let Json::Object(members) = item {
        let at: usize = find_member(members, "children");
        proof {
            lemma_found(member_views(members@), at as int, "children"@);
        }
        if at < members.len() {
            let child = &mut members[at];
            proof {
                lemma_json_view(child.value);
            }
            if let Json::Object(inner) = &mut child.value {
                let place: usize = find_member(inner, "items");
                proof {
                    lemma_found(member_views(inner@), place as int, "items"@);
                }
                if place < inner.len() {
                    let list = &mut inner[place];
                    proof {
                        lemma_json_view(list.value);
                    }
                    if let Json::Array(kids) = &mut list.value {
                        if p < kids.len() {
                            write_text_at(&mut kids[p], path, depth + 1, field, text);
                        }
                    }
                }
            }
        }
    }
    proof {
        lemma_json_view(*item);
        if before is Object {
            let m0 = before->Object_0@;
            let m1 = item->Object_0@;
            let at = member_position(member_views(m0), 0, "children"@);
            lemma_found(member_views(m0), at, "children"@);
            if at < m0.len() {
                let c0 = m0[at].value;
                let c1 = m1[at].value;
                lemma_json_view(c0);
                lemma_json_view(c1);
                assert(member_views(m0)[at] == m0[at]@);
                if c0 is Object {
                    let i0 = c0->Object_0@;
                    let i1 = c1->Object_0@;
                    let place = member_position(member_views(i0), 0, "items"@);
                    lemma_found(member_views(i0), place, "items"@);
                    if place < i0.len() {
                        let a0 = i0[place].value;
                        let a1 = i1[place].value;
                        lemma_json_view(a0);
                        lemma_json_view(a1);
                        assert(member_views(i0)[place] == i0[place]@);
                        if a0 is Array && p < a0->Array_0@.len() {
                            let k0 = a0->Array_0@;
                            let k1 = a1->Array_0@;
                            assert(json_views(k0)[p as int] == k0[p as int]@);
                            assert(json_views(k1) =~= json_views(k0).update(p as int, k1[p as int]@));
                            assert(member_views(i1) =~= member_set(
                                member_views(i0),
                                "items"@,
                                a1@,
                            ));
                            assert(member_views(m1) =~= member_set(
                                member_views(m0),
                                "children"@,
                                c1@,
                            ));
                        } else {
                            if a0 is Array {
                                assert(json_views(a1->Array_0@) =~= json_views(a0->Array_0@));
                            }
                            assert(a1@ == a0@);
                            assert(member_views(i1) =~= member_views(i0));
                            assert(member_views(m1) =~= member_views(m0));
                        }
                    } else {
                        assert(member_views(i1) =~= member_views(i0));
                        assert(member_views(m1) =~= member_views(m0));
                    }
                } else {
                    assert(member_views(m1) =~= member_views(m0));
                }
            }
        }
    }
}

proof fn lemma_found(members: Seq<MemberModel>, at: int, key: Seq<char>)
    requires
        at == member_position(members, 0, key),
    ensures
        0 <= at <= members.len(),
        member_from(members, 0, key) == (if at < members.len() {
            Some(members[at].value)
        } else {
            None
        }),
        at < members.len() ==> members[at].name == key,
{
    crate::json::lemma_member_position(members, 0, key);
}

/// Whether an item has a list of children, be it empty.
pub open spec fn has_child_list(item: JsonModel) -> bool {
    match item.get("children"@) {
        Some(c) => c.get("items"@) matches Some(JsonModel::Array(_)),
        None => false,
    }
}

/// Adds a child behind the others, where an item has a list of children.
fn push_child(item: &mut Json, kid: Json) -> (pushed: bool)
    ensures
        pushed == has_child_list(old(item)@),
        pushed ==> final(item)@ == with_children(
            old(item)@,
            children_of(old(item)@).push(kid@),
        ),
        !pushed ==> final(item)@ == old(item)@,
{
    let ghost before = *item;
    let ghost added = kid@;
    let mut pushed = false;
    proof {
        lemma_json_view(before);
    }
    if let Json::Object(members) = item {
        let at: usize = find_member(members, "children");
        if at < members.len() {
            let child = &mut members[at];
            if let Json::Object(inner) = &mut child.value {
                let place: usize = find_member(inner, "items");
                if place < inner.len() {
                    let list = &mut inner[place];
                    if let Json::Array(kids) = &mut list.value {
                        kids.push(kid);
                        pushed = true;
                    }
                }
            }
        }
    }
    proof {
        lemma_json_view(*item);
        if before is Object {
            let m0 = before->Object_0@;
            let m1 = item->Object_0@;
            let at = member_position(member_views(m0), 0, "children"@);
            lemma_found(member_views(m0), at, "children"@);
            if at < m0.len() {
                let c0 = m0[at].value;
                let c1 = m1[at].value;
                lemma_json_view(c0);
                lemma_json_view(c1);
                assert(member_views(m0)[at] == m0[at]@);
                if c0 is Object {
                    let i0 = c0->Object_0@;
                    let i1 = c1->Object_0@;
                    let place = member_position(member_views(i0), 0, "items"@);
                    lemma_found(member_views(i0), place, "items"@);
                    if place < i0.len() {
                        let a0 = i0[place].value;
                        let a1 = i1[place].value;
                        lemma_json_view(a0);
                        lemma_json_view(a1);
                        assert(member_views(i0)[place] == i0[place]@);
                        if a0 is Array {
                            let k0 = a0->Array_0@;
                            let k1 = a1->Array_0@;
                            assert(json_views(k1) =~= json_views(k0).push(added));
                            assert(member_views(i1) =~= member_set(
                                member_views(i0),
                                "items"@,
                                a1@,
                            ));
                            assert(member_views(m1) =~= member_set(
                                member_views(m0),
                                "children"@,
                                c1@,
                            ));
                        } else {
                            assert(member_views(i1) =~= member_views(i0));
                            assert(member_views(m1) =~= member_views(m0));
                        }
                    } else {
                        assert(member_views(i1) =~= member_views(i0));
                        assert(member_views(m1) =~= member_views(m0));
                    }
                } else {
                    assert(member_views(m1) =~= member_views(m0));
                }
            }
        }
    }
    pushed
}

// ---------------------------------------------------------------------------
// The state of the editor
// ---------------------------------------------------------------------------

/// A page under edit. Points in time are in milliseconds.
#[derive(Debug)]
pub struct EditState {
    pub page_id: String,
    pub path: String,
    pub raw: Json,
    pub snippets: Vec<SnippetEntry>,
    pub selected: usize,
    pub buffer: String,
    pub cursor: usize,
    pub preview_scroll: usize,
    pub follow_cursor: bool,
    pub last_snapshot: Option<u64>,
    pub snapshot_pending: bool,
    pub dirty: bool,
    pub last_edit: Option<u64>,
}

/// What an [`EditState`] holds.
#[verifier::ext_equal]
pub struct EditModel {
    pub page_id: Seq<char>,
    pub path: Seq<char>,
    pub raw: JsonModel,
    pub snippets: Seq<EntryModel>,
    pub selected: nat,
    pub buffer: Seq<char>,
    pub cursor: nat,
    pub preview_scroll: nat,
    pub follow_cursor: bool,
    pub last_snapshot: Option<u64>,
    pub snapshot_pending: bool,
    pub dirty: bool,
    pub last_edit: Option<u64>,
}

impl View for EditState {
    type V = EditModel;

    open spec fn view(&self) -> EditModel {
        EditModel {
            page_id: self.page_id@,
            path: self.path@,
            raw: self.raw@,
            snippets: entry_views(self.snippets@),
            selected: self.selected as nat,
            buffer: self.buffer@,
            cursor: self.cursor as nat,
            preview_scroll: self.preview_scroll as nat,
            follow_cursor: self.follow_cursor,
            last_snapshot: self.last_snapshot,
            snapshot_pending: self.snapshot_pending,
            dirty: self.dirty,
            last_edit: self.last_edit,
        }
    }
}

/// How many steps can be undone in one snippet.
pub const UNDO_LIMIT: usize = 200;

/// For how long edits go into one step, in milliseconds.
pub const SNAPSHOT_MS: u64 = 750;

/// Whether a span of time has passed between two points. A point that lies
/// before the other counts as no time after it.
pub open spec fn has_passed(since: u64, now: u64, span: u64) -> bool {
    (if now >= since {
        now - since
    } else {
        0
    }) >= span
}

fn passed(since: u64, now: u64, span: u64) -> (p: bool)
    ensures
        p == has_passed(since, now, span),
{
    if now >= since {
        now - since >= span
    } else {
        0 >= span
    }
}

/// The steps of a snippet once another one comes on top. The oldest makes room.
pub open spec fn undo_pushed(undo: Seq<UndoModel>, u: UndoModel) -> Seq<UndoModel> {
    (if undo.len() >= UNDO_LIMIT {
        undo.drop_first()
    } else {
        undo
    }).push(u)
}

impl EditModel {
    /// The snippet under edit.
    pub open spec fn current(self) -> Option<EntryModel> {
        if self.selected < self.snippets.len() {
            Some(self.snippets[self.selected as int])
        } else {
            None
        }
    }

    /// Whether the snippet under edit can be edited.
    pub open spec fn editable(self) -> bool {
        self.current() is Some && (self.current()->0).editable
    }

    /// The state in which the snippet under edit has another entry.
    pub open spec fn with_entry(self, entry: EntryModel) -> EditModel {
        EditModel { snippets: self.snippets.update(self.selected as int, entry), ..self }
    }

    /// The page once the field of a snippet holds the buffer.
    pub open spec fn written(self, entry: EntryModel) -> JsonModel {
        match entry.field {
            Some(f) => with_text_at(self.raw, entry.path, f, self.buffer),
            None => self.raw,
        }
    }

    /// The state once another text is in the buffer.
    pub open spec fn with_buffer(self, text: Seq<char>) -> EditModel {
        EditModel {
            buffer: normalized(text),
            cursor: normalized(text).len(),
            last_snapshot: None,
            snapshot_pending: true,
            ..self
        }
    }

    /// The state once the buffer has gone into the page. Nothing happens where
    /// the snippet cannot be edited or has that text.
    pub open spec fn committed(self, now: u64) -> EditModel {
        if self.editable() && (self.current()->0).text != self.buffer {
            let entry = self.current()->0;
            EditModel {
                raw: self.written(entry),
                dirty: true,
                last_edit: Some(now),
                ..self.with_entry(EntryModel { text: self.buffer, ..entry })
            }
        } else {
            self
        }
    }

    /// The state once the buffer and the cursor can be gone back to.
    pub open spec fn snapped(self) -> EditModel {
        if self.editable() {
            let entry = self.current()->0;
            self.with_entry(
                EntryModel {
                    undo: undo_pushed(
                        entry.undo,
                        UndoModel { text: self.buffer, cursor: self.cursor },
                    ),
                    ..entry
                },
            )
        } else {
            self
        }
    }

    /// Whether a change starts another step.
    pub open spec fn snapshot_due(self, now: u64) -> bool {
        self.snapshot_pending || match self.last_snapshot {
            Some(last) => has_passed(last, now, SNAPSHOT_MS),
            None => true,
        }
    }

    /// The state before a change.
    pub open spec fn snapped_if_due(self, now: u64) -> EditModel {
        if self.snapshot_due(now) {
            EditModel { last_snapshot: Some(now), snapshot_pending: false, ..self.snapped() }
        } else {
            self
        }
    }

    /// Whether there is a step to undo.
    pub open spec fn can_undo(self) -> bool {
        self.editable() && (self.current()->0).undo.len() > 0
    }

    /// The state before the last step.
    pub open spec fn undone(self, now: u64) -> EditModel {
        if self.can_undo() {
            let entry = self.current()->0;
            let last = entry.undo.last();
            let back = EditModel { buffer: last.text, ..self };
            EditModel {
                raw: back.written(entry),
                cursor: least(last.cursor, last.text.len()),
                dirty: true,
                last_edit: Some(now),
                last_snapshot: Some(now),
                snapshot_pending: true,
                ..back.with_entry(
                    EntryModel { text: last.text, undo: entry.undo.drop_last(), ..entry },
                )
            }
        } else {
            self
        }
    }

    /// Whether the page is to be saved: it has changed, and not for a while.
    pub open spec fn autosave_due(self, now: u64, delay: u64) -> bool {
        self.dirty && match self.last_edit {
            Some(last) => has_passed(last, now, delay),
            None => false,
        }
    }

    /// The state with an empty text snippet behind the others, under edit.
    /// Nothing happens where the page has no list of snippets.
    pub open spec fn appended(self, now: u64) -> EditModel {
        if has_child_list(self.raw) {
            let grown = EditModel {
                raw: with_children(self.raw, children_of(self.raw).push(empty_snippet())),
                ..self
            }.committed(now);
            let snippets = forest_entries(children_of(grown.raw), Seq::empty());
            let chosen = EditModel {
                snippets,
                selected: if snippets.len() == 0 {
                    0
                } else {
                    (snippets.len() - 1) as nat
                },
                ..grown
            };
            EditModel {
                dirty: true,
                last_edit: Some(now),
                ..match chosen.current() {
                    Some(entry) => chosen.with_buffer(entry.text),
                    None => chosen,
                }
            }
        } else {
            self
        }
    }

    /// Whether the buffer, and each text that can be gone back to, has no
    /// carriage return, and the cursor stands in the text.
    pub open spec fn clean(self) -> bool {
        &&& !contains_char(self.buffer, '\r')
        &&& self.cursor <= self.buffer.len()
        &&& forall|i: int| 0 <= i < self.snippets.len() ==> clean_undo(
            (#[trigger] self.snippets[i]).undo,
        )
    }
}

/// Whether no text that can be gone back to has a carriage return.
pub open spec fn clean_undo(undo: Seq<UndoModel>) -> bool {
    forall|i: int| 0 <= i < undo.len() ==> !contains_char((#[trigger] undo[i]).text, '\r')
}

/// A text snippet without text.
pub open spec fn empty_snippet() -> JsonModel {
    JsonModel::Object(
        seq![text_member("__type"@, "textSnippet"@), text_member("string"@, Seq::empty())],
    )
}

impl EditState {
    /// The state in which a page's first snippet is about to be edited.
    pub fn new(
        page_id: String,
        path: String,
        raw: Json,
        snippets: Vec<SnippetEntry>,
        buffer: String,
    ) -> (edit: Self)
        ensures
            edit@ == (EditModel {
                page_id: page_id@,
                path: path@,
                raw: raw@,
                snippets: entry_views(snippets@),
                selected: 0,
                buffer: normalized(buffer@),
                cursor: normalized(buffer@).len(),
                preview_scroll: 0,
                follow_cursor: true,
                last_snapshot: None,
                snapshot_pending: true,
                dirty: false,
                last_edit: None,
            }),
    {
        let buffer = normalize_text(buffer.as_str());
        let cursor: usize = count_chars(buffer.as_str());
        EditState {
            page_id,
            path,
            raw,
            snippets,
            selected: 0,
            buffer,
            cursor,
            preview_scroll: 0,
            follow_cursor: true,
            last_snapshot: None,
            snapshot_pending: true,
            dirty: false,
            last_edit: None,
        }
    }

    /// The snippet under edit.
    pub fn current(&self) -> (found: Option<&SnippetEntry>)
        ensures
            match found {
                Some(entry) => self@.current() == Some(entry@),
                None => self@.current() is None,
            },
            found is Some ==> self.selected < self.snippets@.len() && *found->0
                == self.snippets@[self.selected as int],
    {
        if self.selected < self.snippets.len() {
            Some(&self.snippets[self.selected])
        } else {
            None
        }
    }

    /// The selected snippet, to be changed.
    pub fn current_mut(&mut self) -> (found: Option<&mut SnippetEntry>)
        ensures
            match found {
                Some(entry) => {
                    &&& old(self).selected < old(self).snippets@.len()
                    &&& *entry == old(self).snippets@[old(self).selected as int]
                    &&& final(self)@ == (EditModel {
                        snippets: old(self)@.snippets.update(
                            old(self).selected as int,
                            (*final(entry))@,
                        ),
                        ..old(self)@
                    })
                },
                None => old(self).selected >= old(self).snippets@.len() && *final(self) == *old(
                    self,
                ),
            },
    {
        if self.selected < self.snippets.len() {
            Some(&mut self.snippets[self.selected])
        } else {
            None
        }
    }

    /// Whether the snippet that is shown can be edited.
    pub fn is_editable(&self) -> (b: bool)
        ensures
            b == self@.editable(),
    {
        match self.current() {
            Some(entry) => entry.editable,
            None => false,
        }
    }

    /// Puts another text into the buffer and the cursor at its end.
    pub fn set_buffer(&mut self, text: String)
        ensures
            final(self)@ == old(self)@.with_buffer(text@),
    {
        self.buffer = normalize_text(text.as_str());
        self.cursor = count_chars(self.buffer.as_str());
        self.last_snapshot = None;
        self.snapshot_pending = true;
    }

    /// Writes the buffer into a field of the page.
    fn write_buffer(&mut self, path: &Vec<usize>, field: &Option<String>)
        ensures
            final(self)@ == (EditModel {
                raw: match opt_view(*field) {
                    Some(f) => with_text_at(
                        old(self)@.raw,
                        path_view(path@),
                        f,
                        old(self)@.buffer,
                    ),
                    None => old(self)@.raw,
                },
                ..old(self)@
            }),
            final(self).snippets == old(self).snippets,
    {
        if let Some(f) = field {
            write_text_at(&mut self.raw, path, 0, f.as_str(), self.buffer.as_str());
            assert(path_view(path@).skip(0) =~= path_view(path@));
        }
    }

    /// Writes the buffer into the page.
    pub fn commit_buffer(&mut self, now: u64)
        ensures
            final(self)@ == old(self)@.committed(now),
    {
        let ghost before = self@;
        if self.selected >= self.snippets.len() {
            return;
        }
        let i: usize = self.selected;
        assert(before.snippets[i as int] == self.snippets@[i as int]@);
        if !self.snippets[i].editable || same_text(
            self.snippets[i].text.as_str(),
            self.buffer.as_str(),
        ) {
            return;
        }
        let path = copy_path(&self.snippets[i].path);
        let field = self.snippets[i].field.clone();
        self.snippets[i].text = self.buffer.clone();
        self.write_buffer(&path, &field);
        self.dirty = true;
        self.last_edit = Some(now);
        assert(self@.snippets =~= before.committed(now).snippets);
    }

    /// Makes the buffer and the cursor something to go back to.
    pub fn push_undo_snapshot(&mut self)
        ensures
            final(self)@ == old(self)@.snapped(),
    {
        let ghost before = self@;
        if self.selected >= self.snippets.len() {
            return;
        }
        let i: usize = self.selected;
        assert(before.snippets[i as int] == self.snippets@[i as int]@);
        if !self.snippets[i].editable {
            return;
        }
        let snapshot = UndoEntry { text: self.buffer.clone(), cursor: self.cursor };
        let ghost steps = self.snippets@[i as int].undo@;
        let entry = &mut self.snippets[i];
        if entry.undo.len() >= UNDO_LIMIT {
            let _oldest = entry.undo.pop_front();
        }
        entry.undo.push_back(snapshot);
        assert(undo_views(entry.undo@) =~= undo_pushed(undo_views(steps), snapshot@));
        assert(self@.snippets =~= before.snapped().snippets);
    }

    /// Starts another step where one is due.
    pub fn maybe_push_undo_snapshot(&mut self, now: u64)
        ensures
            final(self)@ == old(self)@.snapped_if_due(now),
    {
        let elapsed_ok = match self.last_snapshot {
            Some(last) => passed(last, now, SNAPSHOT_MS),
            None => true,
        };
        if self.snapshot_pending || elapsed_ok {
            self.push_undo_snapshot();
            self.last_snapshot = Some(now);
            self.snapshot_pending = false;
        }
    }

    /// Goes back by one step.
    pub fn undo(&mut self, now: u64) -> (undone: bool)
        ensures
            undone == old(self)@.can_undo(),
            final(self)@ == old(self)@.undone(now),
    {
        let ghost before = self@;
        if self.selected >= self.snippets.len() {
            return false;
        }
        let i: usize = self.selected;
        assert(before.snippets[i as int] == self.snippets@[i as int]@);
        if !self.snippets[i].editable {
            return false;
        }
        let ghost steps = self.snippets@[i as int].undo@;
        let entry = &mut self.snippets[i];
        let prev = match entry.undo.pop_back() {
            Some(prev) => prev,
            None => {
                assert(undo_views(entry.undo@) =~= undo_views(steps));
                assert(self@.snippets =~= before.snippets);
                return false;
            },
        };
        assert(undo_views(entry.undo@) =~= undo_views(steps).drop_last());
        assert(undo_views(steps).last() == prev@);
        entry.text = prev.text.clone();
        let path = copy_path(&self.snippets[i].path);
        let field = self.snippets[i].field.clone();
        self.buffer = prev.text;
        let count: usize = count_chars(self.buffer.as_str());
        self.cursor = if prev.cursor < count {
            prev.cursor
        } else {
            count
        };
        self.write_buffer(&path, &field);
        self.dirty = true;
        self.last_edit = Some(now);
        self.last_snapshot = Some(now);
        self.snapshot_pending = true;
        assert(self@.snippets =~= before.undone(now).snippets);
        true
    }

    /// Whether the page is to be saved now.
    pub fn maybe_autosave(&self, now: u64, delay: u64) -> (due: bool)
        ensures
            due == self@.autosave_due(now, delay),
    {
        if !self.dirty {
            return false;
        }
        match self.last_edit {
            Some(last) => passed(last, now, delay),
            None => false,
        }
    }

    /// Adds an empty text snippet at the end of the page and puts it under edit.
    pub fn append_text_snippet(&mut self, now: u64)
        ensures
            final(self)@ == old(self)@.appended(now),
    {
        let ghost before = self@;
        let mut members: Vec<Member> = Vec::new();
        members.push(member_of_text("__type", "textSnippet"));
        members.push(member_of_text("string", ""));
        assert(member_views(members@) =~= empty_snippet()->Object_0) by {
            reveal_strlit("");
            assert(""@ =~= Seq::<char>::empty());
        }
        let snippet = object_of(members);
        if !push_child(&mut self.raw, snippet) {
            return;
        }
        self.commit_buffer(now);
        let mut snippets: Vec<SnippetEntry> = Vec::new();
        let none: Vec<usize> = Vec::new();
        assert(path_view(none@) =~= Seq::<nat>::empty());
        let ghost start = entry_views(snippets@);
        collect_snippets(&self.raw, none, &mut snippets);
        assert(entry_views(snippets@) =~= forest_entries(
            children_of(self.raw@),
            Seq::empty(),
        ));
        self.selected = if snippets.len() == 0 {
            0
        } else {
            snippets.len() - 1
        };
        self.snippets = snippets;
        let text = match self.current() {
            Some(entry) => Some(entry.text.clone()),
            None => None,
        };
        if let Some(t) = text {
            self.set_buffer(t);
        }
        self.dirty = true;
        self.last_edit = Some(now);
    }
}

/// How long a page rests before it is saved, in milliseconds, where nothing else
/// is set.
pub const AUTOSAVE_MS: u64 = 500;

/// How long a page rests before it is saved: what a setting says, where it is a
/// number.
pub fn autosave_delay(setting: Option<&str>) -> (delay: u64)
    ensures
        match setting {
            Some(t) => if all_digits(unsigned_part(t@)) && number_value(unsigned_part(t@))
                <= u64::MAX {
                delay == number_value(unsigned_part(t@))
            } else {
                delay == AUTOSAVE_MS
            },
            None => delay == AUTOSAVE_MS,
        },
{
    match setting {
        Some(t) => match parse_number(t) {
            Some(n) => n,
            None => AUTOSAVE_MS,
        },
        None => AUTOSAVE_MS,
    }
}

/// How many characters a text has.
pub fn count_chars(s: &str) -> (n: usize)
    ensures
        n == s@.len(),
{
    let v = chars_of(s);
    v.len()
}

/// Moves the cursor by some lines.
pub fn move_cursor_vertical(edit: &mut EditState, delta: isize)
    requires
        !contains_char(old(edit).buffer@, '\r'),
        4 * old(edit).buffer@.len() <= usize::MAX,
    ensures
        final(edit)@ == (EditModel {
            cursor: moved_vertically(old(edit)@.buffer, old(edit)@.cursor, delta as int),
            ..old(edit)@
        }),
        final(edit)@.cursor <= final(edit)@.buffer.len(),
{
    edit.cursor = cursor_moved_vertically(edit.buffer.as_str(), edit.cursor, delta);
}

// ---------------------------------------------------------------------------
// What holds of every edit
// ---------------------------------------------------------------------------

/// Undoing gives back the buffer and the cursor as they were when the step
/// began, whatever was typed since.
pub proof fn undoing_goes_back(
    e: EditModel,
    buffer: Seq<char>,
    cursor: nat,
    typed_at: u64,
    undone_at: u64,
)
    requires
        e.editable(),
        e.cursor <= e.buffer.len(),
    ensures
        ({
            let changed = EditModel { buffer, cursor, ..e.snapped() }.committed(typed_at);
            let back = changed.undone(undone_at);
            &&& changed.can_undo()
            &&& back.buffer == e.buffer
            &&& back.cursor == e.cursor
            &&& back.current() is Some
            &&& (back.current()->0).text == e.buffer
            &&& (e.current()->0).undo.len() < UNDO_LIMIT ==> (back.current()->0).undo == (
            e.current()->0).undo
        }),
{
    let changed = EditModel { buffer, cursor, ..e.snapped() }.committed(typed_at);
    let entry = e.current()->0;
    let step = UndoModel { text: e.buffer, cursor: e.cursor };
    let steps = undo_pushed(entry.undo, step);
    assert((changed.current()->0).undo == steps);
    assert(steps.last() == step);
    if entry.undo.len() < UNDO_LIMIT {
        assert(steps.drop_last() =~= entry.undo);
    }
}

/// No snippet ever has more steps to undo than the limit.
pub proof fn steps_stay_within_the_limit(e: EditModel, i: int)
    requires
        forall|k: int| 0 <= k < e.snippets.len() ==> (#[trigger] e.snippets[k]).undo.len()
            <= UNDO_LIMIT,
        0 <= i < e.snippets.len(),
    ensures
        e.snapped().snippets.len() == e.snippets.len(),
        e.snapped().snippets[i].undo.len() <= UNDO_LIMIT,
{
    assert(e.snippets[i].undo.len() <= UNDO_LIMIT);
}

/// Committing a buffer that is already in the page changes nothing.
pub proof fn committing_again_changes_nothing(e: EditModel, now: u64, later: u64)
    ensures
        e.committed(now).committed(later) == e.committed(now),
{
}

proof fn lemma_field_is_not_the_type(typ: Seq<char>, item: JsonModel)
    requires
        editable_type(typ),
    ensures
        field_of(typ, item) is Some,
        field_of(typ, item)->0 != "__type"@,
{
    reveal_with_fuel(first_field, 4);
    assert(text_fields().drop_first() =~= seq!["text"@, "content"@]);
    assert(seq!["text"@, "content"@].drop_first() =~= seq!["content"@]);
    assert(seq!["content"@].drop_first() =~= Seq::<Seq<char>>::empty());
    assert(code_fields().drop_first() =~= seq!["source"@]);
    assert(seq!["source"@].drop_first() =~= Seq::<Seq<char>>::empty());
    reveal_strlit("__type");
    reveal_strlit("string");
    reveal_strlit("text");
    reveal_strlit("content");
    reveal_strlit("code");
    reveal_strlit("source");
    assert("__type"@[0] == '_');
    assert("string"@[0] == 's');
    assert("text"@[0] == 't');
    assert("content"@[0] == 'c');
    assert("code"@[0] == 'c');
    assert("source"@[0] == 's');
}

/// A field that is looked for first, and then written, is still found first.
proof fn lemma_first_field_stays(
    item: JsonModel,
    changed: JsonModel,
    fields: Seq<Seq<char>>,
    field: Seq<char>,
)
    requires
        first_field(item, fields) == Some(field) || (first_field(item, fields) is None
            && fields.len() > 0 && field == fields[0]),
        forall|k: Seq<char>| #[trigger] changed.get_str(k) is Some == (k == field || item.get_str(
            k,
        ) is Some),
    ensures
        first_field(changed, fields) == Some(field),
    decreases fields.len(),
{
    if fields.len() > 0 {
        assert(changed.get_str(fields[0]) is Some == (fields[0] == field || item.get_str(
            fields[0],
        ) is Some));
        if fields[0] != field && item.get_str(fields[0]) is None {
            lemma_first_field_stays(item, changed, fields.drop_first(), field);
        }
    }
}

/// A page that is read again after a commit shows the text that was committed,
/// in an entry that is otherwise the same.
pub proof fn a_committed_text_is_collected(e: EditModel, now: u64)
    requires
        e.editable(),
        e.clean(),
        item_at(e.raw, (e.current()->0).path) is Some,
        item_at(e.raw, (e.current()->0).path)->0 is Object,
        ({
            let entry = e.current()->0;
            let fresh = entry_of(item_at(e.raw, entry.path)->0, entry.path);
            entry == (EntryModel { undo: entry.undo, ..fresh })
        }),
    ensures
        ({
            let after = e.committed(now);
            let entry = e.current()->0;
            &&& item_at(after.raw, entry.path) is Some
            &&& entry_of(item_at(after.raw, entry.path)->0, entry.path) == (EntryModel {
                text: e.buffer,
                undo: Seq::empty(),
                ..entry
            })
        }),
{
    let entry = e.current()->0;
    let path = entry.path;
    let item = item_at(e.raw, path)->0;
    let field = entry.field->0;
    lemma_field_is_not_the_type(entry.typ, item);
    if entry.text == e.buffer {
        assert(entry.undo.len() >= 0);
        assert(entry_of(item, path) == (EntryModel { undo: Seq::empty(), ..entry }));
    } else {
        let raw = with_text_at(e.raw, path, field, e.buffer);
        assert forall|k: Seq<char>| true implies (item_at(raw, path) is Some && #[trigger] (item_at(
            raw,
            path,
        )->0).get(k) == (if k == field {
            Some(JsonModel::Str(e.buffer))
        } else {
            item.get(k)
        })) by {
            a_written_text_is_read_back(e.raw, path, field, e.buffer, k);
        }
        a_written_text_is_read_back(e.raw, path, field, e.buffer, field);
        let changed = item_at(raw, path)->0;
        assert forall|k: Seq<char>| #[trigger] changed.get_str(k) is Some == (k == field
            || item.get_str(k) is Some) by {
            assert(changed.get(k) == (if k == field {
                Some(JsonModel::Str(e.buffer))
            } else {
                item.get(k)
            }));
        }
        assert(changed.get("__type"@) == item.get("__type"@));
        assert(edited_type(changed) == entry.typ);
        if entry.typ == "textSnippet"@ {
            assert(text_fields()[0] == "string"@);
            lemma_first_field_stays(item, changed, text_fields(), field);
        } else {
            assert(code_fields()[0] == "code"@);
            lemma_first_field_stays(item, changed, code_fields(), field);
        }
        assert(changed.get(field) == Some(JsonModel::Str(e.buffer)));
        lemma_normalized_is_kept(e.buffer);
    }
}

/// Every step of an edit keeps the buffer free of carriage returns and the cursor
/// in the text.
pub proof fn edits_stay_clean(e: EditModel, text: Seq<char>, now: u64)
    requires
        e.clean(),
    ensures
        e.with_buffer(text).clean(),
        e.committed(now).clean(),
        e.snapped().clean(),
        e.snapped_if_due(now).clean(),
        e.undone(now).clean(),
        e.appended(now).clean(),
{
    normalized_text_has_no_carriage_return(text);
    assert(e.snapped().clean()) by {
        if e.editable() {
            let entry = e.current()->0;
            assert(clean_undo(e.snippets[e.selected as int].undo));
            let steps = undo_pushed(
                entry.undo,
                UndoModel { text: e.buffer, cursor: e.cursor },
            );
            assert(clean_undo(steps)) by {
                assert forall|i: int| 0 <= i < steps.len() implies !contains_char(
                    (#[trigger] steps[i]).text,
                    '\r',
                ) by {
                    if i < steps.len() - 1 {
                        if entry.undo.len() >= UNDO_LIMIT {
                            assert(steps[i] == entry.undo[i + 1]);
                        } else {
                            assert(steps[i] == entry.undo[i]);
                        }
                    }
                }
            }
        }
    }
    assert(e.committed(now).clean()) by {
        if e.editable() {
            assert(clean_undo(e.snippets[e.selected as int].undo));
        }
    }
    assert(e.undone(now).clean()) by {
        if e.can_undo() {
            let entry = e.current()->0;
            assert(clean_undo(e.snippets[e.selected as int].undo));
            assert(!contains_char(entry.undo[entry.undo.len() - 1].text, '\r'));
            assert forall|i: int| 0 <= i < entry.undo.drop_last().len() implies !contains_char(
                (#[trigger] entry.undo.drop_last()[i]).text,
                '\r',
            ) by {
                assert(entry.undo.drop_last()[i] == entry.undo[i]);
            }
        }
    }
    assert(e.appended(now).clean()) by {
        if has_child_list(e.raw) {
            let grown = EditModel {
                raw: with_children(e.raw, children_of(e.raw).push(empty_snippet())),
                ..e
            };
            assert(grown.clean());
            assert(grown.committed(now).clean()) by {
                if grown.editable() {
                    assert(clean_undo(grown.snippets[grown.selected as int].undo));
                }
            }
            let snippets = forest_entries(children_of(grown.committed(now).raw), Seq::empty());
            lemma_fresh_entries(children_of(grown.committed(now).raw), Seq::empty());
            if snippets.len() > 0 {
                normalized_text_has_no_carriage_return(snippets[snippets.len() - 1].text);
            }
        }
    }
}

/// The entries of a page that was just read have no steps to undo.
proof fn lemma_fresh_entries(items: Seq<JsonModel>, path: Seq<nat>)
    ensures
        forall|i: int| 0 <= i < forest_entries(items, path).len() ==> (#[trigger] forest_entries(
            items,
            path,
        )[i]).undo.len() == 0,
    decreases items, 0nat,
{
    if items.len() > 0 {
        let n = items.len() - 1;
        lemma_fresh_entries(items.take(n), path);
        lemma_fresh_item(items[n], path.push(n as nat));
    }
}

proof fn lemma_fresh_item(item: JsonModel, path: Seq<nat>)
    ensures
        forall|i: int| 0 <= i < item_entries(item, path).len() ==> (#[trigger] item_entries(
            item,
            path,
        )[i]).undo.len() == 0,
    decreases item, 1nat,
{
    if children_of(item).len() > 0 {
        crate::parse::lemma_children_decrease(item);
        lemma_fresh_entries(children_of(item), path);
    }
}

impl EditModel {
    /// Whether the page can be worked on: a snippet is selected, every snippet
    /// lies below the page, and the cursor stands in the text.
    pub open spec fn ready(self) -> bool {
        &&& self.clean()
        &&& self.selected < self.snippets.len()
        &&& forall|i: int| 0 <= i < self.snippets.len() ==> (#[trigger] self.snippets[i]).path.len()
            > 0
    }
}

proof fn lemma_children_stay(item: JsonModel, path: Seq<nat>, field: Seq<char>, text: Seq<char>)
    requires
        path.len() > 0,
    ensures
        children_of(with_text_at(item, path, field, text)).len() == children_of(item).len(),
{
    let kids = children_of(item);
    if path[0] < kids.len() {
        let changed = with_text_at(kids[path[0] as int], path.drop_first(), field, text);
        lemma_with_children(item, kids.update(path[0] as int, changed));
    }
}

proof fn lemma_entries_of_some(items: Seq<JsonModel>, path: Seq<nat>)
    ensures
        items.len() > 0 ==> forest_entries(items, path).len() > 0,
        forall|i: int| 0 <= i < forest_entries(items, path).len() ==> (#[trigger] forest_entries(
            items,
            path,
        )[i]).path.len() > 0,
    decreases items, 0nat,
{
    if items.len() > 0 {
        let n = items.len() - 1;
        lemma_entries_of_some(items.take(n), path);
        lemma_entries_of_one(items[n], path.push(n as nat));
    }
}

proof fn lemma_entries_of_one(item: JsonModel, path: Seq<nat>)
    requires
        path.len() > 0,
    ensures
        item_entries(item, path).len() > 0,
        forall|i: int| 0 <= i < item_entries(item, path).len() ==> (#[trigger] item_entries(
            item,
            path,
        )[i]).path.len() > 0,
    decreases item, 1nat,
{
    if children_of(item).len() > 0 {
        crate::parse::lemma_children_decrease(item);
        lemma_entries_of_some(children_of(item), path);
    }
}

/// Every step of an edit leaves a page that can be worked on.
pub proof fn edits_stay_ready(e: EditModel, text: Seq<char>, now: u64)
    requires
        e.ready(),
    ensures
        e.with_buffer(text).ready(),
        e.committed(now).ready(),
        e.snapped().ready(),
        e.snapped_if_due(now).ready(),
        e.undone(now).ready(),
        e.appended(now).ready(),
{
    edits_stay_clean(e, text, now);
    assert(e.snippets[e.selected as int].path.len() > 0);
    if has_child_list(e.raw) {
        let kids = children_of(e.raw).push(empty_snippet());
        let grown = EditModel { raw: with_children(e.raw, kids), ..e };
        lemma_with_children(e.raw, kids);
        assert(children_of(grown.raw) == kids);
        let entry = grown.current()->0;
        if let Some(f) = entry.field {
            lemma_children_stay(grown.raw, entry.path, f, grown.buffer);
        }
        lemma_entries_of_some(children_of(grown.committed(now).raw), Seq::empty());
    }
}

/// A page that was just read and has a snippet can be worked on.
pub proof fn a_read_page_is_ready(raw: JsonModel, e: EditModel)
    requires
        e.snippets == forest_entries(children_of(raw), Seq::empty()),
        e.snippets.len() > 0,
        e.selected == 0,
        !contains_char(e.buffer, '\r'),
        e.cursor == e.buffer.len(),
    ensures
        e.ready(),
{
    lemma_entries_of_some(children_of(raw), Seq::empty());
    lemma_fresh_entries(children_of(raw), Seq::empty());
}

// ---------------------------------------------------------------------------
// What editing is for
// ---------------------------------------------------------------------------

proof fn lemma_place_in_line(text: Seq<char>, from: int, n: int)
    requires
        0 <= from <= n <= text.len(),
        from == 0 || text[from - 1] == '\n',
        forall|k: int|
            from <= k < n ==> text[k] != '\n' && text[k] != '\r' && text[k] != '\t',
    ensures
        line_col(text, n).1 == n - from,
        line_col(text, n).0 == line_col(text, from).0,
    decreases n - from,
{
    if n > from {
        lemma_place_in_line(text, from, n - 1);
    }
}

proof fn lemma_column(line: Seq<char>, i: int, target: nat)
    requires
        0 <= i <= line.len(),
        i <= target,
        !contains_char(line, '\t'),
    ensures
        char_at_column(line, i, i as nat, target) == (if target < line.len() {
            target as int
        } else {
            line.len() as int
        }),
    decreases line.len() - i,
{
    if i < line.len() {
        assert(line[i] != '\t');
        if i < target {
            lemma_column(line, i + 1, target);
        }
    }
}

proof fn lemma_two_lines(a: Seq<char>, b: Seq<char>)
    requires
        !contains_char(a, '\n'),
        !contains_char(b, '\n'),
    ensures
        split_on(a.push('\n') + b, '\n') =~= seq![a, b],
{
    let s = a.push('\n') + b;
    let n = a.len() as int;
    lemma_next_pos(s, 0, '\n');
    let k = next_pos(s, 0, '\n');
    assert(s[n] == '\n');
    assert(k == n) by {
        if k < n {
            assert(a[k] == s[k]);
        }
    }
    lemma_next_pos(s, n + 1, '\n');
    let m = next_pos(s, n + 1, '\n');
    assert(m == s.len()) by {
        if m < s.len() {
            assert(b[m - n - 1] == s[m]);
        }
    }
    assert(s.subrange(0, n) =~= a);
    assert(s.subrange(n + 1, s.len() as int) =~= b);
    assert(split_from(s, n + 1, '\n') =~= seq![b]);
}

/// Down goes to the same column of the next line and up to that of the line
/// before, or to the end of the line where it is shorter.
pub proof fn arrows_keep_the_column(a: Seq<char>, b: Seq<char>, k: nat)
    requires
        !contains_char(a, '\n') && !contains_char(a, '\r') && !contains_char(a, '\t'),
        !contains_char(b, '\n') && !contains_char(b, '\r') && !contains_char(b, '\t'),
    ensures
        k <= a.len() ==> moved_vertically(a.push('\n') + b, k, 1) == a.len() + 1 + (if k < b.len() {
            k
        } else {
            b.len()
        }),
        k <= b.len() ==> moved_vertically(a.push('\n') + b, a.len() + 1 + k, -1) == (if k < a.len() {
            k
        } else {
            a.len()
        }),
        k <= a.len() ==> moved_vertically(a.push('\n') + b, k, -1) == k,
        k <= b.len() ==> moved_vertically(a.push('\n') + b, a.len() + 1 + k, 1) == a.len() + 1 + k,
{
    let s = a.push('\n') + b;
    let n = a.len() as int;
    lemma_two_lines(a, b);
    let ls = split_on(s, '\n');
    assert(ls.len() == 2 && ls[0] == a && ls[1] == b);
    assert forall|i: int| 0 <= i < n implies s[i] != '\n' && s[i] != '\r' && s[i] != '\t' by {
        assert(s[i] == a[i]);
    }
    assert forall|i: int| n + 1 <= i < s.len() implies s[i] != '\n' && s[i] != '\r' && s[i]
        != '\t' by {
        assert(s[i] == b[i - n - 1]);
    }
    lemma_place_in_line(s, 0, n);
    assert(line_col(s, 0) == (0nat, 0nat));
    assert(s[n] == '\n');
    assert(line_col(s, n + 1) == (1nat, 0nat));
    assert(line_start(ls, 0) == 0);
    assert(line_start(ls, 1) == n + 1) by {
        assert(line_start(ls, 1) == line_start(ls, 0) + ls[0].len() + 1);
    }
    if k <= a.len() {
        lemma_place_in_line(s, 0, k as int);
        lemma_column(b, 0, k);
        lemma_column(a, 0, k);
    }
    if k <= b.len() {
        lemma_place_in_line(s, n + 1, n + 1 + k);
        lemma_column(a, 0, k);
        lemma_column(b, 0, k);
    }
}

/// A snippet of text can be edited, under the field that its text stands in; so
/// can code; any other snippet is only shown.
pub proof fn texts_and_code_can_be_edited(item: JsonModel, path: Seq<nat>, s: Seq<char>)
    ensures
        item.get("__type"@) == Some(JsonModel::Str("textSnippet"@)) && item.get("string"@) == Some(
            JsonModel::Str(s),
        ) ==> ({
            let e = entry_of(item, path);
            &&& e.editable && e.field == Some("string"@) && e.text == normalized(s) && e.path
                == path && e.typ == "textSnippet"@ && e.undo.len() == 0
        }),
        item.get("__type"@) == Some(JsonModel::Str("textSnippet"@)) && item.get("string"@) is None
            && item.get("text"@) == Some(JsonModel::Str(s)) ==> ({
            let e = entry_of(item, path);
            &&& e.editable && e.field == Some("text"@) && e.text == normalized(s)
        }),
        edited_type(item) != "textSnippet"@ && code_snippet(edited_type(item)) && item.get("code"@)
            == Some(JsonModel::Str(s)) ==> ({
            let e = entry_of(item, path);
            &&& e.editable && e.field == Some("code"@) && e.text == normalized(s)
        }),
        edited_type(item) != "textSnippet"@ && !code_snippet(edited_type(item)) ==> ({
            let e = entry_of(item, path);
            &&& !e.editable && e.field is None
        }),
{
    reveal_with_fuel(first_field, 4);
    let fields = text_fields();
    assert(fields.drop_first()[0] == "text"@);
    let codes = code_fields();
    assert(codes[0] == "code"@);
}

/// The snippets of a page are edited in their order, a snippet before those below
/// it, each under the path that leads to it.
pub proof fn snippets_are_edited_in_order(items: Seq<JsonModel>, item: JsonModel, path: Seq<nat>)
    ensures
        forest_entries(items.push(item), path) == forest_entries(items, path) + item_entries(
            item,
            path.push(items.len()),
        ),
        item_entries(item, path)[0] == entry_of(item, path),
        children_of(item).len() > 0 ==> item_entries(item, path) == seq![entry_of(item, path)]
            + forest_entries(children_of(item), path),
        children_of(item).len() == 0 ==> item_entries(item, path).len() == 1,
        forest_entries(Seq::empty(), path).len() == 0,
{
    let all = items.push(item);
    assert(all.take(all.len() - 1) =~= items);
    assert(all[all.len() - 1] == item);
}

/// A text is written under the field of the snippet that its path leads to, and
/// every other field of that snippet stays.
pub proof fn a_text_is_written_where_it_belongs(
    members: Seq<MemberModel>,
    field: Seq<char>,
    other: Seq<char>,
    text: Seq<char>,
)
    ensures
        ({
            let item = with_text_at(JsonModel::Object(members), Seq::empty(), field, text);
            &&& item.get(field) == Some(JsonModel::Str(text))
            &&& other != field ==> item.get(other) == JsonModel::Object(members).get(other)
        }),
{
    setting_a_member_sets_it(members, field, JsonModel::Str(text), other);
    setting_a_member_sets_it(members, field, JsonModel::Str(text), field);
}

/// What is appended is an empty text at the end of the page, which is then edited;
/// the page has changes to be saved.
pub proof fn a_new_snippet_is_edited(e: EditModel, now: u64)
    requires
        has_child_list(e.raw),
        forest_entries(
            children_of(
                EditModel {
                    raw: with_children(e.raw, children_of(e.raw).push(empty_snippet())),
                    ..e
                }.committed(now).raw,
            ),
            Seq::empty(),
        ).len() > 0,
    ensures
        ({
            let next = e.appended(now);
            &&& next.dirty
            &&& next.last_edit == Some(now)
            &&& next.selected == next.snippets.len() - 1
            &&& next.snippets == forest_entries(children_of(next.raw), Seq::empty())
            &&& next.buffer == normalized(next.snippets.last().text)
            &&& next.cursor == next.buffer.len()
        }),
{
}

/// A page without a list of snippets cannot grow.
pub proof fn a_page_without_snippets_does_not_grow(e: EditModel, now: u64)
    requires
        !has_child_list(e.raw),
    ensures
        e.appended(now) == e,
{
}

/// The empty snippet is a text with nothing in it.
pub proof fn the_empty_snippet_is_a_text(path: Seq<nat>)
    ensures
        ({
            let entry = entry_of(empty_snippet(), path);
            &&& entry.editable
            &&& entry.field == Some("string"@)
            &&& entry.text.len() == 0
        }),
{
    reveal_strlit("__type");
    reveal_strlit("string");
    reveal_with_fuel(first_field, 3);
    reveal_with_fuel(member_from, 3);
    assert("__type"@[0] == '_' && "string"@[0] == 's');
    let item = empty_snippet();
    assert(item.get("__type"@) == Some(JsonModel::Str("textSnippet"@)));
    assert(item.get("string"@) == Some(JsonModel::Str(Seq::<char>::empty())));
    texts_and_code_can_be_edited(item, path, Seq::empty());
    assert(!contains_char(Seq::<char>::empty(), '\r'));
    lemma_normalized_is_kept(Seq::<char>::empty());
}

/// A step is kept for undoing when enough time has passed since the last one, or
/// when the cursor has moved since.
pub proof fn steps_are_kept_in_time(e: EditModel, now: u64)
    ensures
        e.snapshot_due(now) <==> e.snapshot_pending || e.last_snapshot is None || now
            >= e.last_snapshot->0 + SNAPSHOT_MS || SNAPSHOT_MS == 0,
        !e.snapshot_due(now) ==> e.snapped_if_due(now) == e,
        e.snapshot_due(now) && e.editable() && (e.current()->0).undo.len() < UNDO_LIMIT ==> ({
            let s = e.snapped_if_due(now);
            &&& (s.current()->0).undo == (e.current()->0).undo.push(
                UndoModel { text: e.buffer, cursor: e.cursor },
            )
            &&& s.last_snapshot == Some(now)
            &&& !s.snapshot_pending
            &&& s.buffer == e.buffer && s.cursor == e.cursor && s.raw == e.raw
        }),
{
}

} // verus!
