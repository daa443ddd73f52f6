//! What the editor shows of a page: its snippets in order, with the one under
//! edit highlighted and the cursor in it.

use crate::edit::{
    cursor_line_col_display, editable_field, editable_type, edited_type, least, line_col, path_view,
    EditModel, EditState,
};
use crate::json::{json_views, lemma_json_view, member_set, set_member, Json, JsonModel};
use crate::model::{Node, NodeModel};
use crate::parse::{
    children, children_of, code_snippet, extract_type, is_code_snippet, lemma_children_decrease,
    node_of, parse_node_from_raw, type_of,
};
use crate::render::{normalize_text, normalized};
use crate::styled::{
    append_lines, dimmed, highlight_lines, highlight_readonly_lines, highlighted, line_views,
    line_width, measurable, pair_of, spans_width, LineModel, StyledLine,
};
use crate::text::{copy_of, lines, lines_of, opt_view, same_text};
use vstd::prelude::*;

verus! {

/// What a block shows.
#[derive(Debug)]
pub enum BlockContent {
    /// A text under edit.
    Text(String),
    /// Code under edit.
    Code { language: Option<String>, code: String },
    /// A snippet as it stands in the page.
    Node(Node),
}

/// One snippet of the page under edit, as it is shown.
#[derive(Debug)]
pub struct EditBlock {
    pub content: BlockContent,
    /// Whether this is the snippet under edit.
    pub highlight: bool,
    /// Whether the snippet can be edited.
    pub editable: bool,
    /// How many lines are shown above the first line of the text.
    pub offset: usize,
}

/// What a [`BlockContent`] holds.
#[verifier::ext_equal]
pub enum ContentModel {
    Text(Seq<char>),
    Code { language: Option<Seq<char>>, code: Seq<char> },
    Node(NodeModel),
}

/// What an [`EditBlock`] holds.
#[verifier::ext_equal]
pub struct BlockModel {
    pub content: ContentModel,
    pub highlight: bool,
    pub editable: bool,
    pub offset: nat,
}

impl View for BlockContent {
    type V = ContentModel;

    open spec fn view(&self) -> ContentModel {
        match self {
            BlockContent::Text(t) => ContentModel::Text(t@),
            BlockContent::Code { language, code } => ContentModel::Code {
                language: opt_view(*language),
                code: code@,
            },
            BlockContent::Node(n) => ContentModel::Node(n@),
        }
    }
}

impl View for EditBlock {
    type V = BlockModel;

    open spec fn view(&self) -> BlockModel {
        BlockModel {
            content: self.content@,
            highlight: self.highlight,
            editable: self.editable,
            offset: self.offset as nat,
        }
    }
}

pub open spec fn block_views(v: Seq<EditBlock>) -> Seq<BlockModel> {
    Seq::new(v.len(), |i: int| v[i]@)
}

/// An item whose field holds `text`.
pub open spec fn with_field(item: JsonModel, field: Option<Seq<char>>, text: Seq<char>) -> JsonModel {
    match (item, field) {
        (JsonModel::Object(members), Some(f)) => JsonModel::Object(
            member_set(members, f, JsonModel::Str(text)),
        ),
        _ => item,
    }
}

/// What is shown of a snippet, and how many lines above its text. The snippet
/// under edit shows the buffer.
pub open spec fn content_of(e: EditModel, item: JsonModel, highlight: bool) -> (ContentModel, nat) {
    if highlight && e.editable() {
        let entry = e.current()->0;
        if entry.typ == "textSnippet"@ {
            (ContentModel::Text(e.buffer), 0)
        } else if code_snippet(entry.typ) {
            match node_of(with_field(item, entry.field, e.buffer)) {
                NodeModel::Code { language, code } => (ContentModel::Code { language, code }, 1),
                node => (ContentModel::Node(node), 0),
            }
        } else {
            (ContentModel::Node(node_of(item)), 0)
        }
    } else {
        (ContentModel::Node(node_of(item)), 0)
    }
}

/// The block of the item at a path.
pub open spec fn block_of(e: EditModel, item: JsonModel, path: Seq<nat>) -> BlockModel {
    let highlight = e.current() is Some && (e.current()->0).path == path;
    let (content, offset) = content_of(e, item, highlight);
    BlockModel { content, highlight, editable: editable_type(edited_type(item)), offset }
}

/// The blocks of the item at a path and of the items below it. What lies below a
/// list is part of the list.
pub open spec fn item_blocks(e: EditModel, item: JsonModel, path: Seq<nat>) -> Seq<BlockModel>
    decreases item, 1nat,
{
    if type_of(item) == Some("listSnippet"@) || children_of(item).len() == 0 {
        seq![block_of(e, item, path)]
    } else {
        proof {
            lemma_children_decrease(item);
        }
        seq![block_of(e, item, path)] + forest_blocks(e, children_of(item), path)
    }
}

/// The blocks of some items below the item at a path, and of the items below
/// them.
pub open spec fn forest_blocks(e: EditModel, items: Seq<JsonModel>, path: Seq<nat>) -> Seq<
    BlockModel,
>
    decreases items, 0nat,
{
    if items.len() == 0 {
        Seq::empty()
    } else {
        forest_blocks(e, items.take(items.len() - 1), path) + item_blocks(
            e,
            items[items.len() - 1],
            path.push((items.len() - 1) as nat),
        )
    }
}

fn same_path(a: &Vec<usize>, b: &Vec<usize>) -> (same: bool)
    ensures
        same == (path_view(a@) == path_view(b@)),
{
    if a.len() != b.len() {
        assert(path_view(a@).len() != path_view(b@).len());
        return false;
    }
    let mut i: usize = 0;
    while i < a.len()
        invariant
            i <= a@.len(),
            a@.len() == b@.len(),
            forall|k: int| 0 <= k < i ==> a@[k] == b@[k],
        decreases a.len() - i,
    {
        if a[i] != b[i] {
            assert(path_view(a@)[i as int] != path_view(b@)[i as int]);
            return false;
        }
        i += 1;
    }
    assert(path_view(a@) =~= path_view(b@));
    true
}

fn patched_item(item: &Json, field: &Option<String>, text: &str) -> (patched: Json)
    ensures
        patched@ == with_field(item@, opt_view(*field), text@),
{
    let mut patched = item.clone();
    let ghost copy = patched;
    proof {
        lemma_json_view(copy);
    }
    if let Some(f) = field {
        if let Json::Object(members) = &mut patched {
            set_member(members, f.as_str(), Json::Str(copy_of(text)));
        }
    }
    proof {
        lemma_json_view(patched);
    }
    patched
}

fn node_content(item: &Json) -> (content: BlockContent)
    ensures
        content@ == ContentModel::Node(node_of(item@)),
{
    BlockContent::Node(parse_node_from_raw(item))
}

/// What is shown of a snippet.
fn block_content(edit: &EditState, item: &Json, highlight: bool) -> (shown: (BlockContent, usize))
    ensures
        (shown.0@, shown.1 as nat) == content_of(edit@, item@, highlight),
{
    if !highlight {
        return (node_content(item), 0);
    }
    let entry = match edit.current() {
        Some(entry) => entry,
        None => {
            return (node_content(item), 0);
        },
    };
    if !entry.editable {
        return (node_content(item), 0);
    }
    if same_text(entry.typ.as_str(), "textSnippet") {
        (BlockContent::Text(edit.buffer.clone()), 0)
    } else if is_code_snippet(entry.typ.as_str()) {
        let patched = patched_item(item, &entry.field, edit.buffer.as_str());
        match parse_node_from_raw(&patched) {
            Node::Code { language, code } => (BlockContent::Code { language, code }, 1),
            node => (BlockContent::Node(node), 0),
        }
    } else {
        (node_content(item), 0)
    }
}

fn block_for(edit: &EditState, item: &Json, path: &Vec<usize>) -> (block: EditBlock)
    ensures
        block@ == block_of(edit@, item@, path_view(path@)),
{
    let highlight = match edit.current() {
        Some(entry) => same_path(&entry.path, path),
        None => false,
    };
    let typ = match item.get_str("__type") {
        Some(t) => copy_of(t),
        None => copy_of("<missing-type>"),
    };
    let (editable, _) = editable_field(typ.as_str(), item);
    let (content, offset) = block_content(edit, item, highlight);
    EditBlock { content, highlight, editable, offset }
}

fn is_list_snippet(item: &Json) -> (b: bool)
    ensures
        b == (type_of(item@) == Some("listSnippet"@)),
{
    match extract_type(item) {
        Some(t) => same_text(t, "listSnippet"),
        None => false,
    }
}

/// Adds the blocks of an item and of the items below it.
fn item_blocks_into(edit: &EditState, item: &Json, path: &mut Vec<usize>, out: &mut Vec<EditBlock>)
    ensures
        final(path)@ == old(path)@,
        block_views(final(out)@) == block_views(old(out)@) + item_blocks(
            edit@,
            item@,
            path_view(old(path)@),
        ),
    decreases item,
{
    let ghost here = path@;
    let ghost start = block_views(out@);
    let block = block_for(edit, item, path);
    let ghost own = seq![block_of(edit@, item@, path_view(here))];
    out.push(block);
    assert(block_views(out@) =~= start + own);
    if is_list_snippet(item) {
        return;
    }
    if let Some(kids) = children(item) {
        let ghost all = json_views(kids@);
        let ghost mid = block_views(out@);
        let mut idx: usize = 0;
        assert(all.take(0) =~= Seq::<JsonModel>::empty());
        assert(block_views(out@) =~= mid + forest_blocks(edit@, all.take(0), path_view(here)));
        while idx < kids.len()
            invariant
                idx <= kids@.len(),
                all == json_views(kids@),
                path@ == here,
                decreases_to!(*item => *kids),
                block_views(out@) == mid + forest_blocks(
                    edit@,
                    all.take(idx as int),
                    path_view(here),
                ),
            decreases kids.len() - idx,
        {
            proof {
                let next = all.take(idx as int + 1);
                assert(next.take(next.len() - 1) =~= all.take(idx as int));
                assert(next[next.len() - 1] == kids@[idx as int]@);
                assert(decreases_to!(*kids => kids@));
                assert(decreases_to!(kids@ => kids@[idx as int]));
                assert(path_view(here.push(idx)) =~= path_view(here).push(idx as nat));
            }
            let ghost before = block_views(out@);
            path.push(idx);
            item_blocks_into(edit, &kids[idx], path, out);
            let _last = path.pop();
            proof {
                assert(path@ =~= here);
                let next = all.take(idx as int + 1);
                assert(block_views(out@) =~= mid + forest_blocks(edit@, next, path_view(here)));
            }
            idx += 1;
        }
        assert(all.take(idx as int) =~= all);
        proof {
            if children_of(item@).len() == 0 {
                assert(all =~= Seq::<JsonModel>::empty());
                assert(block_views(out@) =~= mid);
            } else {
                assert(block_views(out@) =~= start + item_blocks(
                    edit@,
                    item@,
                    path_view(here),
                ));
            }
        }
    }
}

/// The snippets of the page under edit, in the order in which they are shown.
pub fn edit_blocks(edit: &EditState) -> (blocks: Vec<EditBlock>)
    ensures
        block_views(blocks@) == forest_blocks(edit@, children_of(edit@.raw), Seq::empty()),
{
    let mut out: Vec<EditBlock> = Vec::new();
    let mut path: Vec<usize> = Vec::new();
    assert(path_view(path@) =~= Seq::<nat>::empty());
    assert(block_views(out@) =~= Seq::<BlockModel>::empty());
    if let Some(kids) = children(&edit.raw) {
        let ghost all = json_views(kids@);
        let mut idx: usize = 0;
        assert(all.take(0) =~= Seq::<JsonModel>::empty());
        while idx < kids.len()
            invariant
                idx <= kids@.len(),
                all == json_views(kids@),
                path@.len() == 0,
                block_views(out@) == forest_blocks(edit@, all.take(idx as int), Seq::empty()),
            decreases kids.len() - idx,
        {
            proof {
                let next = all.take(idx as int + 1);
                assert(next.take(next.len() - 1) =~= all.take(idx as int));
                assert(next[next.len() - 1] == kids@[idx as int]@);
            }
            path.push(idx);
            assert(path_view(path@) =~= Seq::<nat>::empty().push(idx as nat));
            item_blocks_into(edit, &kids[idx], &mut path, &mut out);
            let _last = path.pop();
            idx += 1;
        }
        assert(all.take(idx as int) =~= all);
    } else {
        assert(children_of(edit@.raw) =~= Seq::<JsonModel>::empty());
    }
    out
}

// ---------------------------------------------------------------------------
// Putting the blocks together
// ---------------------------------------------------------------------------

/// The lines of a page under edit, with the cursor and the line at which the
/// snippet under edit starts.
#[verifier::ext_equal]
pub struct PlacedModel {
    pub lines: Seq<LineModel>,
    pub cursor: Option<(nat, nat)>,
    pub start: Option<nat>,
}

/// How the lines of a block look.
pub open spec fn block_lines(block: BlockModel, shown: Seq<LineModel>) -> Seq<LineModel> {
    if !block.editable {
        dimmed(shown)
    } else if block.highlight {
        highlighted(shown)
    } else {
        shown
    }
}

/// How many lines the text under edit has, at least one.
pub open spec fn buffer_lines(e: EditModel) -> nat {
    let n = lines_of(normalized(e.buffer)).len();
    if n == 0 {
        1
    } else {
        n
    }
}

/// Where the cursor stands in a block that starts at line `start`. It stays
/// within the block and within its line.
pub open spec fn cursor_in(e: EditModel, block: BlockModel, shown: Seq<LineModel>, start: nat) -> (
    nat,
    nat,
) {
    let (line, col) = line_col(e.buffer, least(e.cursor, e.buffer.len()) as int);
    let at = least(
        block.offset + least(line, (buffer_lines(e) - 1) as nat),
        (shown.len() - 1) as nat,
    );
    (start + at, least(col, spans_width(shown[at as int].spans)))
}

/// Some blocks one below the other, each with the lines that show it.
pub open spec fn placed(e: EditModel, blocks: Seq<BlockModel>, shown: Seq<Seq<LineModel>>) -> PlacedModel
    decreases blocks.len(),
{
    if blocks.len() == 0 {
        PlacedModel { lines: Seq::empty(), cursor: None, start: None }
    } else {
        let before = placed(e, blocks.drop_last(), shown.drop_last());
        let block = blocks.last();
        let at = before.lines.len();
        PlacedModel {
            lines: before.lines + block_lines(block, shown.last()),
            cursor: if before.cursor is None && block.highlight && e.editable() {
                Some(cursor_in(e, block, shown.last(), at))
            } else {
                before.cursor
            },
            start: if before.start is None && block.highlight {
                Some(at)
            } else {
                before.start
            },
        }
    }
}

pub open spec fn shown_views(v: Seq<Vec<StyledLine>>) -> Seq<Seq<LineModel>> {
    Seq::new(v.len(), |i: int| line_views(v[i]@))
}

/// How many lines some blocks are shown in.
pub open spec fn total_lines(shown: Seq<Seq<LineModel>>) -> nat
    decreases shown.len(),
{
    if shown.len() == 0 {
        0
    } else {
        total_lines(shown.drop_last()) + shown.last().len()
    }
}

proof fn lemma_total_grows(shown: Seq<Seq<LineModel>>, n: int)
    requires
        0 <= n <= shown.len(),
    ensures
        total_lines(shown.take(n)) <= total_lines(shown),
    decreases shown.len() - n,
{
    if n < shown.len() {
        lemma_total_grows(shown, n + 1);
        assert(shown.take(n + 1).drop_last() =~= shown.take(n));
    } else {
        assert(shown.take(n) =~= shown);
    }
}

/// Where the cursor stands in a block.
fn cursor_position(edit: &EditState, block: &EditBlock, shown: &Vec<StyledLine>, start: usize) -> (at: (
    usize,
    usize,
))
    requires
        4 * edit.buffer@.len() <= usize::MAX,
        shown@.len() > 0,
        measurable(line_views(shown@)),
        start + shown@.len() <= usize::MAX,
    ensures
        (at.0 as nat, at.1 as nat) == cursor_in(
            edit@,
            block@,
            line_views(shown@),
            start as nat,
        ),
{
    let (line, col) = cursor_line_col_display(edit.buffer.as_str(), edit.cursor);
    let text = normalize_text(edit.buffer.as_str());
    let all = lines(text.as_str());
    let count: usize = if all.len() == 0 {
        1
    } else {
        all.len()
    };
    let rel: usize = if line < count - 1 {
        line
    } else {
        count - 1
    };
    let last: usize = shown.len() - 1;
    let row: usize = if block.offset > last {
        last
    } else if rel > last - block.offset {
        last
    } else {
        block.offset + rel
    };
    assert(line_views(shown@)[row as int] == shown@[row as int]@);
    let width: usize = line_width(&shown[row]);
    let col: usize = if col < width {
        col
    } else {
        width
    };
    (start + row, col)
}

/// Puts the blocks of a page under edit one below the other. `shown` holds, for
/// each block, the lines that show it.
pub fn render_edit_page(edit: &EditState, blocks: &Vec<EditBlock>, shown: Vec<Vec<StyledLine>>) -> (found: (
    Vec<StyledLine>,
    Option<(usize, usize)>,
    Option<usize>,
))
    requires
        blocks@.len() == shown@.len(),
        4 * edit.buffer@.len() <= usize::MAX,
        total_lines(shown_views(shown@)) <= usize::MAX,
        forall|i: int| 0 <= i < shown@.len() ==> measurable(#[trigger] line_views(shown@[i]@)),
        forall|i: int|
            0 <= i < blocks@.len() && (#[trigger] blocks@[i]).highlight && edit@.editable()
                ==> shown@[i]@.len() > 0,
    ensures
        line_views(found.0@) == placed(edit@, block_views(blocks@), shown_views(shown@)).lines,
        pair_of(found.1) == placed(edit@, block_views(blocks@), shown_views(shown@)).cursor,
        match found.2 {
            Some(n) => placed(edit@, block_views(blocks@), shown_views(shown@)).start == Some(
                n as nat,
            ),
            None => placed(edit@, block_views(blocks@), shown_views(shown@)).start is None,
        },
{
    let ghost e = edit@;
    let ghost bs = block_views(blocks@);
    let ghost ls = shown_views(shown@);
    let ghost given = shown@;
    let mut shown = shown;
    let mut out: Vec<StyledLine> = Vec::new();
    let mut cursor: Option<(usize, usize)> = None;
    let mut start: Option<usize> = None;
    let mut i: usize = 0;
    let editable = edit.is_editable();
    assert(bs.take(0) =~= Seq::<BlockModel>::empty());
    assert(ls.take(0) =~= Seq::<Seq<LineModel>>::empty());
    assert(line_views(out@) =~= Seq::<LineModel>::empty());
    while i < blocks.len()
        invariant
            i <= blocks@.len(),
            e == edit@,
            editable == e.editable(),
            bs == block_views(blocks@),
            ls == shown_views(given),
            blocks@.len() == given.len(),
            shown@ == given.skip(i as int),
            4 * edit.buffer@.len() <= usize::MAX,
            total_lines(ls) <= usize::MAX,
            forall|k: int| 0 <= k < given.len() ==> measurable(#[trigger] line_views(given[k]@)),
            forall|k: int|
                0 <= k < blocks@.len() && (#[trigger] blocks@[k]).highlight && e.editable()
                    ==> given[k]@.len() > 0,
            out@.len() == total_lines(ls.take(i as int)),
            line_views(out@) == placed(e, bs.take(i as int), ls.take(i as int)).lines,
            pair_of(cursor) == placed(e, bs.take(i as int), ls.take(i as int)).cursor,
            match start {
                Some(n) => placed(e, bs.take(i as int), ls.take(i as int)).start == Some(n as nat),
                None => placed(e, bs.take(i as int), ls.take(i as int)).start is None,
            },
        decreases blocks.len() - i,
    {
        let block = &blocks[i];
        proof {
            assert(bs.take(i as int + 1).drop_last() =~= bs.take(i as int));
            assert(ls.take(i as int + 1).drop_last() =~= ls.take(i as int));
            assert(bs.take(i as int + 1).last() == block@);
            assert(ls.take(i as int + 1).last() == line_views(given[i as int]@));
            lemma_total_grows(ls, i as int + 1);
            assert(shown@[0] == given[i as int]);
        }
        let mut lines = shown.remove(0);
        assert(shown@ =~= given.skip(i as int + 1));
        let at: usize = out.len();
        if block.highlight {
            if start.is_none() {
                start = Some(at);
            }
            if cursor.is_none() && editable {
                assert(blocks@[i as int].highlight);
                cursor = Some(cursor_position(edit, block, &lines, at));
            }
        }
        if !block.editable {
            highlight_readonly_lines(&mut lines);
        } else if block.highlight {
            highlight_lines(&mut lines);
        }
        let ghost count = lines@.len();
        assert(line_views(lines@).len() == count);
        append_lines(&mut out, lines);
        assert(line_views(out@).len() == out@.len());
        i += 1;
    }
    assert(bs.take(i as int) =~= bs);
    assert(ls.take(i as int) =~= ls);
    (out, cursor, start)
}

// ---------------------------------------------------------------------------
// What is shown of the page under edit
// ---------------------------------------------------------------------------

/// The snippet under the cursor is shown as it is being typed, and every other as
/// it stands in the page.
pub proof fn what_is_typed_is_shown(e: EditModel, item: JsonModel, path: Seq<nat>)
    requires
        e.selected < e.snippets.len(),
    ensures
        e.snippets[e.selected as int].path == path && e.snippets[e.selected as int].editable
            && e.snippets[e.selected as int].typ == "textSnippet"@ ==> block_of(e, item, path).content
            == ContentModel::Text(e.buffer),
        e.snippets[e.selected as int].path != path ==> block_of(e, item, path).content
            == ContentModel::Node(node_of(item)),
        !e.snippets[e.selected as int].editable ==> block_of(e, item, path).content
            == ContentModel::Node(node_of(item)),
        block_of(e, item, path).highlight <==> e.snippets[e.selected as int].path == path,
        block_of(e, item, path).editable <==> editable_type(edited_type(item)),
{
}

/// The snippets are shown in their order, a snippet before those below it.
pub proof fn snippets_are_shown_in_order(
    e: EditModel,
    items: Seq<JsonModel>,
    item: JsonModel,
    path: Seq<nat>,
)
    ensures
        forest_blocks(e, items.push(item), path) == forest_blocks(e, items, path) + item_blocks(
            e,
            item,
            path.push(items.len()),
        ),
        item_blocks(e, item, path)[0] == block_of(e, item, path),
{
    let all = items.push(item);
    assert(all.take(all.len() - 1) =~= items);
    assert(all[all.len() - 1] == item);
}

/// What cannot be edited is dimmed, what is being edited is highlighted, and the
/// rest is shown as it is.
pub proof fn snippets_are_shown_by_what_can_be_done(block: BlockModel, shown: Seq<LineModel>)
    ensures
        !block.editable ==> block_lines(block, shown) == dimmed(shown),
        block.editable && block.highlight ==> block_lines(block, shown) == highlighted(shown),
        block.editable && !block.highlight ==> block_lines(block, shown) == shown,
{
}

/// The lines of the snippets stand one behind the other, and the first snippet
/// that is edited is where the view starts.
pub proof fn lines_are_placed_one_behind_the_other(
    e: EditModel,
    blocks: Seq<BlockModel>,
    shown: Seq<Seq<LineModel>>,
    block: BlockModel,
    lines: Seq<LineModel>,
)
    ensures
        ({
            let before = placed(e, blocks, shown);
            let next = placed(e, blocks.push(block), shown.push(lines));
            &&& next.lines == before.lines + block_lines(block, lines)
            &&& before.start is Some ==> next.start == before.start
            &&& before.start is None && block.highlight ==> next.start == Some(before.lines.len())
            &&& before.start is None && !block.highlight ==> next.start is None
            &&& before.cursor is Some ==> next.cursor == before.cursor
            &&& !block.highlight ==> next.cursor == before.cursor
        }),
{
    assert(blocks.push(block).drop_last() =~= blocks);
    assert(shown.push(lines).drop_last() =~= shown);
}

/// The cursor is shown in the snippet that is edited, on the line that it is in,
/// behind the rows that stand above the text.
pub proof fn the_cursor_is_shown_in_its_line(
    e: EditModel,
    block: BlockModel,
    shown: Seq<LineModel>,
    start: nat,
)
    requires
        e.cursor <= e.buffer.len(),
        shown.len() > 0,
        line_col(e.buffer, e.cursor as int).0 < buffer_lines(e),
        block.offset + line_col(e.buffer, e.cursor as int).0 < shown.len(),
    ensures
        cursor_in(e, block, shown, start).0 == start + block.offset + line_col(
            e.buffer,
            e.cursor as int,
        ).0,
        cursor_in(e, block, shown, start).1 <= line_col(e.buffer, e.cursor as int).1,
{
}

} // verus!
