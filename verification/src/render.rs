//! Rendering of page content to text: for display, and as the markdown that an
//! import reads back.

use crate::inline::{backtick_run, lemma_run_at, run_at};
use crate::inline_link::{
    answered, answers, callable, may_answer, questions, rewrite_links_with,
    rewriting_nothing_is_identity, rewritten, text_without_brackets_has_no_links, were_given,
    LinkKind,
};
use crate::json::JsonModel;
use crate::model::{item_views, lemma_list_view, node_views, Node, NodeModel, Page};
use crate::text::{
    a_text_holds_its_parts, chars_of, contains, contains_char, ends_with, find_from, find_text,
    has_char, lemma_concat, lemma_find_from, lemma_next_pos, lines, lines_of, lower_per_char,
    lowered, next_pos, opt_view, repeat_char, repeated, replace, replaced, replaced_from, same_text,
    split_char, split_on, starts_with, text_contains, text_ends_with, text_starts_with, trim,
    trimmed, views, without_prefix,
};
use vstd::prelude::*;

verus! {

/// What a link rewriter answers for each kind of link and each target.
pub type LinkPolicy = spec_fn(LinkKind, Seq<char>) -> Option<Seq<char>>;

/// Whether a render escapes block-looking line starts.
#[derive(Clone, Copy, Debug, PartialEq, Eq, Structural)]
pub enum BlockEscaping {
    /// For markdown that an import reads back; see [`escape_block_start`].
    Escape,
    /// For display; every line reaches the reader as the content has it.
    Verbatim,
}

/// Whether a node is a snippet of its own or sits inside a list item.
#[derive(Clone, Copy, Debug, PartialEq, Eq, Structural)]
pub enum Position {
    Snippet,
    ListItem,
}

// ---------------------------------------------------------------------------
// Block starts
// ---------------------------------------------------------------------------

/// Whether a line-oriented markdown reader would take the line for the start of
/// a block.
pub open spec fn is_block_start(line: Seq<char>) -> bool {
    ||| trimmed(line).len() == 0
    ||| starts_with(line, "\\"@)
    ||| starts_with(line, "- "@)
    ||| starts_with(line, "> "@)
    ||| line == ">"@
    ||| starts_with(line, "```"@)
    ||| starts_with(trimmed(line), "[[unknown: "@) && ends_with(trimmed(line), "]]"@)
}

/// The line behind a backslash if it would start a block, and as it is
/// otherwise.
pub open spec fn escaped_line(line: Seq<char>) -> Seq<char> {
    if is_block_start(line) {
        "\\"@ + line
    } else {
        line
    }
}

/// The line without the backslash it starts with.
pub open spec fn unescaped_line(line: Seq<char>) -> Seq<char> {
    if starts_with(line, "\\"@) {
        line.skip("\\"@.len() as int)
    } else {
        line
    }
}

/// What unescaping gives back is what was escaped, for every line.
pub proof fn unescape_inverts_escape(line: Seq<char>)
    ensures
        unescaped_line(escaped_line(line)) == line,
{
    if is_block_start(line) {
        let e = "\\"@ + line;
        assert(e.subrange(0, "\\"@.len() as int) =~= "\\"@);
        assert(e.skip("\\"@.len() as int) =~= line);
    }
}

fn starts_block(line: &str) -> (b: bool)
    ensures
        b == is_block_start(line@),
{
    let inner = trim(line);
    inner.as_str().is_empty() || text_starts_with(line, "\\") || text_starts_with(line, "- ")
        || text_starts_with(line, "> ") || same_text(line, ">") || text_starts_with(line, "```")
        || (text_starts_with(inner.as_str(), "[[unknown: ") && text_ends_with(
        inner.as_str(),
        "]]",
    ))
}

/// Prefixes `line` with a backslash if a line-oriented markdown reader would
/// take it for the start of a block.
pub fn escape_block_start(line: &str) -> (out: String)
    ensures
        out@ == escaped_line(line@),
{
    let mut out = String::new();
    if starts_block(line) {
        out.push_str("\\");
    }
    out.push_str(line);
    assert(out@ =~= escaped_line(line@));
    out
}

/// Inverse of [`escape_block_start`].
pub fn unescape_block_start(line: &str) -> (out: String)
    ensures
        out@ == unescaped_line(line@),
{
    match without_prefix(line, "\\") {
        Some(rest) => rest,
        None => line.to_owned(),
    }
}

/// Whether a line, ignoring surrounding white space, is one `[label](target)`
/// link and nothing else: it starts with `[`, and the first `](` opens a target
/// that the only `)` after it closes at the very end.
pub open spec fn standalone_link(line: Seq<char>) -> bool {
    let t = trimmed(line);
    t.len() > 0 && t[0] == '[' && match find_from(t, 0, "]("@) {
        Some(k) => {
            let after = t.skip(k + "]("@.len());
            after.len() > 0 && after.last() == ')' && !contains_char(after.drop_last(), ')')
        },
        None => false,
    }
}

/// Whether `line`, ignoring surrounding white space, is one `[label](target)`
/// markdown link and nothing else.
///
/// An import reads such a line back as a link snippet, but only where it is a
/// whole snippet on its own.
pub fn is_standalone_link(line: &str) -> (b: bool)
    ensures
        b == standalone_link(line@),
{
    let t = trim(line);
    let v = chars_of(t.as_str());
    if v.len() == 0 || v[0] != '[' {
        return false;
    }
    proof {
        lemma_find_from(v@, 0, "]("@);
        reveal_strlit("](");
    }
    match find_text(&v, 0, "](") {
        Some(k) => {
            let ghost after = v@.skip(k + 2);
            if v.len() == k + 2 || v[v.len() - 1] != ')' {
                return false;
            }
            let mut i: usize = k + 2;
            let last: usize = v.len() - 1;
            while i < last
                invariant
                    k + 2 <= i <= last,
                    last == v.len() - 1,
                    after == v@.skip(k + 2),
                    v@ == trimmed(line@),
                    find_from(v@, 0, "]("@) == Some(k as int),
                    "]("@.len() == 2,
                    forall|j: int| 0 <= j < i - (k + 2) ==> after[j] != ')',
                decreases last - i,
            {
                if v[i] == ')' {
                    assert(after.drop_last()[i - (k + 2)] == ')');
                    return false;
                }
                i += 1;
            }
            true
        },
        None => false,
    }
}

// ---------------------------------------------------------------------------
// Line ends
// ---------------------------------------------------------------------------

/// A text with each kind of line end turned into a line feed.
pub open spec fn normalized(s: Seq<char>) -> Seq<char> {
    replaced(replaced(s, "\r\n"@, "\n"@), "\r"@, "\n"@)
}

/// Turns `\r\n` and lone `\r` into `\n`.
pub fn normalize_text(input: &str) -> (out: String)
    ensures
        out@ == normalized(input@),
{
    proof {
        reveal_strlit("\r\n");
        reveal_strlit("\r");
    }
    let once = replace(input, "\r\n", "\n");
    replace(once.as_str(), "\r", "\n")
}

proof fn lemma_replaced_cr_free(s: Seq<char>, i: int)
    requires
        0 <= i <= s.len(),
    ensures
        !contains_char(replaced_from(s, i, "\r"@, "\n"@), '\r'),
    decreases s.len() - i,
{
    reveal_strlit("\r");
    reveal_strlit("\n");
    if i < s.len() {
        let tail = replaced_from(s, i + 1, "\r"@, "\n"@);
        lemma_replaced_cr_free(s, i + 1);
        let whole = replaced_from(s, i, "\r"@, "\n"@);
        if s[i] == '\r' {
            assert(s.subrange(i, i + 1) =~= "\r"@);
            assert(whole == "\n"@ + tail);
        } else {
            assert(s.subrange(i, i + 1)[0] != "\r"@[0]);
            assert(whole == seq![s[i]] + tail);
        }
        assert forall|k: int| 0 <= k < whole.len() implies whole[k] != '\r' by {
            if k > 0 {
                assert(whole[k] == tail[k - 1]);
            }
        }
    }
}

proof fn lemma_replaced_nothing(s: Seq<char>, i: int, pat: Seq<char>, with: Seq<char>)
    requires
        0 <= i <= s.len(),
        pat.len() > 0,
        !contains_char(s, pat[0]),
    ensures
        replaced_from(s, i, pat, with) == s.skip(i),
    decreases s.len() - i,
{
    if i < s.len() {
        lemma_replaced_nothing(s, i + 1, pat, with);
        if i + pat.len() <= s.len() {
            assert(s.subrange(i, i + pat.len())[0] == s[i]);
        }
        assert(seq![s[i]] + s.skip(i + 1) =~= s.skip(i));
    } else {
        assert(s.skip(i) =~= Seq::<char>::empty());
    }
}

/// A normalized text has no carriage return.
pub proof fn normalized_text_has_no_carriage_return(s: Seq<char>)
    ensures
        !contains_char(normalized(s), '\r'),
{
    lemma_replaced_cr_free(replaced(s, "\r\n"@, "\n"@), 0);
}

/// Normalizing keeps a text without carriage returns.
pub proof fn lemma_normalized_is_kept(n: Seq<char>)
    requires
        !contains_char(n, '\r'),
    ensures
        normalized(n) == n,
{
    reveal_strlit("\r\n");
    reveal_strlit("\r");
    lemma_replaced_nothing(n, 0, "\r\n"@, "\n"@);
    lemma_replaced_nothing(n, 0, "\r"@, "\n"@);
    assert(n.skip(0) =~= n);
}

/// Normalizing twice is normalizing once.
pub proof fn normalizing_is_idempotent(s: Seq<char>)
    ensures
        normalized(normalized(s)) == normalized(s),
{
    normalized_text_has_no_carriage_return(s);
    lemma_normalized_is_kept(normalized(s));
}

// ---------------------------------------------------------------------------
// Fences
// ---------------------------------------------------------------------------

/// The longest run of backticks that starts at `i` or later.
pub open spec fn longest_run(s: Seq<char>, i: int) -> nat
    decreases s.len() - i,
{
    if i < 0 || i >= s.len() {
        0
    } else if run_at(s, i) > longest_run(s, i + 1) {
        run_at(s, i)
    } else {
        longest_run(s, i + 1)
    }
}

/// The fence for some content: three backticks, or one more than its longest
/// run.
pub open spec fn fence_text(content: Seq<char>) -> Seq<char> {
    let n = longest_run(content, 0) + 1;
    repeated('`', if n > 3 { n } else { 3 })
}

proof fn lemma_longest_run_skip(s: Seq<char>, i: int, k: int)
    requires
        0 <= i <= k <= i + run_at(s, i),
        k <= s.len(),
    ensures
        longest_run(s, i) == if k > i && run_at(s, i) > longest_run(s, k) {
            run_at(s, i)
        } else {
            longest_run(s, k)
        },
    decreases k - i,
{
    if k > i {
        assert(run_at(s, i) == 1 + run_at(s, i + 1));
        lemma_longest_run_skip(s, i + 1, k);
    }
}

/// No run of backticks is longer than the longest.
pub proof fn lemma_longest_run_bounds(s: Seq<char>, i: int, k: int)
    requires
        0 <= i <= k,
    ensures
        run_at(s, k) <= longest_run(s, i),
        longest_run(s, i) <= s.len(),
    decreases s.len() - i,
{
    if i < s.len() {
        lemma_run_at(s, i);
        if k > i {
            lemma_longest_run_bounds(s, i + 1, k);
        } else {
            lemma_longest_run_bounds(s, i + 1, i + 1);
        }
    }
}

/// A backtick fence long enough that no line of `content` can close it.
pub fn fence_for(content: &str) -> (fence: String)
    ensures
        fence@ == fence_text(content@),
{
    let v = chars_of(content);
    let mut longest: usize = 0;
    let mut i: usize = 0;
    while i < v.len()
        invariant
            v@ == content@,
            i <= v@.len(),
            longest <= v.len(),
            longest_run(content@, 0) == if longest > longest_run(content@, i as int) {
                longest as nat
            } else {
                longest_run(content@, i as int)
            },
        decreases v.len() - i,
    {
        if v[i] == '`' {
            let run: usize = backtick_run(&v, i);
            proof {
                lemma_run_at(v@, i as int);
                lemma_longest_run_skip(v@, i as int, i + run);
            }
            if run > longest {
                longest = run;
            }
            i += run;
        } else {
            assert(run_at(v@, i as int) == 0);
            i += 1;
        }
    }
    if longest < 3 {
        repeat_char('`', 3)
    } else {
        fence_of(longest)
    }
}

/// One backtick more than `longest`.
fn fence_of(longest: usize) -> (fence: String)
    ensures
        fence@ == repeated('`', longest as nat + 1),
{
    let mut fence = repeat_char('`', longest);
    fence.push('`');
    assert(fence@ =~= repeated('`', longest as nat + 1));
    fence
}

// ---------------------------------------------------------------------------
// Blocks
// ---------------------------------------------------------------------------

/// A line as a block shows it, with its line feed.
pub open spec fn block_line(line: Seq<char>, escaping: BlockEscaping) -> Seq<char> {
    match escaping {
        BlockEscaping::Escape => escaped_line(line) + "\n"@,
        BlockEscaping::Verbatim => line + "\n"@,
    }
}

/// Lines as a block shows them.
pub open spec fn block_text(ls: Seq<Seq<char>>, escaping: BlockEscaping) -> Seq<char>
    decreases ls.len(),
{
    if ls.len() == 0 {
        Seq::empty()
    } else {
        block_text(ls.drop_last(), escaping) + block_line(ls.last(), escaping)
    }
}

/// A heading: the marks, the first line as it is, then the other lines, and a
/// blank line.
pub open spec fn heading_text(level: u8, text: Seq<char>, escaping: BlockEscaping) -> Seq<char> {
    let ls = split_on(text, '\n');
    let marks = repeated('#', if level > 1 { level as nat } else { 1 });
    marks + " "@ + ls[0] + "\n"@ + block_text(ls.skip(1), escaping) + "\n"@
}

/// A paragraph: its lines and a blank line. Where it is written for an import
/// to read and would read as a link snippet, it starts with a backslash.
pub open spec fn paragraph_text(
    text: Seq<char>,
    escaping: BlockEscaping,
    position: Position,
) -> Seq<char> {
    let guard = if escaping == BlockEscaping::Escape && position == Position::Snippet
        && !contains_char(text, '\n') && standalone_link(text) {
        "\\"@
    } else {
        Seq::empty()
    };
    guard + block_text(split_on(text, '\n'), escaping) + "\n"@
}

/// Each line with `prefix` before it and a line feed after it.
pub open spec fn prefixed_lines(prefix: Seq<char>, ls: Seq<Seq<char>>) -> Seq<char>
    decreases ls.len(),
{
    if ls.len() == 0 {
        Seq::empty()
    } else {
        prefixed_lines(prefix, ls.drop_last()) + prefix + ls.last() + "\n"@
    }
}

/// A list item: the first line of its trimmed text behind a dash, the others
/// indented; nothing where the text is blank.
pub open spec fn list_item_text(text: Seq<char>) -> Seq<char> {
    let ls = lines_of(trimmed(text));
    if ls.len() == 0 {
        Seq::empty()
    } else {
        "- "@ + ls[0] + "\n"@ + prefixed_lines("  "@, ls.skip(1))
    }
}

/// A code block between fences.
pub open spec fn code_text(language: Option<Seq<char>>, code: Seq<char>) -> Seq<char> {
    let fence = fence_text(code);
    let name = match language {
        Some(l) => l,
        None => Seq::empty(),
    };
    fence + name + "\n"@ + code + "\n"@ + fence + "\n\n"@
}

/// A link on a line of its own.
pub open spec fn link_text(text: Seq<char>, url: Seq<char>) -> Seq<char> {
    "["@ + text + "]("@ + url + ")\n\n"@
}

/// Lines behind the mark of a quote.
pub open spec fn quoted_lines(ls: Seq<Seq<char>>) -> Seq<char>
    decreases ls.len(),
{
    if ls.len() == 0 {
        Seq::empty()
    } else {
        let line = ls.last();
        quoted_lines(ls.drop_last()) + if line.len() == 0 {
            ">\n"@
        } else {
            "> "@ + line + "\n"@
        }
    }
}

pub open spec fn quote_text(text: Seq<char>) -> Seq<char> {
    quoted_lines(split_on(text, '\n')) + "\n"@
}

/// What stands between the fences of a rewrite block.
pub open spec fn rewrite_body(
    search: Seq<char>,
    replace: Seq<char>,
    scope: Option<Seq<char>>,
    is_method_pattern: Option<bool>,
) -> Seq<char> {
    let scope_line = match scope {
        Some(s) => "# scope: "@ + s + "\n"@,
        None => Seq::empty(),
    };
    let pattern_line = match is_method_pattern {
        Some(true) => "# method_pattern: true\n"@,
        Some(false) => "# method_pattern: false\n"@,
        None => Seq::empty(),
    };
    scope_line + pattern_line + prefixed_lines("-"@, lines_of(normalized(search)))
        + prefixed_lines("+"@, lines_of(normalized(replace)))
}

/// A rewrite block, fenced as a diff.
pub open spec fn rewrite_text(
    language: Option<Seq<char>>,
    search: Seq<char>,
    replace: Seq<char>,
    scope: Option<Seq<char>>,
    is_method_pattern: Option<bool>,
) -> Seq<char> {
    let body = rewrite_body(search, replace, scope, is_method_pattern);
    let fence = fence_text(body);
    let name = match language {
        Some(l) => l,
        None => "rewrite"@,
    };
    fence + "diff "@ + name + "\n"@ + body + fence + "\n\n"@
}

/// The mark that stands for a snippet of unknown type.
pub open spec fn unknown_text(typ: Seq<char>) -> Seq<char> {
    "[[unknown: "@ + typ + "]]\n\n"@
}

/// What a policy makes of the target of a link snippet.
pub open spec fn link_target(url: Seq<char>, policy: LinkPolicy) -> Seq<char> {
    match policy(LinkKind::Markdown, url) {
        Some(t) => t,
        None => url,
    }
}

/// A node as text.
pub open spec fn node_text(
    node: NodeModel,
    policy: LinkPolicy,
    escaping: BlockEscaping,
    position: Position,
) -> Seq<char>
    decreases node,
{
    match node {
        NodeModel::Heading { level, text } => heading_text(
            level,
            rewritten(text, policy),
            escaping,
        ),
        NodeModel::Paragraph { text } => paragraph_text(
            rewritten(text, policy),
            escaping,
            position,
        ),
        NodeModel::Text { text } => paragraph_text(rewritten(text, policy), escaping, position),
        NodeModel::List { items } => list_items_text(items, policy, escaping) + "\n"@,
        NodeModel::Code { language, code } => code_text(language, code),
        NodeModel::Link { text, url } => link_text(text, link_target(url, policy)),
        NodeModel::Quote { text } => quote_text(rewritten(text, policy)),
        NodeModel::Rewrite { language, search, replace, scope, is_method_pattern } => rewrite_text(
            language,
            search,
            replace,
            scope,
            is_method_pattern,
        ),
        NodeModel::Unknown { typ, raw } => unknown_text(typ),
    }
}

/// The items of a list as text.
pub open spec fn list_items_text(
    items: Seq<Seq<NodeModel>>,
    policy: LinkPolicy,
    escaping: BlockEscaping,
) -> Seq<char>
    decreases items,
{
    if items.len() == 0 {
        Seq::empty()
    } else {
        list_items_text(items.take(items.len() - 1), policy, escaping) + list_item_text(
            nodes_text(items[items.len() - 1], policy, escaping, Position::ListItem),
        )
    }
}

/// Nodes as text, one after the other.
pub open spec fn nodes_text(
    nodes: Seq<NodeModel>,
    policy: LinkPolicy,
    escaping: BlockEscaping,
    position: Position,
) -> Seq<char>
    decreases nodes,
{
    if nodes.len() == 0 {
        Seq::empty()
    } else {
        nodes_text(nodes.take(nodes.len() - 1), policy, escaping, position) + node_text(
            nodes[nodes.len() - 1],
            policy,
            escaping,
            position,
        )
    }
}

/// A policy that gives no link a new target.
pub open spec fn keep_links() -> LinkPolicy {
    |kind: LinkKind, target: Seq<char>| None
}

fn push_block_line(line: &str, escaping: BlockEscaping, out: &mut String)
    ensures
        final(out)@ == old(out)@ + block_line(line@, escaping),
{
    match escaping {
        BlockEscaping::Escape => {
            let e = escape_block_start(line);
            out.push_str(e.as_str());
        },
        BlockEscaping::Verbatim => {
            out.push_str(line);
        },
    }
    out.push_str("\n");
    assert(out@ =~= old(out)@ + block_line(line@, escaping));
}

/// Appends the lines from the `from`-th on.
fn push_block_lines(ls: &Vec<String>, from: usize, escaping: BlockEscaping, out: &mut String)
    requires
        from <= ls@.len(),
    ensures
        final(out)@ == old(out)@ + block_text(views(ls@).skip(from as int), escaping),
{
    let ghost rest = views(ls@).skip(from as int);
    let ghost before = out@;
    let mut i: usize = from;
    assert(rest.take(0) =~= Seq::<Seq<char>>::empty());
    assert(out@ =~= before + block_text(rest.take(0), escaping));
    while i < ls.len()
        invariant
            from <= i <= ls@.len(),
            rest == views(ls@).skip(from as int),
            out@ == before + block_text(rest.take(i - from), escaping),
        decreases ls.len() - i,
    {
        proof {
            let n = i - from;
            assert(rest.take(n + 1).drop_last() =~= rest.take(n));
            assert(rest.take(n + 1).last() == ls@[i as int]@);
            lemma_concat(
                before,
                block_text(rest.take(n), escaping),
                block_line(ls@[i as int]@, escaping),
            );
        }
        push_block_line(ls[i].as_str(), escaping, out);
        i += 1;
    }
    assert(rest.take(rest.len() as int) =~= rest);
}

fn heading_block(level: u8, text: &str, escaping: BlockEscaping) -> (out: String)
    ensures
        out@ == heading_text(level, text@, escaping),
{
    let ls = split_char(text, '\n');
    proof {
        lemma_split_not_empty(text@, '\n');
    }
    let marks: usize = if level > 1 {
        level as usize
    } else {
        1
    };
    let mut out = repeat_char('#', marks);
    out.push_str(" ");
    out.push_str(ls[0].as_str());
    out.push_str("\n");
    push_block_lines(&ls, 1, escaping, &mut out);
    out.push_str("\n");
    assert(views(ls@)[0] == ls@[0]@);
    out
}

pub proof fn lemma_split_not_empty(s: Seq<char>, c: char)
    ensures
        split_on(s, c).len() >= 1,
{
}

fn paragraph_block(text: &str, escaping: BlockEscaping, position: Position) -> (out: String)
    ensures
        out@ == paragraph_text(text@, escaping, position),
{
    let mut out = String::new();
    let v = chars_of(text);
    if escaping == BlockEscaping::Escape && position == Position::Snippet && !has_char(&v, '\n')
        && is_standalone_link(text) {
        out.push_str("\\");
    }
    let ls = split_char(text, '\n');
    let ghost guard = out@;
    push_block_lines(&ls, 0, escaping, &mut out);
    out.push_str("\n");
    proof {
        assert(views(ls@).skip(0) =~= views(ls@));
        assert("\\"@ =~= Seq::<char>::empty() + "\\"@);
    }
    out
}

/// Appends each line from the `from`-th on, behind `prefix`.
pub(crate) fn push_prefixed_lines(prefix: &str, ls: &Vec<String>, from: usize, out: &mut String)
    requires
        from <= ls@.len(),
    ensures
        final(out)@ == old(out)@ + prefixed_lines(prefix@, views(ls@).skip(from as int)),
{
    let ghost rest = views(ls@).skip(from as int);
    let ghost before = out@;
    let mut i: usize = from;
    assert(rest.take(0) =~= Seq::<Seq<char>>::empty());
    assert(out@ =~= before + prefixed_lines(prefix@, rest.take(0)));
    while i < ls.len()
        invariant
            from <= i <= ls@.len(),
            rest == views(ls@).skip(from as int),
            out@ == before + prefixed_lines(prefix@, rest.take(i - from)),
        decreases ls.len() - i,
    {
        out.push_str(prefix);
        out.push_str(ls[i].as_str());
        out.push_str("\n");
        proof {
            let n = i - from;
            assert(rest.take(n + 1).drop_last() =~= rest.take(n));
            assert(rest.take(n + 1).last() == ls@[i as int]@);
            assert(out@ =~= before + prefixed_lines(prefix@, rest.take(n + 1)));
        }
        i += 1;
    }
    assert(rest.take(rest.len() as int) =~= rest);
}

pub(crate) fn list_item_block(text: &str) -> (out: String)
    ensures
        out@ == list_item_text(text@),
{
    let t = trim(text);
    let ls = lines(t.as_str());
    let mut out = String::new();
    if ls.len() > 0 {
        out.push_str("- ");
        out.push_str(ls[0].as_str());
        out.push_str("\n");
        push_prefixed_lines("  ", &ls, 1, &mut out);
        assert(views(ls@)[0] == ls@[0]@);
        assert(out@ =~= list_item_text(text@));
    }
    out
}

fn code_block(language: &Option<String>, code: &str) -> (out: String)
    ensures
        out@ == code_text(opt_view(*language), code@),
{
    let fence = fence_for(code);
    let mut out = String::new();
    out.push_str(fence.as_str());
    if let Some(l) = language {
        out.push_str(l.as_str());
    }
    out.push_str("\n");
    out.push_str(code);
    out.push_str("\n");
    out.push_str(fence.as_str());
    out.push_str("\n\n");
    assert(out@ =~= code_text(opt_view(*language), code@));
    out
}

pub(crate) fn link_block(text: &str, url: &str) -> (out: String)
    ensures
        out@ == link_text(text@, url@),
{
    let mut out = String::new();
    out.push_str("[");
    out.push_str(text);
    out.push_str("](");
    out.push_str(url);
    out.push_str(")\n\n");
    assert(out@ =~= link_text(text@, url@));
    out
}

fn quote_block(text: &str) -> (out: String)
    ensures
        out@ == quote_text(text@),
{
    let ls = split_char(text, '\n');
    let ghost all = views(ls@);
    let mut out = String::new();
    let mut i: usize = 0;
    assert(all.take(0) =~= Seq::<Seq<char>>::empty());
    while i < ls.len()
        invariant
            i <= ls@.len(),
            all == views(ls@),
            out@ == quoted_lines(all.take(i as int)),
        decreases ls.len() - i,
    {
        proof {
            assert(all.take(i as int + 1).drop_last() =~= all.take(i as int));
            assert(all.take(i as int + 1).last() == ls@[i as int]@);
        }
        let ghost before = out@;
        if ls[i].as_str().is_empty() {
            out.push_str(">\n");
        } else {
            out.push_str("> ");
            out.push_str(ls[i].as_str());
            out.push_str("\n");
            assert(out@ =~= before + ("> "@ + ls@[i as int]@ + "\n"@));
        }
        i += 1;
    }
    assert(all.take(i as int) =~= all);
    out.push_str("\n");
    out
}

pub(crate) fn rewrite_lines(
    search: &str,
    replace: &str,
    scope: &Option<String>,
    is_method_pattern: Option<bool>,
) -> (body: String)
    ensures
        body@ == rewrite_body(search@, replace@, opt_view(*scope), is_method_pattern),
{
    let mut body = String::new();
    if let Some(s) = scope {
        body.push_str("# scope: ");
        body.push_str(s.as_str());
        body.push_str("\n");
    }
    let ghost scope_line = match opt_view(*scope) {
        Some(s) => "# scope: "@ + s + "\n"@,
        None => Seq::empty(),
    };
    assert(body@ =~= scope_line);
    match is_method_pattern {
        Some(true) => {
            body.push_str("# method_pattern: true\n");
        },
        Some(false) => {
            body.push_str("# method_pattern: false\n");
        },
        None => {},
    }
    let ghost pattern_line = match is_method_pattern {
        Some(true) => "# method_pattern: true\n"@,
        Some(false) => "# method_pattern: false\n"@,
        None => Seq::empty(),
    };
    assert(body@ =~= scope_line + pattern_line);
    let from = normalize_text(search);
    let from_lines = lines(from.as_str());
    push_prefixed_lines("-", &from_lines, 0, &mut body);
    assert(views(from_lines@).skip(0) =~= views(from_lines@));
    let to = normalize_text(replace);
    let to_lines = lines(to.as_str());
    push_prefixed_lines("+", &to_lines, 0, &mut body);
    assert(views(to_lines@).skip(0) =~= views(to_lines@));
    body
}

fn rewrite_block(
    language: &Option<String>,
    search: &str,
    replace: &str,
    scope: &Option<String>,
    is_method_pattern: Option<bool>,
) -> (out: String)
    ensures
        out@ == rewrite_text(
            opt_view(*language),
            search@,
            replace@,
            opt_view(*scope),
            is_method_pattern,
        ),
{
    let body = rewrite_lines(search, replace, scope, is_method_pattern);
    let fence = fence_for(body.as_str());
    let mut out = String::new();
    out.push_str(fence.as_str());
    out.push_str("diff ");
    match language {
        Some(l) => {
            out.push_str(l.as_str());
        },
        None => {
            out.push_str("rewrite");
        },
    }
    out.push_str("\n");
    out.push_str(body.as_str());
    out.push_str(fence.as_str());
    out.push_str("\n\n");
    assert(out@ =~= rewrite_text(
        opt_view(*language),
        search@,
        replace@,
        opt_view(*scope),
        is_method_pattern,
    ));
    out
}

fn unknown_block(typ: &str) -> (out: String)
    ensures
        out@ == unknown_text(typ@),
{
    let mut out = String::new();
    out.push_str("[[unknown: ");
    out.push_str(typ);
    out.push_str("]]\n\n");
    assert(out@ =~= unknown_text(typ@));
    out
}

// ---------------------------------------------------------------------------
// What a rewriter is asked
// ---------------------------------------------------------------------------

/// What a rewriter is asked about a node, in order: about the links of its text,
/// or about its address.
pub open spec fn node_questions(node: NodeModel) -> Seq<(LinkKind, Seq<char>)>
    decreases node,
{
    match node {
        NodeModel::Heading { level, text } => questions(text),
        NodeModel::Paragraph { text } => questions(text),
        NodeModel::Text { text } => questions(text),
        NodeModel::Quote { text } => questions(text),
        NodeModel::Link { text, url } => seq![(LinkKind::Markdown, url)],
        NodeModel::List { items } => items_questions(items),
        _ => Seq::empty(),
    }
}

/// What a rewriter is asked about the items of a list.
pub open spec fn items_questions(items: Seq<Seq<NodeModel>>) -> Seq<(LinkKind, Seq<char>)>
    decreases items,
{
    if items.len() == 0 {
        Seq::empty()
    } else {
        items_questions(items.take(items.len() - 1)) + nodes_questions(items[items.len() - 1])
    }
}

/// What a rewriter is asked about nodes, one after the other.
pub open spec fn nodes_questions(nodes: Seq<NodeModel>) -> Seq<(LinkKind, Seq<char>)>
    decreases nodes,
{
    if nodes.len() == 0 {
        Seq::empty()
    } else {
        nodes_questions(nodes.take(nodes.len() - 1)) + node_questions(nodes[nodes.len() - 1])
    }
}

/// A node with its links replaced as the answers say.
pub open spec fn answered_node(node: NodeModel, given: Seq<Option<Seq<char>>>) -> NodeModel
    decreases node,
{
    match node {
        NodeModel::Heading { level, text } => NodeModel::Heading {
            level,
            text: answered(text, given),
        },
        NodeModel::Paragraph { text } => NodeModel::Paragraph { text: answered(text, given) },
        NodeModel::Text { text } => NodeModel::Text { text: answered(text, given) },
        NodeModel::Quote { text } => NodeModel::Quote { text: answered(text, given) },
        NodeModel::Link { text, url } => NodeModel::Link {
            text,
            url: match given[0] {
                Some(t) => t,
                None => url,
            },
        },
        NodeModel::List { items } => NodeModel::List { items: answered_items(items, given) },
        _ => node,
    }
}

/// The items of a list with their links replaced as the answers say.
pub open spec fn answered_items(
    items: Seq<Seq<NodeModel>>,
    given: Seq<Option<Seq<char>>>,
) -> Seq<Seq<NodeModel>>
    decreases items,
{
    if items.len() == 0 {
        Seq::empty()
    } else {
        let before = items.take(items.len() - 1);
        let n = items_questions(before).len() as int;
        answered_items(before, given.take(n)).push(
            answered_nodes(items[items.len() - 1], given.skip(n)),
        )
    }
}

/// Nodes with their links replaced as the answers say, one for each question in
/// order.
pub open spec fn answered_nodes(
    nodes: Seq<NodeModel>,
    given: Seq<Option<Seq<char>>>,
) -> Seq<NodeModel>
    decreases nodes,
{
    if nodes.len() == 0 {
        Seq::empty()
    } else {
        let before = nodes.take(nodes.len() - 1);
        let n = nodes_questions(before).len() as int;
        answered_nodes(before, given.take(n)).push(
            answered_node(nodes[nodes.len() - 1], given.skip(n)),
        )
    }
}

/// Nodes as text, with their links replaced as the answers say.
pub open spec fn answered_text(
    nodes: Seq<NodeModel>,
    given: Seq<Option<Seq<char>>>,
    escaping: BlockEscaping,
    position: Position,
) -> Seq<char> {
    nodes_text(answered_nodes(nodes, given), keep_links(), escaping, position)
}

/// Whether rendering `nodes` behind `before` may give `after`: there are answers
/// of the rewriter, one for each link in order, with which the text of the nodes
/// follows `before`.
pub open spec fn renders_onto<F: Fn(LinkKind, &str) -> Option<String>>(
    rewrite: F,
    nodes: Seq<NodeModel>,
    escaping: BlockEscaping,
    position: Position,
    before: Seq<char>,
    after: Seq<char>,
) -> bool {
    exists|given: Seq<Option<Seq<char>>>| #[trigger]
        were_given(rewrite, nodes_questions(nodes), given) && after == before + answered_text(
            nodes,
            given,
            escaping,
            position,
        )
}

/// Rendering behind a text appends to it what rendering alone gives, and leaves
/// the text as it is.
pub proof fn rendering_only_appends<F: Fn(LinkKind, &str) -> Option<String>>(
    rewrite: F,
    nodes: Seq<NodeModel>,
    escaping: BlockEscaping,
    position: Position,
    before: Seq<char>,
    alone: Seq<char>,
)
    ensures
        renders_onto(rewrite, nodes, escaping, position, Seq::empty(), alone) == renders_onto(
            rewrite,
            nodes,
            escaping,
            position,
            before,
            before + alone,
        ),
        forall|after: Seq<char>| #[trigger]
            renders_onto(rewrite, nodes, escaping, position, before, after) ==> exists|more:
                Seq<char>,
            |
                after == #[trigger] (before + more) && renders_onto(
                    rewrite,
                    nodes,
                    escaping,
                    position,
                    Seq::empty(),
                    more,
                ),
{
    let asked = nodes_questions(nodes);
    if renders_onto(rewrite, nodes, escaping, position, Seq::empty(), alone) {
        let given = choose|given: Seq<Option<Seq<char>>>| #[trigger]
            were_given(rewrite, asked, given) && alone == Seq::<char>::empty() + answered_text(
                nodes,
                given,
                escaping,
                position,
            );
        assert(alone =~= answered_text(nodes, given, escaping, position));
        assert(were_given(rewrite, asked, given));
    }
    if renders_onto(rewrite, nodes, escaping, position, before, before + alone) {
        let given = choose|given: Seq<Option<Seq<char>>>| #[trigger]
            were_given(rewrite, asked, given) && before + alone == before + answered_text(
                nodes,
                given,
                escaping,
                position,
            );
        let text = answered_text(nodes, given, escaping, position);
        assert((before + alone).skip(before.len() as int) =~= alone);
        assert((before + text).skip(before.len() as int) =~= text);
        assert(alone =~= Seq::<char>::empty() + text);
        assert(were_given(rewrite, asked, given));
    }
    assert forall|after: Seq<char>| #[trigger]
        renders_onto(rewrite, nodes, escaping, position, before, after) implies exists|more:
            Seq<char>,
        |
            after == #[trigger] (before + more) && renders_onto(
                rewrite,
                nodes,
                escaping,
                position,
                Seq::empty(),
                more,
            ) by {
        let given = choose|given: Seq<Option<Seq<char>>>| #[trigger]
            were_given(rewrite, asked, given) && after == before + answered_text(
                nodes,
                given,
                escaping,
                position,
            );
        let more = answered_text(nodes, given, escaping, position);
        assert(more =~= Seq::<char>::empty() + more);
        assert(were_given(rewrite, asked, given));
        assert(after == before + more);
    }
}

proof fn lemma_kept_links(text: Seq<char>)
    ensures
        rewritten(text, keep_links()) == text,
{
    rewriting_nothing_is_identity(text, keep_links());
}

proof fn lemma_given_concat<F: Fn(LinkKind, &str) -> Option<String>>(
    rewrite: F,
    asked: Seq<(LinkKind, Seq<char>)>,
    given: Seq<Option<Seq<char>>>,
    more: Seq<(LinkKind, Seq<char>)>,
    later: Seq<Option<Seq<char>>>,
)
    requires
        were_given(rewrite, asked, given),
        were_given(rewrite, more, later),
    ensures
        were_given(rewrite, asked + more, given + later),
        (given + later).take(asked.len() as int) == given,
        (given + later).skip(asked.len() as int) == later,
{
    let all = given + later;
    assert forall|k: int| 0 <= k < all.len() implies may_answer(
        rewrite,
        (asked + more)[k].0,
        (asked + more)[k].1,
        #[trigger] all[k],
    ) by {
        if k < given.len() {
            assert(all[k] == given[k]);
        } else {
            assert(all[k] == later[k - given.len()]);
        }
    }
    assert(all.take(asked.len() as int) =~= given);
    assert(all.skip(asked.len() as int) =~= later);
}

proof fn lemma_nodes_push(
    nodes: Seq<NodeModel>,
    node: NodeModel,
    escaping: BlockEscaping,
    position: Position,
)
    ensures
        nodes_text(nodes.push(node), keep_links(), escaping, position) == nodes_text(
            nodes,
            keep_links(),
            escaping,
            position,
        ) + node_text(node, keep_links(), escaping, position),
{
    assert(nodes.push(node).take(nodes.len() as int) =~= nodes);
}

proof fn lemma_items_push(items: Seq<Seq<NodeModel>>, item: Seq<NodeModel>, escaping: BlockEscaping)
    ensures
        list_items_text(items.push(item), keep_links(), escaping) == list_items_text(
            items,
            keep_links(),
            escaping,
        ) + list_item_text(nodes_text(item, keep_links(), escaping, Position::ListItem)),
{
    assert(items.push(item).take(items.len() as int) =~= items);
}

/// Renders one node.
fn render_node<F: Fn(LinkKind, &str) -> Option<String>>(
    node: &Node,
    rewrite: &F,
    escaping: BlockEscaping,
    position: Position,
) -> (out: String)
    requires
        callable(*rewrite),
    ensures
        exists|given: Seq<Option<Seq<char>>>| #[trigger]
            were_given(*rewrite, node_questions(node@), given) && out@ == node_text(
                answered_node(node@, given),
                keep_links(),
                escaping,
                position,
            ),
        forall|policy: LinkPolicy| #[trigger]
            answers(*rewrite, policy) ==> out@ == node_text(node@, policy, escaping, position),
    decreases node,
{
    match node {
        Node::Heading { level, text } => {
            let shown = rewrite_links_with(text.as_str(), rewrite);
            proof {
                lemma_kept_links(shown@);
                let given = choose|given: Seq<Option<Seq<char>>>| #[trigger]
                    were_given(*rewrite, questions(text@), given) && shown@ == answered(
                        text@,
                        given,
                    );
                assert(were_given(*rewrite, node_questions(node@), given));
            }
            heading_block(*level, shown.as_str(), escaping)
        },
        Node::Paragraph { text } => {
            let shown = rewrite_links_with(text.as_str(), rewrite);
            proof {
                lemma_kept_links(shown@);
                let given = choose|given: Seq<Option<Seq<char>>>| #[trigger]
                    were_given(*rewrite, questions(text@), given) && shown@ == answered(
                        text@,
                        given,
                    );
                assert(were_given(*rewrite, node_questions(node@), given));
            }
            paragraph_block(shown.as_str(), escaping, position)
        },
        Node::Text { text } => {
            let shown = rewrite_links_with(text.as_str(), rewrite);
            proof {
                lemma_kept_links(shown@);
                let given = choose|given: Seq<Option<Seq<char>>>| #[trigger]
                    were_given(*rewrite, questions(text@), given) && shown@ == answered(
                        text@,
                        given,
                    );
                assert(were_given(*rewrite, node_questions(node@), given));
            }
            paragraph_block(shown.as_str(), escaping, position)
        },
        Node::List { items } => {
            let ghost all = item_views(items@);
            let ghost mut given: Seq<Option<Seq<char>>> = Seq::empty();
            let mut out = String::new();
            let mut i: usize = 0;
            proof {
                lemma_list_view(*node);
                assert(all.take(0) =~= Seq::<Seq<NodeModel>>::empty());
                assert(were_given(*rewrite, items_questions(all.take(0)), given));
            }
            while i < items.len()
                invariant
                    i <= items@.len(),
                    all == item_views(items@),
                    callable(*rewrite),
                    *node == (Node::List { items: *items }),
                    were_given(*rewrite, items_questions(all.take(i as int)), given),
                    out@ == list_items_text(
                        answered_items(all.take(i as int), given),
                        keep_links(),
                        escaping,
                    ),
                    forall|policy: LinkPolicy| #[trigger]
                        answers(*rewrite, policy) ==> out@ == list_items_text(
                            all.take(i as int),
                            policy,
                            escaping,
                        ),
                decreases items.len() - i,
            {
                proof {
                    assert(node->items == *items);
                    assert(decreases_to!(*node => node->items));
                    assert(decreases_to!(*items => items@));
                    assert(decreases_to!(items@ => items@[i as int]));
                }
                let mut item_out = String::new();
                render_nodes_into(&items[i], rewrite, escaping, Position::ListItem, &mut item_out);
                let block = list_item_block(item_out.as_str());
                let ghost before = out@;
                out.push_str(block.as_str());
                proof {
                    let done = all.take(i as int);
                    let next = all.take(i as int + 1);
                    let item = node_views(items@[i as int]@);
                    assert(next.take(next.len() - 1) =~= done);
                    assert(next[next.len() - 1] == item);
                    let heard = choose|heard: Seq<Option<Seq<char>>>| #[trigger]
                        were_given(*rewrite, nodes_questions(item), heard) && item_out@ == Seq::<
                            char,
                        >::empty() + answered_text(item, heard, escaping, Position::ListItem);
                    assert(item_out@ =~= answered_text(item, heard, escaping, Position::ListItem));
                    lemma_given_concat(
                        *rewrite,
                        items_questions(done),
                        given,
                        nodes_questions(item),
                        heard,
                    );
                    lemma_items_push(
                        answered_items(done, given),
                        answered_nodes(item, heard),
                        escaping,
                    );
                    given = given + heard;
                    assert(answered_items(next, given) == answered_items(
                        done,
                        given.take(items_questions(done).len() as int),
                    ).push(
                        answered_nodes(item, given.skip(items_questions(done).len() as int)),
                    ));
                }
                assert forall|policy: LinkPolicy| #[trigger] answers(*rewrite, policy) implies out@
                    == list_items_text(all.take(i as int + 1), policy, escaping) by {
                    let next = all.take(i as int + 1);
                    assert(next.take(next.len() - 1) =~= all.take(i as int));
                    assert(next[next.len() - 1] == node_views(items@[i as int]@));
                    assert(item_out@ =~= nodes_text(
                        node_views(items@[i as int]@),
                        policy,
                        escaping,
                        Position::ListItem,
                    ));
                }
                i += 1;
            }
            assert(all.take(i as int) =~= all);
            out.push_str("\n");
            assert(were_given(*rewrite, node_questions(node@), given));
            out
        },
        Node::Code { language, code } => {
            assert(were_given(*rewrite, node_questions(node@), Seq::empty()));
            code_block(language, code.as_str())
        },
        Node::Link { text, url } => {
            let answer = rewrite(LinkKind::Markdown, url.as_str());
            proof {
                let given = seq![opt_view(answer)];
                assert(may_answer(*rewrite, LinkKind::Markdown, url@, given[0]));
                assert(were_given(*rewrite, node_questions(node@), given));
            }
            match answer {
                Some(t) => link_block(text.as_str(), t.as_str()),
                None => link_block(text.as_str(), url.as_str()),
            }
        },
        Node::Quote { text } => {
            let shown = rewrite_links_with(text.as_str(), rewrite);
            proof {
                lemma_kept_links(shown@);
                let given = choose|given: Seq<Option<Seq<char>>>| #[trigger]
                    were_given(*rewrite, questions(text@), given) && shown@ == answered(
                        text@,
                        given,
                    );
                assert(were_given(*rewrite, node_questions(node@), given));
            }
            quote_block(shown.as_str())
        },
        Node::Rewrite { language, search, replace, scope, is_method_pattern } => {
            assert(were_given(*rewrite, node_questions(node@), Seq::empty()));
            rewrite_block(language, search.as_str(), replace.as_str(), scope, *is_method_pattern)
        },
        Node::Unknown { typ, .. } => {
            assert(were_given(*rewrite, node_questions(node@), Seq::empty()));
            unknown_block(typ.as_str())
        },
    }
}

/// Appends the text of each node.
pub fn render_nodes_into<F: Fn(LinkKind, &str) -> Option<String>>(
    nodes: &Vec<Node>,
    rewrite: &F,
    escaping: BlockEscaping,
    position: Position,
    out: &mut String,
)
    requires
        callable(*rewrite),
    ensures
        renders_onto(*rewrite, node_views(nodes@), escaping, position, old(out)@, final(out)@),
        forall|policy: LinkPolicy| #[trigger]
            answers(*rewrite, policy) ==> final(out)@ == old(out)@ + nodes_text(
                node_views(nodes@),
                policy,
                escaping,
                position,
            ),
    decreases nodes,
{
    let ghost all = node_views(nodes@);
    let ghost before = out@;
    let ghost mut given: Seq<Option<Seq<char>>> = Seq::empty();
    let mut i: usize = 0;
    proof {
        assert(all.take(0) =~= Seq::<NodeModel>::empty());
        assert(before + Seq::<char>::empty() =~= before);
        assert(were_given(*rewrite, nodes_questions(all.take(0)), given));
    }
    while i < nodes.len()
        invariant
            i <= nodes@.len(),
            all == node_views(nodes@),
            callable(*rewrite),
            were_given(*rewrite, nodes_questions(all.take(i as int)), given),
            out@ == before + answered_text(all.take(i as int), given, escaping, position),
            forall|policy: LinkPolicy| #[trigger]
                answers(*rewrite, policy) ==> out@ == before + nodes_text(
                    all.take(i as int),
                    policy,
                    escaping,
                    position,
                ),
        decreases nodes.len() - i,
    {
        proof {
            assert(decreases_to!(*nodes => nodes@));
            assert(decreases_to!(nodes@ => nodes@[i as int]));
        }
        let text = render_node(&nodes[i], rewrite, escaping, position);
        out.push_str(text.as_str());
        proof {
            let done = all.take(i as int);
            let next = all.take(i as int + 1);
            let node = nodes@[i as int]@;
            assert(next.take(next.len() - 1) =~= done);
            assert(next[next.len() - 1] == node);
            let heard = choose|heard: Seq<Option<Seq<char>>>| #[trigger]
                were_given(*rewrite, node_questions(node), heard) && text@ == node_text(
                    answered_node(node, heard),
                    keep_links(),
                    escaping,
                    position,
                );
            lemma_given_concat(*rewrite, nodes_questions(done), given, node_questions(node), heard);
            lemma_nodes_push(
                answered_nodes(done, given),
                answered_node(node, heard),
                escaping,
                position,
            );
            lemma_concat(before, answered_text(done, given, escaping, position), text@);
            given = given + heard;
            assert(answered_nodes(next, given) == answered_nodes(
                done,
                given.take(nodes_questions(done).len() as int),
            ).push(answered_node(node, given.skip(nodes_questions(done).len() as int))));
        }
        assert forall|policy: LinkPolicy| #[trigger] answers(*rewrite, policy) implies out@
            == before + nodes_text(all.take(i as int + 1), policy, escaping, position) by {
            let next = all.take(i as int + 1);
            assert(next.take(next.len() - 1) =~= all.take(i as int));
            assert(next[next.len() - 1] == nodes@[i as int]@);
            lemma_concat(
                before,
                nodes_text(all.take(i as int), policy, escaping, position),
                node_text(nodes@[i as int]@, policy, escaping, position),
            );
        }
        i += 1;
    }
    assert(all.take(i as int) =~= all);
    assert(were_given(*rewrite, nodes_questions(all), given));
}

/// Renders normalized nodes to plain text, rewriting inline and explicit links
/// through `rewrite`.
///
/// `rewrite(kind, target)` is asked about every `[[wikilink]]` and
/// `[label](target)` found in text-bearing nodes, and about every
/// [`Node::Link`] url (as [`LinkKind::Markdown`]). Returning `Some(new_target)`
/// substitutes the target; returning `None` leaves the link verbatim.
pub fn render_nodes_to_text_with<F: Fn(LinkKind, &str) -> Option<String>>(
    nodes: &Vec<Node>,
    rewrite: &F,
    escaping: BlockEscaping,
) -> (out: String)
    requires
        callable(*rewrite),
    ensures
        exists|given: Seq<Option<Seq<char>>>| #[trigger]
            were_given(*rewrite, nodes_questions(node_views(nodes@)), given) && out@
                == answered_text(node_views(nodes@), given, escaping, Position::Snippet),
        forall|policy: LinkPolicy| #[trigger]
            answers(*rewrite, policy) ==> out@ == nodes_text(
                node_views(nodes@),
                policy,
                escaping,
                Position::Snippet,
            ),
{
    let mut out = String::new();
    render_nodes_into(nodes, rewrite, escaping, Position::Snippet, &mut out);
    proof {
        let all = node_views(nodes@);
        let given = choose|given: Seq<Option<Seq<char>>>| #[trigger]
            were_given(*rewrite, nodes_questions(all), given) && out@ == Seq::<char>::empty()
                + answered_text(all, given, escaping, Position::Snippet);
        assert(out@ =~= answered_text(all, given, escaping, Position::Snippet));
        assert(were_given(*rewrite, nodes_questions(all), given));
    }
    assert forall|policy: LinkPolicy| #[trigger] answers(*rewrite, policy) implies out@
        == nodes_text(node_views(nodes@), policy, escaping, Position::Snippet) by {
        assert(out@ =~= nodes_text(node_views(nodes@), policy, escaping, Position::Snippet));
    }
    out
}

/// Nodes as they are displayed.
pub open spec fn display_text(nodes: Seq<NodeModel>) -> Seq<char> {
    nodes_text(nodes, keep_links(), BlockEscaping::Verbatim, Position::Snippet)
}

/// Renders normalized nodes to plain text for display.
pub fn render_nodes_to_text(nodes: &Vec<Node>) -> (out: String)
    ensures
        out@ == display_text(node_views(nodes@)),
{
    let keep = |kind: LinkKind, target: &str| -> (answer: Option<String>)
        ensures
            answer is None,
        { None };
    assert(answers(keep, keep_links()));
    render_nodes_to_text_with(nodes, &keep, BlockEscaping::Verbatim)
}

/// Renders a parsed page to plain text for display.
pub fn render_page_to_text(page: &Page) -> (out: String)
    ensures
        out@ == display_text(page@.content),
{
    render_nodes_to_text(&page.content)
}


/// A rewriter that changes nothing, with no escaping, renders as for display.
pub proof fn idle_rewriter_renders_for_display(nodes: Seq<NodeModel>, policy: LinkPolicy)
    requires
        forall|kind: LinkKind, target: Seq<char>| #[trigger] policy(kind, target) is None,
    ensures
        nodes_text(nodes, policy, BlockEscaping::Verbatim, Position::Snippet) == display_text(
            nodes,
        ),
{
    assert(policy =~= keep_links());
}

// ---------------------------------------------------------------------------
// Searching content
// ---------------------------------------------------------------------------

/// Whether the lowercased text holds `needle`.
pub open spec fn text_mentions(text: Seq<char>, needle: Seq<char>) -> bool {
    contains(lowered(text), needle)
}

pub open spec fn opt_mentions(text: Option<Seq<char>>, needle: Seq<char>) -> bool {
    match text {
        Some(t) => text_mentions(t, needle),
        None => false,
    }
}

/// Whether one of the texts of a node holds `needle`.
pub open spec fn node_mentions(node: NodeModel, needle: Seq<char>) -> bool
    decreases node,
{
    match node {
        NodeModel::Heading { level, text } => text_mentions(text, needle),
        NodeModel::Paragraph { text } => text_mentions(text, needle),
        NodeModel::Text { text } => text_mentions(text, needle),
        NodeModel::Quote { text } => text_mentions(text, needle),
        NodeModel::Code { language, code } => text_mentions(code, needle) || opt_mentions(
            language,
            needle,
        ),
        NodeModel::Link { text, url } => text_mentions(text, needle) || text_mentions(url, needle),
        NodeModel::List { items } => items_mention(items, needle),
        NodeModel::Rewrite { language, search, replace, scope, is_method_pattern } => {
            ||| text_mentions(search, needle)
            ||| text_mentions(replace, needle)
            ||| opt_mentions(language, needle)
            ||| opt_mentions(scope, needle)
        },
        NodeModel::Unknown { typ, raw } => text_mentions(typ, needle),
    }
}

/// Whether one of the list items holds `needle`.
pub open spec fn items_mention(items: Seq<Seq<NodeModel>>, needle: Seq<char>) -> bool
    decreases items,
{
    items.len() > 0 && (items_mention(items.take(items.len() - 1), needle) || nodes_mention(
        items[items.len() - 1],
        needle,
    ))
}

/// Whether one of the nodes holds `needle`.
pub open spec fn nodes_mention(nodes: Seq<NodeModel>, needle: Seq<char>) -> bool
    decreases nodes,
{
    nodes.len() > 0 && (nodes_mention(nodes.take(nodes.len() - 1), needle) || node_mentions(
        nodes[nodes.len() - 1],
        needle,
    ))
}

proof fn lemma_mention_in_prefix(nodes: Seq<NodeModel>, k: int, needle: Seq<char>)
    requires
        0 <= k <= nodes.len(),
        nodes_mention(nodes.take(k), needle),
    ensures
        nodes_mention(nodes, needle),
    decreases nodes.len() - k,
{
    if k == nodes.len() {
        assert(nodes.take(k) =~= nodes);
    } else {
        let next = nodes.take(k + 1);
        assert(next.take(next.len() - 1) =~= nodes.take(k));
        lemma_mention_in_prefix(nodes, k + 1, needle);
    }
}

proof fn lemma_item_mention_in_prefix(items: Seq<Seq<NodeModel>>, k: int, needle: Seq<char>)
    requires
        0 <= k <= items.len(),
        items_mention(items.take(k), needle),
    ensures
        items_mention(items, needle),
    decreases items.len() - k,
{
    if k == items.len() {
        assert(items.take(k) =~= items);
    } else {
        let next = items.take(k + 1);
        assert(next.take(next.len() - 1) =~= items.take(k));
        lemma_item_mention_in_prefix(items, k + 1, needle);
    }
}

/// Substring check against the lowercased `text`. `needle` must already be
/// lowercased the same way by the caller.
fn node_text_contains(text: &str, needle: &str) -> (b: bool)
    ensures
        b == text_mentions(text@, needle@),
{
    let lower = lower_per_char(text);
    text_contains(lower.as_str(), needle)
}

fn opt_text_contains(text: &Option<String>, needle: &str) -> (b: bool)
    ensures
        b == opt_mentions(opt_view(*text), needle@),
{
    match text {
        Some(t) => node_text_contains(t.as_str(), needle),
        None => false,
    }
}

fn node_contains(node: &Node, needle: &str) -> (b: bool)
    ensures
        b == node_mentions(node@, needle@),
    decreases node,
{
    match node {
        Node::Heading { text, .. } => node_text_contains(text.as_str(), needle),
        Node::Paragraph { text } => node_text_contains(text.as_str(), needle),
        Node::Text { text } => node_text_contains(text.as_str(), needle),
        Node::Quote { text } => node_text_contains(text.as_str(), needle),
        Node::Code { language, code } => node_text_contains(code.as_str(), needle)
            || opt_text_contains(language, needle),
        Node::Link { text, url } => node_text_contains(text.as_str(), needle)
            || node_text_contains(url.as_str(), needle),
        Node::List { items } => {
            let ghost all = item_views(items@);
            let mut i: usize = 0;
            proof {
                lemma_list_view(*node);
                assert(all.take(0) =~= Seq::<Seq<NodeModel>>::empty());
            }
            while i < items.len()
                invariant
                    i <= items@.len(),
                    all == item_views(items@),
                    *node == (Node::List { items: *items }),
                    node@ == (NodeModel::List { items: all }),
                    !items_mention(all.take(i as int), needle@),
                decreases items.len() - i,
            {
                proof {
                    assert(node->items == *items);
                    assert(decreases_to!(*node => node->items));
                    assert(decreases_to!(*items => items@));
                    assert(decreases_to!(items@ => items@[i as int]));
                    let next = all.take(i as int + 1);
                    assert(next.take(next.len() - 1) =~= all.take(i as int));
                    assert(next[next.len() - 1] == node_views(items@[i as int]@));
                }
                if nodes_contain(&items[i], needle) {
                    proof {
                        lemma_item_mention_in_prefix(all, i as int + 1, needle@);
                    }
                    return true;
                }
                i += 1;
            }
            assert(all.take(i as int) =~= all);
            false
        },
        Node::Rewrite { language, search, replace, scope, .. } => node_text_contains(
            search.as_str(),
            needle,
        ) || node_text_contains(replace.as_str(), needle) || opt_text_contains(language, needle)
            || opt_text_contains(scope, needle),
        Node::Unknown { typ, .. } => node_text_contains(typ.as_str(), needle),
    }
}

fn nodes_contain(nodes: &Vec<Node>, needle: &str) -> (b: bool)
    ensures
        b == nodes_mention(node_views(nodes@), needle@),
    decreases nodes,
{
    let ghost all = node_views(nodes@);
    let mut i: usize = 0;
    assert(all.take(0) =~= Seq::<NodeModel>::empty());
    while i < nodes.len()
        invariant
            i <= nodes@.len(),
            all == node_views(nodes@),
            !nodes_mention(all.take(i as int), needle@),
        decreases nodes.len() - i,
    {
        proof {
            assert(decreases_to!(*nodes => nodes@));
            assert(decreases_to!(nodes@ => nodes@[i as int]));
            let next = all.take(i as int + 1);
            assert(next.take(next.len() - 1) =~= all.take(i as int));
            assert(next[next.len() - 1] == nodes@[i as int]@);
        }
        if node_contains(&nodes[i], needle) {
            proof {
                lemma_mention_in_prefix(all, i as int + 1, needle@);
            }
            return true;
        }
        i += 1;
    }
    assert(all.take(i as int) =~= all);
    false
}

/// Whether the content of a page holds `needle`, whatever the case of either.
pub open spec fn content_mentions(content: Seq<NodeModel>, needle: Seq<char>) -> bool {
    nodes_mention(content, lowered(needle))
}

/// Checks whether the text of a page contains `needle` (case-insensitive).
///
/// Walks nodes one at a time and returns `true` on the first match.
pub fn page_content_contains(page: &Page, needle: &str) -> (b: bool)
    ensures
        b == content_mentions(page@.content, needle@),
{
    let lower = lower_per_char(needle);
    nodes_contain(&page.content, lower.as_str())
}

// ---------------------------------------------------------------------------
// What a page mentions
// ---------------------------------------------------------------------------

proof fn lemma_node_is_mentioned(nodes: Seq<NodeModel>, i: int, needle: Seq<char>)
    requires
        0 <= i < nodes.len(),
        node_mentions(nodes[i], needle),
    ensures
        nodes_mention(nodes, needle),
    decreases nodes.len(),
{
    let n = nodes.len() - 1;
    if i < n {
        assert(nodes.take(n)[i] == nodes[i]);
        lemma_node_is_mentioned(nodes.take(n), i, needle);
    }
}

/// A page mentions every part of what a reader sees of each of its nodes: of its
/// headings, paragraphs, quotes and code, of the text and the address of its
/// links, whatever the case.
pub proof fn a_page_mentions_every_part_of_its_text(
    content: Seq<NodeModel>,
    i: int,
    s: Seq<char>,
    a: int,
    b: int,
    needle: Seq<char>,
)
    requires
        0 <= i < content.len(),
        match content[i] {
            NodeModel::Heading { level, text } => s == text,
            NodeModel::Paragraph { text } => s == text,
            NodeModel::Text { text } => s == text,
            NodeModel::Quote { text } => s == text,
            NodeModel::Code { language, code } => s == code || language == Some(s),
            NodeModel::Link { text, url } => s == text || s == url,
            NodeModel::Rewrite { language, search, replace, scope, is_method_pattern } => s
                == search || s == replace || language == Some(s) || scope == Some(s),
            NodeModel::Unknown { typ, raw } => s == typ,
            _ => false,
        },
        0 <= a <= b <= lowered(s).len(),
        lowered(needle) == lowered(s).subrange(a, b),
    ensures
        content_mentions(content, needle),
{
    a_text_holds_its_parts(lowered(s), a, b);
    lemma_node_is_mentioned(content, i, lowered(needle));
}

/// A page mentions what an item of one of its lists mentions.
pub proof fn a_page_mentions_what_its_lists_mention(
    content: Seq<NodeModel>,
    i: int,
    items: Seq<Seq<NodeModel>>,
    k: int,
    needle: Seq<char>,
)
    requires
        0 <= i < content.len(),
        content[i] == (NodeModel::List { items }),
        0 <= k < items.len(),
        content_mentions(items[k], needle),
    ensures
        content_mentions(content, needle),
{
    lemma_item_is_mentioned(items, k, lowered(needle));
    lemma_node_is_mentioned(content, i, lowered(needle));
}

proof fn lemma_item_is_mentioned(items: Seq<Seq<NodeModel>>, k: int, needle: Seq<char>)
    requires
        0 <= k < items.len(),
        nodes_mention(items[k], needle),
    ensures
        items_mention(items, needle),
    decreases items.len(),
{
    let n = items.len() - 1;
    if k < n {
        assert(items.take(n)[k] == items[k]);
        lemma_item_is_mentioned(items.take(n), k, needle);
    }
}

/// A page of paragraphs, texts, headings and quotes mentions only what one of
/// them holds.
pub proof fn a_page_mentions_nothing_else(content: Seq<NodeModel>, needle: Seq<char>)
    requires
        content_mentions(content, needle),
    ensures
        exists|i: int|
            0 <= i < content.len() && match #[trigger] content[i] {
                NodeModel::Heading { level, text } => contains(lowered(text), lowered(needle)),
                NodeModel::Paragraph { text } => contains(lowered(text), lowered(needle)),
                NodeModel::Text { text } => contains(lowered(text), lowered(needle)),
                NodeModel::Quote { text } => contains(lowered(text), lowered(needle)),
                NodeModel::Unknown { typ, raw } => contains(lowered(typ), lowered(needle)),
                NodeModel::Link { text, url } => contains(lowered(text), lowered(needle))
                    || contains(lowered(url), lowered(needle)),
                NodeModel::Code { language, code } => contains(lowered(code), lowered(needle)) || (
                language is Some && contains(lowered(language->0), lowered(needle))),
                _ => true,
            },
{
    let i = lemma_mentioning_node(content, lowered(needle));
    assert(node_mentions(content[i], lowered(needle)));
}

proof fn lemma_mentioning_node(nodes: Seq<NodeModel>, needle: Seq<char>) -> (i: int)
    requires
        nodes_mention(nodes, needle),
    ensures
        0 <= i < nodes.len(),
        node_mentions(nodes[i], needle),
    decreases nodes.len(),
{
    let n = nodes.len() - 1;
    if node_mentions(nodes[n], needle) {
        n
    } else {
        let i = lemma_mentioning_node(nodes.take(n), needle);
        assert(nodes.take(n)[i] == nodes[i]);
        i
    }
}

// ---------------------------------------------------------------------------
// What each node looks like
// ---------------------------------------------------------------------------

/// The text of some nodes and of more is that of the first and then that of the
/// others.
pub proof fn text_stands_in_order(
    a: Seq<NodeModel>,
    b: Seq<NodeModel>,
    policy: LinkPolicy,
    escaping: BlockEscaping,
    position: Position,
)
    ensures
        nodes_text(a + b, policy, escaping, position) == nodes_text(a, policy, escaping, position)
            + nodes_text(b, policy, escaping, position),
    decreases b.len(),
{
    if b.len() == 0 {
        assert(a + b =~= a);
        assert(nodes_text(b, policy, escaping, position) =~= Seq::<char>::empty());
        assert(nodes_text(a, policy, escaping, position) + Seq::<char>::empty() =~= nodes_text(
            a,
            policy,
            escaping,
            position,
        ));
    } else {
        let n = b.len() - 1;
        text_stands_in_order(a, b.take(n), policy, escaping, position);
        assert((a + b).take((a + b).len() - 1) =~= a + b.take(n));
        let x = nodes_text(a, policy, escaping, position);
        let y = nodes_text(b.take(n), policy, escaping, position);
        let z = node_text(b[n], policy, escaping, position);
        assert(x + y + z =~= x + (y + z));
    }
}

proof fn lemma_one_line_split(text: Seq<char>)
    requires
        !contains_char(text, '\n'),
    ensures
        split_on(text, '\n') =~= seq![text],
{
    lemma_next_pos(text, 0, '\n');
    let k = next_pos(text, 0, '\n');
    if k < text.len() {
        assert(text[k] == '\n');
        assert(contains_char(text, '\n'));
    }
    assert(text.subrange(0, text.len() as int) =~= text);
}

/// What a node on one line without links looks like when it is shown: a heading
/// behind its signs, a paragraph as it is, a quote behind its mark, each with a
/// blank line behind it.
pub proof fn nodes_on_one_line_are_shown(
    level: u8,
    text: Seq<char>,
    policy: LinkPolicy,
    position: Position,
)
    requires
        !contains_char(text, '\n'),
        !contains_char(text, '['),
        text.len() > 0,
    ensures
        node_text(
            NodeModel::Heading { level, text },
            policy,
            BlockEscaping::Verbatim,
            position,
        ) == repeated(
            '#',
            if level == 0 {
                1
            } else {
                level as nat
            },
        ) + " "@ + text + "\n\n"@,
        node_text(
            NodeModel::Paragraph { text },
            policy,
            BlockEscaping::Verbatim,
            position,
        ) == text + "\n\n"@,
        node_text(NodeModel::Text { text }, policy, BlockEscaping::Verbatim, position) == text
            + "\n\n"@,
        node_text(NodeModel::Quote { text }, policy, BlockEscaping::Verbatim, position) == "> "@
            + text + "\n\n"@,
{
    reveal_strlit("\n");
    reveal_strlit("\n\n");
    text_without_brackets_has_no_links(text, policy);
    lemma_one_line_split(text);
    let ls = split_on(text, '\n');
    let marks = repeated(
        '#',
        if level == 0 {
            1
        } else {
            level as nat
        },
    );
    assert(ls.skip(1) =~= Seq::<Seq<char>>::empty());
    assert(block_text(ls.skip(1), BlockEscaping::Verbatim) =~= Seq::<char>::empty());
    assert(marks + " "@ + text + "\n"@ + Seq::<char>::empty() + "\n"@ =~= marks + " "@ + text
        + "\n\n"@);
    assert(ls.drop_last() =~= Seq::<Seq<char>>::empty());
    assert(block_text(ls.drop_last(), BlockEscaping::Verbatim) =~= Seq::<char>::empty());
    assert(block_text(ls, BlockEscaping::Verbatim) =~= text + "\n"@);
    assert(Seq::<char>::empty() + (text + "\n"@) + "\n"@ =~= text + "\n\n"@);
    assert(quoted_lines(ls.drop_last()) =~= Seq::<char>::empty());
    assert(quoted_lines(ls) =~= "> "@ + text + "\n"@);
    assert("> "@ + text + "\n"@ + "\n"@ =~= "> "@ + text + "\n\n"@);
}

/// A link is shown as a markdown link to what is answered for its address, and to
/// its address where nothing is answered; what is not understood is named.
pub proof fn links_and_marks_are_shown(
    text: Seq<char>,
    url: Seq<char>,
    raw: JsonModel,
    policy: LinkPolicy,
    escaping: BlockEscaping,
    position: Position,
)
    ensures
        policy(LinkKind::Markdown, url) is None ==> node_text(
            NodeModel::Link { text, url },
            policy,
            escaping,
            position,
        ) == "["@ + text + "]("@ + url + ")\n\n"@,
        policy(LinkKind::Markdown, url) is Some ==> node_text(
            NodeModel::Link { text, url },
            policy,
            escaping,
            position,
        ) == "["@ + text + "]("@ + policy(LinkKind::Markdown, url)->0 + ")\n\n"@,
        node_text(NodeModel::Unknown { typ: text, raw }, policy, escaping, position)
            == "[[unknown: "@ + text + "]]\n\n"@,
{
}

/// Code stands between two fences of three backticks, with its language behind the
/// first, where it holds no backtick.
pub proof fn code_is_fenced(
    code: Seq<char>,
    language: Seq<char>,
    policy: LinkPolicy,
    escaping: BlockEscaping,
    position: Position,
)
    requires
        !contains_char(code, '`'),
    ensures
        node_text(
            NodeModel::Code { language: Some(language), code },
            policy,
            escaping,
            position,
        ) == "```"@ + language + "\n"@ + code + "\n"@ + "```"@ + "\n\n"@,
        node_text(NodeModel::Code { language: None, code }, policy, escaping, position) == "```"@
            + Seq::empty() + "\n"@ + code + "\n"@ + "```"@ + "\n\n"@,
{
    reveal_strlit("```");
    lemma_no_run(code, 0);
    assert(fence_text(code) =~= "```"@);
}

proof fn lemma_no_run(s: Seq<char>, i: int)
    requires
        0 <= i,
        !contains_char(s, '`'),
    ensures
        longest_run(s, i) == 0,
    decreases s.len() - i,
{
    if i < s.len() {
        assert(s[i] != '`');
        lemma_no_run(s, i + 1);
    }
}

/// An item of a list stands behind its mark, and what follows its first line is
/// indented.
pub proof fn items_stand_behind_their_mark(text: Seq<char>)
    requires
        lines_of(trimmed(text)).len() > 0,
    ensures
        lines_of(trimmed(text)).len() == 1 ==> list_item_text(text) == "- "@ + lines_of(
            trimmed(text),
        )[0] + "\n"@,
        lines_of(trimmed(text)).len() == 2 ==> list_item_text(text) == "- "@ + lines_of(
            trimmed(text),
        )[0] + "\n"@ + ("  "@ + lines_of(trimmed(text))[1] + "\n"@),
{
    let ls = lines_of(trimmed(text));
    if ls.len() == 1 {
        assert(ls.skip(1) =~= Seq::<Seq<char>>::empty());
        assert(prefixed_lines("  "@, ls.skip(1)) =~= Seq::<char>::empty());
        assert("- "@ + ls[0] + "\n"@ + Seq::<char>::empty() =~= "- "@ + ls[0] + "\n"@);
    }
    if ls.len() == 2 {
        let rest = ls.skip(1);
        assert(rest =~= seq![ls[1]]);
        assert(rest.drop_last() =~= Seq::<Seq<char>>::empty());
        assert(prefixed_lines("  "@, rest.drop_last()) =~= Seq::<char>::empty());
        assert(prefixed_lines("  "@, rest) =~= "  "@ + ls[1] + "\n"@);
    }
}

/// A rule shows what it searches on lines with a minus and what it puts there on
/// lines with a plus, behind its scope and whether it is for methods.
pub proof fn rules_show_what_they_change(
    search: Seq<char>,
    replace: Seq<char>,
    scope: Option<Seq<char>>,
)
    ensures
        rewrite_body(search, replace, None, None) == Seq::<char>::empty() + Seq::empty()
            + prefixed_lines("-"@, lines_of(normalized(search))) + prefixed_lines(
            "+"@,
            lines_of(normalized(replace)),
        ),
        scope is Some ==> rewrite_body(search, replace, scope, Some(true)) == ("# scope: "@
            + scope->0 + "\n"@) + "# method_pattern: true\n"@ + prefixed_lines(
            "-"@,
            lines_of(normalized(search)),
        ) + prefixed_lines("+"@, lines_of(normalized(replace))),
        scope is Some ==> rewrite_body(search, replace, scope, Some(false)) == ("# scope: "@
            + scope->0 + "\n"@) + "# method_pattern: false\n"@ + prefixed_lines(
            "-"@,
            lines_of(normalized(search)),
        ) + prefixed_lines("+"@, lines_of(normalized(replace))),
{
}

/// One more line is one more row behind its prefix.
pub proof fn one_more_line_is_one_more_row(
    prefix: Seq<char>,
    ls: Seq<Seq<char>>,
    line: Seq<char>,
)
    ensures
        prefixed_lines(prefix, ls.push(line)) == prefixed_lines(prefix, ls) + prefix + line
            + "\n"@,
        line.len() > 0 ==> quoted_lines(ls.push(line)) == quoted_lines(ls) + ("> "@ + line + "\n"@),
        line.len() == 0 ==> quoted_lines(ls.push(line)) == quoted_lines(ls) + ">\n"@,
        block_text(ls.push(line), BlockEscaping::Verbatim) == block_text(
            ls,
            BlockEscaping::Verbatim,
        ) + (line + "\n"@),
{
    assert(ls.push(line).drop_last() =~= ls);
}

} // verus!
