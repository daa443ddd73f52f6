//! What an export writes, an import reads back.

use crate::export::{
    all_yaml_quoted, export_policy, export_resolver, exported_body, frontmatter_text,
    lemma_slugs_cover, slug_map_of, tags_line, time_text, updated_line, yaml_escaped, yaml_quoted,
};
use crate::import::{
    blank_line, block_end, block_snippets, body_of, body_snippets, close_from, code_block,
    ends_paragraph, fence_closing, fence_opening, frontmatter_line, frontmatter_lines,
    frontmatter_of, internal_target, internal_text, items_of, language_named, lemma_block_end,
    lemma_ends, lemma_snippets_step, list_end, list_line, paragraph_end, paragraph_snippet,
    quote_end, quote_line, quoted, quotes_of, rewrite_fields, snippets_from, spaces_at,
    spelled_bool, standalone_label, standalone_target, unescaped_text, unknown_marker, without_bom,
    yaml_string, yaml_tags, yaml_unescaped, yaml_values, FrontmatterModel, RewriteFields,
    SnippetModel,
};
use crate::index::{classified, named_page, Catalog, IndexModel};
use crate::inline::{lemma_run_at, run_at};
use crate::inline_link::rewritten;
use crate::model::{NodeModel, PageModel, TargetModel};
use crate::parse::{or_empty, or_text};
use crate::render::{
    block_text, code_text, escaped_line, fence_text, heading_text, is_block_start,
    lemma_longest_run_bounds, link_target, link_text, list_item_text, list_items_text, longest_run,
    node_text, nodes_text, normalized, normalized_text_has_no_carriage_return, paragraph_text,
    prefixed_lines, quote_text, quoted_lines, rewrite_body, rewrite_text, standalone_link,
    unescape_inverts_escape, unescaped_line, unknown_text, BlockEscaping, LinkPolicy, Position,
};
use crate::strmap::{looked_up, TextTable};
use crate::text::{
    contains_char, ends_with, find_from, joined, lemma_concat, lemma_find_from, lemma_next_pos,
    lines_from, lines_of, matches_at, next_pos, repeated, replaced, replaced_from, split_from,
    split_on, starts_with, strip_cr, strip_prefix, trim_end, trim_start, trimmed, whitespace,
};
use crate::time::{instant_of, one_word, Timestamp};
use vstd::prelude::*;

verus! {

// ---------------------------------------------------------------------------
// Lines
// ---------------------------------------------------------------------------

/// Whether a text is one line: no line feed in it, and no carriage return at
/// its end.
pub open spec fn clean_line(s: Seq<char>) -> bool {
    !contains_char(s, '\n') && (s.len() > 0 ==> s.last() != '\r')
}

/// Whether no line of a text ends in a carriage return.
pub open spec fn plain_lines(t: Seq<char>) -> bool {
    forall|i: int| 0 <= i < t.len() && #[trigger] t[i] == '\r' ==> i + 1 < t.len() && t[i + 1] != '\n'
}

pub open spec fn clean_lines(ls: Seq<Seq<char>>) -> bool {
    forall|i: int| 0 <= i < ls.len() ==> clean_line(#[trigger] ls[i])
}

/// Lines, each with a line feed behind it.
pub open spec fn unlines(ls: Seq<Seq<char>>) -> Seq<char>
    decreases ls.len(),
{
    if ls.len() == 0 {
        Seq::empty()
    } else {
        unlines(ls.drop_last()) + ls.last() + "\n"@
    }
}

proof fn lemma_next_pos_shift(s: Seq<char>, k: int, i: int, c: char)
    requires
        0 <= k <= s.len(),
        0 <= i,
    ensures
        k + i <= s.len() ==> next_pos(s, k + i, c) == k + next_pos(s.skip(k), i, c),
    decreases s.len() - k - i,
{
    if k + i < s.len() {
        assert(s.skip(k)[i] == s[k + i]);
        lemma_next_pos_shift(s, k, i + 1, c);
    }
}

proof fn lemma_lines_shift(s: Seq<char>, k: int, i: int)
    requires
        0 <= k <= s.len(),
        0 <= i,
    ensures
        lines_from(s, k + i) == lines_from(s.skip(k), i),
    decreases s.len() - k - i,
{
    if k + i < s.len() {
        let t = s.skip(k);
        lemma_next_pos_shift(s, k, i, '\n');
        lemma_next_pos(t, i, '\n');
        let n = next_pos(t, i, '\n');
        if n < t.len() {
            lemma_lines_shift(s, k, n + 1);
            assert(s.subrange(k + i, k + n) =~= t.subrange(i, n));
        } else {
            assert(s.subrange(k + i, s.len() as int) =~= t.subrange(i, t.len() as int));
        }
    }
}

proof fn lemma_next_pos_is(s: Seq<char>, i: int, n: int, c: char)
    requires
        0 <= i <= n < s.len(),
        s[n] == c,
        forall|j: int| i <= j < n ==> s[j] != c,
    ensures
        next_pos(s, i, c) == n,
    decreases n - i,
{
    if i < n {
        lemma_next_pos_is(s, i + 1, n, c);
    }
}

proof fn lemma_no_char(s: Seq<char>, c: char, i: int)
    requires
        !contains_char(s, c),
        0 <= i < s.len(),
    ensures
        s[i] != c,
{
    if s[i] == c {
        assert(s.contains(c));
    }
}

/// The first line of a text is what stands before its first line feed.
pub proof fn lemma_lines_line(line: Seq<char>, rest: Seq<char>)
    requires
        clean_line(line),
    ensures
        lines_of(line + "\n"@ + rest) == seq![line] + lines_of(rest),
{
    reveal_strlit("\n");
    let s = line + "\n"@ + rest;
    let n = line.len() as int;
    assert forall|j: int| 0 <= j < n implies s[j] != '\n' by {
        lemma_no_char(line, '\n', j);
        assert(s[j] == line[j]);
    }
    assert(s[n] == '\n');
    lemma_next_pos_is(s, 0, n, '\n');
    assert(s.subrange(0, n) =~= line);
    assert(strip_cr(line) == line);
    lemma_lines_shift(s, n + 1, 0);
    assert(s.skip(n + 1) =~= rest);
}

/// Lines that are written out are read back.
pub proof fn lemma_lines_unlines(ls: Seq<Seq<char>>, rest: Seq<char>)
    requires
        clean_lines(ls),
    ensures
        lines_of(unlines(ls) + rest) == ls + lines_of(rest),
    decreases ls.len(),
{
    if ls.len() == 0 {
        assert(unlines(ls) + rest =~= rest);
        assert(ls + lines_of(rest) =~= lines_of(rest));
    } else {
        let init = ls.drop_last();
        let last = ls.last();
        let tail = last + "\n"@ + rest;
        assert(clean_line(ls[ls.len() - 1]));
        assert forall|i: int| 0 <= i < init.len() implies clean_line(#[trigger] init[i]) by {
            assert(init[i] == ls[i]);
        }
        assert(unlines(ls) + rest =~= unlines(init) + tail);
        lemma_lines_unlines(init, tail);
        lemma_lines_line(last, rest);
        assert(init + (seq![last] + lines_of(rest)) =~= ls + lines_of(rest));
    }
}

pub proof fn lemma_unlines_concat(a: Seq<Seq<char>>, b: Seq<Seq<char>>)
    ensures
        unlines(a + b) == unlines(a) + unlines(b),
    decreases b.len(),
{
    if b.len() == 0 {
        assert(a + b =~= a);
        assert(unlines(a) + unlines(b) =~= unlines(a));
    } else {
        assert((a + b).drop_last() =~= a + b.drop_last());
        lemma_unlines_concat(a, b.drop_last());
        assert(unlines(a) + (unlines(b.drop_last()) + b.last() + "\n"@) =~= unlines(a) + unlines(
            b.drop_last(),
        ) + b.last() + "\n"@);
    }
}

pub proof fn lemma_unlines_one(line: Seq<char>)
    ensures
        unlines(seq![line]) == line + "\n"@,
{
    assert(seq![line].drop_last() =~= Seq::<Seq<char>>::empty());
    assert(unlines(Seq::<Seq<char>>::empty()) =~= Seq::<char>::empty());
    assert(Seq::<char>::empty() + line + "\n"@ =~= line + "\n"@);
}

proof fn lemma_split_unlines_from(t: Seq<char>, i: int)
    requires
        0 <= i <= t.len(),
    ensures
        unlines(split_from(t, i, '\n')) == t.skip(i) + "\n"@,
        split_from(t, i, '\n').len() >= 1,
        forall|j: int|
            0 <= j < split_from(t, i, '\n').len() ==> !contains_char(
                #[trigger] split_from(t, i, '\n')[j],
                '\n',
            ),
        plain_lines(t) ==> clean_lines(split_from(t, i, '\n')),
    decreases t.len() - i,
{
    reveal_strlit("\n");
    lemma_next_pos(t, i, '\n');
    let k = next_pos(t, i, '\n');
    let piece = t.subrange(i, k);
    assert(!contains_char(piece, '\n')) by {
        if piece.contains('\n') {
            let j = choose|j: int| 0 <= j < piece.len() && piece[j] == '\n';
            assert(t[i + j] == '\n');
        }
    }
    assert(plain_lines(t) ==> clean_line(piece)) by {
        if piece.len() > 0 {
            assert(piece.last() == t[k - 1]);
        }
    }
    let all = split_from(t, i, '\n');
    if k >= t.len() {
        assert(piece =~= t.skip(i));
        assert(all == seq![piece]);
        lemma_unlines_one(piece);
    } else {
        lemma_split_unlines_from(t, k + 1);
        let more = split_from(t, k + 1, '\n');
        assert(all == seq![piece] + more);
        lemma_unlines_concat(seq![piece], more);
        lemma_unlines_one(piece);
        assert(piece + "\n"@ + (t.skip(k + 1) + "\n"@) =~= t.skip(i) + "\n"@);
        assert forall|j: int| 0 <= j < all.len() implies !contains_char(
            #[trigger] all[j],
            '\n',
        ) by {
            if j > 0 {
                assert(all[j] == more[j - 1]);
            }
        }
        if plain_lines(t) {
            assert forall|j: int| 0 <= j < all.len() implies clean_line(#[trigger] all[j]) by {
                if j > 0 {
                    assert(all[j] == more[j - 1]);
                }
            }
        }
    }
}

/// The pieces of a text between its line feeds are its lines, written out.
pub proof fn lemma_split_unlines(t: Seq<char>)
    ensures
        unlines(split_on(t, '\n')) == t + "\n"@,
        split_on(t, '\n').len() >= 1,
        plain_lines(t) ==> clean_lines(split_on(t, '\n')),
{
    lemma_split_unlines_from(t, 0);
    assert(t.skip(0) =~= t);
}

/// Joining lines puts a line feed between them and none behind the last.
pub proof fn lemma_joined_unlines(ls: Seq<Seq<char>>)
    requires
        ls.len() > 0,
    ensures
        joined(ls, "\n"@) + "\n"@ == unlines(ls),
    decreases ls.len(),
{
    if ls.len() == 1 {
        lemma_unlines_one(ls[0]);
        assert(ls =~= seq![ls[0]]);
    } else {
        lemma_joined_unlines(ls.drop_last());
    }
}

/// Joining the pieces between the line feeds of a text gives the text.
pub proof fn lemma_joined_split(t: Seq<char>)
    ensures
        joined(split_on(t, '\n'), "\n"@) == t,
{
    reveal_strlit("\n");
    lemma_split_unlines(t);
    let ls = split_on(t, '\n');
    lemma_joined_unlines(ls);
    let j = joined(ls, "\n"@);
    assert((j + "\n"@).drop_last() =~= j);
    assert((t + "\n"@).drop_last() =~= t);
}

/// Lines that are joined are read back, where the last of them is not empty.
pub proof fn lemma_lines_joined(ls: Seq<Seq<char>>)
    requires
        clean_lines(ls),
        ls.len() > 0,
        ls.last().len() > 0,
    ensures
        lines_of(joined(ls, "\n"@)) == ls,
{
    reveal_strlit("\n");
    let init = ls.drop_last();
    let last = ls.last();
    assert(clean_line(ls[ls.len() - 1]));
    assert forall|i: int| 0 <= i < init.len() implies clean_line(#[trigger] init[i]) by {
        assert(init[i] == ls[i]);
    }
    assert(lines_of(last) =~= seq![last]) by {
        lemma_next_pos(last, 0, '\n');
        let n = next_pos(last, 0, '\n');
        if n < last.len() {
            lemma_no_char(last, '\n', n);
        }
        assert(last.subrange(0, last.len() as int) =~= last);
    }
    if init.len() == 0 {
        assert(ls =~= seq![last]);
        assert(joined(ls, "\n"@) == last);
    } else {
        lemma_joined_unlines(init);
        assert(joined(ls, "\n"@) =~= unlines(init) + last);
        lemma_lines_unlines(init, last);
        assert(init + seq![last] =~= ls);
    }
}

// ---------------------------------------------------------------------------
// Blocks one after the other
// ---------------------------------------------------------------------------

/// Whether every fence from line `i` on is closed.
pub open spec fn settled(ls: Seq<Seq<char>>, i: int) -> bool
    decreases ls.len() - i,
{
    if 0 <= i < ls.len() {
        proof {
            lemma_block_end(ls, i);
        }
        &&& (fence_opening(ls[i]) matches Some((ticks, _)) ==> close_from(ls, i + 1, ticks)
            < ls.len())
        &&& settled(ls, block_end(ls, i))
    } else {
        true
    }
}

proof fn lemma_ends_shift(ls: Seq<Seq<char>>, k: int, i: int, ticks: nat)
    requires
        0 <= k <= ls.len(),
        0 <= i <= ls.len() - k,
    ensures
        quote_end(ls, k + i) == k + quote_end(ls.skip(k), i),
        list_end(ls, k + i) == k + list_end(ls.skip(k), i),
        paragraph_end(ls, k + i) == k + paragraph_end(ls.skip(k), i),
        close_from(ls, k + i, ticks) == k + close_from(ls.skip(k), i, ticks),
    decreases ls.len() - k - i,
{
    if k + i < ls.len() {
        assert(ls.skip(k)[i] == ls[k + i]);
        lemma_ends_shift(ls, k, i + 1, ticks);
    }
}

proof fn lemma_block_shift(slugs: TextTable, ls: Seq<Seq<char>>, k: int, i: int)
    requires
        0 <= k <= ls.len(),
        0 <= i < ls.len() - k,
    ensures
        block_end(ls, k + i) == k + block_end(ls.skip(k), i),
        block_snippets(slugs, ls, k + i) == block_snippets(slugs, ls.skip(k), i),
{
    let t = ls.skip(k);
    let line = ls[k + i];
    assert(t[i] == line);
    let ticks = match fence_opening(line) {
        Some((n, _)) => n,
        None => 0,
    };
    lemma_ends_shift(ls, k, i + 1, ticks);
    lemma_block_end(ls, k + i);
    lemma_block_end(t, i);
    assert(ls.subrange(k + i, block_end(ls, k + i)) =~= t.subrange(i, block_end(t, i)));
    let close = close_from(t, i + 1, ticks);
    if close < t.len() {
        lemma_ends(t, i + 1, ticks);
        assert(ls.subrange(k + i + 1, k + close) =~= t.subrange(i + 1, close));
    }
}

proof fn lemma_snippets_shift(slugs: TextTable, ls: Seq<Seq<char>>, k: int, i: int)
    requires
        0 <= k <= ls.len(),
        0 <= i,
    ensures
        snippets_from(slugs, ls, k + i) == snippets_from(slugs, ls.skip(k), i),
    decreases ls.len() - k - i,
{
    let t = ls.skip(k);
    if k + i < ls.len() {
        lemma_block_end(t, i);
        lemma_block_shift(slugs, ls, k, i);
        let e = block_end(t, i);
        lemma_snippets_shift(slugs, ls, k, e);
        lemma_snippets_step(slugs, ls, k + i);
        lemma_snippets_step(slugs, t, i);
    } else {
        reveal(snippets_from);
    }
}

proof fn lemma_settled_shift(ls: Seq<Seq<char>>, k: int, i: int)
    requires
        0 <= k <= ls.len(),
        0 <= i,
    ensures
        settled(ls, k + i) == settled(ls.skip(k), i),
    decreases ls.len() - k - i,
{
    let t = ls.skip(k);
    if k + i < ls.len() {
        lemma_block_end(t, i);
        lemma_block_shift(Map::empty(), ls, k, i);
        lemma_settled_shift(ls, k, block_end(t, i));
        assert(t[i] == ls[k + i]);
        let ticks = match fence_opening(ls[k + i]) {
            Some((n, _)) => n,
            None => 0,
        };
        lemma_ends_shift(ls, k, i + 1, ticks);
    }
}

/// An empty line ends every run.
proof fn lemma_empty_line(line: Seq<char>)
    requires
        line.len() == 0,
    ensures
        blank_line(line),
        !quote_line(line),
        !list_line(line),
        ends_paragraph(line),
        fence_opening(line) is None,
{
    reveal_strlit("> ");
    reveal_strlit(">");
    reveal_strlit("- ");
    reveal_strlit("  ");
    assert(trimmed(line).len() == 0);
    assert(run_at(line, 0) == 0);
}

proof fn lemma_ends_prefix(a: Seq<Seq<char>>, b: Seq<Seq<char>>, i: int, ticks: nat)
    requires
        0 <= i < a.len(),
        a.last().len() == 0,
    ensures
        quote_end(a + b, i) == quote_end(a, i),
        list_end(a + b, i) == list_end(a, i),
        paragraph_end(a + b, i) == paragraph_end(a, i),
        close_from(a, i, ticks) < a.len() ==> close_from(a + b, i, ticks) == close_from(
            a,
            i,
            ticks,
        ),
    decreases a.len() - i,
{
    assert((a + b)[i] == a[i]);
    lemma_empty_line(a.last());
    if i < a.len() - 1 {
        lemma_ends_prefix(a, b, i + 1, ticks);
    } else {
        assert(close_from(a, i + 1, ticks) == a.len());
    }
}

/// The blocks of lines that end in an empty line are their own, whatever
/// follows.
pub proof fn lemma_snippets_concat(
    slugs: TextTable,
    a: Seq<Seq<char>>,
    b: Seq<Seq<char>>,
    i: int,
)
    requires
        0 <= i <= a.len(),
        a.len() > 0 ==> a.last().len() == 0,
        settled(a, i),
    ensures
        snippets_from(slugs, a + b, i) == snippets_from(slugs, a, i) + snippets_from(slugs, b, 0),
        settled(b, 0) ==> settled(a + b, i),
    decreases a.len() - i,
{
    let ab = a + b;
    if i == a.len() {
        lemma_snippets_shift(slugs, ab, a.len() as int, 0);
        lemma_settled_shift(ab, a.len() as int, 0);
        assert(ab.skip(a.len() as int) =~= b);
        reveal(snippets_from);
        assert(Seq::<SnippetModel>::empty() + snippets_from(slugs, b, 0) =~= snippets_from(
            slugs,
            b,
            0,
        ));
    } else {
        let line = a[i];
        assert(ab[i] == line);
        let ticks = match fence_opening(line) {
            Some((n, _)) => n,
            None => 0,
        };
        lemma_block_end(a, i);
        lemma_empty_line(a.last());
        if i + 1 < a.len() {
            lemma_ends_prefix(a, b, i + 1, ticks);
        }
        let e = block_end(a, i);
        assert(block_end(ab, i) == e);
        assert(ab.subrange(i, e) =~= a.subrange(i, e));
        if fence_opening(line) is Some {
            let close = close_from(a, i + 1, ticks);
            lemma_ends(a, i + 1, ticks);
            assert(ab.subrange(i + 1, close) =~= a.subrange(i + 1, close));
        }
        assert(block_snippets(slugs, ab, i) == block_snippets(slugs, a, i));
        lemma_snippets_concat(slugs, a, b, e);
        lemma_snippets_step(slugs, a, i);
        lemma_snippets_step(slugs, ab, i);
        lemma_concat(
            block_snippets(slugs, a, i),
            snippets_from(slugs, a, e),
            snippets_from(slugs, b, 0),
        );
    }
}

/// Whether lines are one block that gives `snippet`, and an empty line behind
/// it.
pub open spec fn one_block(slugs: TextTable, ls: Seq<Seq<char>>, snippet: SnippetModel) -> bool {
    &&& ls.len() >= 2
    &&& clean_lines(ls)
    &&& ls.last().len() == 0
    &&& block_end(ls, 0) == ls.len() - 1
    &&& block_snippets(slugs, ls, 0) == seq![snippet]
    &&& (fence_opening(ls[0]) matches Some((ticks, _)) ==> close_from(ls, 1, ticks) < ls.len())
}

pub proof fn lemma_one_block(slugs: TextTable, ls: Seq<Seq<char>>, snippet: SnippetModel)
    requires
        one_block(slugs, ls, snippet),
    ensures
        snippets_from(slugs, ls, 0) == seq![snippet],
        settled(ls, 0),
{
    let n = ls.len() - 1;
    reveal_with_fuel(snippets_from, 3);
    reveal_with_fuel(settled, 3);
    lemma_empty_line(ls[n]);
    assert(block_end(ls, n) == n + 1);
    assert(block_snippets(slugs, ls, n) == Seq::<SnippetModel>::empty());
    assert(snippets_from(slugs, ls, n + 1) == Seq::<SnippetModel>::empty());
    assert(snippets_from(slugs, ls, n) =~= Seq::<SnippetModel>::empty());
    assert(snippets_from(slugs, ls, 0) =~= seq![snippet]);
    assert(settled(ls, n + 1));
    assert(settled(ls, n));
}

// ---------------------------------------------------------------------------
// Trimming
// ---------------------------------------------------------------------------

proof fn lemma_trim_end_prefix(s: Seq<char>)
    ensures
        trim_end(s).len() <= s.len(),
        trim_end(s) == s.take(trim_end(s).len() as int),
        s.len() > 0 && !whitespace(s[0]) ==> trim_end(s).len() > 0,
        s.len() > 0 && !whitespace(s.last()) ==> trim_end(s) == s,
    decreases s.len(),
{
    if s.len() > 0 && whitespace(s.last()) {
        lemma_trim_end_prefix(s.drop_last());
        assert(s.drop_last().take(trim_end(s).len() as int) =~= s.take(trim_end(s).len() as int));
    } else {
        assert(s.take(s.len() as int) =~= s);
    }
}

/// Trimming keeps the first character of a text that does not start with white
/// space, and all of a text that does not end with it either.
proof fn lemma_trim_head(s: Seq<char>)
    requires
        s.len() > 0,
        !whitespace(s[0]),
    ensures
        trimmed(s).len() > 0,
        trimmed(s)[0] == s[0],
        !whitespace(s.last()) ==> trimmed(s) == s,
{
    lemma_trim_end_prefix(s);
    assert(trim_start(s) == s);
    assert(s.take(trim_end(s).len() as int)[0] == s[0]);
}

// ---------------------------------------------------------------------------
// Paragraphs and headings
// ---------------------------------------------------------------------------

proof fn lemma_starts_with_char(s: Seq<char>, pat: Seq<char>)
    requires
        pat.len() > 0,
        starts_with(s, pat),
    ensures
        s.len() >= pat.len(),
        forall|i: int| 0 <= i < pat.len() ==> s[i] == pat[i],
{
    assert forall|i: int| 0 <= i < pat.len() implies s[i] == pat[i] by {
        assert(s.subrange(0, pat.len() as int)[i] == s[i]);
    }
}

proof fn lemma_run_of_three(s: Seq<char>)
    requires
        run_at(s, 0) >= 3,
    ensures
        starts_with(s, "```"@),
{
    reveal_strlit("```");
    reveal_with_fuel(run_at, 4);
    lemma_run_at(s, 0);
    assert(s.subrange(0, 3) =~= "```"@);
}

/// A line that starts with a character that opens no block opens none.
proof fn lemma_plain_start(line: Seq<char>)
    requires
        line.len() > 0,
        !whitespace(line[0]),
        line[0] != '>',
        line[0] != '-',
        line[0] != '`',
    ensures
        !ends_paragraph(line),
        fence_opening(line) is None,
        !quote_line(line),
        !blank_line(line),
{
    reveal_strlit("> ");
    reveal_strlit(">");
    reveal_strlit("- ");
    lemma_trim_head(line);
    assert(run_at(line, 0) == 0);
    if starts_with(line, "> "@) {
        lemma_starts_with_char(line, "> "@);
    }
    if starts_with(line, "- "@) {
        lemma_starts_with_char(line, "- "@);
    }
}

proof fn lemma_no_marker(line: Seq<char>)
    requires
        line.len() > 0,
        !whitespace(line[0]),
        line[0] != '[',
    ensures
        unknown_marker(line) is None,
        !standalone_link(line),
{
    reveal_strlit("[[unknown: ");
    lemma_trim_head(line);
    if starts_with(trimmed(line), "[[unknown: "@) {
        lemma_starts_with_char(trimmed(line), "[[unknown: "@);
    }
}

proof fn lemma_clean_concat(a: Seq<char>, b: Seq<char>)
    requires
        clean_line(a),
        clean_line(b),
    ensures
        clean_line(a + b),
{
    assert forall|c: char| (a + b).contains(c) implies a.contains(c) || b.contains(c) by {
        let i = choose|i: int| 0 <= i < (a + b).len() && (a + b)[i] == c;
        if i < a.len() {
            assert(a[i] == c);
        } else {
            assert(b[i - a.len()] == c);
        }
    }
}

/// An escaped line opens no block, is not empty, and is not a marker.
proof fn lemma_escaped(l: Seq<char>)
    requires
        clean_line(l),
    ensures
        !ends_paragraph(escaped_line(l)),
        fence_opening(escaped_line(l)) is None,
        !quote_line(escaped_line(l)),
        !blank_line(escaped_line(l)),
        escaped_line(l).len() > 0,
        clean_line(escaped_line(l)),
        unescaped_line(escaped_line(l)) == l,
        unknown_marker(escaped_line(l)) is None,
        standalone_link(escaped_line(l)) ==> standalone_link(l),
{
    let e = escaped_line(l);
    unescape_inverts_escape(l);
    reveal_strlit("\\");
    if is_block_start(l) {
        assert(e[0] == '\\');
        lemma_plain_start(e);
        lemma_no_marker(e);
        assert(clean_line("\\"@)) by {
            assert forall|c: char| "\\"@.contains(c) implies c == '\\' by {
                let i = choose|i: int| 0 <= i < "\\"@.len() && "\\"@[i] == c;
                assert("\\"@[i] == '\\');
            }
        }
        lemma_clean_concat("\\"@, l);
    } else {
        if run_at(l, 0) >= 3 {
            lemma_run_of_three(l);
        }
        assert(l.len() > 0) by {
            if l.len() == 0 {
                assert(trimmed(l).len() == 0);
            }
        }
        if unknown_marker(l) is Some {
            let t = trimmed(l);
            let rest = strip_prefix(t, "[[unknown: "@)->0;
            reveal_strlit("[[unknown: ");
            reveal_strlit("]]");
            assert(ends_with(rest, "]]"@));
            assert(t.subrange(t.len() - 2, t.len() as int) =~= rest.subrange(
                rest.len() - 2,
                rest.len() as int,
            ));
            assert(ends_with(t, "]]"@));
        }
    }
}

proof fn lemma_paragraph_end(ls: Seq<Seq<char>>, i: int, n: int)
    requires
        0 <= i <= n < ls.len(),
        ends_paragraph(ls[n]),
        forall|k: int| i <= k < n ==> !ends_paragraph(#[trigger] ls[k]),
    ensures
        paragraph_end(ls, i) == n,
    decreases n - i,
{
    if i < n {
        lemma_paragraph_end(ls, i + 1, n);
    }
}

/// A run of lines of which none ends a paragraph is one paragraph.
proof fn lemma_paragraph_run(slugs: TextTable, run: Seq<Seq<char>>)
    requires
        run.len() > 0,
        clean_lines(run),
        forall|k: int| 0 <= k < run.len() ==> !ends_paragraph(#[trigger] run[k]),
    ensures
        one_block(slugs, run.push(Seq::empty()), paragraph_snippet(slugs, run)),
{
    let empty: Seq<char> = Seq::empty();
    let ls = run.push(empty);
    let n = run.len() as int;
    lemma_empty_line(ls[n]);
    assert forall|k: int| 0 <= k < n implies !ends_paragraph(#[trigger] ls[k]) by {
        assert(ls[k] == run[k]);
    }
    lemma_paragraph_end(ls, 1, n);
    assert(!ends_paragraph(ls[0]));
    assert(block_end(ls, 0) == n);
    assert(ls.subrange(0, n) =~= run);
    lemma_clean_push_empty(run);
}

proof fn lemma_clean_push_empty(run: Seq<Seq<char>>)
    requires
        clean_lines(run),
    ensures
        clean_lines(run.push(Seq::empty())),
{
    let ls = run.push(Seq::<char>::empty());
    assert forall|k: int| 0 <= k < ls.len() implies clean_line(#[trigger] ls[k]) by {
        if k < run.len() {
            assert(ls[k] == run[k]);
        }
    }
}

proof fn lemma_unlines_push_empty(run: Seq<Seq<char>>)
    ensures
        unlines(run.push(Seq::empty())) == unlines(run) + "\n"@,
{
    let ls = run.push(Seq::<char>::empty());
    assert(ls.drop_last() =~= run);
    assert(unlines(run) + Seq::<char>::empty() + "\n"@ =~= unlines(run) + "\n"@);
}

/// The lines as they are escaped.
pub open spec fn escaped_lines(ls: Seq<Seq<char>>) -> Seq<Seq<char>> {
    Seq::new(ls.len(), |i: int| escaped_line(ls[i]))
}

proof fn lemma_block_text(ls: Seq<Seq<char>>)
    ensures
        block_text(ls, BlockEscaping::Escape) == unlines(escaped_lines(ls)),
    decreases ls.len(),
{
    if ls.len() > 0 {
        lemma_block_text(ls.drop_last());
        assert(escaped_lines(ls).drop_last() =~= escaped_lines(ls.drop_last()));
        let before = unlines(escaped_lines(ls.drop_last()));
        assert(before + (escaped_line(ls.last()) + "\n"@) =~= before + escaped_line(ls.last())
            + "\n"@);
    }
}

/// Unescaping the joined lines of a run joins its unescaped lines.
proof fn lemma_unescaped_run(run: Seq<Seq<char>>)
    requires
        clean_lines(run),
        run.len() > 0,
        run.last().len() > 0,
    ensures
        unescaped_text(joined(run, "\n"@)) == joined(
            Seq::new(run.len(), |i: int| unescaped_line(run[i])),
            "\n"@,
        ),
{
    lemma_lines_joined(run);
    let ls = lines_of(joined(run, "\n"@));
    assert(Seq::new(ls.len(), |i: int| unescaped_line(ls[i])) =~= Seq::new(
        run.len(),
        |i: int| unescaped_line(run[i]),
    ));
}

/// The lines that a paragraph is exported to.
pub open spec fn paragraph_lines(t: Seq<char>) -> Seq<Seq<char>> {
    if !contains_char(t, '\n') && standalone_link(t) {
        seq!["\\"@ + t, Seq::empty()]
    } else {
        escaped_lines(split_on(t, '\n')).push(Seq::empty())
    }
}

/// A line that is one link opens no block.
proof fn lemma_link_opens_nothing(t: Seq<char>)
    requires
        standalone_link(t),
    ensures
        !is_block_start(t),
{
    let x = trimmed(t);
    assert(t.len() > 0) by {
        if t.len() == 0 {
            assert(trimmed(t).len() == 0);
        }
    }
    if !whitespace(t[0]) {
        lemma_trim_head(t);
    }
    reveal_strlit("\\");
    reveal_strlit("- ");
    reveal_strlit("> ");
    reveal_strlit(">");
    reveal_strlit("```");
    reveal_strlit("]]");
    if starts_with(t, "\\"@) {
        lemma_starts_with_char(t, "\\"@);
    }
    if starts_with(t, "- "@) {
        lemma_starts_with_char(t, "- "@);
    }
    if starts_with(t, "> "@) {
        lemma_starts_with_char(t, "> "@);
    }
    if starts_with(t, "```"@) {
        lemma_starts_with_char(t, "```"@);
    }
    if ends_with(x, "]]"@) {
        assert(x.subrange(x.len() - 2, x.len() as int)[1] == x.last());
        assert("]]"@[1] == ']');
        let k = find_from(x, 0, "]("@)->0;
        reveal_strlit("](");
        lemma_find_from(x, 0, "]("@);
        let after = x.skip(k + 2);
        assert(after.last() == x.last());
    }
}

proof fn lemma_split_one(t: Seq<char>)
    requires
        !contains_char(t, '\n'),
    ensures
        split_on(t, '\n') == seq![t],
{
    lemma_next_pos(t, 0, '\n');
    let n = next_pos(t, 0, '\n');
    if n < t.len() {
        lemma_no_char(t, '\n', n);
    }
    assert(t.subrange(0, t.len() as int) =~= t);
}

proof fn lemma_backslash(t: Seq<char>)
    requires
        clean_line(t),
    ensures
        clean_line("\\"@ + t),
        ("\\"@ + t)[0] == '\\',
        unescaped_line("\\"@ + t) == t,
{
    reveal_strlit("\\");
    let line = "\\"@ + t;
    assert(clean_line("\\"@)) by {
        assert forall|c: char| "\\"@.contains(c) implies c == '\\' by {
            let i = choose|i: int| 0 <= i < "\\"@.len() && "\\"@[i] == c;
            assert("\\"@[i] == '\\');
        }
    }
    lemma_clean_concat("\\"@, t);
    assert(line.subrange(0, 1) =~= "\\"@);
    assert(line.skip(1) =~= t);
}

proof fn lemma_guarded_paragraph(slugs: TextTable, t: Seq<char>)
    requires
        clean_line(t),
        standalone_link(t),
    ensures
        paragraph_text(t, BlockEscaping::Escape, Position::Snippet) == unlines(
            seq!["\\"@ + t, Seq::empty()],
        ),
        one_block(
            slugs,
            seq!["\\"@ + t, Seq::empty()],
            SnippetModel::Text(internal_text(slugs, t)),
        ),
{
    let line = "\\"@ + t;
    let run = seq![line];
    lemma_backslash(t);
    lemma_plain_start(line);
    lemma_no_marker(line);
    lemma_paragraph_run(slugs, run);
    assert(run.push(Seq::empty()) =~= seq![line, Seq::empty()]);
    lemma_unescaped_run(run);
    assert(Seq::new(run.len(), |i: int| unescaped_line(run[i])) =~= seq![t]);
    assert(joined(seq![t], "\n"@) == t);
    lemma_unlines_one(line);
    lemma_unlines_push_empty(run);
    lemma_link_opens_nothing(t);
    lemma_split_one(t);
    let ls = split_on(t, '\n');
    lemma_block_text(ls);
    lemma_unlines_one(t);
    assert(escaped_lines(ls) =~= seq![t]);
    assert("\\"@ + (t + "\n"@) + "\n"@ =~= "\\"@ + t + "\n"@ + "\n"@);
}

proof fn lemma_plain_paragraph(slugs: TextTable, t: Seq<char>)
    requires
        plain_lines(t),
        contains_char(t, '\n') || !standalone_link(t),
    ensures
        paragraph_text(t, BlockEscaping::Escape, Position::Snippet) == unlines(
            escaped_lines(split_on(t, '\n')).push(Seq::empty()),
        ),
        one_block(
            slugs,
            escaped_lines(split_on(t, '\n')).push(Seq::empty()),
            SnippetModel::Text(internal_text(slugs, t)),
        ),
{
    let ls = split_on(t, '\n');
    let run = escaped_lines(ls);
    lemma_split_unlines(t);
    lemma_block_text(ls);
    lemma_joined_split(t);
    assert forall|k: int| 0 <= k < run.len() implies !ends_paragraph(#[trigger] run[k])
        && clean_line(run[k]) && run[k].len() > 0 && unescaped_line(run[k]) == ls[k] by {
        assert(clean_line(ls[k]));
        lemma_escaped(ls[k]);
    }
    lemma_paragraph_run(slugs, run);
    lemma_unescaped_run(run);
    assert(Seq::new(run.len(), |i: int| unescaped_line(run[i])) =~= ls);
    lemma_unlines_push_empty(run);
    if run.len() == 1 {
        assert(ls =~= seq![ls[0]]);
        assert(joined(ls, "\n"@) == ls[0]);
        assert(clean_line(ls[0]));
        lemma_escaped(ls[0]);
    }
    let none: Seq<char> = Seq::empty();
    assert(none + unlines(run) + "\n"@ =~= unlines(run) + "\n"@);
}

/// A paragraph, whatever its lines look like, is read back as the text it was.
pub proof fn paragraphs_survive(slugs: TextTable, t: Seq<char>)
    requires
        plain_lines(t),
    ensures
        paragraph_text(t, BlockEscaping::Escape, Position::Snippet) == unlines(
            paragraph_lines(t),
        ),
        one_block(
            slugs,
            paragraph_lines(t),
            SnippetModel::Text(internal_text(slugs, t)),
        ),
{
    if !contains_char(t, '\n') && standalone_link(t) {
        lemma_guarded_paragraph(slugs, t);
    } else {
        lemma_plain_paragraph(slugs, t);
    }
}

proof fn lemma_joined_prefix(p: Seq<char>, ls: Seq<Seq<char>>, sep: Seq<char>)
    requires
        ls.len() > 0,
    ensures
        joined(ls.update(0, p + ls[0]), sep) == p + joined(ls, sep),
    decreases ls.len(),
{
    let with = ls.update(0, p + ls[0]);
    if ls.len() > 1 {
        assert(with.drop_last() =~= ls.drop_last().update(0, p + ls.drop_last()[0]));
        lemma_joined_prefix(p, ls.drop_last(), sep);
        assert(p + joined(ls.drop_last(), sep) + sep + ls.last() =~= p + (joined(
            ls.drop_last(),
            sep,
        ) + sep + ls.last()));
    }
}

/// The marks of a heading and the space behind them.
pub open spec fn heading_marks(level: u8) -> Seq<char> {
    repeated('#', if level > 1 { level as nat } else { 1 }) + " "@
}

/// The lines that a heading is exported to.
pub open spec fn heading_lines(level: u8, t: Seq<char>) -> Seq<Seq<char>> {
    let ls = split_on(t, '\n');
    (seq![heading_marks(level) + ls[0]] + escaped_lines(ls.skip(1))).push(Seq::empty())
}

/// A heading is read back as a text behind its marks.
pub proof fn headings_survive(slugs: TextTable, level: u8, t: Seq<char>)
    requires
        plain_lines(t),
    ensures
        heading_text(level, t, BlockEscaping::Escape) == unlines(heading_lines(level, t)),
        one_block(
            slugs,
            heading_lines(level, t),
            SnippetModel::Text(internal_text(slugs, heading_marks(level) + t)),
        ),
{
    reveal_strlit(" ");
    let ls = split_on(t, '\n');
    let p = heading_marks(level);
    let rest = ls.skip(1);
    let first = p + ls[0];
    let run = seq![first] + escaped_lines(rest);
    lemma_split_unlines(t);
    lemma_joined_split(t);
    lemma_block_text(rest);
    lemma_unlines_concat(seq![first], escaped_lines(rest));
    lemma_unlines_one(first);
    lemma_unlines_push_empty(run);
    assert(p[0] == '#');
    assert(first[0] == '#');
    lemma_plain_start(first);
    lemma_no_marker(first);
    assert(clean_line(p)) by {
        assert forall|c: char| p.contains(c) implies c == '#' || c == ' ' by {
            let i = choose|i: int| 0 <= i < p.len() && p[i] == c;
            if i < p.len() - 1 {
                assert(p[i] == '#');
            } else {
                assert(p[i] == ' ');
            }
        }
    }
    assert(clean_line(ls[0]));
    lemma_clean_concat(p, ls[0]);
    assert forall|k: int| 0 <= k < run.len() implies !ends_paragraph(#[trigger] run[k])
        && clean_line(run[k]) && run[k].len() > 0 by {
        if k > 0 {
            assert(run[k] == escaped_line(ls[k]));
            assert(clean_line(ls[k]));
            lemma_escaped(ls[k]);
        }
    }
    lemma_paragraph_run(slugs, run);
    lemma_unescaped_run(run);
    reveal_strlit("\\");
    let plain = Seq::new(run.len(), |i: int| unescaped_line(run[i]));
    assert(plain =~= ls.update(0, p + ls[0])) by {
        assert forall|k: int| 0 <= k < run.len() implies unescaped_line(#[trigger] run[k])
            == ls.update(0, p + ls[0])[k] by {
            if k > 0 {
                assert(run[k] == escaped_line(ls[k]));
                assert(clean_line(ls[k]));
                lemma_escaped(ls[k]);
            } else if starts_with(first, "\\"@) {
                lemma_starts_with_char(first, "\\"@);
            }
        }
    }
    lemma_joined_prefix(p, ls, "\n"@);
    assert(heading_text(level, t, BlockEscaping::Escape) =~= unlines(run) + "\n"@);
}

// ---------------------------------------------------------------------------
// Quotes
// ---------------------------------------------------------------------------

/// A line behind the mark of a quote.
pub open spec fn quote_mark(line: Seq<char>) -> Seq<char> {
    if line.len() == 0 {
        ">"@
    } else {
        "> "@ + line
    }
}

/// The lines that a quote is exported to.
pub open spec fn quote_lines(t: Seq<char>) -> Seq<Seq<char>> {
    let ls = split_on(t, '\n');
    Seq::new(ls.len(), |i: int| quote_mark(ls[i])).push(Seq::empty())
}

proof fn lemma_quoted_lines(ls: Seq<Seq<char>>)
    ensures
        quoted_lines(ls) == unlines(Seq::new(ls.len(), |i: int| quote_mark(ls[i]))),
    decreases ls.len(),
{
    reveal_strlit(">\n");
    reveal_strlit(">");
    reveal_strlit("\n");
    if ls.len() > 0 {
        let all = Seq::new(ls.len(), |i: int| quote_mark(ls[i]));
        let init = ls.drop_last();
        lemma_quoted_lines(init);
        assert(all.drop_last() =~= Seq::new(init.len(), |i: int| quote_mark(init[i])));
        let before = quoted_lines(init);
        let line = ls.last();
        if line.len() == 0 {
            assert(before + ">\n"@ =~= before + ">"@ + "\n"@);
        } else {
            assert(before + ("> "@ + line + "\n"@) =~= before + ("> "@ + line) + "\n"@);
        }
    }
}

proof fn lemma_quote_end(ls: Seq<Seq<char>>, i: int, n: int)
    requires
        0 <= i <= n < ls.len(),
        !quote_line(ls[n]),
        forall|k: int| i <= k < n ==> quote_line(#[trigger] ls[k]),
    ensures
        quote_end(ls, i) == n,
    decreases n - i,
{
    if i < n {
        lemma_quote_end(ls, i + 1, n);
    }
}

proof fn lemma_quote_mark(line: Seq<char>)
    requires
        clean_line(line),
    ensures
        quote_line(quote_mark(line)),
        quoted(quote_mark(line)) == line,
        clean_line(quote_mark(line)),
        !blank_line(quote_mark(line)),
        fence_opening(quote_mark(line)) is None,
{
    reveal_strlit("> ");
    reveal_strlit(">");
    let q = quote_mark(line);
    assert(q[0] == '>');
    assert(run_at(q, 0) == 0);
    lemma_trim_head(q);
    if line.len() == 0 {
        assert(!starts_with(q, "> "@));
        assert(line =~= Seq::<char>::empty());
        assert(clean_line(q)) by {
            assert forall|c: char| q.contains(c) implies c == '>' by {
                let i = choose|i: int| 0 <= i < q.len() && q[i] == c;
                assert(q[i] == '>');
            }
        }
    } else {
        assert(q.subrange(0, 2) =~= "> "@);
        assert(q.skip(2) =~= line);
        assert(clean_line("> "@)) by {
            assert forall|c: char| "> "@.contains(c) implies c == '>' || c == ' ' by {
                let i = choose|i: int| 0 <= i < "> "@.len() && "> "@[i] == c;
                assert("> "@[0] == '>');
                assert("> "@[1] == ' ');
            }
        }
        lemma_clean_concat("> "@, line);
    }
}

/// A quote is read back as a text behind the mark of a quote.
pub proof fn quotes_survive(slugs: TextTable, t: Seq<char>)
    requires
        plain_lines(t),
    ensures
        quote_text(t) == unlines(quote_lines(t)),
        one_block(slugs, quote_lines(t), SnippetModel::Text(internal_text(slugs, "> "@ + t))),
{
    let ls = split_on(t, '\n');
    let run = Seq::new(ls.len(), |i: int| quote_mark(ls[i]));
    let all = quote_lines(t);
    let n = run.len() as int;
    lemma_split_unlines(t);
    lemma_joined_split(t);
    lemma_quoted_lines(ls);
    lemma_unlines_push_empty(run);
    lemma_empty_line(all[n]);
    assert forall|k: int| 0 <= k < n implies quote_line(#[trigger] run[k]) && clean_line(run[k])
        && quoted(run[k]) == ls[k] by {
        assert(clean_line(ls[k]));
        lemma_quote_mark(ls[k]);
    }
    assert forall|k: int| 0 <= k < n implies quote_line(#[trigger] all[k]) by {
        assert(all[k] == run[k]);
    }
    lemma_quote_end(all, 1, n);
    lemma_clean_push_empty(run);
    assert(clean_line(ls[0]));
    lemma_quote_mark(ls[0]);
    assert(all[0] == quote_mark(ls[0]));
    assert(block_end(all, 0) == n);
    assert(all.subrange(0, n) =~= run);
    assert(quotes_of(run) =~= ls);
}

// ---------------------------------------------------------------------------
// Fences
// ---------------------------------------------------------------------------

proof fn lemma_run_within(s: Seq<char>, a: int, b: int, j: int)
    requires
        0 <= a <= b <= s.len(),
        0 <= j,
    ensures
        a + j <= s.len() ==> run_at(s.subrange(a, b), j) <= run_at(s, a + j),
    decreases b - a - j,
{
    let t = s.subrange(a, b);
    if j < t.len() && t[j] == '`' {
        assert(s[a + j] == '`');
        lemma_run_within(s, a, b, j + 1);
    }
}

/// No line of a text has a longer run of backticks than the text.
proof fn lemma_unlines_run(ls: Seq<Seq<char>>, k: int, j: int)
    requires
        0 <= k < ls.len(),
        0 <= j,
    ensures
        run_at(ls[k], j) <= longest_run(unlines(ls), 0),
{
    let a = unlines(ls.take(k));
    let line = ls[k];
    let rest = ls.skip(k + 1);
    assert(ls =~= ls.take(k) + seq![line] + rest);
    lemma_unlines_concat(ls.take(k) + seq![line], rest);
    lemma_unlines_concat(ls.take(k), seq![line]);
    lemma_unlines_one(line);
    let all = unlines(ls);
    let from = a.len() as int;
    let to = from + line.len();
    assert(all.subrange(from, to) =~= line);
    if j < line.len() {
        lemma_run_within(all, from, to, j);
        lemma_longest_run_bounds(all, 0, from + j);
    } else {
        assert(run_at(line, j) == 0);
    }
}

proof fn lemma_run_appended(s: Seq<char>, i: int)
    requires
        0 <= i <= s.len(),
    ensures
        run_at(s + "\n"@, i) == run_at(s, i),
        longest_run(s + "\n"@, i) == longest_run(s, i),
    decreases s.len() - i,
{
    reveal_strlit("\n");
    let t = s + "\n"@;
    if i < s.len() {
        lemma_run_appended(s, i + 1);
        assert(t[i] == s[i]);
    } else {
        assert(t[i] == '\n');
        assert(run_at(t, i) == 0);
        assert(longest_run(t, i + 1) == 0);
    }
}

/// A line whose runs of backticks are all shorter does not close a fence.
proof fn lemma_does_not_close(line: Seq<char>, n: nat)
    requires
        forall|j: int| 0 <= j ==> #[trigger] run_at(line, j) < n,
    ensures
        !fence_closing(line, n),
{
    assert(run_at(line, spaces_at(line, 0) as int) < n);
}

/// The fence for some content cannot be closed by any of its lines.
pub proof fn no_line_closes_its_fence(content: Seq<char>, k: int)
    requires
        0 <= k < split_on(content, '\n').len(),
    ensures
        !fence_closing(split_on(content, '\n')[k], fence_text(content).len()),
{
    let ls = split_on(content, '\n');
    lemma_split_unlines(content);
    lemma_run_appended(content, 0);
    assert forall|j: int| 0 <= j implies #[trigger] run_at(ls[k], j) < fence_text(
        content,
    ).len() by {
        lemma_unlines_run(ls, k, j);
    }
    lemma_does_not_close(ls[k], fence_text(content).len());
}

proof fn lemma_run_of(s: Seq<char>, i: int, n: nat)
    requires
        0 <= i,
        i + n <= s.len(),
        forall|k: int| i <= k < i + n ==> s[k] == '`',
        i + n < s.len() ==> s[i + n] != '`',
    ensures
        run_at(s, i) == n,
    decreases n,
{
    if n > 0 {
        lemma_run_of(s, i + 1, (n - 1) as nat);
    }
}

/// Whether a text can stand behind an opening fence.
pub open spec fn info_shaped(info: Seq<char>) -> bool {
    &&& clean_line(info)
    &&& !contains_char(info, '`')
    &&& trimmed(info) == info
}

proof fn lemma_fence_lines(n: nat, info: Seq<char>)
    requires
        n >= 3,
        info_shaped(info),
    ensures
        fence_opening(repeated('`', n) + info) == Some((n, info)),
        !blank_line(repeated('`', n) + info),
        clean_line(repeated('`', n) + info),
        clean_line(repeated('`', n)),
        fence_closing(repeated('`', n), n),
{
    let fence = repeated('`', n);
    let line = fence + info;
    assert forall|k: int| 0 <= k < n implies line[k] == '`' by {
        assert(line[k] == fence[k]);
    }
    if info.len() > 0 {
        assert(line[n as int] == info[0]);
        lemma_no_char(info, '`', 0);
    }
    lemma_run_of(line, 0, n);
    assert(line.skip(n as int) =~= info);
    lemma_trim_head(line);
    assert(clean_line(fence)) by {
        assert forall|c: char| fence.contains(c) implies c == '`' by {
            let i = choose|i: int| 0 <= i < fence.len() && fence[i] == c;
            assert(fence[i] == '`');
        }
    }
    lemma_clean_concat(fence, info);
    lemma_run_of(fence, 0, n);
    assert(spaces_at(fence, 0) == 0);
    assert(fence.skip(n as int) =~= Seq::<char>::empty());
    assert(trimmed(Seq::<char>::empty()).len() == 0);
}

proof fn lemma_close_from(ls: Seq<Seq<char>>, i: int, n: int, ticks: nat)
    requires
        0 <= i <= n < ls.len(),
        fence_closing(ls[n], ticks),
        forall|k: int| i <= k < n ==> !fence_closing(#[trigger] ls[k], ticks),
    ensures
        close_from(ls, i, ticks) == n,
    decreases n - i,
{
    if i < n {
        lemma_close_from(ls, i + 1, n, ticks);
    }
}

/// The lines of a fenced block and the empty line behind it.
pub open spec fn fenced_lines(n: nat, info: Seq<char>, body: Seq<Seq<char>>) -> Seq<Seq<char>> {
    (seq![repeated('`', n) + info] + body + seq![repeated('`', n)]).push(Seq::empty())
}

proof fn lemma_fenced(slugs: TextTable, n: nat, info: Seq<char>, body: Seq<Seq<char>>)
    requires
        n >= 3,
        info_shaped(info),
        clean_lines(body),
        forall|k: int| 0 <= k < body.len() ==> !fence_closing(#[trigger] body[k], n),
    ensures
        one_block(slugs, fenced_lines(n, info, body), code_block(info, body)),
        unlines(fenced_lines(n, info, body)) == repeated('`', n) + info + "\n"@ + unlines(body)
            + repeated('`', n) + "\n"@ + "\n"@,
{
    let fence = repeated('`', n);
    let open = fence + info;
    let run = seq![open] + body + seq![fence];
    let all = fenced_lines(n, info, body);
    let close = body.len() as int + 1;
    lemma_fence_lines(n, info);
    assert(all[0] == open);
    assert(all[close] == fence);
    assert forall|k: int| 1 <= k < close implies !fence_closing(#[trigger] all[k], n) by {
        assert(all[k] == body[k - 1]);
    }
    lemma_close_from(all, 1, close, n);
    assert(all.subrange(1, close) =~= body);
    assert forall|k: int| 0 <= k < run.len() implies clean_line(#[trigger] run[k]) by {
        if 1 <= k < close {
            assert(run[k] == body[k - 1]);
        }
    }
    lemma_clean_push_empty(run);
    assert(block_end(all, 0) == close + 1);
    lemma_unlines_push_empty(run);
    lemma_unlines_concat(seq![open] + body, seq![fence]);
    lemma_unlines_concat(seq![open], body);
    lemma_unlines_one(open);
    lemma_unlines_one(fence);
    assert(unlines(all) =~= fence + info + "\n"@ + unlines(body) + fence + "\n"@ + "\n"@);
}

/// The lines that a code block is exported to.
pub open spec fn code_lines(language: Option<Seq<char>>, code: Seq<char>) -> Seq<Seq<char>> {
    fenced_lines(fence_text(code).len(), or_empty(language), split_on(code, '\n'))
}

/// Whether a language can stand behind the fence of a code block and is none
/// that marks a rewrite.
pub open spec fn plain_language(language: Option<Seq<char>>) -> bool {
    info_shaped(or_empty(language)) && !starts_with(or_empty(language), "diff "@)
}

/// A code block, whatever runs of backticks it holds, is read back as it was.
pub proof fn code_survives(slugs: TextTable, language: Option<Seq<char>>, code: Seq<char>)
    requires
        plain_language(language),
        plain_lines(code),
    ensures
        code_text(language, code) == unlines(code_lines(language, code)),
        one_block(
            slugs,
            code_lines(language, code),
            SnippetModel::Code { language: language_named(or_empty(language)), code },
        ),
{
    reveal_strlit("\n\n");
    reveal_strlit("\n");
    let n = fence_text(code).len();
    let fence = fence_text(code);
    let body = split_on(code, '\n');
    let info = or_empty(language);
    lemma_split_unlines(code);
    lemma_joined_split(code);
    assert forall|k: int| 0 <= k < body.len() implies !fence_closing(#[trigger] body[k], n) by {
        no_line_closes_its_fence(code, k);
    }
    assert(fence == repeated('`', n));
    lemma_fenced(slugs, n, info, body);
    assert(code_text(language, code) =~= unlines(code_lines(language, code)));
}

// ---------------------------------------------------------------------------
// Links and markers
// ---------------------------------------------------------------------------

proof fn lemma_clean_parts(a: Seq<char>, t: Seq<char>, b: Seq<char>)
    requires
        !contains_char(a, '\n'),
        !contains_char(t, '\n'),
        clean_line(b),
        b.len() > 0,
    ensures
        clean_line(a + t + b),
{
    let all = a + t + b;
    if all.contains('\n') {
        let i = choose|i: int| 0 <= i < all.len() && all[i] == '\n';
        if i < a.len() {
            assert(a[i] == '\n');
        } else if i < a.len() + t.len() {
            assert(t[i - a.len()] == '\n');
        } else {
            assert(b[i - a.len() - t.len()] == '\n');
        }
    }
    assert(all.last() == b.last());
}

proof fn lemma_lone_line(slugs: TextTable, line: Seq<char>)
    requires
        clean_line(line),
        line.len() > 0,
        line[0] == '[',
    ensures
        one_block(slugs, seq![line, Seq::empty()], paragraph_snippet(slugs, seq![line])),
        unlines(seq![line, Seq::empty()]) == line + "\n"@ + "\n"@,
{
    let run = seq![line];
    lemma_plain_start(line);
    lemma_paragraph_run(slugs, run);
    assert(run.push(Seq::empty()) =~= seq![line, Seq::empty()]);
    lemma_unlines_push_empty(run);
    lemma_unlines_one(line);
}

/// The line that an unknown snippet is exported to.
pub open spec fn unknown_line(typ: Seq<char>) -> Seq<char> {
    "[[unknown: "@ + typ + "]]"@
}

proof fn lemma_unknown_line(typ: Seq<char>)
    requires
        !contains_char(typ, '\n'),
    ensures
        clean_line(unknown_line(typ)),
        unknown_line(typ).len() > 0,
        unknown_line(typ)[0] == '[',
        unknown_marker(unknown_line(typ)) == Some(typ),
{
    reveal_strlit("[[unknown: ");
    reveal_strlit("]]");
    let line = unknown_line(typ);
    let a = "[[unknown: "@;
    let b = "]]"@;
    assert(!contains_char(a, '\n')) by {
        assert(forall|i: int| 0 <= i < a.len() ==> a[i] != '\n');
    }
    assert(clean_line(b)) by {
        assert(forall|i: int| 0 <= i < b.len() ==> b[i] != '\n' && b[i] != '\r');
    }
    lemma_clean_parts(a, typ, b);
    assert(line.last() == ']');
    lemma_trim_head(line);
    assert(line.subrange(0, a.len() as int) =~= a);
    let rest = line.skip(a.len() as int);
    assert(rest =~= typ + b);
    assert(rest.subrange(rest.len() - 2, rest.len() as int) =~= b);
    assert(rest.take(rest.len() - 2) =~= typ);
}

/// An unknown snippet keeps its type.
pub proof fn unknown_types_survive(slugs: TextTable, typ: Seq<char>)
    requires
        !contains_char(typ, '\n'),
    ensures
        unknown_text(typ) == unlines(seq![unknown_line(typ), Seq::empty()]),
        one_block(slugs, seq![unknown_line(typ), Seq::empty()], SnippetModel::Unknown { typ }),
{
    let line = unknown_line(typ);
    lemma_unknown_line(typ);
    lemma_lone_line(slugs, line);
    assert("]]\n\n"@ =~= "]]"@ + "\n"@ + "\n"@) by {
        reveal_strlit("]]\n\n");
        reveal_strlit("]]");
        reveal_strlit("\n");
    }
    assert(unknown_text(typ) =~= line + "\n"@ + "\n"@);
}

/// The line that a link snippet is exported to.
pub open spec fn link_line(text: Seq<char>, url: Seq<char>) -> Seq<char> {
    "["@ + text + "]("@ + url + ")"@
}

/// Whether a label and a target make a line that reads as one link: the first
/// `](` is the one between them, and no `)` stands in the target.
pub open spec fn link_shaped(text: Seq<char>, url: Seq<char>) -> bool {
    &&& !contains_char(text, '\n')
    &&& !contains_char(url, '\n')
    &&& !contains_char(url, ')')
    &&& find_from(text, 0, "]("@) is None
}

proof fn lemma_find_is(s: Seq<char>, i: int, n: int, pat: Seq<char>)
    requires
        0 <= i <= n,
        matches_at(s, n, pat),
        forall|k: int| i <= k < n ==> !#[trigger] matches_at(s, k, pat),
    ensures
        find_from(s, i, pat) == Some(n),
    decreases n - i,
{
    if i < n {
        lemma_find_is(s, i + 1, n, pat);
    }
}

proof fn lemma_link_line(text: Seq<char>, url: Seq<char>)
    requires
        link_shaped(text, url),
    ensures
        clean_line(link_line(text, url)),
        link_line(text, url)[0] == '[',
        link_line(text, url).last() == ')',
        find_from(link_line(text, url), 0, "]("@) == Some(text.len() as int + 1),
{
    reveal_strlit("[");
    reveal_strlit("](");
    reveal_strlit(")");
    let line = link_line(text, url);
    let mid = "]("@;
    assert(!contains_char("["@, '\n')) by {
        assert(forall|i: int| 0 <= i < "["@.len() ==> "["@[i] != '\n');
    }
    assert(clean_line(mid)) by {
        assert(forall|i: int| 0 <= i < mid.len() ==> mid[i] != '\n' && mid[i] != '\r');
    }
    assert(clean_line(")"@)) by {
        assert(forall|i: int| 0 <= i < ")"@.len() ==> ")"@[i] != '\n' && ")"@[i] != '\r');
    }
    lemma_clean_parts("["@, text, mid);
    lemma_clean_parts("["@ + text + mid, url, ")"@);
    let k = text.len() as int + 1;
    assert(line.subrange(k, k + 2) =~= mid);
    assert(matches_at(line, k, mid));
    lemma_find_from(text, 0, mid);
    assert forall|j: int| 0 <= j < k implies !#[trigger] matches_at(line, j, mid) by {
        if matches_at(line, j, mid) {
            assert(line.subrange(j, j + 2)[0] == line[j]);
            assert(line.subrange(j, j + 2)[1] == line[j + 1]);
            if j > 0 && j + 1 < k {
                assert(line[j] == text[j - 1]);
                assert(line[j + 1] == text[j]);
                assert(text.subrange(j - 1, j + 1) =~= mid);
                assert(matches_at(text, j - 1, mid));
            } else if j > 0 {
                assert(line[j + 1] == mid[0]);
            }
        }
    }
    lemma_find_is(line, 0, k, mid);
}

proof fn lemma_no_marker_end(line: Seq<char>)
    requires
        line.len() > 0,
        !whitespace(line[0]),
        line.last() == ')',
    ensures
        trimmed(line) == line,
        unknown_marker(line) is None,
{
    lemma_trim_head(line);
    reveal_strlit("[[unknown: ");
    reveal_strlit("]]");
    if unknown_marker(line) is Some {
        let rest = strip_prefix(line, "[[unknown: "@)->0;
        assert(rest == line.skip(11));
        assert(ends_with(rest, "]]"@));
        assert(rest.subrange(rest.len() - 2, rest.len() as int)[1] == rest.last());
        assert("]]"@[1] == ']');
        assert(rest.last() == line.last());
    }
}

/// A link snippet keeps its label, and its target but for the way it names a
/// page.
pub proof fn links_survive(slugs: TextTable, text: Seq<char>, url: Seq<char>)
    requires
        link_shaped(text, url),
    ensures
        link_text(text, url) == unlines(seq![link_line(text, url), Seq::empty()]),
        one_block(
            slugs,
            seq![link_line(text, url), Seq::empty()],
            SnippetModel::Link { text, url: internal_target(slugs, url) },
        ),
{
    let line = link_line(text, url);
    lemma_link_line(text, url);
    lemma_lone_line(slugs, line);
    lemma_no_marker_end(line);
    reveal_strlit("[");
    reveal_strlit("](");
    reveal_strlit(")");
    let k = text.len() as int + 1;
    let after = line.skip(k + 2);
    assert(after =~= url + ")"@);
    assert(after.drop_last() =~= url);
    assert(standalone_link(line));
    assert(line.subrange(1, k) =~= text);
    assert(line.subrange(k + 2, line.len() - 1) =~= url);
    assert(standalone_label(line) == text);
    assert(standalone_target(line) == url);
    assert(link_text(text, url) =~= line + "\n"@ + "\n"@) by {
        reveal_strlit(")\n\n");
        reveal_strlit("\n");
    }
}

// ---------------------------------------------------------------------------
// Rewrites
// ---------------------------------------------------------------------------

/// Each line behind a prefix.
pub open spec fn marked_lines(prefix: Seq<char>, ls: Seq<Seq<char>>) -> Seq<Seq<char>> {
    Seq::new(ls.len(), |i: int| prefix + ls[i])
}

proof fn lemma_prefixed_lines(prefix: Seq<char>, ls: Seq<Seq<char>>)
    ensures
        prefixed_lines(prefix, ls) == unlines(marked_lines(prefix, ls)),
    decreases ls.len(),
{
    if ls.len() > 0 {
        lemma_prefixed_lines(prefix, ls.drop_last());
        assert(marked_lines(prefix, ls).drop_last() =~= marked_lines(prefix, ls.drop_last()));
        let before = prefixed_lines(prefix, ls.drop_last());
        assert(before + prefix + ls.last() + "\n"@ =~= before + (prefix + ls.last()) + "\n"@);
    }
}

proof fn lemma_clean_marked(prefix: Seq<char>, ls: Seq<Seq<char>>)
    requires
        clean_line(prefix),
        clean_lines(ls),
    ensures
        clean_lines(marked_lines(prefix, ls)),
{
    assert forall|i: int| 0 <= i < ls.len() implies clean_line(
        #[trigger] marked_lines(prefix, ls)[i],
    ) by {
        assert(clean_line(ls[i]));
        lemma_clean_concat(prefix, ls[i]);
    }
}

proof fn lemma_lines_clean(s: Seq<char>, i: int)
    requires
        !contains_char(s, '\r'),
        0 <= i,
    ensures
        clean_lines(lines_from(s, i)),
    decreases s.len() - i,
{
    if i < s.len() {
        lemma_next_pos(s, i, '\n');
        let k = next_pos(s, i, '\n');
        let piece = s.subrange(i, k);
        assert(clean_line(piece)) by {
            if piece.contains('\n') {
                let j = choose|j: int| 0 <= j < piece.len() && piece[j] == '\n';
                assert(s[i + j] == '\n');
            }
            if piece.len() > 0 {
                assert(piece.last() == s[k - 1]);
                lemma_no_char(s, '\r', k - 1);
            }
        }
        if k < s.len() {
            lemma_lines_clean(s, k + 1);
            let more = lines_from(s, k + 1);
            let all = lines_from(s, i);
            assert(all == seq![piece] + more);
            assert forall|j: int| 0 <= j < all.len() implies clean_line(#[trigger] all[j]) by {
                if j > 0 {
                    assert(all[j] == more[j - 1]);
                }
            }
        }
    }
}

/// A line for the scope of a rewrite, where it has one.
pub open spec fn scope_lines(scope: Option<Seq<char>>) -> Seq<Seq<char>> {
    match scope {
        Some(t) => seq!["# scope: "@ + t],
        None => Seq::empty(),
    }
}

/// A line for the kind of pattern of a rewrite, where it says which.
pub open spec fn pattern_lines(is_method_pattern: Option<bool>) -> Seq<Seq<char>> {
    match is_method_pattern {
        Some(true) => seq!["# method_pattern: true"@],
        Some(false) => seq!["# method_pattern: false"@],
        None => Seq::empty(),
    }
}

/// The lines between the fences of a rewrite block.
pub open spec fn rewrite_block_lines(
    search: Seq<char>,
    replace: Seq<char>,
    scope: Option<Seq<char>>,
    is_method_pattern: Option<bool>,
) -> Seq<Seq<char>> {
    scope_lines(scope) + pattern_lines(is_method_pattern) + marked_lines(
        "-"@,
        lines_of(normalized(search)),
    ) + marked_lines("+"@, lines_of(normalized(replace)))
}

proof fn lemma_rewrite_body(
    search: Seq<char>,
    replace: Seq<char>,
    scope: Option<Seq<char>>,
    is_method_pattern: Option<bool>,
)
    ensures
        rewrite_body(search, replace, scope, is_method_pattern) == unlines(
            rewrite_block_lines(search, replace, scope, is_method_pattern),
        ),
{
    let a = scope_lines(scope);
    let b = pattern_lines(is_method_pattern);
    let c = marked_lines("-"@, lines_of(normalized(search)));
    let d = marked_lines("+"@, lines_of(normalized(replace)));
    lemma_unlines_concat(a + b + c, d);
    lemma_unlines_concat(a + b, c);
    lemma_unlines_concat(a, b);
    lemma_prefixed_lines("-"@, lines_of(normalized(search)));
    lemma_prefixed_lines("+"@, lines_of(normalized(replace)));
    if let Some(t) = scope {
        lemma_unlines_one("# scope: "@ + t);
    }
    lemma_unlines_one("# method_pattern: true"@);
    lemma_unlines_one("# method_pattern: false"@);
    assert("# method_pattern: true"@ + "\n"@ =~= "# method_pattern: true\n"@) by {
        reveal_strlit("# method_pattern: true");
        reveal_strlit("# method_pattern: true\n");
        reveal_strlit("\n");
    }
    assert("# method_pattern: false"@ + "\n"@ =~= "# method_pattern: false\n"@) by {
        reveal_strlit("# method_pattern: false");
        reveal_strlit("# method_pattern: false\n");
        reveal_strlit("\n");
    }
}

proof fn lemma_rewrite_search(base: Seq<Seq<char>>, ls: Seq<Seq<char>>)
    ensures
        rewrite_fields(base + marked_lines("-"@, ls)) == (RewriteFields {
            search: rewrite_fields(base).search + ls,
            ..rewrite_fields(base)
        }),
    decreases ls.len(),
{
    let f = rewrite_fields(base);
    if ls.len() == 0 {
        assert(base + marked_lines("-"@, ls) =~= base);
        assert(f.search + ls =~= f.search);
    } else {
        let init = ls.drop_last();
        let all = base + marked_lines("-"@, ls);
        let line = "-"@ + ls.last();
        lemma_rewrite_search(base, init);
        assert(all.drop_last() =~= base + marked_lines("-"@, init));
        assert(all.last() == line);
        reveal_strlit("-");
        reveal_strlit("# scope: ");
        reveal_strlit("# method_pattern: ");
        assert(line[0] == '-');
        if starts_with(line, "# scope: "@) {
            lemma_starts_with_char(line, "# scope: "@);
        }
        if starts_with(line, "# method_pattern: "@) {
            lemma_starts_with_char(line, "# method_pattern: "@);
        }
        assert(line.subrange(0, 1) =~= "-"@);
        assert(line.skip(1) =~= ls.last());
        assert((f.search + init).push(ls.last()) =~= f.search + ls);
    }
}

proof fn lemma_rewrite_replace(base: Seq<Seq<char>>, ls: Seq<Seq<char>>)
    ensures
        rewrite_fields(base + marked_lines("+"@, ls)) == (RewriteFields {
            replace: rewrite_fields(base).replace + ls,
            ..rewrite_fields(base)
        }),
    decreases ls.len(),
{
    let f = rewrite_fields(base);
    if ls.len() == 0 {
        assert(base + marked_lines("+"@, ls) =~= base);
        assert(f.replace + ls =~= f.replace);
    } else {
        let init = ls.drop_last();
        let all = base + marked_lines("+"@, ls);
        let line = "+"@ + ls.last();
        lemma_rewrite_replace(base, init);
        assert(all.drop_last() =~= base + marked_lines("+"@, init));
        assert(all.last() == line);
        reveal_strlit("+");
        reveal_strlit("-");
        reveal_strlit("# scope: ");
        reveal_strlit("# method_pattern: ");
        assert(line[0] == '+');
        if starts_with(line, "# scope: "@) {
            lemma_starts_with_char(line, "# scope: "@);
        }
        if starts_with(line, "# method_pattern: "@) {
            lemma_starts_with_char(line, "# method_pattern: "@);
        }
        if starts_with(line, "-"@) {
            lemma_starts_with_char(line, "-"@);
        }
        assert(line.subrange(0, 1) =~= "+"@);
        assert(line.skip(1) =~= ls.last());
        assert((f.replace + init).push(ls.last()) =~= f.replace + ls);
    }
}

proof fn lemma_rewrite_heads(scope: Option<Seq<char>>, is_method_pattern: Option<bool>)
    ensures
        rewrite_fields(scope_lines(scope) + pattern_lines(is_method_pattern)) == (RewriteFields {
            scope,
            is_method_pattern,
            search: Seq::empty(),
            replace: Seq::empty(),
        }),
{
    let none = RewriteFields {
        scope: None,
        is_method_pattern: None,
        search: Seq::empty(),
        replace: Seq::empty(),
    };
    let a = scope_lines(scope);
    let b = pattern_lines(is_method_pattern);
    assert(rewrite_fields(Seq::empty()) == none);
    let scoped = RewriteFields { scope, ..none };
    assert(rewrite_fields(a) == scoped) by {
        if let Some(t) = scope {
            let line = "# scope: "@ + t;
            reveal_strlit("# scope: ");
            assert(a.drop_last() =~= Seq::<Seq<char>>::empty());
            assert(line.subrange(0, 9) =~= "# scope: "@);
            assert(line.skip(9) =~= t);
        }
    }
    match is_method_pattern {
        None => {
            assert(a + b =~= a);
        },
        Some(v) => {
            let line = b[0];
            assert((a + b).drop_last() =~= a);
            assert((a + b).last() == line);
            lemma_pattern_line(v);
        },
    }
}

proof fn lemma_pattern_line(v: bool)
    ensures
        ({
            let line = pattern_lines(Some(v))[0];
            &&& !starts_with(line, "# scope: "@)
            &&& strip_prefix(line, "# method_pattern: "@) matches Some(rest)
            &&& spelled_bool(rest) == Some(v)
        }),
{
    let line = pattern_lines(Some(v))[0];
    reveal_strlit("# method_pattern: true");
    reveal_strlit("# method_pattern: false");
    reveal_strlit("# method_pattern: ");
    reveal_strlit("# scope: ");
    reveal_strlit("true");
    reveal_strlit("false");
    assert(line[2] == 'm');
    if starts_with(line, "# scope: "@) {
        lemma_starts_with_char(line, "# scope: "@);
        assert("# scope: "@[2] == 's');
    }
    assert(line.subrange(0, 18) =~= "# method_pattern: "@);
    if v {
        assert(line.skip(18) =~= "true"@);
    } else {
        assert(line.skip(18) =~= "false"@);
        assert("false"@.len() != "true"@.len());
    }
}

/// The lines that a rewrite is exported to.
pub open spec fn rewrite_lines_of(
    name: Seq<char>,
    search: Seq<char>,
    replace: Seq<char>,
    scope: Option<Seq<char>>,
    is_method_pattern: Option<bool>,
) -> Seq<Seq<char>> {
    fenced_lines(
        fence_text(rewrite_body(search, replace, scope, is_method_pattern)).len(),
        "diff "@ + name,
        rewrite_block_lines(search, replace, scope, is_method_pattern),
    )
}

/// Whether a rewrite can be exported and read back: its language fits behind a
/// fence, its scope is one line, and it searches or replaces something.
pub open spec fn rewrite_shaped(
    name: Seq<char>,
    search: Seq<char>,
    replace: Seq<char>,
    scope: Option<Seq<char>>,
) -> bool {
    &&& info_shaped(name)
    &&& name.len() > 0
    &&& (scope matches Some(t) ==> clean_line(t))
    &&& lines_of(normalized(search)).len() + lines_of(normalized(replace)).len() > 0
}

proof fn lemma_diff_info(name: Seq<char>)
    requires
        info_shaped(name),
        name.len() > 0,
    ensures
        info_shaped("diff "@ + name),
        strip_prefix("diff "@ + name, "diff "@) == Some(name),
{
    reveal_strlit("diff ");
    let info = "diff "@ + name;
    assert(clean_line("diff "@)) by {
        assert(forall|i: int|
            0 <= i < "diff "@.len() ==> "diff "@[i] != '\n' && "diff "@[i] != '\r');
    }
    lemma_clean_concat("diff "@, name);
    assert(!contains_char(info, '`')) by {
        if info.contains('`') {
            let i = choose|i: int| 0 <= i < info.len() && info[i] == '`';
            if i < 5 {
                assert(info[i] == "diff "@[i]);
            } else {
                assert(name[i - 5] == '`');
            }
        }
    }
    assert(info[0] == 'd');
    assert(info.last() == name.last());
    assert(!whitespace(name.last())) by {
        lemma_trim_ends(name);
    }
    lemma_trim_head(info);
    assert(info.subrange(0, 5) =~= "diff "@);
    assert(info.skip(5) =~= name);
}

/// A text that trimming leaves alone neither starts nor ends with white space.
proof fn lemma_trim_ends(s: Seq<char>)
    requires
        trimmed(s) == s,
        s.len() > 0,
    ensures
        !whitespace(s[0]),
        !whitespace(s.last()),
{
    lemma_trim_start_len(s);
    lemma_trim_end_prefix(trim_start(s));
    if whitespace(s[0]) {
        lemma_trim_start_len(s.skip(1));
    } else {
        assert(trim_start(s) == s);
        if whitespace(s.last()) {
            lemma_trim_end_prefix(s.drop_last());
        }
    }
}

proof fn lemma_trim_start_len(s: Seq<char>)
    ensures
        trim_start(s).len() <= s.len(),
    decreases s.len(),
{
    if s.len() > 0 && whitespace(s[0]) {
        lemma_trim_start_len(s.skip(1));
    }
}

proof fn lemma_rewrite_lines_clean(
    search: Seq<char>,
    replace: Seq<char>,
    scope: Option<Seq<char>>,
    is_method_pattern: Option<bool>,
)
    requires
        scope matches Some(t) ==> clean_line(t),
    ensures
        clean_lines(rewrite_block_lines(search, replace, scope, is_method_pattern)),
{
    let a = scope_lines(scope);
    let b = pattern_lines(is_method_pattern);
    let sl = lines_of(normalized(search));
    let rl = lines_of(normalized(replace));
    let c = marked_lines("-"@, sl);
    let d = marked_lines("+"@, rl);
    normalized_text_has_no_carriage_return(search);
    normalized_text_has_no_carriage_return(replace);
    lemma_lines_clean(normalized(search), 0);
    lemma_lines_clean(normalized(replace), 0);
    reveal_strlit("-");
    reveal_strlit("+");
    reveal_strlit("# scope: ");
    reveal_strlit("# method_pattern: true");
    reveal_strlit("# method_pattern: false");
    assert(clean_line("-"@)) by {
        assert(forall|i: int| 0 <= i < "-"@.len() ==> "-"@[i] != '\n' && "-"@[i] != '\r');
    }
    assert(clean_line("+"@)) by {
        assert(forall|i: int| 0 <= i < "+"@.len() ==> "+"@[i] != '\n' && "+"@[i] != '\r');
    }
    assert(clean_line("# scope: "@)) by {
        assert(forall|i: int|
            0 <= i < "# scope: "@.len() ==> "# scope: "@[i] != '\n' && "# scope: "@[i] != '\r');
    }
    assert(clean_line("# method_pattern: true"@)) by {
        assert(forall|i: int|
            0 <= i < "# method_pattern: true"@.len() ==> "# method_pattern: true"@[i] != '\n'
                && "# method_pattern: true"@[i] != '\r');
    }
    assert(clean_line("# method_pattern: false"@)) by {
        assert(forall|i: int|
            0 <= i < "# method_pattern: false"@.len() ==> "# method_pattern: false"@[i] != '\n'
                && "# method_pattern: false"@[i] != '\r');
    }
    lemma_clean_marked("-"@, sl);
    lemma_clean_marked("+"@, rl);
    if let Some(t) = scope {
        lemma_clean_concat("# scope: "@, t);
    }
    let all = a + b + c + d;
    assert forall|i: int| 0 <= i < all.len() implies clean_line(#[trigger] all[i]) by {
        let na = a.len() as int;
        let nb = b.len() as int;
        let nc = c.len() as int;
        if i < na {
            assert(all[i] == a[i]);
        } else if i < na + nb {
            assert(all[i] == b[i - na]);
        } else if i < na + nb + nc {
            assert(all[i] == c[i - na - nb]);
            assert(clean_line(c[i - na - nb]));
        } else {
            assert(all[i] == d[i - na - nb - nc]);
            assert(clean_line(d[i - na - nb - nc]));
        }
    }
}

/// A rewrite keeps its language, scope and kind of pattern, and the lines it
/// searches and replaces.
pub proof fn rewrites_survive(
    slugs: TextTable,
    language: Option<Seq<char>>,
    search: Seq<char>,
    replace: Seq<char>,
    scope: Option<Seq<char>>,
    is_method_pattern: Option<bool>,
)
    requires
        rewrite_shaped(or_text(language, "rewrite"@), search, replace, scope),
    ensures
        rewrite_text(language, search, replace, scope, is_method_pattern) == unlines(
            rewrite_lines_of(
                or_text(language, "rewrite"@),
                search,
                replace,
                scope,
                is_method_pattern,
            ),
        ),
        one_block(
            slugs,
            rewrite_lines_of(
                or_text(language, "rewrite"@),
                search,
                replace,
                scope,
                is_method_pattern,
            ),
            SnippetModel::Rewrite {
                language: Some(or_text(language, "rewrite"@)),
                search: joined(lines_of(normalized(search)), "\n"@),
                replace: joined(lines_of(normalized(replace)), "\n"@),
                scope,
                is_method_pattern,
            },
        ),
{
    let name = or_text(language, "rewrite"@);
    let body = rewrite_body(search, replace, scope, is_method_pattern);
    let ls = rewrite_block_lines(search, replace, scope, is_method_pattern);
    let n = fence_text(body).len();
    let sl = lines_of(normalized(search));
    let rl = lines_of(normalized(replace));
    lemma_rewrite_body(search, replace, scope, is_method_pattern);
    lemma_rewrite_lines_clean(search, replace, scope, is_method_pattern);
    assert forall|k: int| 0 <= k < ls.len() implies !fence_closing(#[trigger] ls[k], n) by {
        assert forall|j: int| 0 <= j implies #[trigger] run_at(ls[k], j) < n by {
            lemma_unlines_run(ls, k, j);
        }
        lemma_does_not_close(ls[k], n);
    }
    lemma_diff_info(name);
    lemma_fenced(slugs, n, "diff "@ + name, ls);
    let heads = scope_lines(scope) + pattern_lines(is_method_pattern);
    lemma_rewrite_heads(scope, is_method_pattern);
    lemma_rewrite_search(heads, sl);
    lemma_rewrite_replace(heads + marked_lines("-"@, sl), rl);
    let f = rewrite_fields(ls);
    assert(f.search =~= sl);
    assert(f.replace =~= rl);
    assert(fence_text(body) == repeated('`', n));
    assert(rewrite_text(language, search, replace, scope, is_method_pattern) =~= unlines(
        rewrite_lines_of(name, search, replace, scope, is_method_pattern),
    )) by {
        reveal_strlit("\n\n");
        reveal_strlit("\n");
    }
}

// ---------------------------------------------------------------------------
// Lists
// ---------------------------------------------------------------------------

/// Whether the text of a list item survives: it is not empty, neither starts
/// nor ends with white space, and no line of it ends in a carriage return.
pub open spec fn item_shaped(t: Seq<char>) -> bool {
    &&& plain_lines(t)
    &&& t.len() > 0
    &&& !whitespace(t[0])
    &&& !whitespace(t.last())
}

/// Lines behind a dash, the first of them, and indented, the others.
pub open spec fn dashed(ls: Seq<Seq<char>>) -> Seq<Seq<char>> {
    seq!["- "@ + ls[0]] + marked_lines("  "@, ls.skip(1))
}

/// The lines that list items with these texts are exported to.
pub open spec fn list_lines(ts: Seq<Seq<char>>) -> Seq<Seq<char>>
    decreases ts.len(),
{
    if ts.len() == 0 {
        Seq::empty()
    } else {
        list_lines(ts.drop_last()) + dashed(escaped_lines(split_on(ts.last(), '\n')))
    }
}

proof fn lemma_joined_ends(ls: Seq<Seq<char>>)
    requires
        ls.len() > 0,
    ensures
        ({
            let j = joined(ls, "\n"@);
            &&& ls[0].len() > 0 ==> j.len() > 0 && j[0] == ls[0][0]
            &&& ls[0].len() == 0 && ls.len() > 1 ==> j.len() > 0 && j[0] == '\n'
            &&& ls.last().len() > 0 ==> j.len() > 0 && j.last() == ls.last().last()
            &&& ls.last().len() == 0 && ls.len() > 1 ==> j.len() > 0 && j.last() == '\n'
        }),
    decreases ls.len(),
{
    reveal_strlit("\n");
    if ls.len() > 1 {
        let init = ls.drop_last();
        lemma_joined_ends(init);
        let j = joined(ls, "\n"@);
        let before = joined(init, "\n"@);
        assert(init[0] == ls[0]);
        if before.len() > 0 {
            assert(j[0] == before[0]);
        } else {
            assert(j[0] == '\n');
        }
        if ls.last().len() > 0 {
            assert(j.last() == ls.last().last());
        } else {
            assert(j.last() == '\n');
        }
    }
}

proof fn lemma_trim_newlines(j: Seq<char>)
    requires
        j.len() > 0,
        !whitespace(j[0]),
        !whitespace(j.last()),
    ensures
        trimmed(j + "\n"@ + "\n"@) == j,
{
    reveal_strlit("\n");
    let x = j + "\n"@ + "\n"@;
    assert(x[0] == j[0]);
    assert(trim_start(x) == x);
    assert(x.last() == '\n');
    assert(x.drop_last() =~= j + "\n"@);
    assert((j + "\n"@).last() == '\n');
    assert((j + "\n"@).drop_last() =~= j);
    reveal_with_fuel(trim_end, 3);
    lemma_trim_end_prefix(j);
}

/// The escaped lines of an item that survives, and what they join to.
proof fn lemma_item(t: Seq<char>)
    requires
        item_shaped(t),
    ensures
        ({
            let e = escaped_lines(split_on(t, '\n'));
            let j = joined(e, "\n"@);
            &&& e.len() > 0
            &&& clean_lines(e)
            &&& lines_of(j) == e
            &&& trimmed(unlines(e) + "\n"@) == j
            &&& unescaped_text(j) == t
        }),
{
    let ls = split_on(t, '\n');
    let e = escaped_lines(ls);
    let j = joined(e, "\n"@);
    lemma_split_unlines(t);
    lemma_joined_split(t);
    lemma_joined_ends(ls);
    lemma_joined_ends(e);
    lemma_joined_unlines(e);
    assert forall|k: int| 0 <= k < e.len() implies clean_line(#[trigger] e[k]) && e[k].len() > 0
        && unescaped_line(e[k]) == ls[k] by {
        assert(clean_line(ls[k]));
        lemma_escaped(ls[k]);
    }
    reveal_strlit("\\");
    // the ends of the item are those of its text, or a backslash
    assert(ls[0].len() > 0);
    assert(ls.last().len() > 0);
    assert(!whitespace(e[0][0]));
    assert(!whitespace(e.last().last()));
    lemma_trim_newlines(j);
    lemma_lines_joined(e);
    lemma_unescaped_run(e);
    assert(Seq::new(e.len(), |i: int| unescaped_line(e[i])) =~= ls);
}

proof fn lemma_dashed_text(t: Seq<char>)
    requires
        item_shaped(t),
    ensures
        list_item_text(paragraph_text(t, BlockEscaping::Escape, Position::ListItem)) == unlines(
            dashed(escaped_lines(split_on(t, '\n'))),
        ),
{
    let ls = split_on(t, '\n');
    let e = escaped_lines(ls);
    lemma_item(t);
    lemma_block_text(ls);
    let none: Seq<char> = Seq::empty();
    let x = paragraph_text(t, BlockEscaping::Escape, Position::ListItem);
    assert(x =~= unlines(e) + "\n"@);
    lemma_prefixed_lines("  "@, e.skip(1));
    let head = "- "@ + e[0];
    lemma_unlines_concat(seq![head], marked_lines("  "@, e.skip(1)));
    lemma_unlines_one(head);
    assert("- "@ + e[0] + "\n"@ + prefixed_lines("  "@, e.skip(1)) =~= head + "\n"@
        + prefixed_lines("  "@, e.skip(1)));
}

proof fn lemma_dashed_items(base: Seq<Seq<char>>, e: Seq<Seq<char>>, k: int)
    requires
        1 <= k <= e.len(),
    ensures
        items_of(base + dashed(e).take(k)) == items_of(base).push(joined(e.take(k), "\n"@)),
    decreases k,
{
    reveal_strlit("- ");
    reveal_strlit("  ");
    let all = base + dashed(e).take(k);
    let last = dashed(e)[k - 1];
    assert(all.last() == last);
    assert(e.take(k).drop_last() =~= e.take(k - 1));
    assert(e.take(k).last() == e[k - 1]);
    if k == 1 {
        assert(all.drop_last() =~= base);
        assert(last == "- "@ + e[0]);
        assert(last.subrange(0, 2) =~= "- "@);
        assert(last.skip(2) =~= e[0]);
        assert(joined(e.take(1), "\n"@) == e[0]);
    } else {
        lemma_dashed_items(base, e, k - 1);
        assert(all.drop_last() =~= base + dashed(e).take(k - 1));
        let before = items_of(base + dashed(e).take(k - 1));
        assert(last == "  "@ + e[k - 1]);
        assert(last[0] == ' ');
        if starts_with(last, "- "@) {
            lemma_starts_with_char(last, "- "@);
        }
        assert(last.skip(2) =~= e[k - 1]);
        let updated = before.update(before.len() - 1, before.last() + "\n"@ + e[k - 1]);
        assert(updated =~= items_of(base).push(joined(e.take(k), "\n"@)));
    }
}

/// The items that list lines hold are the texts that were exported, escaped.
proof fn lemma_list_items(ts: Seq<Seq<char>>)
    requires
        forall|i: int| 0 <= i < ts.len() ==> item_shaped(#[trigger] ts[i]),
    ensures
        items_of(list_lines(ts)) == Seq::new(
            ts.len(),
            |i: int| joined(escaped_lines(split_on(ts[i], '\n')), "\n"@),
        ),
        clean_lines(list_lines(ts)),
        forall|i: int| 0 <= i < list_lines(ts).len() ==> list_line(#[trigger] list_lines(ts)[i]),
        ts.len() > 0 ==> list_lines(ts).len() > 0 && starts_with(list_lines(ts)[0], "- "@),
    decreases ts.len(),
{
    let all = list_lines(ts);
    if ts.len() > 0 {
        let init = ts.drop_last();
        let base = list_lines(init);
        let e = escaped_lines(split_on(ts.last(), '\n'));
        let more = dashed(e);
        assert forall|i: int| 0 <= i < init.len() implies item_shaped(#[trigger] init[i]) by {
            assert(init[i] == ts[i]);
        }
        lemma_list_items(init);
        assert(item_shaped(ts[ts.len() - 1]));
        lemma_item(ts.last());
        lemma_dashed_items(base, e, e.len() as int);
        assert(more.take(e.len() as int) =~= more);
        assert(e.take(e.len() as int) =~= e);
        assert(items_of(all) =~= Seq::new(
            ts.len(),
            |i: int| joined(escaped_lines(split_on(ts[i], '\n')), "\n"@),
        ));
        reveal_strlit("- ");
        reveal_strlit("  ");
        assert(clean_line("- "@)) by {
            assert(forall|i: int| 0 <= i < "- "@.len() ==> "- "@[i] != '\n' && "- "@[i] != '\r');
        }
        assert(clean_line("  "@)) by {
            assert(forall|i: int| 0 <= i < "  "@.len() ==> "  "@[i] != '\n' && "  "@[i] != '\r');
        }
        assert forall|k: int| 0 <= k < more.len() implies clean_line(#[trigger] more[k])
            && list_line(more[k]) by {
            assert(clean_line(e[k]));
            if k == 0 {
                lemma_clean_concat("- "@, e[0]);
                assert(("- "@ + e[0]).subrange(0, 2) =~= "- "@);
            } else {
                assert(more[k] == "  "@ + e[k]);
                lemma_clean_concat("  "@, e[k]);
                assert(("  "@ + e[k]).subrange(0, 2) =~= "  "@);
            }
        }
        assert forall|i: int| 0 <= i < all.len() implies clean_line(#[trigger] all[i])
            && list_line(all[i]) by {
            if i < base.len() {
                assert(all[i] == base[i]);
            } else {
                assert(all[i] == more[i - base.len()]);
            }
        }
        if base.len() > 0 {
            assert(all[0] == base[0]);
        } else {
            assert(all[0] == more[0]);
            assert(("- "@ + e[0]).subrange(0, 2) =~= "- "@);
            if init.len() > 0 {
                assert(false);
            }
        }
    } else {
        assert(items_of(all) =~= Seq::<Seq<char>>::empty());
    }
}

proof fn lemma_list_end(ls: Seq<Seq<char>>, i: int, n: int)
    requires
        0 <= i <= n < ls.len(),
        !list_line(ls[n]),
        forall|k: int| i <= k < n ==> list_line(#[trigger] ls[k]),
    ensures
        list_end(ls, i) == n,
    decreases n - i,
{
    if i < n {
        lemma_list_end(ls, i + 1, n);
    }
}

/// The items of a list that are one text each.
pub open spec fn flat_list(items: Seq<Seq<NodeModel>>) -> bool {
    forall|i: int|
        0 <= i < items.len() ==> (#[trigger] items[i]).len() == 1 && (items[i][0] is Paragraph
            || items[i][0] is Text)
}

/// The text of a list item that is one text.
pub open spec fn flat_text(item: Seq<NodeModel>, policy: LinkPolicy) -> Seq<char> {
    match item[0] {
        NodeModel::Paragraph { text } => rewritten(text, policy),
        NodeModel::Text { text } => rewritten(text, policy),
        _ => Seq::empty(),
    }
}

/// The texts of list items that are one text each.
pub open spec fn flat_texts(items: Seq<Seq<NodeModel>>, policy: LinkPolicy) -> Seq<Seq<char>> {
    Seq::new(items.len(), |i: int| flat_text(items[i], policy))
}

proof fn lemma_list_text(items: Seq<Seq<NodeModel>>, policy: LinkPolicy)
    requires
        flat_list(items),
        forall|i: int|
            0 <= i < items.len() ==> item_shaped(flat_text(#[trigger] items[i], policy)),
    ensures
        list_items_text(items, policy, BlockEscaping::Escape) == unlines(
            list_lines(flat_texts(items, policy)),
        ),
    decreases items.len(),
{
    if items.len() > 0 {
        let init = items.take(items.len() - 1);
        let item = items[items.len() - 1];
        assert forall|i: int| 0 <= i < init.len() implies (#[trigger] init[i]).len() == 1 && (
        init[i][0] is Paragraph || init[i][0] is Text) && item_shaped(
            flat_text(init[i], policy),
        ) by {
            assert(init[i] == items[i]);
        }
        lemma_list_text(init, policy);
        let t = flat_text(item, policy);
        let ts = flat_texts(items, policy);
        assert(ts.drop_last() =~= flat_texts(init, policy));
        assert(ts.last() == t);
        assert(item =~= seq![item[0]]);
        assert(item.take(0) =~= Seq::<NodeModel>::empty());
        reveal_with_fuel(nodes_text, 2);
        assert(nodes_text(item, policy, BlockEscaping::Escape, Position::ListItem)
            =~= paragraph_text(t, BlockEscaping::Escape, Position::ListItem));
        lemma_dashed_text(t);
        lemma_unlines_concat(
            list_lines(ts.drop_last()),
            dashed(escaped_lines(split_on(t, '\n'))),
        );
    }
}

/// A list of texts is read back as a list of the same texts.
pub proof fn lists_survive(slugs: TextTable, items: Seq<Seq<NodeModel>>, policy: LinkPolicy)
    requires
        flat_list(items),
        items.len() > 0,
        forall|i: int|
            0 <= i < items.len() ==> item_shaped(flat_text(#[trigger] items[i], policy)),
    ensures
        list_items_text(items, policy, BlockEscaping::Escape) + "\n"@ == unlines(
            list_lines(flat_texts(items, policy)).push(Seq::empty()),
        ),
        one_block(
            slugs,
            list_lines(flat_texts(items, policy)).push(Seq::empty()),
            SnippetModel::List(
                Seq::new(
                    items.len(),
                    |i: int| internal_text(slugs, flat_text(items[i], policy)),
                ),
            ),
        ),
{
    let ts = flat_texts(items, policy);
    assert forall|i: int| 0 <= i < ts.len() implies item_shaped(#[trigger] ts[i]) by {
        assert(ts[i] == flat_text(items[i], policy));
    }
    let run = list_lines(ts);
    let all = run.push(Seq::<char>::empty());
    let n = run.len() as int;
    lemma_list_text(items, policy);
    lemma_list_items(ts);
    lemma_unlines_push_empty(run);
    lemma_clean_push_empty(run);
    lemma_empty_line(all[n]);
    assert forall|k: int| 0 <= k < n implies list_line(#[trigger] all[k]) by {
        assert(all[k] == run[k]);
    }
    lemma_list_end(all, 1, n);
    let first = all[0];
    reveal_strlit("- ");
    reveal_strlit("> ");
    reveal_strlit(">");
    lemma_starts_with_char(first, "- "@);
    assert(first[0] == '-');
    lemma_trim_head(first);
    assert(run_at(first, 0) == 0);
    if starts_with(first, "> "@) {
        lemma_starts_with_char(first, "> "@);
    }
    assert(block_end(all, 0) == n);
    assert(all.subrange(0, n) =~= run);
    let held = items_of(run);
    assert(Seq::new(held.len(), |i: int| internal_text(slugs, unescaped_text(held[i])))
        =~= Seq::new(items.len(), |i: int| internal_text(slugs, flat_text(items[i], policy)))) by {
        assert forall|i: int| 0 <= i < ts.len() implies unescaped_text(#[trigger] held[i])
            == ts[i] by {
            lemma_item(ts[i]);
        }
    }
}

// ---------------------------------------------------------------------------
// Pages
// ---------------------------------------------------------------------------

/// Whether a node survives an export with the link policy `policy` and an
/// import: no line of its texts ends in a carriage return, what stands on one
/// line is one line, and a list holds texts alone.
pub open spec fn survives(node: NodeModel, policy: LinkPolicy) -> bool {
    match node {
        NodeModel::Heading { level, text } => plain_lines(rewritten(text, policy)),
        NodeModel::Paragraph { text } => plain_lines(rewritten(text, policy)),
        NodeModel::Text { text } => plain_lines(rewritten(text, policy)),
        NodeModel::List { items } => flat_list(items) && items.len() > 0 && (forall|i: int|
            0 <= i < items.len() ==> item_shaped(flat_text(#[trigger] items[i], policy))),
        NodeModel::Code { language, code } => plain_language(language) && plain_lines(code),
        NodeModel::Link { text, url } => link_shaped(text, link_target(url, policy)),
        NodeModel::Quote { text } => plain_lines(rewritten(text, policy)),
        NodeModel::Rewrite { language, search, replace, scope, is_method_pattern } =>
            rewrite_shaped(or_text(language, "rewrite"@), search, replace, scope),
        NodeModel::Unknown { typ, raw } => !contains_char(typ, '\n'),
    }
}

/// What a node is read back as: what it was, with its links as the two
/// directions leave them. A heading and a quote come back as texts behind their
/// marks, and an unknown snippet keeps its type alone.
pub open spec fn read_back(slugs: TextTable, node: NodeModel, policy: LinkPolicy) -> SnippetModel {
    match node {
        NodeModel::Heading { level, text } => SnippetModel::Text(
            internal_text(slugs, heading_marks(level) + rewritten(text, policy)),
        ),
        NodeModel::Paragraph { text } => SnippetModel::Text(
            internal_text(slugs, rewritten(text, policy)),
        ),
        NodeModel::Text { text } => SnippetModel::Text(
            internal_text(slugs, rewritten(text, policy)),
        ),
        NodeModel::List { items } => SnippetModel::List(
            Seq::new(items.len(), |i: int| internal_text(slugs, flat_text(items[i], policy))),
        ),
        NodeModel::Code { language, code } => SnippetModel::Code {
            language: language_named(or_empty(language)),
            code,
        },
        NodeModel::Link { text, url } => SnippetModel::Link {
            text,
            url: internal_target(slugs, link_target(url, policy)),
        },
        NodeModel::Quote { text } => SnippetModel::Text(
            internal_text(slugs, "> "@ + rewritten(text, policy)),
        ),
        NodeModel::Rewrite { language, search, replace, scope, is_method_pattern } =>
            SnippetModel::Rewrite {
            language: Some(or_text(language, "rewrite"@)),
            search: joined(lines_of(normalized(search)), "\n"@),
            replace: joined(lines_of(normalized(replace)), "\n"@),
            scope,
            is_method_pattern,
        },
        NodeModel::Unknown { typ, raw } => SnippetModel::Unknown { typ },
    }
}

/// The lines that a node is exported to.
pub open spec fn node_lines(node: NodeModel, policy: LinkPolicy) -> Seq<Seq<char>> {
    match node {
        NodeModel::Heading { level, text } => heading_lines(level, rewritten(text, policy)),
        NodeModel::Paragraph { text } => paragraph_lines(rewritten(text, policy)),
        NodeModel::Text { text } => paragraph_lines(rewritten(text, policy)),
        NodeModel::List { items } => list_lines(flat_texts(items, policy)).push(Seq::empty()),
        NodeModel::Code { language, code } => code_lines(language, code),
        NodeModel::Link { text, url } => seq![
            link_line(text, link_target(url, policy)),
            Seq::empty(),
        ],
        NodeModel::Quote { text } => quote_lines(rewritten(text, policy)),
        NodeModel::Rewrite { language, search, replace, scope, is_method_pattern } =>
            rewrite_lines_of(
            or_text(language, "rewrite"@),
            search,
            replace,
            scope,
            is_method_pattern,
        ),
        NodeModel::Unknown { typ, raw } => seq![unknown_line(typ), Seq::empty()],
    }
}

proof fn lemma_node_survives(slugs: TextTable, node: NodeModel, policy: LinkPolicy)
    requires
        survives(node, policy),
    ensures
        node_text(node, policy, BlockEscaping::Escape, Position::Snippet) == unlines(
            node_lines(node, policy),
        ),
        one_block(slugs, node_lines(node, policy), read_back(slugs, node, policy)),
{
    match node {
        NodeModel::Heading { level, text } => {
            headings_survive(slugs, level, rewritten(text, policy));
        },
        NodeModel::Paragraph { text } => {
            paragraphs_survive(slugs, rewritten(text, policy));
        },
        NodeModel::Text { text } => {
            paragraphs_survive(slugs, rewritten(text, policy));
        },
        NodeModel::List { items } => {
            lists_survive(slugs, items, policy);
        },
        NodeModel::Code { language, code } => {
            code_survives(slugs, language, code);
        },
        NodeModel::Link { text, url } => {
            links_survive(slugs, text, link_target(url, policy));
        },
        NodeModel::Quote { text } => {
            quotes_survive(slugs, rewritten(text, policy));
        },
        NodeModel::Rewrite { language, search, replace, scope, is_method_pattern } => {
            rewrites_survive(slugs, language, search, replace, scope, is_method_pattern);
        },
        NodeModel::Unknown { typ, raw } => {
            unknown_types_survive(slugs, typ);
        },
    }
}

/// The lines that nodes are exported to.
pub open spec fn nodes_lines(nodes: Seq<NodeModel>, policy: LinkPolicy) -> Seq<Seq<char>>
    decreases nodes.len(),
{
    if nodes.len() == 0 {
        Seq::empty()
    } else {
        nodes_lines(nodes.take(nodes.len() - 1), policy) + node_lines(
            nodes[nodes.len() - 1],
            policy,
        )
    }
}

proof fn lemma_nodes_survive(slugs: TextTable, nodes: Seq<NodeModel>, policy: LinkPolicy)
    requires
        forall|i: int| 0 <= i < nodes.len() ==> survives(#[trigger] nodes[i], policy),
    ensures
        nodes_text(nodes, policy, BlockEscaping::Escape, Position::Snippet) == unlines(
            nodes_lines(nodes, policy),
        ),
        clean_lines(nodes_lines(nodes, policy)),
        nodes_lines(nodes, policy).len() > 0 ==> nodes_lines(nodes, policy).last().len() == 0,
        settled(nodes_lines(nodes, policy), 0),
        snippets_from(slugs, nodes_lines(nodes, policy), 0) == Seq::new(
            nodes.len(),
            |i: int| read_back(slugs, nodes[i], policy),
        ),
    decreases nodes.len(),
{
    let all = nodes_lines(nodes, policy);
    if nodes.len() == 0 {
        reveal(snippets_from);
        assert(snippets_from(slugs, all, 0) =~= Seq::<SnippetModel>::empty());
    } else {
        let init = nodes.take(nodes.len() - 1);
        let node = nodes[nodes.len() - 1];
        let a = nodes_lines(init, policy);
        let b = node_lines(node, policy);
        assert forall|i: int| 0 <= i < init.len() implies survives(#[trigger] init[i], policy) by {
            assert(init[i] == nodes[i]);
        }
        lemma_nodes_survive(slugs, init, policy);
        lemma_node_survives(slugs, node, policy);
        lemma_one_block(slugs, b, read_back(slugs, node, policy));
        lemma_unlines_concat(a, b);
        lemma_snippets_concat(slugs, a, b, 0);
        assert forall|i: int| 0 <= i < all.len() implies clean_line(#[trigger] all[i]) by {
            if i < a.len() {
                assert(all[i] == a[i]);
            } else {
                assert(all[i] == b[i - a.len()]);
            }
        }
        assert(all.last() == b.last());
        assert(snippets_from(slugs, all, 0) =~= Seq::new(
            nodes.len(),
            |i: int| read_back(slugs, nodes[i], policy),
        ));
    }
}

/// The body of an exported page is read back node for node, where each of its
/// nodes survives.
pub proof fn pages_survive(slugs: TextTable, nodes: Seq<NodeModel>, policy: LinkPolicy)
    requires
        forall|i: int| 0 <= i < nodes.len() ==> survives(#[trigger] nodes[i], policy),
    ensures
        body_snippets(
            slugs,
            nodes_text(nodes, policy, BlockEscaping::Escape, Position::Snippet),
        ) == Seq::new(nodes.len(), |i: int| read_back(slugs, nodes[i], policy)),
{
    let ls = nodes_lines(nodes, policy);
    lemma_nodes_survive(slugs, nodes, policy);
    let none: Seq<char> = Seq::empty();
    lemma_lines_unlines(ls, none);
    assert(unlines(ls) + none =~= unlines(ls));
    assert(lines_of(none) =~= Seq::<Seq<char>>::empty());
    assert(ls + lines_of(none) =~= ls);
}

// ---------------------------------------------------------------------------
// Quoted values
// ---------------------------------------------------------------------------

proof fn lemma_matches_shift(s: Seq<char>, k: int, i: int, pat: Seq<char>)
    requires
        0 <= k <= s.len(),
        0 <= i,
    ensures
        matches_at(s, k + i, pat) == matches_at(s.skip(k), i, pat),
{
    if k + i + pat.len() <= s.len() {
        assert(s.subrange(k + i, k + i + pat.len()) =~= s.skip(k).subrange(i, i + pat.len()));
    }
}

proof fn lemma_replaced_shift(s: Seq<char>, k: int, i: int, pat: Seq<char>, with: Seq<char>)
    requires
        0 <= k <= s.len(),
        0 <= i,
        pat.len() > 0,
    ensures
        replaced_from(s, k + i, pat, with) == replaced_from(s.skip(k), i, pat, with),
    decreases s.len() - k - i,
{
    if k + i < s.len() {
        lemma_matches_shift(s, k, i, pat);
        if matches_at(s, k + i, pat) {
            lemma_replaced_shift(s, k, i + pat.len(), pat, with);
        } else {
            lemma_replaced_shift(s, k, i + 1, pat, with);
            assert(s.skip(k)[i] == s[k + i]);
        }
    }
}

/// What replacing does to the front of a text.
proof fn lemma_replaced_front(s: Seq<char>, pat: Seq<char>, with: Seq<char>)
    requires
        s.len() > 0,
        pat.len() > 0,
    ensures
        starts_with(s, pat) ==> replaced(s, pat, with) == with + replaced(
            s.skip(pat.len() as int),
            pat,
            with,
        ),
        !starts_with(s, pat) ==> replaced(s, pat, with) == seq![s[0]] + replaced(
            s.skip(1),
            pat,
            with,
        ),
{
    if starts_with(s, pat) {
        lemma_replaced_shift(s, pat.len() as int, 0, pat, with);
    } else {
        lemma_replaced_shift(s, 1, 0, pat, with);
    }
}

/// A text with its backslashes doubled.
spec fn doubled(s: Seq<char>) -> Seq<char>
    decreases s.len(),
{
    if s.len() == 0 {
        Seq::empty()
    } else if s[0] == '\\' {
        seq!['\\', '\\'] + doubled(s.skip(1))
    } else {
        seq![s[0]] + doubled(s.skip(1))
    }
}

/// A text with a backslash before each backslash and each quote.
spec fn guarded(s: Seq<char>) -> Seq<char>
    decreases s.len(),
{
    if s.len() == 0 {
        Seq::empty()
    } else if s[0] == '\\' {
        seq!['\\', '\\'] + guarded(s.skip(1))
    } else if s[0] == '"' {
        seq!['\\', '"'] + guarded(s.skip(1))
    } else {
        seq![s[0]] + guarded(s.skip(1))
    }
}

proof fn lemma_doubled(s: Seq<char>)
    ensures
        replaced(s, "\\"@, "\\\\"@) == doubled(s),
    decreases s.len(),
{
    reveal_strlit("\\");
    reveal_strlit("\\\\");
    if s.len() > 0 {
        lemma_doubled(s.skip(1));
        lemma_replaced_front(s, "\\"@, "\\\\"@);
        assert(s.subrange(0, 1) =~= seq![s[0]]);
        if s[0] == '\\' {
            assert(s.subrange(0, 1) =~= "\\"@);
            assert("\\\\"@ =~= seq!['\\', '\\']);
        } else if starts_with(s, "\\"@) {
            lemma_starts_with_char(s, "\\"@);
        }
    }
}

/// Replacing in a text that starts with characters that match nothing passes
/// over them.
proof fn lemma_replaced_two(a: char, b: char, rest: Seq<char>, pat: Seq<char>, with: Seq<char>)
    requires
        pat.len() > 0,
        !starts_with(seq![a, b] + rest, pat),
        !starts_with(seq![b] + rest, pat),
    ensures
        replaced(seq![a, b] + rest, pat, with) == seq![a, b] + replaced(rest, pat, with),
{
    let s = seq![a, b] + rest;
    lemma_replaced_front(s, pat, with);
    assert(s.skip(1) =~= seq![b] + rest);
    lemma_replaced_front(seq![b] + rest, pat, with);
    assert((seq![b] + rest).skip(1) =~= rest);
    assert(seq![a] + (seq![b] + replaced(rest, pat, with)) =~= seq![a, b] + replaced(
        rest,
        pat,
        with,
    ));
}

proof fn lemma_replaced_one(a: char, rest: Seq<char>, pat: Seq<char>, with: Seq<char>)
    requires
        pat.len() > 0,
        !starts_with(seq![a] + rest, pat),
    ensures
        replaced(seq![a] + rest, pat, with) == seq![a] + replaced(rest, pat, with),
{
    lemma_replaced_front(seq![a] + rest, pat, with);
    assert((seq![a] + rest).skip(1) =~= rest);
}

proof fn lemma_not_started(s: Seq<char>, pat: Seq<char>)
    requires
        pat.len() > 0,
        s.len() == 0 || s[0] != pat[0],
    ensures
        !starts_with(s, pat),
{
    if starts_with(s, pat) {
        lemma_starts_with_char(s, pat);
    }
}

proof fn lemma_guarded(s: Seq<char>)
    ensures
        replaced(doubled(s), "\""@, "\\\""@) == guarded(s),
    decreases s.len(),
{
    let q = "\""@;
    let w = "\\\""@;
    reveal_strlit("\"");
    reveal_strlit("\\\"");
    if s.len() > 0 {
        let rest = s.skip(1);
        lemma_guarded(rest);
        let d = doubled(rest);
        if s[0] == '\\' {
            lemma_not_started(seq!['\\', '\\'] + d, q);
            lemma_not_started(seq!['\\'] + d, q);
            lemma_replaced_two('\\', '\\', d, q, w);
        } else if s[0] == '"' {
            let x = seq!['"'] + d;
            assert(x.subrange(0, 1) =~= q);
            lemma_replaced_front(x, q, w);
            assert(x.skip(1) =~= d);
            assert(w =~= seq!['\\', '"']);
        } else {
            lemma_not_started(seq![s[0]] + d, q);
            lemma_replaced_one(s[0], d, q, w);
        }
    }
}

proof fn lemma_guarded_start(s: Seq<char>)
    ensures
        guarded(s).len() > 0 ==> guarded(s)[0] != '"',
{
}

proof fn lemma_unguarded(s: Seq<char>)
    ensures
        replaced(guarded(s), "\\\""@, "\""@) == doubled(s),
    decreases s.len(),
{
    let p = "\\\""@;
    let w = "\""@;
    reveal_strlit("\"");
    reveal_strlit("\\\"");
    if s.len() > 0 {
        let rest = s.skip(1);
        lemma_unguarded(rest);
        lemma_guarded_start(rest);
        let g = guarded(rest);
        if s[0] == '\\' {
            let x = seq!['\\', '\\'] + g;
            let y = seq!['\\'] + g;
            assert(x[1] == '\\');
            if starts_with(x, p) {
                lemma_starts_with_char(x, p);
            }
            if starts_with(y, p) {
                lemma_starts_with_char(y, p);
                assert(y[1] == g[0]);
            }
            lemma_replaced_two('\\', '\\', g, p, w);
        } else if s[0] == '"' {
            let x = seq!['\\', '"'] + g;
            assert(x.subrange(0, 2) =~= p);
            lemma_replaced_front(x, p, w);
            assert(x.skip(2) =~= g);
            assert(w =~= seq!['"']);
        } else {
            lemma_not_started(seq![s[0]] + g, p);
            lemma_replaced_one(s[0], g, p, w);
        }
    }
}

proof fn lemma_halved(s: Seq<char>)
    ensures
        replaced(doubled(s), "\\\\"@, "\\"@) == s,
    decreases s.len(),
{
    let p = "\\\\"@;
    let w = "\\"@;
    reveal_strlit("\\");
    reveal_strlit("\\\\");
    if s.len() > 0 {
        let rest = s.skip(1);
        lemma_halved(rest);
        let d = doubled(rest);
        assert(s =~= seq![s[0]] + rest);
        if s[0] == '\\' {
            let x = seq!['\\', '\\'] + d;
            assert(x.subrange(0, 2) =~= p);
            lemma_replaced_front(x, p, w);
            assert(x.skip(2) =~= d);
            assert(w =~= seq!['\\']);
        } else {
            lemma_not_started(seq![s[0]] + d, p);
            lemma_replaced_one(s[0], d, p, w);
        }
    } else {
        assert(replaced(doubled(s), p, w) =~= s);
    }
}

/// Taking the escapes from an escaped text gives the text, whatever it holds.
pub proof fn unescaping_inverts_escaping(s: Seq<char>)
    ensures
        yaml_unescaped(yaml_escaped(s)) == s,
{
    lemma_doubled(s);
    lemma_guarded(s);
    lemma_unguarded(s);
    lemma_halved(s);
}

proof fn lemma_guarded_chars(s: Seq<char>, c: char)
    requires
        !contains_char(s, c),
        c != '\\',
        c != '"',
    ensures
        !contains_char(guarded(s), c),
    decreases s.len(),
{
    if s.len() > 0 {
        let rest = s.skip(1);
        assert(!contains_char(rest, c)) by {
            if rest.contains(c) {
                let i = choose|i: int| 0 <= i < rest.len() && rest[i] == c;
                assert(s[i + 1] == c);
            }
        }
        lemma_guarded_chars(rest, c);
        lemma_no_char(s, c, 0);
        let g = guarded(s);
        let h = guarded(rest);
        if g.contains(c) {
            let i = choose|i: int| 0 <= i < g.len() && g[i] == c;
            let n = g.len() - h.len();
            if i >= n {
                assert(g[i] == h[i - n]);
                assert(h.contains(c));
            }
        }
    }
}

/// What escaping adds is backslashes alone.
proof fn lemma_escaped_chars(s: Seq<char>, c: char)
    requires
        !contains_char(s, c),
        c != '\\',
        c != '"',
    ensures
        !contains_char(yaml_escaped(s), c),
{
    lemma_doubled(s);
    lemma_guarded(s);
    lemma_guarded_chars(s, c);
}

proof fn lemma_quoted_chars(s: Seq<char>, c: char)
    requires
        !contains_char(s, c),
        c != '\\',
        c != '"',
    ensures
        !contains_char(yaml_quoted(s), c),
        yaml_quoted(s).len() >= 2,
        yaml_quoted(s)[0] == '"',
        yaml_quoted(s).last() == '"',
{
    reveal_strlit("\"");
    lemma_escaped_chars(s, c);
    let q = yaml_quoted(s);
    let e = yaml_escaped(s);
    if q.contains(c) {
        let i = choose|i: int| 0 <= i < q.len() && q[i] == c;
        if 0 < i < q.len() - 1 {
            assert(q[i] == e[i - 1]);
            assert(e.contains(c));
        }
    }
}

/// A quoted value reads as the text it quotes.
pub proof fn quoting_survives(s: Seq<char>)
    ensures
        yaml_string(yaml_quoted(s)) == s,
        trimmed(yaml_quoted(s)) == yaml_quoted(s),
{
    reveal_strlit("\"");
    let q = yaml_quoted(s);
    assert(q[0] == '"');
    assert(q.last() == '"');
    lemma_trim_head(q);
    assert(q.subrange(1, q.len() - 1) =~= yaml_escaped(s));
    unescaping_inverts_escaping(s);
}

// ---------------------------------------------------------------------------
// Front matter
// ---------------------------------------------------------------------------

/// Whether a tag survives: it is not empty, is one line, and holds no comma,
/// which parts the tags.
pub open spec fn tag_shaped(t: Seq<char>) -> bool {
    t.len() > 0 && !contains_char(t, '\n') && !contains_char(t, ',')
}

/// Whether the front matter of a page survives: its title is one line, its id is
/// a trimmed line, and its tags survive.
pub open spec fn header_shaped(page: PageModel) -> bool {
    &&& !contains_char(page.title, '\n')
    &&& !contains_char(page.id, '\n')
    &&& trimmed(page.id) == page.id
    &&& forall|i: int| 0 <= i < page.tags.len() ==> tag_shaped(#[trigger] page.tags[i])
}

/// Whether the update time of a page is written as one word, as
/// [`Timestamp::to_rfc3339`] does.
pub open spec fn time_shaped(page: PageModel) -> bool {
    written_time(page.updated_at) matches Some(t) ==> one_word(t)
}

/// The text of an update time, where there is one to write.
pub open spec fn written_time(updated_at: Option<Timestamp>) -> Option<Seq<char>> {
    match updated_at {
        Some(t) => time_text(t),
        None => None,
    }
}

/// What the front matter of a page says.
pub open spec fn header_of(page: PageModel) -> FrontmatterModel {
    FrontmatterModel {
        title: page.title,
        id: page.id,
        tags: page.tags,
        updated_at: written_time(page.updated_at),
    }
}

/// A line for the tags of a page, where it has some.
pub open spec fn tag_line(tags: Seq<Seq<char>>) -> Seq<Seq<char>> {
    if tags.len() == 0 {
        Seq::empty()
    } else {
        seq!["tags: ["@ + joined(all_yaml_quoted(tags), ", "@) + "]"@]
    }
}

/// A line for the update time of a page, where there is one to write.
pub open spec fn time_line(updated_at: Option<Timestamp>) -> Seq<Seq<char>> {
    match written_time(updated_at) {
        Some(t) => seq!["updated_at: "@ + t],
        None => Seq::empty(),
    }
}

/// The lines between the marks of the front matter of a page.
pub open spec fn header_lines(page: PageModel) -> Seq<Seq<char>> {
    seq!["title: "@ + yaml_quoted(page.title), "id: "@ + page.id] + tag_line(page.tags)
        + time_line(page.updated_at)
}

proof fn lemma_split_front(a: Seq<char>, rest: Seq<char>, c: char)
    requires
        !contains_char(a, c),
    ensures
        split_on(a + seq![c] + rest, c) == seq![a] + split_on(rest, c),
        split_on(a, c) == seq![a],
{
    let s = a + seq![c] + rest;
    let n = a.len() as int;
    assert forall|j: int| 0 <= j < n implies s[j] != c by {
        lemma_no_char(a, c, j);
        assert(s[j] == a[j]);
    }
    assert(s[n] == c);
    lemma_next_pos_is(s, 0, n, c);
    assert(s.subrange(0, n) =~= a);
    lemma_split_shift(s, n + 1, 0, c);
    assert(s.skip(n + 1) =~= rest);
    lemma_next_pos(a, 0, c);
    let k = next_pos(a, 0, c);
    if k < a.len() {
        lemma_no_char(a, c, k);
    }
    assert(a.subrange(0, a.len() as int) =~= a);
}

proof fn lemma_split_shift(s: Seq<char>, k: int, i: int, c: char)
    requires
        0 <= k <= s.len(),
        0 <= i,
        k + i <= s.len(),
    ensures
        split_from(s, k + i, c) == split_from(s.skip(k), i, c),
    decreases s.len() - k - i,
{
    let t = s.skip(k);
    lemma_next_pos_shift(s, k, i, c);
    lemma_next_pos(t, i, c);
    let n = next_pos(t, i, c);
    if n < t.len() {
        lemma_split_shift(s, k, n + 1, c);
        assert(s.subrange(k + i, k + n) =~= t.subrange(i, n));
    } else {
        assert(s.subrange(k + i, s.len() as int) =~= t.subrange(i, t.len() as int));
    }
}

proof fn lemma_joined_front(a: Seq<char>, rest: Seq<Seq<char>>, sep: Seq<char>)
    requires
        rest.len() > 0,
    ensures
        joined(seq![a] + rest, sep) == a + sep + joined(rest, sep),
    decreases rest.len(),
{
    let all = seq![a] + rest;
    if rest.len() == 1 {
        assert(all.drop_last() =~= seq![a]);
        assert(all.last() == rest[0]);
        assert(joined(seq![a], sep) == a);
    } else {
        assert(all.drop_last() =~= seq![a] + rest.drop_last());
        lemma_joined_front(a, rest.drop_last(), sep);
        assert(a + sep + joined(rest.drop_last(), sep) + sep + rest.last() =~= a + sep + (joined(
            rest.drop_last(),
            sep,
        ) + sep + rest.last()));
    }
}

/// Cutting joined values at the commas gives the values, with the space behind
/// each comma in front.
proof fn lemma_split_joined(pre: Seq<char>, qs: Seq<Seq<char>>)
    requires
        qs.len() > 0,
        !contains_char(pre, ','),
        forall|i: int| 0 <= i < qs.len() ==> !contains_char(#[trigger] qs[i], ','),
    ensures
        split_on(pre + joined(qs, ", "@), ',') == Seq::new(
            qs.len(),
            |i: int|
                if i == 0 {
                    pre + qs[0]
                } else {
                    " "@ + qs[i]
                },
        ),
    decreases qs.len(),
{
    reveal_strlit(", ");
    reveal_strlit(" ");
    let a = pre + qs[0];
    assert(!contains_char(a, ',')) by {
        if a.contains(',') {
            let i = choose|i: int| 0 <= i < a.len() && a[i] == ',';
            if i < pre.len() {
                assert(pre[i] == ',');
            } else {
                assert(qs[0][i - pre.len()] == ',');
            }
        }
    }
    let want = Seq::new(
        qs.len(),
        |i: int|
            if i == 0 {
                pre + qs[0]
            } else {
                " "@ + qs[i]
            },
    );
    if qs.len() == 1 {
        assert(qs =~= seq![qs[0]]);
        lemma_split_front(a, a, ',');
        assert(want =~= seq![a]);
    } else {
        let rest = qs.skip(1);
        assert(qs =~= seq![qs[0]] + rest);
        lemma_joined_front(qs[0], rest, ", "@);
        assert forall|i: int| 0 <= i < rest.len() implies !contains_char(
            #[trigger] rest[i],
            ',',
        ) by {
            assert(rest[i] == qs[i + 1]);
        }
        assert(!contains_char(" "@, ',')) by {
            assert(forall|i: int| 0 <= i < " "@.len() ==> " "@[i] != ',');
        }
        lemma_split_joined(" "@, rest);
        let tail = " "@ + joined(rest, ", "@);
        assert(pre + joined(qs, ", "@) =~= a + seq![','] + tail);
        lemma_split_front(a, tail, ',');
        let cut = split_on(tail, ',');
        assert(seq![a] + cut =~= want);
    }
}

/// Trimming takes the space in front of a quoted value.
proof fn lemma_trim_space(s: Seq<char>)
    requires
        s.len() > 0,
        !whitespace(s[0]),
        !whitespace(s.last()),
    ensures
        trimmed(" "@ + s) == s,
        trimmed(s) == s,
{
    reveal_strlit(" ");
    let x = " "@ + s;
    assert(x[0] == ' ');
    assert(x.skip(1) =~= s);
    reveal_with_fuel(trim_start, 2);
    lemma_trim_head(s);
    assert(trim_start(x) == trim_start(s));
}

proof fn lemma_tag_values(pre: bool, tags: Seq<Seq<char>>, parts: Seq<Seq<char>>)
    requires
        parts.len() == tags.len(),
        forall|i: int| 0 <= i < tags.len() ==> tag_shaped(#[trigger] tags[i]),
        forall|i: int|
            0 <= i < tags.len() ==> #[trigger] parts[i] == yaml_quoted(tags[i]) || parts[i] == " "@
                + yaml_quoted(tags[i]),
    ensures
        yaml_values(parts) == tags,
    decreases tags.len(),
{
    if tags.len() > 0 {
        let n = tags.len() - 1;
        let init = tags.drop_last();
        assert forall|i: int| 0 <= i < init.len() implies tag_shaped(#[trigger] init[i]) by {
            assert(init[i] == tags[i]);
        }
        assert forall|i: int| 0 <= i < init.len() implies #[trigger] parts.drop_last()[i]
            == yaml_quoted(init[i]) || parts.drop_last()[i] == " "@ + yaml_quoted(init[i]) by {
            assert(parts.drop_last()[i] == parts[i]);
        }
        lemma_tag_values(pre, init, parts.drop_last());
        let t = tags[n];
        assert(tag_shaped(t));
        lemma_quoted_chars(t, ',');
        lemma_trim_space(yaml_quoted(t));
        quoting_survives(t);
        assert(parts.last() == parts[n]);
        assert(trimmed(parts[n]) == yaml_quoted(t));
        assert(init.push(t) =~= tags);
    } else {
        assert(yaml_values(parts) =~= tags);
    }
}

/// The tags of a page, written as a bracketed list, are read back.
proof fn lemma_tags_survive(tags: Seq<Seq<char>>)
    requires
        tags.len() > 0,
        forall|i: int| 0 <= i < tags.len() ==> tag_shaped(#[trigger] tags[i]),
    ensures
        yaml_tags("["@ + joined(all_yaml_quoted(tags), ", "@) + "]"@) == tags,
{
    reveal_strlit("[");
    reveal_strlit("]");
    let qs = all_yaml_quoted(tags);
    let list = joined(qs, ", "@);
    let s = "["@ + list + "]"@;
    assert(s[0] == '[');
    assert(s.last() == ']');
    lemma_trim_head(s);
    assert(s.subrange(1, s.len() - 1) =~= list);
    assert forall|i: int| 0 <= i < qs.len() implies !contains_char(#[trigger] qs[i], ',') by {
        assert(tag_shaped(tags[i]));
        lemma_quoted_chars(tags[i], ',');
    }
    let none: Seq<char> = Seq::empty();
    lemma_split_joined(none, qs);
    assert(none + list =~= list);
    let parts = split_on(list, ',');
    assert forall|i: int| 0 <= i < tags.len() implies #[trigger] parts[i] == yaml_quoted(tags[i])
        || parts[i] == " "@ + yaml_quoted(tags[i]) by {
        assert(none + qs[0] =~= qs[0]);
    }
    lemma_tag_values(true, tags, parts);
}

proof fn lemma_title_line(fm: FrontmatterModel, title: Seq<char>)
    ensures
        frontmatter_line(fm, "title: "@ + yaml_quoted(title)) == (FrontmatterModel { title, ..fm }),
{
    reveal_strlit("title: ");
    reveal_strlit("title:");
    reveal_strlit(" ");
    reveal_strlit("\"");
    let q = yaml_quoted(title);
    let line = "title: "@ + q;
    assert(q[0] == '"');
    assert(q.last() == '"');
    assert(line[0] == 't');
    assert(line.last() == '"');
    lemma_trim_head(line);
    assert(line.subrange(0, 6) =~= "title:"@);
    assert(line.skip(6) =~= " "@ + q);
    lemma_trim_space(q);
    quoting_survives(title);
}

proof fn lemma_id_line(fm: FrontmatterModel, id: Seq<char>)
    requires
        trimmed(id) == id,
    ensures
        frontmatter_line(fm, "id: "@ + id) == (FrontmatterModel { id, ..fm }),
{
    reveal_strlit("id: ");
    reveal_strlit("id:");
    reveal_strlit("title:");
    reveal_strlit(" ");
    let line = "id: "@ + id;
    assert(line[0] == 'i');
    if id.len() == 0 {
        assert(line =~= "id: "@);
        assert(line.last() == ' ');
        assert(line.drop_last() =~= "id:"@);
        reveal_with_fuel(trim_end, 2);
        assert(trim_start(line) == line);
        assert("id:"@.last() == ':');
        assert(trimmed(line) == "id:"@);
        lemma_not_started("id:"@, "title:"@);
        assert("id:"@.subrange(0, 3) =~= "id:"@);
        assert("id:"@.skip(3) =~= id);
        assert(trimmed(id) =~= id);
    } else {
        lemma_trim_ends(id);
        assert(line.last() == id.last());
        lemma_trim_head(line);
        lemma_not_started(line, "title:"@);
        assert(line.subrange(0, 3) =~= "id:"@);
        assert(line.skip(3) =~= " "@ + id);
        lemma_trim_space(id);
    }
}

proof fn lemma_tags_line(fm: FrontmatterModel, tags: Seq<Seq<char>>)
    requires
        tags.len() > 0,
        forall|i: int| 0 <= i < tags.len() ==> tag_shaped(#[trigger] tags[i]),
    ensures
        frontmatter_line(fm, tag_line(tags)[0]) == (FrontmatterModel { tags, ..fm }),
{
    let list = joined(all_yaml_quoted(tags), ", "@);
    let line = "tags: ["@ + list + "]"@;
    let value = "["@ + list + "]"@;
    reveal_strlit("tags: [");
    reveal_strlit("tags:");
    reveal_strlit("title:");
    reveal_strlit("id:");
    reveal_strlit("updated_at:");
    reveal_strlit("[");
    reveal_strlit("]");
    reveal_strlit(" ");
    assert(line[0] == 't');
    assert(line[1] == 'a');
    assert(line.last() == ']');
    lemma_trim_head(line);
    if starts_with(line, "title:"@) {
        lemma_starts_with_char(line, "title:"@);
        assert("title:"@[1] == 'i');
    }
    lemma_not_started(line, "id:"@);
    lemma_not_started(line, "updated_at:"@);
    assert(line.subrange(0, 5) =~= "tags:"@);
    assert(line.skip(5) =~= " "@ + value);
    assert(value[0] == '[');
    assert(value.last() == ']');
    lemma_trim_space(value);
    lemma_tags_survive(tags);
}

proof fn lemma_time_line(fm: FrontmatterModel, t: Seq<char>)
    requires
        one_word(t),
    ensures
        frontmatter_line(fm, "updated_at: "@ + t) == (FrontmatterModel {
            updated_at: Some(t),
            ..fm
        }),
{
    let line = "updated_at: "@ + t;
    reveal_strlit("updated_at: ");
    reveal_strlit("updated_at:");
    reveal_strlit("title:");
    reveal_strlit("id:");
    reveal_strlit(" ");
    assert(line[0] == 'u');
    assert(!whitespace(t[0]));
    assert(!whitespace(t[t.len() - 1]));
    assert(line.last() == t.last());
    lemma_trim_head(line);
    lemma_not_started(line, "title:"@);
    lemma_not_started(line, "id:"@);
    assert(line.subrange(0, 11) =~= "updated_at:"@);
    assert(line.skip(11) =~= " "@ + t);
    lemma_trim_space(t);
}

proof fn lemma_header_lines(page: PageModel)
    requires
        header_shaped(page),
        time_shaped(page),
    ensures
        frontmatter_lines(header_lines(page)) == header_of(page),
{
    let l1 = "title: "@ + yaml_quoted(page.title);
    let l2 = "id: "@ + page.id;
    let e: Seq<Seq<char>> = Seq::empty();
    let f0 = frontmatter_lines(e);
    let one = seq![l1];
    let two = seq![l1, l2];
    let tags = tag_line(page.tags);
    let three = two + tags;
    let all = header_lines(page);
    assert(one.drop_last() =~= e);
    assert(two.drop_last() =~= one);
    lemma_title_line(f0, page.title);
    let f1 = frontmatter_lines(one);
    lemma_id_line(f1, page.id);
    let f2 = frontmatter_lines(two);
    assert(f2 =~= FrontmatterModel {
        title: page.title,
        id: page.id,
        tags: Seq::empty(),
        updated_at: None,
    });
    if page.tags.len() == 0 {
        assert(three =~= two);
        assert(page.tags =~= Seq::<Seq<char>>::empty());
    } else {
        lemma_tags_line(f2, page.tags);
        assert(three.drop_last() =~= two);
        assert(three.last() == tags[0]);
    }
    let f3 = frontmatter_lines(three);
    match written_time(page.updated_at) {
        Some(t) => {
            lemma_time_line(f3, t);
            assert(all.drop_last() =~= three);
            assert(all.last() == "updated_at: "@ + t);
        },
        None => {
            assert(all =~= three);
        },
    }
}

/// Whether lines can stand between the marks of a front matter block: none is
/// empty, and none could be taken for a mark.
spec fn header_line_shaped(l: Seq<char>) -> bool {
    clean_line(l) && l.len() > 0 && l[0] != '-'
}

proof fn lemma_header_shape(page: PageModel)
    requires
        header_shaped(page),
        time_shaped(page),
    ensures
        header_lines(page).len() >= 2,
        forall|i: int|
            0 <= i < header_lines(page).len() ==> header_line_shaped(
                #[trigger] header_lines(page)[i],
            ),
{
    let all = header_lines(page);
    reveal_strlit("title: ");
    reveal_strlit("id: ");
    reveal_strlit("tags: [");
    reveal_strlit("]");
    reveal_strlit("updated_at: ");
    reveal_strlit("\"");
    let l1 = "title: "@ + yaml_quoted(page.title);
    let l2 = "id: "@ + page.id;
    assert(header_line_shaped(l1)) by {
        lemma_quoted_chars(page.title, '\n');
        let q = yaml_quoted(page.title);
        assert(clean_line("title: "@)) by {
            assert(forall|i: int|
                0 <= i < "title: "@.len() ==> "title: "@[i] != '\n' && "title: "@[i] != '\r');
        }
        lemma_clean_concat("title: "@, q);
        assert(l1[0] == 't');
    }
    assert(header_line_shaped(l2)) by {
        assert(clean_line("id: "@)) by {
            assert(forall|i: int|
                0 <= i < "id: "@.len() ==> "id: "@[i] != '\n' && "id: "@[i] != '\r');
        }
        if page.id.len() > 0 {
            lemma_trim_ends(page.id);
        }
        lemma_clean_concat("id: "@, page.id);
        assert(l2[0] == 'i');
    }
    if page.tags.len() > 0 {
        let list = joined(all_yaml_quoted(page.tags), ", "@);
        let l3 = "tags: ["@ + list + "]"@;
        assert(header_line_shaped(l3)) by {
            lemma_joined_chars(page.tags);
            assert(!contains_char("tags: ["@, '\n')) by {
                assert(forall|i: int| 0 <= i < "tags: ["@.len() ==> "tags: ["@[i] != '\n');
            }
            assert(clean_line("]"@)) by {
                assert(forall|i: int| 0 <= i < "]"@.len() ==> "]"@[i] != '\n' && "]"@[i] != '\r');
            }
            lemma_clean_parts("tags: ["@, list, "]"@);
            assert(l3[0] == 't');
        }
    }
    if let Some(t) = written_time(page.updated_at) {
        let l4 = "updated_at: "@ + t;
        assert(header_line_shaped(l4)) by {
            assert(clean_line("updated_at: "@)) by {
                assert(forall|i: int|
                    0 <= i < "updated_at: "@.len() ==> "updated_at: "@[i] != '\n'
                        && "updated_at: "@[i] != '\r');
            }
            assert(clean_line(t)) by {
                if t.contains('\n') {
                    let i = choose|i: int| 0 <= i < t.len() && t[i] == '\n';
                    assert(whitespace(t[i]));
                }
                assert(!whitespace(t[t.len() - 1]));
            }
            lemma_clean_concat("updated_at: "@, t);
            assert(l4[0] == 'u');
        }
    }
    let tags = tag_line(page.tags);
    assert forall|i: int| 0 <= i < all.len() implies header_line_shaped(#[trigger] all[i]) by {
        if i == 0 {
            assert(all[i] == l1);
        } else if i == 1 {
            assert(all[i] == l2);
        } else if i < 2 + tags.len() {
            assert(all[i] == tags[i - 2]);
        } else {
            assert(all[i] == time_line(page.updated_at)[i - 2 - tags.len()]);
        }
    }
}

proof fn lemma_joined_chars(tags: Seq<Seq<char>>)
    requires
        forall|i: int| 0 <= i < tags.len() ==> tag_shaped(#[trigger] tags[i]),
    ensures
        !contains_char(joined(all_yaml_quoted(tags), ", "@), '\n'),
    decreases tags.len(),
{
    reveal_strlit(", ");
    let qs = all_yaml_quoted(tags);
    let j = joined(qs, ", "@);
    if tags.len() > 0 {
        let init = tags.drop_last();
        assert forall|i: int| 0 <= i < init.len() implies tag_shaped(#[trigger] init[i]) by {
            assert(init[i] == tags[i]);
        }
        lemma_joined_chars(init);
        assert(qs.drop_last() =~= all_yaml_quoted(init));
        assert(tag_shaped(tags[tags.len() - 1]));
        lemma_quoted_chars(tags.last(), '\n');
        if j.contains('\n') {
            let i = choose|i: int| 0 <= i < j.len() && j[i] == '\n';
            if tags.len() == 1 {
                assert(j == qs[0]);
                assert(qs[0].contains('\n'));
            } else {
                let before = joined(qs.drop_last(), ", "@);
                if i < before.len() {
                    assert(before[i] == '\n');
                    assert(before.contains('\n'));
                } else if i >= before.len() + 2 {
                    assert(qs.last()[i - before.len() - 2] == '\n');
                    assert(qs.last().contains('\n'));
                }
            }
        }
    }
}

/// Behind a line feed within header lines comes no mark.
proof fn lemma_no_mark(hl: Seq<Seq<char>>, j: int)
    requires
        forall|i: int| 0 <= i < hl.len() ==> header_line_shaped(#[trigger] hl[i]),
        0 <= j < unlines(hl).len() - 1,
        unlines(hl)[j] == '\n',
    ensures
        unlines(hl)[j + 1] != '-',
    decreases hl.len(),
{
    reveal_strlit("\n");
    let init = hl.drop_last();
    let last = hl.last();
    let u = unlines(init);
    let all = unlines(hl);
    assert(header_line_shaped(hl[hl.len() - 1]));
    if j < u.len() - 1 {
        assert forall|i: int| 0 <= i < init.len() implies header_line_shaped(
            #[trigger] init[i],
        ) by {
            assert(init[i] == hl[i]);
        }
        assert(all[j] == u[j]);
        assert(all[j + 1] == u[j + 1]);
        lemma_no_mark(init, j);
    } else if j == u.len() - 1 {
        assert(all[j + 1] == last[0]);
    } else {
        assert(all[j] == last[j - u.len()]);
        lemma_no_char(last, '\n', j - u.len());
    }
}

/// The front matter block of an exported page ends where its lines do.
proof fn lemma_frontmatter_end(hl: Seq<Seq<char>>, body: Seq<char>)
    requires
        hl.len() > 0,
        forall|i: int| 0 <= i < hl.len() ==> header_line_shaped(#[trigger] hl[i]),
    ensures
        find_from(unlines(hl) + "---\n\n"@ + body, 0, "\n---\n"@) == Some(
            unlines(hl).len() - 1,
        ),
{
    reveal_strlit("\n---\n");
    reveal_strlit("---\n\n");
    reveal_strlit("\n");
    let u = unlines(hl);
    let s = u + "---\n\n"@ + body;
    let k = u.len() - 1;
    let pat = "\n---\n"@;
    assert(u.last() == '\n');
    assert(s.subrange(k, k + 5) =~= pat);
    assert forall|j: int| 0 <= j < k implies !#[trigger] matches_at(s, j, pat) by {
        if matches_at(s, j, pat) {
            assert(s.subrange(j, j + 5)[0] == s[j]);
            assert(s.subrange(j, j + 5)[1] == s[j + 1]);
            assert(s[j] == u[j]);
            assert(s[j + 1] == u[j + 1]);
            lemma_no_mark(hl, j);
        }
    }
    lemma_find_is(s, 0, k, pat);
}

proof fn lemma_header_text(page: PageModel)
    ensures
        frontmatter_text(page) == "---\n"@ + unlines(header_lines(page)) + "---\n\n"@,
{
    let l1 = "title: "@ + yaml_quoted(page.title);
    let l2 = "id: "@ + page.id;
    let two = seq![l1, l2];
    let tags = tag_line(page.tags);
    let time = time_line(page.updated_at);
    lemma_unlines_concat(two + tags, time);
    lemma_unlines_concat(two, tags);
    assert(two =~= seq![l1] + seq![l2]);
    lemma_unlines_concat(seq![l1], seq![l2]);
    lemma_unlines_one(l1);
    lemma_unlines_one(l2);
    assert(unlines(tags) =~= tags_line(page.tags)) by {
        if page.tags.len() > 0 {
            let list = joined(all_yaml_quoted(page.tags), ", "@);
            let l3 = "tags: ["@ + list + "]"@;
            lemma_unlines_one(l3);
            reveal_strlit("]\n");
            reveal_strlit("]");
            reveal_strlit("\n");
            assert("]\n"@ =~= "]"@ + "\n"@);
        }
    }
    assert(unlines(time) =~= updated_line(page.updated_at)) by {
        if let Some(t) = written_time(page.updated_at) {
            lemma_unlines_one("updated_at: "@ + t);
        }
    }
    assert(frontmatter_text(page) =~= "---\n"@ + unlines(header_lines(page)) + "---\n\n"@);
}

/// The front matter of an exported page says on import what the page said, and
/// what follows it is the body behind an empty line. An update time that was
/// read from a text is the same time again.
pub proof fn front_matter_survives(page: PageModel, body: Seq<char>)
    requires
        header_shaped(page),
        time_shaped(page),
    ensures
        frontmatter_of(frontmatter_text(page) + body) == Some(header_of(page)),
        body_of(frontmatter_text(page) + body) == "\n"@ + body,
        page.updated_at matches Some(t) ==> t.readable() ==> (header_of(
            page,
        ).updated_at matches Some(x) && instant_of(x) == Some(t)),
{
    let hl = header_lines(page);
    let u = unlines(hl);
    let s = frontmatter_text(page) + body;
    let after = u + "---\n\n"@ + body;
    lemma_header_text(page);
    lemma_header_shape(page);
    lemma_frontmatter_end(hl, body);
    lemma_header_lines(page);
    reveal_strlit("---\n");
    reveal_strlit("---\n\n");
    reveal_strlit("\n");
    assert(s =~= "---\n"@ + after);
    assert(s[0] == '-');
    assert(without_bom(s) == s);
    assert(s.subrange(0, 4) =~= "---\n"@);
    assert(s.skip(4) =~= after);
    let k = u.len() - 1;
    assert(clean_lines(hl)) by {
        assert forall|i: int| 0 <= i < hl.len() implies clean_line(#[trigger] hl[i]) by {
            assert(header_line_shaped(hl[i]));
        }
    }
    lemma_joined_unlines(hl);
    assert(header_line_shaped(hl[hl.len() - 1]));
    lemma_lines_joined(hl);
    let j = joined(hl, "\n"@);
    assert(u == j + "\n"@);
    assert(after.take(k) =~= j);
    assert(after.skip(k + 5) =~= "\n"@ + body);
}

/// An empty line in front of a body changes nothing of it.
proof fn lemma_leading_line(slugs: TextTable, body: Seq<char>)
    ensures
        body_snippets(slugs, "\n"@ + body) == body_snippets(slugs, body),
{
    let e: Seq<char> = Seq::empty();
    let ls = lines_of(body);
    lemma_lines_line(e, body);
    assert(e + "\n"@ + body =~= "\n"@ + body);
    let all = seq![e] + ls;
    lemma_empty_line(all[0]);
    lemma_snippets_step(slugs, all, 0);
    lemma_snippets_shift(slugs, all, 1, 0);
    assert(all.skip(1) =~= ls);
    assert(block_end(all, 0) == 1);
    assert(block_snippets(slugs, all, 0) + snippets_from(slugs, all, 1) =~= snippets_from(
        slugs,
        all,
        1,
    ));
}

/// An exported page is imported as what it was: its front matter, and its body
/// node for node.
pub proof fn exported_pages_are_imported(
    c: Catalog,
    slugs: TextTable,
    files: TextTable,
    page: PageModel,
)
    requires
        header_shaped(page),
        time_shaped(page),
        forall|i: int|
            0 <= i < page.content.len() ==> survives(
                #[trigger] page.content[i],
                export_policy(export_resolver(c, slugs)),
            ),
    ensures
        ({
            let policy = export_policy(export_resolver(c, slugs));
            let file = frontmatter_text(page) + exported_body(c, slugs, page.content);
            &&& frontmatter_of(file) == Some(header_of(page))
            &&& body_snippets(files, body_of(file)) == Seq::new(
                page.content.len(),
                |i: int| read_back(files, page.content[i], policy),
            )
        }),
{
    let policy = export_policy(export_resolver(c, slugs));
    let body = exported_body(c, slugs, page.content);
    front_matter_survives(page, body);
    lemma_leading_line(files, body);
    pages_survive(files, page.content, policy);
}

/// A link to a page comes back as a link to that page, where the exported files
/// are known by the names they were given.
pub proof fn page_links_are_imported(
    m: IndexModel,
    files: TextTable,
    id: Seq<char>,
)
    requires
        m.wf(),
        m.pages.contains_key(id),
        trimmed(id) == id,
        !m.pages.contains_key("page:"@ + id),
        looked_up(files, slug_map_of(m.pages, m.order).slugs[id] + ".md"@) == Some(id),
    ensures
        internal_target(
            files,
            link_target(
                "page:"@ + id,
                export_policy(export_resolver(m.catalog(), slug_map_of(m.pages, m.order).slugs)),
            ),
        ) == "page:"@ + id,
{
    let c = m.catalog();
    let slugs = slug_map_of(m.pages, m.order).slugs;
    let target = "page:"@ + id;
    reveal_strlit("page:");
    reveal_strlit(".md");
    lemma_slugs_cover(m, id);
    let slug = slugs[id];
    let file = slug + ".md"@;
    assert(file.subrange(slug.len() as int, file.len() as int) =~= ".md"@);
    assert(target[0] == 'p');
    if id.len() == 0 {
        assert(target =~= "page:"@);
        assert(target.last() == ':');
    } else {
        lemma_trim_ends(id);
        assert(target.last() == id.last());
    }
    lemma_trim_head(target);
    assert(target.subrange(0, 5) =~= "page:"@);
    assert(target.skip(5) =~= id);
    assert(named_page(c, target) == Some(id));
    assert(classified(c, target) == TargetModel::InternalPage(id));
    assert(looked_up(slugs, id) == Some(slug));
}

} // verus!
