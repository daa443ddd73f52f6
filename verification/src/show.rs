//! Showing one page: finding it by its title, its text with or without colours,
//! and its links.

use crate::highlight::{
    line_tokens, str_opt_view, token_models, tokenize_code_line, CodeToken, TokenModel,
};
use crate::index::{classified, resolved_loosely, IndexModel, KnowledgeBaseIndex};
use crate::inline::{inline_elements, inline_models, parse_inline, InlineElement, InlineModel};
use crate::model::{
    item_views, lemma_list_view, node_views, LinkTargetKind, Node, NodeModel, Page, PageModel,
    ResolutionModel, TargetModel, TitleResolution,
};
use crate::number::{decimal, push_decimal};
use crate::render::{display_text, render_page_to_text};
use crate::text::{
    a_prefix_is_stripped, chars_of, copy_of, is_whitespace, join, joined, lemma_concat, lines,
    lines_of, lowercase, opt_view, starts_with, string_of, strip_prefix, text_starts_with,
    to_lowercase, trim, trim_end, trimmed, views, without_prefix,
};
use crate::time::rfc3339_text;
use crate::util::{fault_message, has_path, holds_path, located, AttachmentFault};
use vstd::prelude::*;

verus! {

// ---------------------------------------------------------------------------
// Finding a page
// ---------------------------------------------------------------------------

/// How a page is named among others: by its title and id.
pub open spec fn named_page_text(m: IndexModel, id: Seq<char>) -> Seq<char> {
    if m.pages.contains_key(id) {
        m.pages[id].title + " ("@ + m.pages[id].id + ")"@
    } else {
        id
    }
}

/// The first ten of some pages, each named.
pub open spec fn sample(m: IndexModel, ids: Seq<Seq<char>>) -> Seq<Seq<char>> {
    Seq::new(
        if ids.len() < 10 {
            ids.len()
        } else {
            10
        },
        |i: int| named_page_text(m, ids[i]),
    )
}

/// The page that a title leads to, or why there is none.
pub open spec fn found_page(m: IndexModel, title: Seq<char>) -> Result<Seq<char>, Seq<char>> {
    match resolved_loosely(m, title) {
        ResolutionModel::Unique(id) => Ok(id),
        ResolutionModel::NotFound => Err("no page found with title matching `"@ + title + "`"@),
        ResolutionModel::Ambiguous(ids) => Err(
            "title match is ambiguous ("@ + decimal(ids.len()) + " matches): "@ + joined(
                sample(m, ids),
                ", "@,
            ),
        ),
    }
}

pub open spec fn text_result(r: Result<String, String>) -> Result<Seq<char>, Seq<char>> {
    match r {
        Ok(s) => Ok(s@),
        Err(s) => Err(s@),
    }
}

fn name_page(index: &KnowledgeBaseIndex, id: &str) -> (name: String)
    requires
        index.wf(),
    ensures
        name@ == named_page_text(index@, id@),
{
    match index.page_meta(id) {
        Some(meta) => {
            let mut out = copy_of(meta.title.as_str());
            out.push_str(" (");
            out.push_str(meta.id.as_str());
            out.push_str(")");
            assert(out@ =~= named_page_text(index@, id@));
            out
        },
        None => copy_of(id),
    }
}

/// The page that a title leads to, or why there is none.
pub fn find_page_by_title(index: &KnowledgeBaseIndex, title: &str) -> (found: Result<
    String,
    String,
>)
    requires
        index.wf(),
    ensures
        text_result(found) == found_page(index@, title@),
{
    match index.resolve_page_id_by_title(title) {
        TitleResolution::Unique(id) => Ok(id),
        TitleResolution::NotFound => {
            let mut out = copy_of("no page found with title matching `");
            out.push_str(title);
            out.push_str("`");
            assert(out@ =~= "no page found with title matching `"@ + title@ + "`"@);
            Err(out)
        },
        TitleResolution::Ambiguous(ids) => {
            let ghost all = sample(index@, views(ids@));
            let count: usize = if ids.len() < 10 {
                ids.len()
            } else {
                10
            };
            let mut names: Vec<String> = Vec::new();
            let mut i: usize = 0;
            while i < count
                invariant
                    i <= count <= ids@.len(),
                    index.wf(),
                    names@.len() == i,
                    forall|k: int|
                        0 <= k < i ==> (#[trigger] names@[k])@ == named_page_text(
                            index@,
                            ids@[k]@,
                        ),
                decreases count - i,
            {
                names.push(name_page(index, ids[i].as_str()));
                i += 1;
            }
            assert(views(names@) =~= all);
            let mut out = copy_of("title match is ambiguous (");
            push_decimal(&mut out, ids.len());
            out.push_str(" matches): ");
            out.push_str(join(&names, ", ").as_str());
            assert(out@ =~= "title match is ambiguous ("@ + decimal(views(ids@).len())
                + " matches): "@ + joined(all, ", "@));
            Err(out)
        },
    }
}

// ---------------------------------------------------------------------------
// The links of a page
// ---------------------------------------------------------------------------

pub open spec fn pair_views(v: Seq<(String, String)>) -> Seq<(Seq<char>, Seq<char>)> {
    Seq::new(v.len(), |i: int| (v[i].0@, v[i].1@))
}

/// The links among some elements: their labels and targets.
pub open spec fn element_links(elements: Seq<InlineModel>) -> Seq<(Seq<char>, Seq<char>)>
    decreases elements.len(),
{
    if elements.len() == 0 {
        Seq::empty()
    } else {
        let before = element_links(elements.drop_last());
        match elements.last() {
            InlineModel::Link { label, target } => before.push((label, target)),
            InlineModel::WikiLink { text } => before.push((text, text)),
            _ => before,
        }
    }
}

/// The links of a node.
pub open spec fn node_links(node: NodeModel) -> Seq<(Seq<char>, Seq<char>)>
    decreases node,
{
    match node {
        NodeModel::Link { text, url } => seq![(text, url)],
        NodeModel::Paragraph { text } => element_links(inline_elements(text)),
        NodeModel::Text { text } => element_links(inline_elements(text)),
        NodeModel::Quote { text } => element_links(inline_elements(text)),
        NodeModel::Heading { level, text } => element_links(inline_elements(text)),
        NodeModel::List { items } => item_links(items),
        _ => Seq::empty(),
    }
}

pub open spec fn item_links(items: Seq<Seq<NodeModel>>) -> Seq<(Seq<char>, Seq<char>)>
    decreases items,
{
    if items.len() == 0 {
        Seq::empty()
    } else {
        item_links(items.take(items.len() - 1)) + page_links(items[items.len() - 1])
    }
}

/// The links of some nodes, in order.
pub open spec fn page_links(nodes: Seq<NodeModel>) -> Seq<(Seq<char>, Seq<char>)>
    decreases nodes,
{
    if nodes.len() == 0 {
        Seq::empty()
    } else {
        page_links(nodes.take(nodes.len() - 1)) + node_links(nodes[nodes.len() - 1])
    }
}

fn push_pair(out: &mut Vec<(String, String)>, label: &str, target: &str)
    ensures
        pair_views(final(out)@) == pair_views(old(out)@).push((label@, target@)),
{
    out.push((copy_of(label), copy_of(target)));
    assert(pair_views(out@) =~= pair_views(old(out)@).push((label@, target@)));
}

fn collect_inline_links(text: &str, out: &mut Vec<(String, String)>)
    ensures
        pair_views(final(out)@) == pair_views(old(out)@) + element_links(inline_elements(text@)),
{
    let elements = parse_inline(text);
    let ghost all = inline_models(elements@);
    let ghost start = pair_views(out@);
    let mut i: usize = 0;
    assert(all.take(0) =~= Seq::<InlineModel>::empty());
    assert(start + element_links(all.take(0)) =~= start);
    while i < elements.len()
        invariant
            i <= elements@.len(),
            all == inline_models(elements@),
            pair_views(out@) == start + element_links(all.take(i as int)),
        decreases elements.len() - i,
    {
        assert(all.take(i as int + 1).drop_last() =~= all.take(i as int));
        assert(all.take(i as int + 1).last() == elements@[i as int]@);
        match &elements[i] {
            InlineElement::Link { label, target } => {
                push_pair(out, label.as_str(), target.as_str());
            },
            InlineElement::WikiLink { text } => {
                push_pair(out, text.as_str(), text.as_str());
            },
            _ => {},
        }
        i += 1;
        assert(pair_views(out@) =~= start + element_links(all.take(i as int)));
    }
    assert(all.take(i as int) =~= all);
}

fn collect_node_links(node: &Node, out: &mut Vec<(String, String)>)
    ensures
        pair_views(final(out)@) == pair_views(old(out)@) + node_links(node@),
    decreases node,
{
    let ghost before = pair_views(out@);
    match node {
        Node::Link { text, url } => {
            push_pair(out, text.as_str(), url.as_str());
            assert(pair_views(out@) =~= before + seq![(text@, url@)]);
        },
        Node::Paragraph { text } => collect_inline_links(text.as_str(), out),
        Node::Text { text } => collect_inline_links(text.as_str(), out),
        Node::Quote { text } => collect_inline_links(text.as_str(), out),
        Node::Heading { text, .. } => collect_inline_links(text.as_str(), out),
        Node::List { items } => {
            let ghost all = item_views(items@);
            let mut i: usize = 0;
            proof {
                lemma_list_view(*node);
                assert(all.take(0) =~= Seq::<Seq<NodeModel>>::empty());
                assert(before + item_links(all.take(0)) =~= before);
            }
            while i < items.len()
                invariant
                    i <= items@.len(),
                    all == item_views(items@),
                    *node == (Node::List { items: *items }),
                    pair_views(out@) == before + item_links(all.take(i as int)),
                decreases items.len() - i,
            {
                proof {
                    assert(node->items == *items);
                    assert(decreases_to!(*node => node->items));
                    assert(decreases_to!(*items => items@));
                    assert(decreases_to!(items@ => items@[i as int]));
                    let next = all.take(i as int + 1);
                    assert(next.take(next.len() - 1) =~= all.take(i as int));
                    assert(next[next.len() - 1] == node_views(items@[i as int]@));
                    lemma_concat(
                        before,
                        item_links(all.take(i as int)),
                        page_links(node_views(items@[i as int]@)),
                    );
                }
                collect_links_into(&items[i], out);
                i += 1;
            }
            assert(all.take(i as int) =~= all);
        },
        _ => {
            assert(before + Seq::<(Seq<char>, Seq<char>)>::empty() =~= before);
        },
    }
}

fn collect_links_into(nodes: &Vec<Node>, out: &mut Vec<(String, String)>)
    ensures
        pair_views(final(out)@) == pair_views(old(out)@) + page_links(node_views(nodes@)),
    decreases nodes,
{
    let ghost all = node_views(nodes@);
    let ghost before = pair_views(out@);
    let mut i: usize = 0;
    proof {
        assert(all.take(0) =~= Seq::<NodeModel>::empty());
        assert(before + page_links(all.take(0)) =~= before);
    }
    while i < nodes.len()
        invariant
            i <= nodes@.len(),
            all == node_views(nodes@),
            pair_views(out@) == before + page_links(all.take(i as int)),
        decreases nodes.len() - i,
    {
        proof {
            assert(decreases_to!(*nodes => nodes@));
            assert(decreases_to!(nodes@ => nodes@[i as int]));
            let next = all.take(i as int + 1);
            assert(next.take(next.len() - 1) =~= all.take(i as int));
            assert(next[next.len() - 1] == nodes@[i as int]@);
            lemma_concat(
                before,
                page_links(all.take(i as int)),
                node_links(nodes@[i as int]@),
            );
        }
        collect_node_links(&nodes[i], out);
        i += 1;
    }
    assert(all.take(i as int) =~= all);
}

/// The links of some nodes, each with its label and target, in order.
pub fn collect_page_links(nodes: &Vec<Node>) -> (out: Vec<(String, String)>)
    ensures
        pair_views(out@) == page_links(node_views(nodes@)),
{
    let mut out: Vec<(String, String)> = Vec::new();
    collect_links_into(nodes, &mut out);
    assert(pair_views(out@) =~= page_links(node_views(nodes@)));
    out
}

/// What a link leads to.
pub open spec fn link_kind(m: IndexModel, target: Seq<char>, existing: Seq<Seq<char>>) -> Seq<char> {
    match classified(m.catalog(), target) {
        TargetModel::InternalPage(id) => "internal:"@ + id,
        TargetModel::AttachmentPath(_) => match located(m.root, target) {
            Ok(path) => "attachment:"@ + path + if holds_path(existing, path) {
                Seq::empty()
            } else {
                " (missing)"@
            },
            Err(fault) => "attachment-error:"@ + fault_message(fault),
        },
        TargetModel::ExternalUrl(url) => "external:"@ + url,
        TargetModel::Unknown(raw) => "unknown:"@ + raw,
    }
}

/// The rows of some links.
pub open spec fn link_rows(
    m: IndexModel,
    links: Seq<(Seq<char>, Seq<char>)>,
    existing: Seq<Seq<char>>,
) -> Seq<char>
    decreases links.len(),
{
    if links.len() == 0 {
        Seq::empty()
    } else {
        link_rows(m, links.drop_last(), existing) + ("  ["@ + decimal(links.len()) + "] "@
            + links.last().0 + " -> "@ + link_kind(m, links.last().1, existing) + "\n"@)
    }
}

/// The links of a page, below its text.
pub open spec fn links_section(
    m: IndexModel,
    links: Seq<(Seq<char>, Seq<char>)>,
    existing: Seq<Seq<char>>,
) -> Seq<char> {
    "\nresolved links:\n"@ + if links.len() == 0 {
        "  <none>\n"@
    } else {
        link_rows(m, links, existing)
    }
}

fn prefixed(prefix: &str, text: &str) -> (out: String)
    ensures
        out@ == prefix@ + text@,
{
    let mut out = copy_of(prefix);
    out.push_str(text);
    out
}

/// What a link leads to.
pub fn describe_link(index: &KnowledgeBaseIndex, target: &str, existing: &Vec<String>) -> (kind: String)
    requires
        index.wf(),
    ensures
        kind@ == link_kind(index@, target@, views(existing@)),
{
    match index.classify_link_target(target) {
        LinkTargetKind::InternalPage(id) => prefixed("internal:", id.as_str()),
        LinkTargetKind::AttachmentPath(_) => {
            let resolver = index.attachment_resolver();
            let probe = |path: &str| -> (there: bool)
                ensures
                    there == holds_path(views(existing@), path@),
                { has_path(existing, path) };
            match resolver.resolve(target, probe) {
                Ok(resolved) => {
                    let mut out = prefixed("attachment:", resolved.path.as_str());
                    if !resolved.exists {
                        out.push_str(" (missing)");
                    }
                    assert(out@ =~= link_kind(index@, target@, views(existing@)));
                    out
                },
                Err(e) => {
                    let text = e.message();
                    prefixed("attachment-error:", text.as_str())
                },
            }
        },
        LinkTargetKind::ExternalUrl(url) => prefixed("external:", url.as_str()),
        LinkTargetKind::Unknown(raw) => prefixed("unknown:", raw.as_str()),
    }
}

/// The links of a page, below its text.
pub fn write_links(
    index: &KnowledgeBaseIndex,
    links: &Vec<(String, String)>,
    existing: &Vec<String>,
) -> (out: String)
    requires
        index.wf(),
    ensures
        out@ == links_section(index@, pair_views(links@), views(existing@)),
{
    let ghost all = pair_views(links@);
    let ghost there = views(existing@);
    let mut out = copy_of("\nresolved links:\n");
    if links.len() == 0 {
        out.push_str("  <none>\n");
        return out;
    }
    let ghost start = out@;
    let mut i: usize = 0;
    assert(all.take(0) =~= Seq::<(Seq<char>, Seq<char>)>::empty());
    assert(start + link_rows(index@, all.take(0), there) =~= start);
    while i < links.len()
        invariant
            i <= links@.len(),
            index.wf(),
            all == pair_views(links@),
            there == views(existing@),
            out@ == start + link_rows(index@, all.take(i as int), there),
        decreases links.len() - i,
    {
        assert(all.take(i as int + 1).drop_last() =~= all.take(i as int));
        assert(all.take(i as int + 1).last() == (links@[i as int].0@, links@[i as int].1@));
        let kind = describe_link(index, links[i].1.as_str(), existing);
        out.push_str("  [");
        push_decimal(&mut out, i + 1);
        out.push_str("] ");
        out.push_str(links[i].0.as_str());
        out.push_str(" -> ");
        out.push_str(kind.as_str());
        out.push_str("\n");
        i += 1;
        assert(out@ =~= start + link_rows(index@, all.take(i as int), there));
    }
    assert(all.take(i as int) =~= all);
    out
}

// ---------------------------------------------------------------------------
// The text of a page
// ---------------------------------------------------------------------------

/// A text in a style of the terminal.
pub open spec fn ansi_text(style: Seq<char>, text: Seq<char>) -> Seq<char> {
    "\x1b["@ + style + "m"@ + text + "\x1b[0m"@
}

fn ansi(style: &str, text: &str) -> (out: String)
    ensures
        out@ == ansi_text(style@, text@),
{
    let mut out = copy_of("\x1b[");
    out.push_str(style);
    out.push_str("m");
    out.push_str(text);
    out.push_str("\x1b[0m");
    out
}

/// A token of code, in its colour.
pub open spec fn colored_token(t: TokenModel) -> Seq<char> {
    match t {
        TokenModel::Comment(s) => ansi_text("90"@, s),
        TokenModel::StringLit(s) => ansi_text("32"@, s),
        TokenModel::Number(s) => ansi_text("33"@, s),
        TokenModel::Keyword(s) => ansi_text("1;35"@, s),
        TokenModel::Ident(s) => s,
        TokenModel::Punct(c) => seq![c],
    }
}

pub open spec fn colored_tokens(ts: Seq<TokenModel>) -> Seq<char>
    decreases ts.len(),
{
    if ts.len() == 0 {
        Seq::empty()
    } else {
        colored_tokens(ts.drop_last()) + colored_token(ts.last())
    }
}

/// An inline element, in its style.
pub open spec fn colored_element(e: InlineModel) -> Seq<char> {
    match e {
        InlineModel::Styled { text, bold, italic, code } => if code {
            ansi_text("33"@, text)
        } else if bold && italic {
            ansi_text("1;3"@, text)
        } else if bold {
            ansi_text("1"@, text)
        } else if italic {
            ansi_text("3"@, text)
        } else {
            text
        },
        InlineModel::Link { label, target } => ansi_text("4;94"@, label) + ansi_text(
            "90"@,
            " ("@ + target + ")"@,
        ),
        InlineModel::WikiLink { text } => ansi_text("4;94"@, text),
        InlineModel::Annotation { text } => ansi_text("1;35"@, text),
    }
}

pub open spec fn colored_elements(es: Seq<InlineModel>) -> Seq<char>
    decreases es.len(),
{
    if es.len() == 0 {
        Seq::empty()
    } else {
        colored_elements(es.drop_last()) + colored_element(es.last())
    }
}

/// A line outside of code, in its style.
pub open spec fn colored_line(line: Seq<char>) -> Seq<char> {
    if starts_with(line, "#"@) {
        ansi_text("1;36"@, line)
    } else if starts_with(line, "> "@) {
        ansi_text("3;90"@, line)
    } else {
        match strip_prefix(line, "- "@) {
            Some(rest) => "- "@ + colored_elements(inline_elements(rest)),
            None => if starts_with(line, "[[unknown: "@) {
                ansi_text("33"@, line)
            } else {
                colored_elements(inline_elements(line))
            },
        }
    }
}

/// The language that a fence names.
pub open spec fn fence_language(rest: Seq<char>) -> Option<Seq<char>> {
    if trimmed(rest).len() == 0 {
        None
    } else {
        Some(lowercase(trimmed(rest)))
    }
}

/// The lines from the `i`-th on, each in its style. `code` says whether they
/// start within code, and of which language.
pub open spec fn colored_from(
    ls: Seq<Seq<char>>,
    i: int,
    code: Option<Option<Seq<char>>>,
) -> Seq<char>
    decreases ls.len() - i,
{
    if i < 0 || i >= ls.len() {
        Seq::empty()
    } else {
        let line = ls[i];
        match (strip_prefix(line, "```"@), code) {
            (Some(_), Some(_)) => (ansi_text("90"@, "```"@) + "\n"@) + colored_from(
                ls,
                i + 1,
                None,
            ),
            (Some(rest), None) => (ansi_text("90"@, line) + "\n"@) + colored_from(
                ls,
                i + 1,
                Some(fence_language(rest)),
            ),
            (None, Some(language)) => (colored_tokens(line_tokens(line, language)) + "\n"@)
                + colored_from(ls, i + 1, code),
            (None, None) => (colored_line(line) + "\n"@) + colored_from(ls, i + 1, None),
        }
    }
}

/// Markdown in the styles of the terminal.
pub open spec fn colored_markdown(text: Seq<char>) -> Seq<char> {
    colored_from(lines_of(text), 0, None)
}

fn highlight_code_line_ansi(line: &str, language: Option<&str>) -> (out: String)
    ensures
        out@ == colored_tokens(line_tokens(line@, str_opt_view(language))),
{
    let tokens = tokenize_code_line(line, language);
    let ghost all = token_models(tokens@);
    let mut out = String::new();
    let mut i: usize = 0;
    assert(all.take(0) =~= Seq::<TokenModel>::empty());
    while i < tokens.len()
        invariant
            i <= tokens@.len(),
            all == token_models(tokens@),
            out@ == colored_tokens(all.take(i as int)),
        decreases tokens.len() - i,
    {
        assert(all.take(i as int + 1).drop_last() =~= all.take(i as int));
        assert(all.take(i as int + 1).last() == tokens@[i as int]@);
        match &tokens[i] {
            CodeToken::Comment(s) => out.push_str(ansi("90", s).as_str()),
            CodeToken::StringLit(s) => out.push_str(ansi("32", s).as_str()),
            CodeToken::Number(s) => out.push_str(ansi("33", s).as_str()),
            CodeToken::Keyword(s) => out.push_str(ansi("1;35", s).as_str()),
            CodeToken::Ident(s) => out.push_str(s),
            CodeToken::Punct(c) => out.push(*c),
        }
        i += 1;
        assert(out@ =~= colored_tokens(all.take(i as int)));
    }
    assert(all.take(i as int) =~= all);
    out
}

fn style_element(e: &InlineElement) -> (out: String)
    ensures
        out@ == colored_element(e@),
{
    match e {
        InlineElement::Styled { text, bold, italic, code } => if *code {
            ansi("33", text.as_str())
        } else if *bold && *italic {
            ansi("1;3", text.as_str())
        } else if *bold {
            ansi("1", text.as_str())
        } else if *italic {
            ansi("3", text.as_str())
        } else {
            copy_of(text.as_str())
        },
        InlineElement::Link { label, target } => {
            let mut out = ansi("4;94", label.as_str());
            let mut place = prefixed(" (", target.as_str());
            place.push_str(")");
            out.push_str(ansi("90", place.as_str()).as_str());
            out
        },
        InlineElement::WikiLink { text } => ansi("4;94", text.as_str()),
        InlineElement::Annotation { text } => ansi("1;35", text.as_str()),
    }
}

fn style_inline_markdown_ansi(text: &str) -> (out: String)
    ensures
        out@ == colored_elements(inline_elements(text@)),
{
    let elements = parse_inline(text);
    let ghost all = inline_models(elements@);
    let mut out = String::new();
    let mut i: usize = 0;
    assert(all.take(0) =~= Seq::<InlineModel>::empty());
    while i < elements.len()
        invariant
            i <= elements@.len(),
            all == inline_models(elements@),
            out@ == colored_elements(all.take(i as int)),
        decreases elements.len() - i,
    {
        assert(all.take(i as int + 1).drop_last() =~= all.take(i as int));
        assert(all.take(i as int + 1).last() == elements@[i as int]@);
        out.push_str(style_element(&elements[i]).as_str());
        i += 1;
    }
    assert(all.take(i as int) =~= all);
    out
}

fn style_line(line: &str) -> (out: String)
    ensures
        out@ == colored_line(line@),
{
    if text_starts_with(line, "#") {
        return ansi("1;36", line);
    }
    if text_starts_with(line, "> ") {
        return ansi("3;90", line);
    }
    if let Some(rest) = without_prefix(line, "- ") {
        return prefixed("- ", style_inline_markdown_ansi(rest.as_str()).as_str());
    }
    if text_starts_with(line, "[[unknown: ") {
        return ansi("33", line);
    }
    style_inline_markdown_ansi(line)
}

pub open spec fn code_view(code: Option<Option<String>>) -> Option<Option<Seq<char>>> {
    match code {
        Some(language) => Some(opt_view(language)),
        None => None,
    }
}

/// Markdown in the styles of the terminal.
pub fn render_markdown_with_ansi(markdown: &str) -> (out: String)
    ensures
        out@ == colored_markdown(markdown@),
{
    let all = lines(markdown);
    let ghost ls = lines_of(markdown@);
    let ghost whole = colored_markdown(markdown@);
    let mut out = String::new();
    let mut code: Option<Option<String>> = None;
    let mut i: usize = 0;
    assert(out@ + whole =~= whole);
    while i < all.len()
        invariant
            i <= all@.len(),
            ls == views(all@),
            out@ + colored_from(ls, i as int, code_view(code)) == whole,
        decreases all.len() - i,
    {
        let line = all[i].as_str();
        assert(ls[i as int] == line@);
        let ghost before = out@;
        let ghost was = code_view(code);
        let piece = match without_prefix(line, "```") {
            Some(rest) => {
                if code.is_some() {
                    code = None;
                    ansi("90", "```")
                } else {
                    let name = trim(rest.as_str());
                    let language = if name.as_str().is_empty() {
                        None
                    } else {
                        Some(to_lowercase(name.as_str()))
                    };
                    code = Some(language);
                    ansi("90", line)
                }
            },
            None => match &code {
                Some(language) => match language {
                    Some(l) => highlight_code_line_ansi(line, Some(l.as_str())),
                    None => highlight_code_line_ansi(line, None),
                },
                None => style_line(line),
            },
        };
        out.push_str(piece.as_str());
        out.push_str("\n");
        proof {
            let tail = colored_from(ls, i as int + 1, code_view(code));
            assert(colored_from(ls, i as int, was) == (piece@ + "\n"@) + tail);
            assert(out@ =~= before + (piece@ + "\n"@));
            lemma_concat(before, piece@ + "\n"@, tail);
        }
        i += 1;
    }
    assert(out@ + Seq::<char>::empty() =~= out@);
    out
}

fn trim_text_end(s: &str) -> (out: String)
    ensures
        out@ == trim_end(s@),
{
    let v = chars_of(s);
    let mut n: usize = v.len();
    assert(s@.take(n as int) =~= s@);
    while n > 0 && is_whitespace(v[n - 1])
        invariant
            n <= v@.len(),
            v@ == s@,
            trim_end(s@) == trim_end(s@.take(n as int)),
        decreases n,
    {
        assert(s@.take(n as int).last() == v@[n - 1]);
        assert(s@.take(n as int).drop_last() =~= s@.take(n - 1));
        n -= 1;
    }
    let out = string_of(&v, 0, n);
    assert(out@ =~= s@.take(n as int));
    out
}

/// A remark above the text of a page.
pub open spec fn remark(line: Seq<char>, colored: bool) -> Seq<char> {
    if colored {
        ansi_text("2"@, trim_end(line + "\n"@)) + "\n"@
    } else {
        line + "\n"@
    }
}

fn push_remark(out: &mut String, line: &str, colored: bool)
    ensures
        final(out)@ == old(out)@ + remark(line@, colored),
{
    let ghost start = out@;
    let mut whole = copy_of(line);
    whole.push_str("\n");
    if colored {
        out.push_str(ansi("2", trim_text_end(whole.as_str()).as_str()).as_str());
        out.push_str("\n");
    } else {
        out.push_str(whole.as_str());
    }
    assert(out@ =~= start + remark(line@, colored));
}

/// A text in a style where colours are asked for.
pub open spec fn styled_if(colored: bool, style: Seq<char>, text: Seq<char>) -> Seq<char> {
    if colored {
        ansi_text(style, text)
    } else {
        text
    }
}

fn style_if(colored: bool, style: &str, text: &str) -> (out: String)
    ensures
        out@ == styled_if(colored, style@, text@),
{
    if colored {
        ansi(style, text)
    } else {
        copy_of(text)
    }
}

/// What stands above the text of a page: its title, its tags, when it was
/// changed, and its id.
pub open spec fn pretty_head(p: PageModel, colored: bool) -> Seq<char> {
    (styled_if(colored, "1;36"@, "# "@ + p.title) + "\n\n"@) + (if p.tags.len() == 0 {
        Seq::empty()
    } else {
        remark("tags: "@ + joined(p.tags, ", "@), colored)
    }) + (match p.updated_at {
        Some(t) => match rfc3339_text(t.seconds, t.nanos, t.offset) {
            Some(s) => remark("updated: "@ + s, colored),
            None => Seq::empty(),
        },
        None => Seq::empty(),
    }) + (styled_if(colored, "2"@, "id: "@ + p.id) + "\n\n"@ + styled_if(colored, "2"@, "---"@)
        + "\n\n"@)
}

/// A page as it is shown.
pub open spec fn pretty_page(p: PageModel, colored: bool) -> Seq<char> {
    let body = trimmed(display_text(p.content));
    pretty_head(p, colored) + (if colored {
        colored_markdown(body)
    } else {
        body
    }) + "\n"@
}

fn write_head(page: &Page, colored: bool) -> (out: String)
    ensures
        out@ == pretty_head(page@, colored),
{
    let ghost p = page@;
    let title = prefixed("# ", page.title.as_str());
    let mut out = style_if(colored, "1;36", title.as_str());
    out.push_str("\n\n");
    let ghost one = out@;
    if page.tags.len() > 0 {
        let line = prefixed("tags: ", join(&page.tags, ", ").as_str());
        push_remark(&mut out, line.as_str(), colored);
    }
    let ghost tags = if p.tags.len() == 0 {
        Seq::empty()
    } else {
        remark("tags: "@ + joined(p.tags, ", "@), colored)
    };
    assert(out@ =~= one + tags);
    let ghost two = out@;
    if let Some(t) = page.updated_at {
        if let Some(s) = t.to_rfc3339() {
            let line = prefixed("updated: ", s.as_str());
            push_remark(&mut out, line.as_str(), colored);
        }
    }
    let ghost updated = match p.updated_at {
        Some(t) => match rfc3339_text(t.seconds, t.nanos, t.offset) {
            Some(s) => remark("updated: "@ + s, colored),
            None => Seq::empty(),
        },
        None => Seq::empty(),
    };
    assert(out@ =~= two + updated);
    let ghost three = out@;
    let id = prefixed("id: ", page.id.as_str());
    let mut foot = style_if(colored, "2", id.as_str());
    foot.push_str("\n\n");
    foot.push_str(style_if(colored, "2", "---").as_str());
    foot.push_str("\n\n");
    out.push_str(foot.as_str());
    out
}

/// A page as it is shown, with or without colours.
pub fn render_page_pretty(page: &Page, colored: bool) -> (out: String)
    ensures
        out@ == pretty_page(page@, colored),
{
    let mut out = write_head(page, colored);
    let text = render_page_to_text(page);
    let body = trim(text.as_str());
    if colored {
        out.push_str(render_markdown_with_ansi(body.as_str()).as_str());
    } else {
        out.push_str(body.as_str());
    }
    out.push_str("\n");
    out
}

// ---------------------------------------------------------------------------
// What is shown of a page
// ---------------------------------------------------------------------------

/// A page is found by a title that it alone has or holds; otherwise it is said
/// that there is none, or which pages there are.
pub proof fn a_page_is_found_by_its_title(m: IndexModel, title: Seq<char>, id: Seq<char>)
    ensures
        resolved_loosely(m, title) == ResolutionModel::Unique(id) ==> found_page(m, title) == Ok::<
            Seq<char>,
            Seq<char>,
        >(id),
        resolved_loosely(m, title) == ResolutionModel::NotFound ==> found_page(m, title) == Err::<
            Seq<char>,
            Seq<char>,
        >("no page found with title matching `"@ + title + "`"@),
        resolved_loosely(m, title) is Ambiguous ==> found_page(m, title) == Err::<
            Seq<char>,
            Seq<char>,
        >(
            "title match is ambiguous ("@ + decimal(resolved_loosely(m, title)->Ambiguous_0.len())
                + " matches): "@ + joined(
                sample(m, resolved_loosely(m, title)->Ambiguous_0),
                ", "@,
            ),
        ),
{
}

/// Of the pages that a title may mean, the first ten are named, each by its title
/// and its id.
pub proof fn possible_pages_are_named(m: IndexModel, ids: Seq<Seq<char>>, i: int)
    ensures
        sample(m, ids).len() == (if ids.len() < 10 {
            ids.len()
        } else {
            10
        }),
        0 <= i < sample(m, ids).len() && m.pages.contains_key(ids[i]) ==> sample(m, ids)[i]
            == m.pages[ids[i]].title + " ("@ + m.pages[ids[i]].id + ")"@,
        0 <= i < sample(m, ids).len() && !m.pages.contains_key(ids[i]) ==> sample(m, ids)[i]
            == ids[i],
{
}

/// What a link leads to is said: the id of a page, the path of an attachment and
/// whether it is there, an address, or that it is not known.
pub proof fn what_a_link_leads_to_is_said(
    m: IndexModel,
    target: Seq<char>,
    existing: Seq<Seq<char>>,
    x: Seq<char>,
)
    ensures
        classified(m.catalog(), target) == TargetModel::InternalPage(x) ==> link_kind(
            m,
            target,
            existing,
        ) == "internal:"@ + x,
        classified(m.catalog(), target) == TargetModel::ExternalUrl(x) ==> link_kind(
            m,
            target,
            existing,
        ) == "external:"@ + x,
        classified(m.catalog(), target) == TargetModel::Unknown(x) ==> link_kind(
            m,
            target,
            existing,
        ) == "unknown:"@ + x,
        classified(m.catalog(), target) is AttachmentPath && located(m.root, target) == Ok::<
            Seq<char>,
            AttachmentFault,
        >(x) && holds_path(existing, x) ==> link_kind(m, target, existing) == "attachment:"@ + x,
        classified(m.catalog(), target) is AttachmentPath && located(m.root, target) == Ok::<
            Seq<char>,
            AttachmentFault,
        >(x) && !holds_path(existing, x) ==> link_kind(m, target, existing) == "attachment:"@ + x
            + " (missing)"@,
{
    assert("attachment:"@ + x + Seq::<char>::empty() =~= "attachment:"@ + x);
}

/// Each link is one row: its number from one on, its label and what it leads to.
pub proof fn one_more_link_is_one_more_row(
    m: IndexModel,
    links: Seq<(Seq<char>, Seq<char>)>,
    label: Seq<char>,
    target: Seq<char>,
    existing: Seq<Seq<char>>,
)
    ensures
        link_rows(m, links.push((label, target)), existing) == link_rows(m, links, existing) + (
        "  ["@ + decimal(links.len() + 1) + "] "@ + label + " -> "@ + link_kind(
            m,
            target,
            existing,
        ) + "\n"@),
        links.len() == 0 ==> links_section(m, links, existing) == "\nresolved links:\n"@
            + "  <none>\n"@,
        links.len() > 0 ==> links_section(m, links, existing) == "\nresolved links:\n"@
            + link_rows(m, links, existing),
{
    assert(links.push((label, target)).drop_last() =~= links);
}

/// The links of some nodes and of more are those of the first and then those of
/// the others.
pub proof fn shown_links_stand_in_order(a: Seq<NodeModel>, b: Seq<NodeModel>)
    ensures
        page_links(a + b) == page_links(a) + page_links(b),
    decreases b.len(),
{
    if b.len() == 0 {
        assert(a + b =~= a);
        assert(page_links(b) =~= Seq::<(Seq<char>, Seq<char>)>::empty());
        assert(page_links(a) + page_links(b) =~= page_links(a));
    } else {
        let n = b.len() - 1;
        shown_links_stand_in_order(a, b.take(n));
        assert((a + b).take((a + b).len() - 1) =~= a + b.take(n));
        assert(page_links(a) + page_links(b.take(n)) + node_links(b[n]) =~= page_links(a) + (
        page_links(b.take(n)) + node_links(b[n])));
    }
}

/// A link is shown with its text and its address; a wiki link with its name for
/// both.
pub proof fn a_link_is_shown_with_its_address(
    text: Seq<char>,
    url: Seq<char>,
    es: Seq<InlineModel>,
)
    ensures
        node_links(NodeModel::Link { text, url }) == seq![(text, url)],
        element_links(es.push(InlineModel::Link { label: text, target: url })) == element_links(
            es,
        ).push((text, url)),
        element_links(es.push(InlineModel::WikiLink { text })) == element_links(es).push(
            (text, text),
        ),
        element_links(es.push(InlineModel::Annotation { text })) == element_links(es),
{
    assert(es.push(InlineModel::Link { label: text, target: url }).drop_last() =~= es);
    assert(es.push(InlineModel::WikiLink { text }).drop_last() =~= es);
    assert(es.push(InlineModel::Annotation { text }).drop_last() =~= es);
}

/// A page without color is its title, its tags, its time and its id, a line, and
/// then its text without the white space around it.
pub proof fn a_page_without_color(p: PageModel)
    ensures
        p.tags.len() == 0 && p.updated_at is None ==> pretty_page(p, false) == "# "@ + p.title
            + "\n\nid: "@ + p.id + "\n\n---\n\n"@ + trimmed(display_text(p.content)) + "\n"@,
        p.tags.len() > 0 && p.updated_at is None ==> pretty_page(p, false) == "# "@ + p.title
            + "\n\ntags: "@ + joined(p.tags, ", "@) + "\nid: "@ + p.id + "\n\n---\n\n"@ + trimmed(
            display_text(p.content),
        ) + "\n"@,
        p.tags.len() == 0 && p.updated_at is Some && rfc3339_text(
            (p.updated_at->0).seconds,
            (p.updated_at->0).nanos,
            (p.updated_at->0).offset,
        ) is Some ==> pretty_page(p, false) == "# "@ + p.title + "\n\nupdated: "@ + rfc3339_text(
            (p.updated_at->0).seconds,
            (p.updated_at->0).nanos,
            (p.updated_at->0).offset,
        )->0 + "\nid: "@ + p.id + "\n\n---\n\n"@ + trimmed(display_text(p.content)) + "\n"@,
{
    reveal_strlit("\n\n");
    reveal_strlit("id: ");
    reveal_strlit("\n\nid: ");
    reveal_strlit("---");
    reveal_strlit("\n\n---\n\n");
    reveal_strlit("tags: ");
    reveal_strlit("\n\ntags: ");
    reveal_strlit("\n");
    reveal_strlit("\nid: ");
    reveal_strlit("updated: ");
    reveal_strlit("\n\nupdated: ");
    let body = trimmed(display_text(p.content));
    if p.updated_at is None {
        if p.tags.len() == 0 {
            assert(pretty_page(p, false) =~= "# "@ + p.title + "\n\nid: "@ + p.id
                + "\n\n---\n\n"@ + body + "\n"@);
        } else {
            assert(pretty_page(p, false) =~= "# "@ + p.title + "\n\ntags: "@ + joined(
                p.tags,
                ", "@,
            ) + "\nid: "@ + p.id + "\n\n---\n\n"@ + body + "\n"@);
        }
    } else if p.tags.len() == 0 {
        let t = rfc3339_text(
            (p.updated_at->0).seconds,
            (p.updated_at->0).nanos,
            (p.updated_at->0).offset,
        );
        if t is Some {
            assert(pretty_page(p, false) =~= "# "@ + p.title + "\n\nupdated: "@ + t->0
                + "\nid: "@ + p.id + "\n\n---\n\n"@ + body + "\n"@);
        }
    }
}

/// The styles of what is colored: each starts with its code and ends with the code
/// for none, and holds the text between them.
pub proof fn colored_parts_hold_their_text(text: Seq<char>, target: Seq<char>, c: char)
    ensures
        ansi_text("1"@, text) == "\x1b["@ + "1"@ + "m"@ + text + "\x1b[0m"@,
        colored_token(TokenModel::Comment(text)) == ansi_text("90"@, text),
        colored_token(TokenModel::StringLit(text)) == ansi_text("32"@, text),
        colored_token(TokenModel::Number(text)) == ansi_text("33"@, text),
        colored_token(TokenModel::Keyword(text)) == ansi_text("1;35"@, text),
        colored_token(TokenModel::Ident(text)) == text,
        colored_token(TokenModel::Punct(c)) == seq![c],
        colored_element(
            InlineModel::Styled { text, bold: false, italic: false, code: false },
        ) == text,
        colored_element(
            InlineModel::Styled { text, bold: true, italic: false, code: false },
        ) == ansi_text("1"@, text),
        colored_element(
            InlineModel::Styled { text, bold: false, italic: true, code: false },
        ) == ansi_text("3"@, text),
        colored_element(
            InlineModel::Styled { text, bold: true, italic: true, code: false },
        ) == ansi_text("1;3"@, text),
        colored_element(
            InlineModel::Styled { text, bold: false, italic: false, code: true },
        ) == ansi_text("33"@, text),
        colored_element(InlineModel::Link { label: text, target }) == ansi_text("4;94"@, text)
            + ansi_text("90"@, " ("@ + target + ")"@),
        colored_element(InlineModel::WikiLink { text }) == ansi_text("4;94"@, text),
        colored_element(InlineModel::Annotation { text }) == ansi_text("1;35"@, text),
{
}

/// Headings, quotes, items and marks are colored by how they start.
pub proof fn lines_are_colored_by_their_start(rest: Seq<char>)
    ensures
        colored_line("#"@ + rest) == ansi_text("1;36"@, "#"@ + rest),
        colored_line("> "@ + rest) == ansi_text("3;90"@, "> "@ + rest),
        colored_line("- "@ + rest) == "- "@ + colored_elements(inline_elements(rest)),
        colored_line("[[unknown: "@ + rest) == ansi_text("33"@, "[[unknown: "@ + rest),
{
    reveal_strlit("#");
    reveal_strlit("> ");
    reveal_strlit("- ");
    reveal_strlit("[[unknown: ");
    a_prefix_is_stripped("#"@, rest);
    a_prefix_is_stripped("> "@, rest);
    a_prefix_is_stripped("- "@, rest);
    a_prefix_is_stripped("[[unknown: "@, rest);
    lemma_other_start("> "@ + rest, "#"@);
    lemma_other_start("- "@ + rest, "#"@);
    lemma_other_start("- "@ + rest, "> "@);
    lemma_other_start("[[unknown: "@ + rest, "#"@);
    lemma_other_start("[[unknown: "@ + rest, "> "@);
    lemma_other_start("[[unknown: "@ + rest, "- "@);
}

proof fn lemma_other_start(line: Seq<char>, pat: Seq<char>)
    requires
        line.len() > 0,
        pat.len() > 0,
        line[0] != pat[0],
    ensures
        !starts_with(line, pat),
{
    if starts_with(line, pat) {
        assert(line.subrange(0, pat.len() as int)[0] == line[0]);
    }
}

} // verus!
