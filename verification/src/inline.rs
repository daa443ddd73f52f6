//! Inline markdown: bold, italic, code spans, links, wiki links and
//! annotations, parsed into elements that each renderer shows in its own way.
//!
//! Links are located by the scanner that every other caller resolves link
//! targets through; this module parses only the styling that scanner does not
//! describe.

use crate::inline_link::{
    are_spans, lemma_link_extent, link_at, link_spans, links_are_ordered, links_from, links_of,
    span_model, text_without_brackets_has_no_links, LinkKind, LinkModel, LinkSpan,
};
use crate::text::{chars_of, contains_char, lemma_concat, lemma_concat_item, string_of};
use vstd::prelude::*;

verus! {

/// A parsed fragment of inline markdown.
#[derive(Debug, Clone, PartialEq, Eq)]
pub enum InlineElement {
    /// Plain or styled text segment.
    Styled { text: String, bold: bool, italic: bool, code: bool },
    /// `[label](target)` url link.
    Link { label: String, target: String },
    /// `[[text]]` wiki-style link.
    WikiLink { text: String },
    /// `{{annotation}}`, with the surrounding braces.
    Annotation { text: String },
}

/// What an [`InlineElement`] holds.
pub enum InlineModel {
    Styled { text: Seq<char>, bold: bool, italic: bool, code: bool },
    Link { label: Seq<char>, target: Seq<char> },
    WikiLink { text: Seq<char> },
    Annotation { text: Seq<char> },
}

impl View for InlineElement {
    type V = InlineModel;

    open spec fn view(&self) -> InlineModel {
        match self {
            InlineElement::Styled { text, bold, italic, code } => InlineModel::Styled {
                text: text@,
                bold: *bold,
                italic: *italic,
                code: *code,
            },
            InlineElement::Link { label, target } => InlineModel::Link {
                label: label@,
                target: target@,
            },
            InlineElement::WikiLink { text } => InlineModel::WikiLink { text: text@ },
            InlineElement::Annotation { text } => InlineModel::Annotation { text: text@ },
        }
    }
}

/// What each element of a sequence holds.
pub open spec fn inline_models(v: Seq<InlineElement>) -> Seq<InlineModel> {
    Seq::new(v.len(), |i: int| v[i]@)
}

proof fn lemma_inline_models_push(v: Seq<InlineElement>, e: InlineElement)
    ensures
        inline_models(v.push(e)) == inline_models(v).push(e@),
{
    assert(inline_models(v.push(e)) =~= inline_models(v).push(e@));
}

// ---------------------------------------------------------------------------
// The grammar
// ---------------------------------------------------------------------------

/// The first `}}` at or after `j` that ends before `limit`.
pub open spec fn annotation_close(s: Seq<char>, j: int, limit: int) -> Option<int>
    decreases limit - j,
{
    if j < 0 || j + 1 >= limit || j + 1 >= s.len() {
        None
    } else if s[j] == '}' && s[j + 1] == '}' {
        Some(j)
    } else {
        annotation_close(s, j + 1, limit)
    }
}

/// Where the annotation that opens at `i` ends. Inside a code span it must
/// close before the span does.
pub open spec fn annotation_end(s: Seq<char>, i: int, code: Option<int>) -> Option<int> {
    if 0 <= i && i + 1 < s.len() && s[i] == '{' && s[i + 1] == '{' {
        let limit = match code {
            Some(close_at) => close_at,
            None => s.len() as int,
        };
        match annotation_close(s, i + 2, limit) {
            Some(j) => Some(j + 2),
            None => None,
        }
    } else {
        None
    }
}

/// How many backticks stand in a row at `i`.
pub open spec fn run_at(s: Seq<char>, i: int) -> nat
    decreases s.len() - i,
{
    if 0 <= i < s.len() && s[i] == '`' {
        1 + run_at(s, i + 1)
    } else {
        0
    }
}

/// Whether one of `links` covers position `i`.
pub open spec fn covered(links: Seq<LinkModel>, i: int) -> bool {
    exists|k: int| 0 <= k < links.len() && (#[trigger] links[k]).start <= i < links[k].end
}

/// The first run of exactly `len` backticks at or after `i` that no link of
/// the text covers.
pub open spec fn closing_run_at(s: Seq<char>, i: int, len: nat) -> Option<int>
    decreases s.len() - i,
{
    if i < 0 || i >= s.len() {
        None
    } else if s[i] != '`' {
        closing_run_at(s, i + 1, len)
    } else if run_at(s, i) == len && !covered(links_of(s), i) {
        Some(i)
    } else {
        proof {
            lemma_run_at(s, i);
        }
        closing_run_at(s, i + run_at(s, i), len)
    }
}

/// The first of `links` from the `k`-th on that starts at `i`.
pub open spec fn starting_at(links: Seq<LinkModel>, k: int, i: int) -> Option<LinkModel>
    decreases links.len() - k,
{
    if k < 0 || k >= links.len() {
        None
    } else if links[k].start == i {
        Some(links[k])
    } else {
        starting_at(links, k + 1, i)
    }
}

/// The link of the text that starts at `i`.
pub open spec fn scanned_at(s: Seq<char>, i: int) -> Option<LinkModel> {
    starting_at(links_of(s), 0, i)
}

/// The element that shows a link.
pub open spec fn link_element(l: LinkModel) -> InlineModel {
    match l.kind {
        LinkKind::Wiki => InlineModel::WikiLink { text: l.target },
        LinkKind::Markdown => InlineModel::Link { label: l.label, target: l.target },
    }
}

/// The text gathered so far as an element of its own, unless it is empty.
pub open spec fn flushed(buf: Seq<char>, bold: bool, italic: bool, code: bool) -> Seq<InlineModel> {
    if buf.len() > 0 {
        seq![InlineModel::Styled { text: buf, bold, italic, code }]
    } else {
        Seq::empty()
    }
}

/// The elements of `s` from `i` on, where `buf` is the text gathered and not
/// yet emitted, `bold` and `italic` are what is switched on, and `code` is
/// where the open code span closes.
///
/// At each position the first of these applies: an annotation; outside code,
/// a `**` or a `*`; the run of backticks that closes the open span, or outside
/// code a run that opens one if a closing run follows and is text otherwise; a
/// link; a plain character.
#[verifier::opaque]
pub open spec fn elements_from(
    s: Seq<char>,
    i: int,
    buf: Seq<char>,
    bold: bool,
    italic: bool,
    code: Option<int>,
) -> Seq<InlineModel>
    decreases s.len() - i,
    via elements_from_decreases
{
    if i < 0 || i >= s.len() {
        flushed(buf, bold, italic, code is Some)
    } else if let Some(end) = annotation_end(s, i, code) {
        flushed(buf, bold, italic, code is Some) + seq![
            InlineModel::Annotation { text: s.subrange(i, end) },
        ] + elements_from(s, end, Seq::empty(), bold, italic, code)
    } else if code is None && s[i] == '*' && i + 1 < s.len() && s[i + 1] == '*' {
        flushed(buf, bold, italic, false) + elements_from(
            s,
            i + 2,
            Seq::empty(),
            !bold,
            italic,
            code,
        )
    } else if code is None && s[i] == '*' {
        flushed(buf, bold, italic, false) + elements_from(
            s,
            i + 1,
            Seq::empty(),
            bold,
            !italic,
            code,
        )
    } else if s[i] == '`' && code == Some(i) {
        flushed(buf, bold, italic, true) + elements_from(
            s,
            i + run_at(s, i),
            Seq::empty(),
            bold,
            italic,
            None,
        )
    } else if s[i] == '`' && code is None {
        let after = i + run_at(s, i);
        match closing_run_at(s, after, run_at(s, i)) {
            Some(close_at) => flushed(buf, bold, italic, false) + elements_from(
                s,
                after,
                Seq::empty(),
                bold,
                italic,
                Some(close_at),
            ),
            None => elements_from(s, after, buf + s.subrange(i, after), bold, italic, code),
        }
    } else {
        match scanned_at(s, i) {
            Some(l) => flushed(buf, bold, italic, code is Some) + seq![link_element(l)]
                + elements_from(s, l.end, Seq::empty(), bold, italic, code),
            None => elements_from(s, i + 1, buf.push(s[i]), bold, italic, code),
        }
    }
}

#[via_fn]
proof fn elements_from_decreases(
    s: Seq<char>,
    i: int,
    buf: Seq<char>,
    bold: bool,
    italic: bool,
    code: Option<int>,
) {
    if 0 <= i < s.len() {
        lemma_annotation_end(s, i, code);
        lemma_run_at(s, i);
        lemma_scanned_at(s, i);
    }
}

proof fn lemma_elements_step(
    s: Seq<char>,
    i: int,
    buf: Seq<char>,
    bold: bool,
    italic: bool,
    code: Option<int>,
)
    ensures
        elements_from(s, i, buf, bold, italic, code) == {
        if i < 0 || i >= s.len() {
            flushed(buf, bold, italic, code is Some)
        } else if let Some(end) = annotation_end(s, i, code) {
            flushed(buf, bold, italic, code is Some) + seq![
                InlineModel::Annotation { text: s.subrange(i, end) },
            ] + elements_from(s, end, Seq::empty(), bold, italic, code)
        } else if code is None && s[i] == '*' && i + 1 < s.len() && s[i + 1] == '*' {
            flushed(buf, bold, italic, false) + elements_from(
                s,
                i + 2,
                Seq::empty(),
                !bold,
                italic,
                code,
            )
        } else if code is None && s[i] == '*' {
            flushed(buf, bold, italic, false) + elements_from(
                s,
                i + 1,
                Seq::empty(),
                bold,
                !italic,
                code,
            )
        } else if s[i] == '`' && code == Some(i) {
            flushed(buf, bold, italic, true) + elements_from(
                s,
                i + run_at(s, i),
                Seq::empty(),
                bold,
                italic,
                None,
            )
        } else if s[i] == '`' && code is None {
            let after = i + run_at(s, i);
            match closing_run_at(s, after, run_at(s, i)) {
                Some(close_at) => flushed(buf, bold, italic, false) + elements_from(
                    s,
                    after,
                    Seq::empty(),
                    bold,
                    italic,
                    Some(close_at),
                ),
                None => elements_from(s, after, buf + s.subrange(i, after), bold, italic, code),
            }
        } else {
            match scanned_at(s, i) {
                Some(l) => flushed(buf, bold, italic, code is Some) + seq![link_element(l)]
                    + elements_from(s, l.end, Seq::empty(), bold, italic, code),
                None => elements_from(s, i + 1, buf.push(s[i]), bold, italic, code),
            }
        }
        },
{
    reveal(elements_from);
}

/// The elements of `s`.
pub open spec fn inline_elements(s: Seq<char>) -> Seq<InlineModel> {
    elements_from(s, 0, Seq::empty(), false, false, None)
}

proof fn lemma_annotation_close(s: Seq<char>, j: int, limit: int)
    requires
        0 <= j,
    ensures
        annotation_close(s, j, limit) matches Some(k) ==> j <= k && k + 1 < limit && k + 1
            < s.len(),
    decreases limit - j,
{
    if j + 1 < limit && j + 1 < s.len() && !(s[j] == '}' && s[j + 1] == '}') {
        lemma_annotation_close(s, j + 1, limit);
    }
}

proof fn lemma_annotation_end(s: Seq<char>, i: int, code: Option<int>)
    requires
        0 <= i,
    ensures
        annotation_end(s, i, code) matches Some(end) ==> i + 4 <= end <= s.len() && (code matches Some(
            close_at,
        ) ==> end <= close_at),
{
    let limit = match code {
        Some(close_at) => close_at,
        None => s.len() as int,
    };
    lemma_annotation_close(s, i + 2, limit);
}

pub proof fn lemma_run_at(s: Seq<char>, i: int)
    requires
        0 <= i <= s.len(),
    ensures
        i + run_at(s, i) <= s.len(),
        i < s.len() && s[i] == '`' ==> run_at(s, i) >= 1,
        forall|k: int| i <= k < i + run_at(s, i) ==> s[k] == '`',
    decreases s.len() - i,
{
    if i < s.len() && s[i] == '`' {
        lemma_run_at(s, i + 1);
    }
}

proof fn lemma_starting_at(links: Seq<LinkModel>, k: int, i: int)
    requires
        0 <= k,
    ensures
        match starting_at(links, k, i) {
            Some(l) => exists|j: int|
                k <= j < links.len() && #[trigger] links[j] == l && l.start == i,
            None => forall|j: int| k <= j < links.len() ==> (#[trigger] links[j]).start != i,
        },
    decreases links.len() - k,
{
    if k < links.len() && links[k].start != i {
        lemma_starting_at(links, k + 1, i);
    }
}

proof fn lemma_scanned_at(s: Seq<char>, i: int)
    ensures
        scanned_at(s, i) matches Some(l) ==> l.start == i < l.end <= s.len(),
{
    links_are_ordered(s, 0);
    lemma_starting_at(links_of(s), 0, i);
}

// ---------------------------------------------------------------------------
// Parsing
// ---------------------------------------------------------------------------

fn find_annotation_end(v: &Vec<char>, i: usize, code: Option<usize>) -> (found: Option<usize>)
    requires
        i < v@.len(),
        code matches Some(close_at) ==> close_at <= v@.len(),
    ensures
        match found {
            Some(end) => annotation_end(v@, i as int, code_model(code)) == Some(end as int),
            None => annotation_end(v@, i as int, code_model(code)) is None,
        },
{
    if !(v.len() - i > 1 && v[i] == '{' && v[i + 1] == '{') {
        return None;
    }
    let limit: usize = match code {
        Some(close_at) => close_at,
        None => v.len(),
    };
    let mut j: usize = i + 2;
    while j < limit && limit - j > 1
        invariant
            limit <= v@.len(),
            i + 2 <= j,
            annotation_end(v@, i as int, code_model(code)) == match annotation_close(
                v@,
                i as int + 2,
                limit as int,
            ) {
                Some(k) => Some(k + 2),
                None => None,
            },
            annotation_close(v@, i as int + 2, limit as int) == annotation_close(
                v@,
                j as int,
                limit as int,
            ),
        ensures
            annotation_close(v@, i as int + 2, limit as int) is None,
        decreases limit - j,
    {
        if v[j] == '}' && v[j + 1] == '}' {
            return Some(j + 2);
        }
        j += 1;
    }
    None
}

spec fn code_model(code: Option<usize>) -> Option<int> {
    match code {
        Some(close_at) => Some(close_at as int),
        None => None,
    }
}

/// Length of the backtick run starting at `start`.
pub fn backtick_run(v: &Vec<char>, start: usize) -> (n: usize)
    requires
        start <= v@.len(),
    ensures
        n == run_at(v@, start as int),
        start + n <= v@.len(),
{
    let mut i: usize = start;
    while i < v.len() && v[i] == '`'
        invariant
            start <= i <= v@.len(),
            run_at(v@, start as int) == i - start + run_at(v@, i as int),
        decreases v.len() - i,
    {
        i += 1;
    }
    i - start
}

fn is_covered(spans: &Vec<LinkSpan>, v: &Vec<char>, i: usize) -> (c: bool)
    requires
        are_spans(spans@, v@, links_of(v@)),
    ensures
        c == covered(links_of(v@), i as int),
{
    let ghost links = links_of(v@);
    let mut k: usize = 0;
    while k < spans.len()
        invariant
            k <= spans@.len(),
            links == links_of(v@),
            are_spans(spans@, v@, links),
            forall|j: int| 0 <= j < k ==> !((#[trigger] links[j]).start <= i < links[j].end),
        decreases spans.len() - k,
    {
        assert(spans@[k as int].model(v@) == links[k as int]);
        if spans[k].from <= i && i < spans[k].to {
            return true;
        }
        k += 1;
    }
    false
}

/// Start of the first run of exactly `len` backticks at or after `from`, taking
/// no run that a link covers.
fn closing_run(v: &Vec<char>, spans: &Vec<LinkSpan>, from: usize, len: usize) -> (found: Option<
    usize,
>)
    requires
        from <= v@.len(),
        are_spans(spans@, v@, links_of(v@)),
    ensures
        match found {
            Some(k) => closing_run_at(v@, from as int, len as nat) == Some(k as int) && k < v@.len(),
            None => closing_run_at(v@, from as int, len as nat) is None,
        },
{
    let mut i: usize = from;
    while i < v.len()
        invariant
            i <= v@.len(),
            are_spans(spans@, v@, links_of(v@)),
            closing_run_at(v@, from as int, len as nat) == closing_run_at(
                v@,
                i as int,
                len as nat,
            ),
        decreases v.len() - i,
    {
        if v[i] != '`' {
            i += 1;
        } else {
            let run: usize = backtick_run(v, i);
            proof {
                lemma_run_at(v@, i as int);
            }
            if run == len && !is_covered(spans, v, i) {
                return Some(i);
            }
            i += run;
        }
    }
    None
}

fn span_starting_at(spans: &Vec<LinkSpan>, v: &Vec<char>, i: usize) -> (found: Option<LinkSpan>)
    requires
        are_spans(spans@, v@, links_of(v@)),
    ensures
        span_model(v@, found) == scanned_at(v@, i as int),
        found matches Some(p) ==> p.fits(v@) && p.from == i,
{
    let ghost links = links_of(v@);
    let mut k: usize = 0;
    while k < spans.len()
        invariant
            k <= spans@.len(),
            links == links_of(v@),
            are_spans(spans@, v@, links),
            scanned_at(v@, i as int) == starting_at(links, k as int, i as int),
        decreases spans.len() - k,
    {
        assert(spans@[k as int].model(v@) == links[k as int]);
        if spans[k].from == i {
            return Some(spans[k]);
        }
        k += 1;
    }
    None
}

/// Emits the gathered text, if there is any.
fn flush(out: &mut Vec<InlineElement>, buf: String, bold: bool, italic: bool, code: bool)
    ensures
        inline_models(final(out)@) == inline_models(old(out)@) + flushed(buf@, bold, italic, code),
{
    let ghost text = buf@;
    if buf.as_str().is_empty() {
        assert(inline_models(out@) =~= inline_models(out@) + flushed(text, bold, italic, code));
    } else {
        let e = InlineElement::Styled { text: buf, bold, italic, code };
        proof {
            lemma_inline_models_push(out@, e);
            assert(inline_models(out@).push(e@) =~= inline_models(out@) + flushed(
                text,
                bold,
                italic,
                code,
            ));
        }
        out.push(e);
    }
}

/// Parse inline markdown into a sequence of elements.
///
/// Handles `**bold**`, `*italic*`, `` `code` ``, `[text](url)`,
/// `[[wiki-link]]`, and `{{annotation}}` syntax.
///
/// Link syntax is whatever the scanner accepts, and targets are reported as it
/// reports them: trimmed, never empty. A link inside a `{{annotation}}` stays
/// part of the annotation. Emphasis markers inside a code span are literal
/// text; links and annotations are still recognised there.
///
/// A code span opens on a run of n backticks and closes at the next run of
/// exactly n, so a span can contain a shorter run. An opening run with no such
/// closer is literal text and opens nothing. Content is taken verbatim.
pub fn parse_inline(text: &str) -> (out: Vec<InlineElement>)
    ensures
        inline_models(out@) == inline_elements(text@),
{
    let v = chars_of(text);
    let spans = link_spans(&v);
    let ghost s = text@;
    let mut out: Vec<InlineElement> = Vec::new();
    let mut buf = String::new();
    let mut bold = false;
    let mut italic = false;
    let mut code: Option<usize> = None;
    let mut i: usize = 0;
    assert(inline_models(out@) + inline_elements(s) =~= inline_elements(s));
    while i < v.len()
        invariant
            v@ == s,
            s == text@,
            i <= v@.len(),
            are_spans(spans@, v@, links_of(v@)),
            code matches Some(close_at) ==> close_at <= v@.len(),
            inline_models(out@) + elements_from(s, i as int, buf@, bold, italic, code_model(code))
                == inline_elements(s),
        decreases v.len() - i,
    {
        let ghost before = inline_models(out@);
        let ghost text0 = buf@;
        let ghost c0 = code_model(code);
        proof {
            lemma_annotation_end(s, i as int, c0);
            lemma_run_at(s, i as int);
            lemma_scanned_at(s, i as int);
            lemma_elements_step(s, i as int, text0, bold, italic, c0);
        }
        if let Some(end) = find_annotation_end(&v, i, code) {
            flush(&mut out, buf, bold, italic, code.is_some());
            buf = String::new();
            let e = InlineElement::Annotation { text: string_of(&v, i, end) };
            proof {
                lemma_inline_models_push(out@, e);
                lemma_concat_item(before, flushed(text0, bold, italic, c0 is Some), e@, elements_from(
                    s,
                    end as int,
                    Seq::empty(),
                    bold,
                    italic,
                    c0,
                ));
            }
            out.push(e);
            i = end;
        } else if code.is_none() && v.len() - i > 1 && v[i] == '*' && v[i + 1] == '*' {
            flush(&mut out, buf, bold, italic, false);
            buf = String::new();
            proof {
                lemma_concat(before, flushed(text0, bold, italic, c0 is Some), elements_from(
                    s,
                    i as int + 2,
                    Seq::empty(),
                    !bold,
                    italic,
                    c0,
                ));
            }
            bold = !bold;
            i += 2;
        } else if code.is_none() && v[i] == '*' {
            flush(&mut out, buf, bold, italic, false);
            buf = String::new();
            proof {
                lemma_concat(before, flushed(text0, bold, italic, c0 is Some), elements_from(
                    s,
                    i as int + 1,
                    Seq::empty(),
                    bold,
                    !italic,
                    c0,
                ));
            }
            italic = !italic;
            i += 1;
        } else if v[i] == '`' && code.is_none() {
            let run: usize = backtick_run(&v, i);
            match closing_run(&v, &spans, i + run, run) {
                Some(close_at) => {
                    flush(&mut out, buf, bold, italic, false);
                    buf = String::new();
                    proof {
                        lemma_concat(before, flushed(text0, bold, italic, c0 is Some), elements_from(
                            s,
                            i + run,
                            Seq::empty(),
                            bold,
                            italic,
                            Some(close_at as int),
                        ));
                    }
                    code = Some(close_at);
                },
                None => {
                    let ticks = string_of(&v, i, i + run);
                    buf.push_str(ticks.as_str());
                },
            }
            i += run;
        } else if v[i] == '`' && is_at(code, i) {
            let run: usize = backtick_run(&v, i);
            flush(&mut out, buf, bold, italic, true);
            buf = String::new();
            proof {
                lemma_concat(before, flushed(text0, bold, italic, c0 is Some), elements_from(
                    s,
                    i + run,
                    Seq::empty(),
                    bold,
                    italic,
                    None,
                ));
            }
            code = None;
            i += run;
        } else {
            match span_starting_at(&spans, &v, i) {
                Some(p) => {
                    flush(&mut out, buf, bold, italic, code.is_some());
                    buf = String::new();
                    let target = string_of(&v, p.target_from, p.target_to);
                    let e = match p.kind {
                        LinkKind::Wiki => InlineElement::WikiLink { text: target },
                        LinkKind::Markdown => InlineElement::Link {
                            label: string_of(&v, p.label_from, p.label_to),
                            target,
                        },
                    };
                    proof {
                        lemma_inline_models_push(out@, e);
                        lemma_concat_item(before, flushed(text0, bold, italic, c0 is Some), e@, elements_from(
                            s,
                            p.to as int,
                            Seq::empty(),
                            bold,
                            italic,
                            c0,
                        ));
                    }
                    out.push(e);
                    i = p.to;
                },
                None => {
                    buf.push(v[i]);
                    i += 1;
                },
            }
        }
    }
    proof {
        lemma_elements_step(s, i as int, buf@, bold, italic, code_model(code));
    }
    flush(&mut out, buf, bold, italic, code.is_some());
    out
}

fn is_at(code: Option<usize>, i: usize) -> (b: bool)
    ensures
        b == (code_model(code) == Some(i as int)),
{
    match code {
        Some(close_at) => close_at == i,
        None => false,
    }
}

// ---------------------------------------------------------------------------
// Links are those of the scanner
// ---------------------------------------------------------------------------

/// Whether an element is a link.
pub open spec fn is_link_element(e: InlineModel) -> bool {
    e is Link || e is WikiLink
}

/// The links among some elements, in order.
pub open spec fn links_among(es: Seq<InlineModel>) -> Seq<InlineModel>
    decreases es.len(),
{
    if es.len() == 0 {
        Seq::empty()
    } else if is_link_element(es.last()) {
        links_among(es.drop_last()).push(es.last())
    } else {
        links_among(es.drop_last())
    }
}

/// The elements that show some links.
pub open spec fn link_elements(links: Seq<LinkModel>) -> Seq<InlineModel> {
    Seq::new(links.len(), |k: int| link_element(links[k]))
}

/// Whether an annotation can open anywhere in a text.
pub open spec fn holds_braces(s: Seq<char>) -> bool {
    exists|i: int| 0 <= i && i + 1 < s.len() && #[trigger] s[i] == '{' && s[i + 1] == '{'
}

proof fn lemma_links_among_concat(a: Seq<InlineModel>, b: Seq<InlineModel>)
    ensures
        links_among(a + b) == links_among(a) + links_among(b),
    decreases b.len(),
{
    if b.len() == 0 {
        assert(a + b =~= a);
        assert(links_among(a) + links_among(b) =~= links_among(a));
    } else {
        lemma_links_among_concat(a, b.drop_last());
        assert((a + b).drop_last() =~= a + b.drop_last());
        assert((a + b).last() == b.last());
        assert(links_among(a + b) =~= links_among(a) + links_among(b));
    }
}

proof fn lemma_no_links_flushed(buf: Seq<char>, bold: bool, italic: bool, code: bool)
    ensures
        links_among(flushed(buf, bold, italic, code)) == Seq::<InlineModel>::empty(),
{
    reveal_with_fuel(links_among, 2);
    let f = flushed(buf, bold, italic, code);
    if f.len() > 0 {
        assert(f.drop_last() =~= Seq::<InlineModel>::empty());
    }
}

/// Behind a run of backticks stand the links that stand behind its start.
proof fn lemma_links_behind_run(s: Seq<char>, i: int)
    requires
        0 <= i <= s.len(),
    ensures
        links_from(s, i + run_at(s, i)) == links_from(s, i),
    decreases s.len() - i,
{
    if i < s.len() && s[i] == '`' {
        lemma_links_behind_run(s, i + 1);
    }
}

/// Where the links before `i` are the first `k`, the link that starts at `i` is
/// the one that the scanner finds there.
proof fn lemma_scanned_is_next(s: Seq<char>, i: int, k: int)
    requires
        0 <= i < s.len(),
        0 <= k <= links_of(s).len(),
        links_of(s).skip(k) == links_from(s, i),
        forall|j: int| 0 <= j < k ==> (#[trigger] links_of(s)[j]).start < i,
    ensures
        scanned_at(s, i) == link_at(s, i),
{
    let links = links_of(s);
    lemma_starting_at(links, 0, i);
    lemma_link_extent(s, i);
    links_are_ordered(s, 0);
    match link_at(s, i) {
        Some(l) => {
            let next = links_from(s, i);
            assert(next == seq![l] + links_from(s, l.end));
            assert(links.skip(k)[0] == l);
            assert(links[k] == l);
            match scanned_at(s, i) {
                Some(found) => {
                    let j = choose|j: int|
                        0 <= j < links.len() && #[trigger] links[j] == found && found.start == i;
                    assert(links[j].start == links[k].start);
                    assert(j == k);
                },
                None => {},
            }
        },
        None => {
            links_are_ordered(s, i + 1);
            if let Some(found) = scanned_at(s, i) {
                let j = choose|j: int|
                    0 <= j < links.len() && #[trigger] links[j] == found && found.start == i;
                if j >= k {
                    assert(links.skip(k)[j - k] == links[j]);
                    assert(links_from(s, i + 1)[j - k].start >= i + 1);
                }
            }
        },
    }
}

proof fn lemma_links_shown_from(
    s: Seq<char>,
    i: int,
    buf: Seq<char>,
    bold: bool,
    italic: bool,
    code: Option<int>,
    k: int,
)
    requires
        !holds_braces(s),
        0 <= i <= s.len(),
        0 <= k <= links_of(s).len(),
        links_of(s).skip(k) == links_from(s, i),
        forall|j: int| 0 <= j < k ==> (#[trigger] links_of(s)[j]).start < i,
    ensures
        links_among(elements_from(s, i, buf, bold, italic, code)) == link_elements(
            links_from(s, i),
        ),
    decreases s.len() - i,
{
    let none = Seq::<char>::empty();
    lemma_elements_step(s, i, buf, bold, italic, code);
    lemma_no_links_flushed(buf, bold, italic, code is Some);
    lemma_no_links_flushed(buf, bold, italic, false);
    lemma_no_links_flushed(buf, bold, italic, true);
    assert(annotation_end(s, i, code) is None);
    lemma_run_at(s, i);
    lemma_links_behind_run(s, i);
    if i >= s.len() {
        assert(link_elements(links_from(s, i)) =~= Seq::<InlineModel>::empty());
    } else if code is None && s[i] == '*' && i + 1 < s.len() && s[i + 1] == '*' {
        assert(links_from(s, i + 1) == links_from(s, i + 2));
        lemma_links_shown_from(s, i + 2, none, !bold, italic, code, k);
        lemma_links_among_concat(
            flushed(buf, bold, italic, false),
            elements_from(s, i + 2, none, !bold, italic, code),
        );
        assert(links_among(elements_from(s, i, buf, bold, italic, code)) =~= link_elements(
            links_from(s, i),
        ));
    } else if code is None && s[i] == '*' {
        lemma_links_shown_from(s, i + 1, none, bold, !italic, code, k);
        lemma_links_among_concat(
            flushed(buf, bold, italic, false),
            elements_from(s, i + 1, none, bold, !italic, code),
        );
        assert(links_among(elements_from(s, i, buf, bold, italic, code)) =~= link_elements(
            links_from(s, i),
        ));
    } else if s[i] == '`' && code == Some(i) {
        let after = i + run_at(s, i);
        lemma_links_shown_from(s, after, none, bold, italic, None, k);
        lemma_links_among_concat(
            flushed(buf, bold, italic, true),
            elements_from(s, after, none, bold, italic, None),
        );
        assert(links_among(elements_from(s, i, buf, bold, italic, code)) =~= link_elements(
            links_from(s, i),
        ));
    } else if s[i] == '`' && code is None {
        let after = i + run_at(s, i);
        match closing_run_at(s, after, run_at(s, i)) {
            Some(close_at) => {
                lemma_links_shown_from(s, after, none, bold, italic, Some(close_at), k);
                lemma_links_among_concat(
                    flushed(buf, bold, italic, false),
                    elements_from(s, after, none, bold, italic, Some(close_at)),
                );
                assert(links_among(elements_from(s, i, buf, bold, italic, code))
                    =~= link_elements(links_from(s, i)));
            },
            None => {
                lemma_links_shown_from(
                    s,
                    after,
                    buf + s.subrange(i, after),
                    bold,
                    italic,
                    code,
                    k,
                );
            },
        }
    } else {
        lemma_scanned_is_next(s, i, k);
        lemma_link_extent(s, i);
        match link_at(s, i) {
            Some(l) => {
                let links = links_of(s);
                let rest = elements_from(s, l.end, none, bold, italic, code);
                let head = flushed(buf, bold, italic, code is Some);
                assert(links_from(s, i) == seq![l] + links_from(s, l.end));
                assert(links.skip(k)[0] == l);
                assert(links.skip(k + 1) =~= links_from(s, l.end)) by {
                    assert forall|j: int| 0 <= j < links.skip(k + 1).len() implies links.skip(
                        k + 1,
                    )[j] == links_from(s, l.end)[j] by {
                        assert(links.skip(k)[j + 1] == links_from(s, i)[j + 1]);
                    }
                }
                lemma_links_shown_from(s, l.end, none, bold, italic, code, k + 1);
                lemma_links_among_concat(head, seq![link_element(l)]);
                lemma_links_among_concat(head + seq![link_element(l)], rest);
                assert(links_among(seq![link_element(l)]) =~= seq![link_element(l)]) by {
                    reveal_with_fuel(links_among, 2);
                    assert(seq![link_element(l)].drop_last() =~= Seq::<InlineModel>::empty());
                }
                assert(links_among(elements_from(s, i, buf, bold, italic, code))
                    =~= link_elements(links_from(s, i)));
            },
            None => {
                lemma_links_shown_from(s, i + 1, buf.push(s[i]), bold, italic, code, k);
            },
        }
    }
}

/// Where no annotation can open, the links among the elements of a text are the
/// links that the scanner finds in it, one for one and in its order, with the
/// labels and targets that it reports.
pub proof fn links_are_those_of_the_scanner(s: Seq<char>)
    requires
        !holds_braces(s),
    ensures
        links_among(inline_elements(s)) == link_elements(links_of(s)),
{
    assert(links_of(s).skip(0) =~= links_from(s, 0));
    lemma_links_shown_from(s, 0, Seq::empty(), false, false, None, 0);
}

/// Whether a character may mark up the text around it.
pub open spec fn is_marker(c: char) -> bool {
    c == '*' || c == '`' || c == '{'
}

proof fn lemma_plain_from(s: Seq<char>, i: int)
    requires
        0 <= i <= s.len(),
        forall|k: int| 0 <= k < s.len() ==> !is_marker(#[trigger] s[k]),
        links_of(s).len() == 0,
    ensures
        elements_from(s, i, s.take(i), false, false, None) == flushed(s, false, false, false),
    decreases s.len() - i,
{
    reveal(elements_from);
    if i < s.len() {
        assert(!is_marker(s[i]));
        assert(annotation_end(s, i, None) is None);
        assert(scanned_at(s, i) is None);
        assert(s.take(i).push(s[i]) =~= s.take(i + 1));
        lemma_plain_from(s, i + 1);
    } else {
        assert(s.take(i) =~= s);
    }
}

/// A text in which nothing is marked up and no link stands is one plain
/// element, or none where it is empty.
pub proof fn unmarked_text_is_plain(s: Seq<char>)
    requires
        forall|k: int| 0 <= k < s.len() ==> !is_marker(#[trigger] s[k]),
        links_of(s).len() == 0,
    ensures
        inline_elements(s) == if s.len() == 0 {
            Seq::empty()
        } else {
            seq![InlineModel::Styled { text: s, bold: false, italic: false, code: false }]
        },
{
    assert(s.take(0) =~= Seq::<char>::empty());
    lemma_plain_from(s, 0);
}

// ---------------------------------------------------------------------------
// What the marks mean
// ---------------------------------------------------------------------------

proof fn lemma_plain_run(
    s: Seq<char>,
    i: int,
    n: int,
    buf: Seq<char>,
    bold: bool,
    italic: bool,
)
    requires
        0 <= i <= n <= s.len(),
        !contains_char(s, '['),
        forall|k: int| i <= k < n ==> !is_marker(s[k]),
    ensures
        elements_from(s, i, buf, bold, italic, None) == elements_from(
            s,
            n,
            buf + s.subrange(i, n),
            bold,
            italic,
            None,
        ),
    decreases n - i,
{
    reveal(elements_from);
    if i < n {
        lemma_no_scanned_link(s, i);
        assert(!is_marker(s[i]));
        assert(annotation_end(s, i, None) is None);
        lemma_plain_run(s, i + 1, n, buf.push(s[i]), bold, italic);
        assert(buf.push(s[i]) + s.subrange(i + 1, n) =~= buf + s.subrange(i, n));
    } else {
        assert(buf + s.subrange(i, n) =~= buf);
    }
}

proof fn lemma_no_scanned_link(s: Seq<char>, i: int)
    requires
        !contains_char(s, '['),
    ensures
        scanned_at(s, i) is None,
        links_of(s).len() == 0,
{
    text_without_brackets_has_no_links(s, |kind: LinkKind, target: Seq<char>| None);
}

/// A text between two double stars is bold, between two stars italic; what stands
/// around it is not.
pub proof fn stars_make_bold_and_italic(before: Seq<char>, text: Seq<char>, behind: Seq<char>)
    requires
        before.len() > 0,
        text.len() > 0,
        behind.len() > 0,
        forall|k: int| 0 <= k < before.len() ==> !is_marker(before[k]) && before[k] != '[',
        forall|k: int| 0 <= k < text.len() ==> !is_marker(text[k]) && text[k] != '[',
        forall|k: int| 0 <= k < behind.len() ==> !is_marker(behind[k]) && behind[k] != '[',
    ensures
        inline_elements(before + seq!['*', '*'] + text + seq!['*', '*'] + behind) == seq![
            InlineModel::Styled { text: before, bold: false, italic: false, code: false },
            InlineModel::Styled { text, bold: true, italic: false, code: false },
            InlineModel::Styled { text: behind, bold: false, italic: false, code: false },
        ],
        inline_elements(before + seq!['*'] + text + seq!['*'] + behind) == seq![
            InlineModel::Styled { text: before, bold: false, italic: false, code: false },
            InlineModel::Styled { text, bold: false, italic: true, code: false },
            InlineModel::Styled { text: behind, bold: false, italic: false, code: false },
        ],
{
    lemma_starred(before, seq!['*', '*'], text, behind);
    lemma_starred(before, seq!['*'], text, behind);
}

proof fn lemma_starred(
    before: Seq<char>,
    mark: Seq<char>,
    text: Seq<char>,
    behind: Seq<char>,
)
    requires
        mark == seq!['*'] || mark == seq!['*', '*'],
        before.len() > 0,
        text.len() > 0,
        behind.len() > 0,
        forall|k: int| 0 <= k < before.len() ==> !is_marker(before[k]) && before[k] != '[',
        forall|k: int| 0 <= k < text.len() ==> !is_marker(text[k]) && text[k] != '[',
        forall|k: int| 0 <= k < behind.len() ==> !is_marker(behind[k]) && behind[k] != '[',
    ensures
        inline_elements(before + mark + text + mark + behind) == seq![
            InlineModel::Styled { text: before, bold: false, italic: false, code: false },
            InlineModel::Styled { text, bold: mark.len() == 2, italic: mark.len() == 1, code: false },
            InlineModel::Styled { text: behind, bold: false, italic: false, code: false },
        ],
{
    reveal(elements_from);
    let s = before + mark + text + mark + behind;
    let w = mark.len() as int;
    let a = before.len() as int;
    let b = a + w + text.len();
    let n = s.len() as int;
    let bold = mark.len() == 2;
    let italic = mark.len() == 1;
    assert(!contains_char(s, '[')) by {
        if contains_char(s, '[') {
            let k = choose|k: int| 0 <= k < s.len() && s[k] == '[';
            if k < a {
                assert(s[k] == before[k]);
            } else if k < a + w {
                assert(s[k] == mark[k - a]);
            } else if k < b {
                assert(s[k] == text[k - a - w]);
            } else if k < b + w {
                assert(s[k] == mark[k - b]);
            } else {
                assert(s[k] == behind[k - b - w]);
            }
        }
    }
    assert forall|k: int| 0 <= k < a implies !is_marker(s[k]) by {
        assert(s[k] == before[k]);
    }
    assert forall|k: int| a + w <= k < b implies !is_marker(s[k]) by {
        assert(s[k] == text[k - a - w]);
    }
    assert forall|k: int| b + w <= k < n implies !is_marker(s[k]) by {
        assert(s[k] == behind[k - b - w]);
    }
    assert(s[a] == '*' && s[b] == '*');
    assert(w == 2 ==> s[a + 1] == '*' && s[b + 1] == '*') by {
        if w == 2 {
            assert(s[a + 1] == mark[1]);
            assert(s[b + 1] == mark[1]);
        }
    }
    assert(s[a + w] != '*') by {
        assert(s[a + w] == text[0]);
    }
    assert(s[b + w] != '*') by {
        assert(s[b + w] == behind[0]);
    }
    lemma_plain_run(s, 0, a, Seq::empty(), false, false);
    assert(Seq::<char>::empty() + s.subrange(0, a) =~= before);
    lemma_plain_run(s, a + w, b, Seq::empty(), bold, italic);
    assert(Seq::<char>::empty() + s.subrange(a + w, b) =~= text);
    lemma_plain_run(s, b + w, n, Seq::empty(), false, false);
    assert(Seq::<char>::empty() + s.subrange(b + w, n) =~= behind);
    let x = InlineModel::Styled { text: before, bold: false, italic: false, code: false };
    let y = InlineModel::Styled { text, bold, italic, code: false };
    let z = InlineModel::Styled { text: behind, bold: false, italic: false, code: false };
    let none = Seq::<char>::empty();
    assert(annotation_end(s, a, None) is None);
    assert(annotation_end(s, b, None) is None);
    assert(elements_from(s, n, behind, false, false, None) == seq![z]);
    assert(elements_from(s, b + w, none, false, false, None) == seq![z]);
    assert(elements_from(s, b, text, bold, italic, None) == seq![y] + elements_from(
        s,
        b + w,
        none,
        false,
        false,
        None,
    ));
    assert(elements_from(s, a + w, none, bold, italic, None) == seq![y] + seq![z]);
    assert(elements_from(s, a, before, false, false, None) == seq![x] + elements_from(
        s,
        a + w,
        none,
        bold,
        italic,
        None,
    ));
    assert(seq![x] + (seq![y] + seq![z]) =~= seq![x, y, z]);
}

/// A wiki link is shown by its name and a markdown link by its label, each leading
/// to its target.
pub proof fn links_are_shown_as_links(l: LinkModel)
    ensures
        l.kind == LinkKind::Wiki ==> link_element(l) == (InlineModel::WikiLink { text: l.target }),
        l.kind == LinkKind::Markdown ==> link_element(l) == (InlineModel::Link {
            label: l.label,
            target: l.target,
        }),
{
}

proof fn lemma_no_brackets(parts: Seq<Seq<char>>, s: Seq<char>)
    requires
        parts.len() == 5,
        s == parts[0] + parts[1] + parts[2] + parts[3] + parts[4],
        forall|i: int| 0 <= i < 5 ==> !contains_char(#[trigger] parts[i], '['),
    ensures
        !contains_char(s, '['),
{
    if contains_char(s, '[') {
        let k = choose|k: int| 0 <= k < s.len() && s[k] == '[';
        let a = parts[0].len() as int;
        let b = a + parts[1].len();
        let c = b + parts[2].len();
        let d = c + parts[3].len();
        if k < a {
            assert(parts[0][k] == '[');
        } else if k < b {
            assert(parts[1][k - a] == '[');
        } else if k < c {
            assert(parts[2][k - b] == '[');
        } else if k < d {
            assert(parts[3][k - c] == '[');
        } else {
            assert(parts[4][k - d] == '[');
        }
    }
}

proof fn lemma_code_run(s: Seq<char>, i: int, n: int, buf: Seq<char>)
    requires
        0 <= i <= n < s.len(),
        !contains_char(s, '['),
        forall|k: int| i <= k < n ==> s[k] != '`' && s[k] != '{',
    ensures
        elements_from(s, i, buf, false, false, Some(n)) == elements_from(
            s,
            n,
            buf + s.subrange(i, n),
            false,
            false,
            Some(n),
        ),
    decreases n - i,
{
    reveal(elements_from);
    if i < n {
        lemma_no_scanned_link(s, i);
        assert(annotation_end(s, i, Some(n)) is None);
        lemma_code_run(s, i + 1, n, buf.push(s[i]));
        assert(buf.push(s[i]) + s.subrange(i + 1, n) =~= buf + s.subrange(i, n));
    } else {
        assert(buf + s.subrange(i, n) =~= buf);
    }
}

proof fn lemma_closing_tick(s: Seq<char>, i: int, n: int)
    requires
        0 <= i <= n,
        n + 1 < s.len(),
        !contains_char(s, '['),
        forall|k: int| i <= k < n ==> s[k] != '`',
        s[n] == '`',
        s[n + 1] != '`',
    ensures
        closing_run_at(s, i, 1) == Some(n),
    decreases n - i,
{
    if i < n {
        lemma_closing_tick(s, i + 1, n);
    } else {
        lemma_no_scanned_link(s, n);
        assert(run_at(s, n + 1) == 0);
        assert(run_at(s, n) == 1);
        assert(!covered(links_of(s), n));
    }
}

/// A text between two backticks is code, and stars in it are kept.
pub proof fn backticks_make_code(before: Seq<char>, text: Seq<char>, behind: Seq<char>)
    requires
        before.len() > 0,
        text.len() > 0,
        behind.len() > 0,
        forall|k: int| 0 <= k < before.len() ==> !is_marker(before[k]) && before[k] != '[',
        forall|k: int|
            0 <= k < text.len() ==> text[k] != '`' && text[k] != '{' && text[k] != '[',
        forall|k: int| 0 <= k < behind.len() ==> !is_marker(behind[k]) && behind[k] != '[',
    ensures
        inline_elements(before + seq!['`'] + text + seq!['`'] + behind) == seq![
            InlineModel::Styled { text: before, bold: false, italic: false, code: false },
            InlineModel::Styled { text, bold: false, italic: false, code: true },
            InlineModel::Styled { text: behind, bold: false, italic: false, code: false },
        ],
{
    reveal(elements_from);
    let s = before + seq!['`'] + text + seq!['`'] + behind;
    let a = before.len() as int;
    let b = a + 1 + text.len();
    let n = s.len() as int;
    lemma_no_brackets(seq![before, seq!['`'], text, seq!['`'], behind], s);
    assert forall|k: int| 0 <= k < a implies !is_marker(s[k]) by {
        assert(s[k] == before[k]);
    }
    assert forall|k: int| a + 1 <= k < b implies s[k] != '`' && s[k] != '{' by {
        assert(s[k] == text[k - a - 1]);
    }
    assert forall|k: int| b + 1 <= k < n implies !is_marker(s[k]) by {
        assert(s[k] == behind[k - b - 1]);
    }
    assert(s[a] == '`' && s[b] == '`');
    assert(s[a + 1] != '`' && s[b + 1] != '`') by {
        assert(s[a + 1] == text[0]);
        assert(s[b + 1] == behind[0]);
    }
    assert(run_at(s, a + 1) == 0);
    assert(run_at(s, a) == 1);
    assert(run_at(s, b + 1) == 0);
    assert(run_at(s, b) == 1);
    lemma_closing_tick(s, a + 1, b);
    lemma_plain_run(s, 0, a, Seq::empty(), false, false);
    assert(Seq::<char>::empty() + s.subrange(0, a) =~= before);
    lemma_code_run(s, a + 1, b, Seq::empty());
    assert(Seq::<char>::empty() + s.subrange(a + 1, b) =~= text);
    lemma_plain_run(s, b + 1, n, Seq::empty(), false, false);
    assert(Seq::<char>::empty() + s.subrange(b + 1, n) =~= behind);
    let x = InlineModel::Styled { text: before, bold: false, italic: false, code: false };
    let y = InlineModel::Styled { text, bold: false, italic: false, code: true };
    let z = InlineModel::Styled { text: behind, bold: false, italic: false, code: false };
    let none = Seq::<char>::empty();
    assert(annotation_end(s, a, None) is None);
    assert(annotation_end(s, b, Some(b)) is None);
    assert(elements_from(s, n, behind, false, false, None) == seq![z]);
    assert(elements_from(s, b + 1, none, false, false, None) == seq![z]);
    assert(elements_from(s, b, text, false, false, Some(b)) == seq![y] + elements_from(
        s,
        b + 1,
        none,
        false,
        false,
        None,
    ));
    assert(elements_from(s, a, before, false, false, None) == seq![x] + elements_from(
        s,
        a + 1,
        none,
        false,
        false,
        Some(b),
    ));
    assert(seq![x] + (seq![y] + seq![z]) =~= seq![x, y, z]);
}

proof fn lemma_annotation_close_at(s: Seq<char>, j: int, n: int)
    requires
        0 <= j <= n,
        n + 1 < s.len(),
        s[n] == '}' && s[n + 1] == '}',
        forall|k: int| j <= k < n ==> s[k] != '}',
    ensures
        annotation_close(s, j, s.len() as int) == Some(n),
    decreases n - j,
{
    if j < n {
        lemma_annotation_close_at(s, j + 1, n);
    }
}

/// A text in double braces is an annotation, with its braces, whatever stands in
/// it.
pub proof fn double_braces_make_an_annotation(
    before: Seq<char>,
    text: Seq<char>,
    behind: Seq<char>,
)
    requires
        before.len() > 0,
        behind.len() > 0,
        forall|k: int| 0 <= k < before.len() ==> !is_marker(before[k]) && before[k] != '[',
        forall|k: int| 0 <= k < text.len() ==> text[k] != '}' && text[k] != '[',
        forall|k: int| 0 <= k < behind.len() ==> !is_marker(behind[k]) && behind[k] != '[',
    ensures
        inline_elements(before + seq!['{', '{'] + text + seq!['}', '}'] + behind) == seq![
            InlineModel::Styled { text: before, bold: false, italic: false, code: false },
            InlineModel::Annotation { text: seq!['{', '{'] + text + seq!['}', '}'] },
            InlineModel::Styled { text: behind, bold: false, italic: false, code: false },
        ],
{
    reveal(elements_from);
    let open = seq!['{', '{'];
    let close = seq!['}', '}'];
    let s = before + open + text + close + behind;
    let a = before.len() as int;
    let b = a + 2 + text.len();
    let n = s.len() as int;
    lemma_no_brackets(seq![before, open, text, close, behind], s);
    assert forall|k: int| 0 <= k < a implies !is_marker(s[k]) by {
        assert(s[k] == before[k]);
    }
    assert forall|k: int| a + 2 <= k < b implies s[k] != '}' by {
        assert(s[k] == text[k - a - 2]);
    }
    assert forall|k: int| b + 2 <= k < n implies !is_marker(s[k]) by {
        assert(s[k] == behind[k - b - 2]);
    }
    assert(s[a] == open[0] && s[a + 1] == open[1]);
    assert(s[b] == close[0] && s[b + 1] == close[1]);
    lemma_annotation_close_at(s, a + 2, b);
    lemma_plain_run(s, 0, a, Seq::empty(), false, false);
    assert(Seq::<char>::empty() + s.subrange(0, a) =~= before);
    lemma_plain_run(s, b + 2, n, Seq::empty(), false, false);
    assert(Seq::<char>::empty() + s.subrange(b + 2, n) =~= behind);
    assert(annotation_end(s, a, None) == Some(b + 2));
    assert(s.subrange(a, b + 2) =~= open + text + close);
    let x = InlineModel::Styled { text: before, bold: false, italic: false, code: false };
    let y = InlineModel::Annotation { text: open + text + close };
    let z = InlineModel::Styled { text: behind, bold: false, italic: false, code: false };
    let none = Seq::<char>::empty();
    assert(elements_from(s, n, behind, false, false, None) == seq![z]);
    assert(elements_from(s, b + 2, none, false, false, None) == seq![z]);
    assert(elements_from(s, a, before, false, false, None) == seq![x] + seq![y] + elements_from(
        s,
        b + 2,
        none,
        false,
        false,
        None,
    ));
    assert(seq![x] + seq![y] + seq![z] =~= seq![x, y, z]);
}

} // verus!
