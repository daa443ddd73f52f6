//! Shared scanner for inline `[[wikilink]]` and `[label](target)` syntax.
//!
//! One walk underlies both link-target extraction and the export and import
//! link rewriters, so the grammar's edge cases live in one place.

use crate::text::{
    byte_len, byte_length, chars_of, contains_char, lemma_byte_len_prefix, lemma_byte_len_step,
    opt_view, string_of, trim_range, trimmed, width_of,
};
use core::ops::Range;
use vstd::prelude::*;

verus! {

/// Which inline-link syntax produced an [`InlineLink`].
#[derive(Debug, Clone, Copy, PartialEq, Eq, Structural)]
pub enum LinkKind {
    /// `[[target]]`
    Wiki,
    /// `[label](target)`
    Markdown,
}

/// A single inline link located within a text run.
#[derive(Debug, PartialEq, Eq)]
pub struct InlineLink {
    pub kind: LinkKind,
    /// The display label. For [`LinkKind::Markdown`] this is the raw text
    /// between `[` and its matching `]`; for [`LinkKind::Wiki`] it equals
    /// `target`.
    pub label: String,
    /// The link target, trimmed of surrounding white space. Never empty.
    pub target: String,
    /// Byte range of the whole construct within the source text.
    pub range: Range<usize>,
}

impl Clone for InlineLink {
    fn clone(&self) -> (copy: Self)
        ensures
            copy == *self,
    {
        InlineLink {
            kind: self.kind,
            label: self.label.clone(),
            target: self.target.clone(),
            range: self.range.start..self.range.end,
        }
    }
}

/// An inline link as the grammar describes it; `start` and `end` count
/// characters.
pub struct LinkModel {
    pub kind: LinkKind,
    pub label: Seq<char>,
    pub target: Seq<char>,
    pub start: int,
    pub end: int,
}

impl InlineLink {
    /// Whether this is the link that `m` describes within `text`.
    pub open spec fn is_link(&self, text: Seq<char>, m: LinkModel) -> bool {
        &&& self.kind == m.kind
        &&& self.label@ == m.label
        &&& self.target@ == m.target
        &&& self.range.start == byte_len(text.take(m.start))
        &&& self.range.end == byte_len(text.take(m.end))
    }
}

/// Whether `found` are the links that `models` describe, one for one.
pub open spec fn are_links(found: Seq<InlineLink>, text: Seq<char>, models: Seq<LinkModel>) -> bool {
    &&& found.len() == models.len()
    &&& forall|i: int| 0 <= i < found.len() ==> (#[trigger] found[i]).is_link(text, models[i])
}

// ---------------------------------------------------------------------------
// The grammar
// ---------------------------------------------------------------------------

/// The first `]]` at or after `i`.
pub open spec fn closing_double_bracket(s: Seq<char>, i: int) -> Option<int>
    decreases s.len() - i,
{
    if i < 0 || i + 1 >= s.len() {
        None
    } else if s[i] == ']' && s[i + 1] == ']' {
        Some(i)
    } else {
        closing_double_bracket(s, i + 1)
    }
}

/// The first `close` at or after `i` that no `open` before it claims, `depth`
/// of them being open at `i`.
pub open spec fn balanced_close(s: Seq<char>, i: int, depth: nat, open: char, close: char) -> Option<
    int,
>
    decreases s.len() - i,
{
    if i < 0 || i >= s.len() {
        None
    } else if s[i] == open {
        balanced_close(s, i + 1, depth + 1, open, close)
    } else if s[i] == close {
        if depth == 0 {
            Some(i)
        } else {
            balanced_close(s, i + 1, (depth - 1) as nat, open, close)
        }
    } else {
        balanced_close(s, i + 1, depth, open, close)
    }
}

/// The `[[target]]` that starts at `i`: closed, and its target not blank.
pub open spec fn wiki_at(s: Seq<char>, i: int) -> Option<LinkModel> {
    if 0 <= i && i + 1 < s.len() && s[i] == '[' && s[i + 1] == '[' {
        match closing_double_bracket(s, i + 2) {
            Some(end) => {
                let target = trimmed(s.subrange(i + 2, end));
                if target.len() > 0 {
                    Some(
                        LinkModel {
                            kind: LinkKind::Wiki,
                            label: target,
                            target: target,
                            start: i,
                            end: end + 2,
                        },
                    )
                } else {
                    None
                }
            },
            None => None,
        }
    } else {
        None
    }
}

/// The `[label](target)` that starts at `i`: brackets and parentheses
/// balanced, and its target not blank.
pub open spec fn markdown_at(s: Seq<char>, i: int) -> Option<LinkModel> {
    if 0 <= i < s.len() && s[i] == '[' {
        match balanced_close(s, i + 1, 0, '[', ']') {
            Some(label_end) => {
                if label_end + 1 < s.len() && s[label_end + 1] == '(' {
                    match balanced_close(s, label_end + 2, 0, '(', ')') {
                        Some(target_end) => {
                            let target = trimmed(s.subrange(label_end + 2, target_end));
                            if target.len() > 0 {
                                Some(
                                    LinkModel {
                                        kind: LinkKind::Markdown,
                                        label: s.subrange(i + 1, label_end),
                                        target: target,
                                        start: i,
                                        end: target_end + 1,
                                    },
                                )
                            } else {
                                None
                            }
                        },
                        None => None,
                    }
                } else {
                    None
                }
            },
            None => None,
        }
    } else {
        None
    }
}

/// The outermost link that starts at `i`, whatever its label nests.
pub open spec fn shallow_link_at(s: Seq<char>, i: int) -> Option<LinkModel> {
    match wiki_at(s, i) {
        Some(l) => Some(l),
        None => markdown_at(s, i),
    }
}

/// The outermost links of `s` from `i` on, in source order.
pub open spec fn shallow_links(s: Seq<char>, i: int) -> Seq<LinkModel>
    decreases s.len() - i,
{
    if i < 0 || i >= s.len() {
        Seq::empty()
    } else {
        match shallow_link_at(s, i) {
            Some(l) => {
                proof {
                    lemma_link_extent(s, i);
                }
                seq![l] + shallow_links(s, l.end)
            },
            None => shallow_links(s, i + 1),
        }
    }
}

/// Whether a link found inside a label is anything but an image.
pub open spec fn is_nested_link(label: Seq<char>, l: LinkModel) -> bool {
    l.kind != LinkKind::Markdown || l.start == 0 || label[l.start - 1] != '!'
}

/// Whether a label holds a link other than an image.
pub open spec fn nests_link(label: Seq<char>) -> bool {
    let inner = shallow_links(label, 0);
    exists|k: int| 0 <= k < inner.len() && is_nested_link(label, #[trigger] inner[k])
}

/// The link that starts at `i`: a wiki link first, else a markdown link whose
/// label nests no link of its own.
pub open spec fn link_at(s: Seq<char>, i: int) -> Option<LinkModel> {
    match wiki_at(s, i) {
        Some(l) => Some(l),
        None => match markdown_at(s, i) {
            Some(l) => if nests_link(l.label) {
                None
            } else {
                Some(l)
            },
            None => None,
        },
    }
}

/// The links of `s` from `i` on, in source order.
pub open spec fn links_from(s: Seq<char>, i: int) -> Seq<LinkModel>
    decreases s.len() - i,
{
    if i < 0 || i >= s.len() {
        Seq::empty()
    } else {
        match link_at(s, i) {
            Some(l) => {
                proof {
                    lemma_link_extent(s, i);
                }
                seq![l] + links_from(s, l.end)
            },
            None => links_from(s, i + 1),
        }
    }
}

/// The links of `s`, in source order.
pub open spec fn links_of(s: Seq<char>) -> Seq<LinkModel> {
    links_from(s, 0)
}

proof fn lemma_closing_double_bracket(s: Seq<char>, i: int)
    requires
        0 <= i,
    ensures
        closing_double_bracket(s, i) matches Some(k) ==> i <= k && k + 1 < s.len(),
    decreases s.len() - i,
{
    if i + 1 < s.len() && !(s[i] == ']' && s[i + 1] == ']') {
        lemma_closing_double_bracket(s, i + 1);
    }
}

proof fn lemma_balanced_close(s: Seq<char>, i: int, depth: nat, open: char, close: char)
    requires
        0 <= i,
    ensures
        balanced_close(s, i, depth, open, close) matches Some(k) ==> i <= k < s.len() && s[k]
            == close,
    decreases s.len() - i,
{
    if i < s.len() {
        if s[i] == open {
            lemma_balanced_close(s, i + 1, depth + 1, open, close);
        } else if s[i] == close {
            if depth > 0 {
                lemma_balanced_close(s, i + 1, (depth - 1) as nat, open, close);
            }
        } else {
            lemma_balanced_close(s, i + 1, depth, open, close);
        }
    }
}

/// A link lies inside the text, starts where it is found and is not empty.
pub proof fn lemma_link_extent(s: Seq<char>, i: int)
    ensures
        wiki_at(s, i) matches Some(l) ==> 0 <= i == l.start < l.end <= s.len() && l.target.len() > 0
            && l.kind == LinkKind::Wiki && l.label == l.target,
        markdown_at(s, i) matches Some(l) ==> 0 <= i == l.start < l.end <= s.len() && l.target.len()
            > 0 && l.kind == LinkKind::Markdown,
{
    if 0 <= i {
        lemma_closing_double_bracket(s, i + 2);
        lemma_balanced_close(s, i + 1, 0, '[', ']');
        if let Some(label_end) = balanced_close(s, i + 1, 0, '[', ']') {
            lemma_balanced_close(s, label_end + 2, 0, '(', ')');
        }
    }
}

// ---------------------------------------------------------------------------
// Laws of the scanner
// ---------------------------------------------------------------------------

/// Links come in source order, do not overlap, lie inside the text and have a
/// target that is not empty.
pub proof fn links_are_ordered(s: Seq<char>, i: int)
    requires
        0 <= i,
    ensures
        forall|k: int|
            0 <= k < links_from(s, i).len() ==> {
                let l = #[trigger] links_from(s, i)[k];
                i <= l.start < l.end <= s.len() && l.target.len() > 0
            },
        forall|j: int, k: int|
            0 <= j < k < links_from(s, i).len() ==> (#[trigger] links_from(s, i)[j]).end <= (
            #[trigger] links_from(s, i)[k]).start,
    decreases s.len() - i,
{
    if i < s.len() {
        lemma_link_extent(s, i);
        match link_at(s, i) {
            Some(l) => {
                links_are_ordered(s, l.end);
                let rest = links_from(s, l.end);
                let all = links_from(s, i);
                assert(all =~= seq![l] + rest);
                assert forall|k: int| 0 <= k < all.len() implies {
                    let m = #[trigger] all[k];
                    i <= m.start < m.end <= s.len() && m.target.len() > 0
                } by {
                    if k > 0 {
                        assert(all[k] == rest[k - 1]);
                    }
                }
                assert forall|j: int, k: int| 0 <= j < k < all.len() implies (
                #[trigger] all[j]).end <= (#[trigger] all[k]).start by {
                    assert(all[k] == rest[k - 1]);
                    if j > 0 {
                        assert(all[j] == rest[j - 1]);
                    }
                }
            },
            None => {
                links_are_ordered(s, i + 1);
            },
        }
    }
}

// ---------------------------------------------------------------------------
// Scanning
// ---------------------------------------------------------------------------

/// Where a link and its parts stand, in characters.
#[derive(Debug, Clone, Copy)]
pub struct LinkSpan {
    pub kind: LinkKind,
    pub label_from: usize,
    pub label_to: usize,
    pub target_from: usize,
    pub target_to: usize,
    pub from: usize,
    pub to: usize,
}

impl LinkSpan {
    /// The link that the span cuts out of `s`.
    pub open spec fn model(self, s: Seq<char>) -> LinkModel {
        LinkModel {
            kind: self.kind,
            label: s.subrange(self.label_from as int, self.label_to as int),
            target: s.subrange(self.target_from as int, self.target_to as int),
            start: self.from as int,
            end: self.to as int,
        }
    }

    pub open spec fn fits(self, s: Seq<char>) -> bool {
        &&& self.from < self.to <= s.len()
        &&& self.from <= self.label_from <= self.label_to <= self.to
        &&& self.from <= self.target_from <= self.target_to <= self.to
    }
}

pub open spec fn span_model(s: Seq<char>, span: Option<LinkSpan>) -> Option<LinkModel> {
    match span {
        Some(p) => Some(p.model(s)),
        None => None,
    }
}

fn find_closing_double_bracket(v: &Vec<char>, start: usize) -> (found: Option<usize>)
    ensures
        match found {
            Some(k) => closing_double_bracket(v@, start as int) == Some(k as int) && start <= k && k
                + 1 < v@.len(),
            None => closing_double_bracket(v@, start as int) is None,
        },
{
    let mut i: usize = start;
    while i < v.len() && v.len() - i > 1
        invariant
            start <= i,
            closing_double_bracket(v@, start as int) == closing_double_bracket(v@, i as int),
        decreases v.len() - i,
    {
        if v[i] == ']' && v[i + 1] == ']' {
            return Some(i);
        }
        i += 1;
    }
    None
}

fn find_balanced_close(v: &Vec<char>, start: usize, open: char, close: char) -> (found: Option<
    usize,
>)
    ensures
        match found {
            Some(k) => balanced_close(v@, start as int, 0, open, close) == Some(k as int) && start
                <= k < v@.len(),
            None => balanced_close(v@, start as int, 0, open, close) is None,
        },
{
    let mut i: usize = start;
    let mut depth: usize = 0;
    while i < v.len()
        invariant
            start <= i,
            depth <= i - start,
            balanced_close(v@, start as int, 0, open, close) == balanced_close(
                v@,
                i as int,
                depth as nat,
                open,
                close,
            ),
        decreases v.len() - i,
    {
        if v[i] == open {
            depth += 1;
        } else if v[i] == close {
            if depth == 0 {
                return Some(i);
            }
            depth -= 1;
        }
        i += 1;
    }
    None
}

/// The `]` that closes the bracket opened just before `start`.
fn find_balanced_close_bracket(v: &Vec<char>, start: usize) -> (found: Option<usize>)
    ensures
        match found {
            Some(k) => balanced_close(v@, start as int, 0, '[', ']') == Some(k as int) && start <= k
                < v@.len(),
            None => balanced_close(v@, start as int, 0, '[', ']') is None,
        },
{
    find_balanced_close(v, start, '[', ']')
}

/// The `)` that closes the parenthesis opened just before `start`.
fn find_balanced_close_paren(v: &Vec<char>, start: usize) -> (found: Option<usize>)
    ensures
        match found {
            Some(k) => balanced_close(v@, start as int, 0, '(', ')') == Some(k as int) && start <= k
                < v@.len(),
            None => balanced_close(v@, start as int, 0, '(', ')') is None,
        },
{
    find_balanced_close(v, start, '(', ')')
}

fn wiki_span_at(v: &Vec<char>, i: usize) -> (found: Option<LinkSpan>)
    requires
        i < v@.len(),
    ensures
        span_model(v@, found) == wiki_at(v@, i as int),
        found matches Some(p) ==> p.fits(v@) && p.from == i,
{
    if v.len() - i > 1 && v[i] == '[' && v[i + 1] == '[' {
        if let Some(end) = find_closing_double_bracket(v, i + 2) {
            let t = trim_range(v, i + 2, end);
            if t.0 < t.1 {
                return Some(
                    LinkSpan {
                        kind: LinkKind::Wiki,
                        label_from: t.0,
                        label_to: t.1,
                        target_from: t.0,
                        target_to: t.1,
                        from: i,
                        to: end + 2,
                    },
                );
            }
        }
    }
    None
}

fn markdown_span_at(v: &Vec<char>, i: usize) -> (found: Option<LinkSpan>)
    requires
        i < v.len(),
    ensures
        span_model(v@, found) == markdown_at(v@, i as int),
        found matches Some(p) ==> p.fits(v@) && p.from == i,
{
    if v[i] != '[' {
        return None;
    }
    if let Some(label_end) = find_balanced_close_bracket(v, i + 1) {
        if v.len() - label_end > 1 && v[label_end + 1] == '(' {
            if let Some(target_end) = find_balanced_close_paren(v, label_end + 2) {
                let t = trim_range(v, label_end + 2, target_end);
                if t.0 < t.1 {
                    return Some(
                        LinkSpan {
                            kind: LinkKind::Markdown,
                            label_from: i + 1,
                            label_to: label_end,
                            target_from: t.0,
                            target_to: t.1,
                            from: i,
                            to: target_end + 1,
                        },
                    );
                }
            }
        }
    }
    None
}

/// Reports whether `label` contains a link other than an image.
fn nests_a_link(label: &Vec<char>) -> (nests: bool)
    ensures
        nests == nests_link(label@),
{
    let ghost s = label@;
    let ghost all = shallow_links(s, 0);
    let ghost mut seen: int = 0;
    let mut i: usize = 0;
    assert(all.skip(0) =~= all);
    while i < label.len()
        invariant
            s == label@,
            all == shallow_links(s, 0),
            i <= label@.len(),
            0 <= seen <= all.len(),
            all.skip(seen) == shallow_links(s, i as int),
            forall|k: int| 0 <= k < seen ==> !is_nested_link(s, #[trigger] all[k]),
        decreases label.len() - i,
    {
        let span = match wiki_span_at(label, i) {
            Some(p) => Some(p),
            None => markdown_span_at(label, i),
        };
        match span {
            Some(p) => {
                proof {
                    let rest = shallow_links(s, p.to as int);
                    assert(all.skip(seen) == seq![p.model(s)] + rest);
                    assert(all[seen] == all.skip(seen)[0]);
                    assert(all.skip(seen + 1) =~= all.skip(seen).skip(1));
                    assert(all.skip(seen).skip(1) =~= rest);
                }
                if p.kind != LinkKind::Markdown || p.from == 0 || label[p.from - 1] != '!' {
                    assert(is_nested_link(s, all[seen]));
                    return true;
                }
                proof {
                    seen = seen + 1;
                }
                i = p.to;
            },
            None => {
                i += 1;
            },
        }
    }
    assert(all.skip(seen).len() == 0);
    false
}

/// The characters `from..to` of a vector.
fn chars_between(v: &Vec<char>, from: usize, to: usize) -> (out: Vec<char>)
    requires
        from <= to <= v@.len(),
    ensures
        out@ == v@.subrange(from as int, to as int),
{
    let mut out: Vec<char> = Vec::new();
    let mut i: usize = from;
    while i < to
        invariant
            from <= i <= to <= v@.len(),
            out@ == v@.subrange(from as int, i as int),
        decreases to - i,
    {
        out.push(v[i]);
        assert(v@.subrange(from as int, i as int).push(v@[i as int]) =~= v@.subrange(
            from as int,
            i as int + 1,
        ));
        i += 1;
    }
    out
}

/// The link that starts at `i`.
pub fn link_span_at(v: &Vec<char>, i: usize) -> (found: Option<LinkSpan>)
    requires
        i < v@.len(),
    ensures
        span_model(v@, found) == link_at(v@, i as int),
        found matches Some(p) ==> p.fits(v@) && p.from == i,
{
    match wiki_span_at(v, i) {
        Some(p) => Some(p),
        None => match markdown_span_at(v, i) {
            Some(p) => {
                let label = chars_between(v, p.label_from, p.label_to);
                if nests_a_link(&label) {
                    None
                } else {
                    Some(p)
                }
            },
            None => None,
        },
    }
}

/// The walk that [`scan_inline_links`] starts: what is left of the text, and
/// how many bytes lie behind.
pub struct InlineLinks {
    chars: Vec<char>,
    at: usize,
    offset: usize,
    total: usize,
}

impl InlineLinks {
    /// The text that is walked.
    pub closed spec fn text(&self) -> Seq<char> {
        self.chars@
    }

    /// The links that are still to come.
    pub closed spec fn rest(&self) -> Seq<LinkModel> {
        links_from(self.chars@, self.at as int)
    }

    pub closed spec fn wf(&self) -> bool {
        &&& self.at <= self.chars@.len()
        &&& self.offset == byte_len(self.chars@.take(self.at as int))
        &&& self.total == byte_len(self.chars@)
    }

    /// The next link, or `None` at the end of the text.
    pub fn next(&mut self) -> (found: Option<InlineLink>)
        requires
            old(self).wf(),
        ensures
            final(self).wf(),
            final(self).text() == old(self).text(),
            match found {
                Some(l) => old(self).rest().len() > 0 && l.is_link(
                    old(self).text(),
                    old(self).rest()[0],
                ) && final(self).rest() == old(self).rest().skip(1),
                None => old(self).rest().len() == 0 && final(self).rest().len() == 0,
            },
    {
        let ghost s = self.chars@;
        let ghost whole = self.rest();
        while self.at < self.chars.len()
            invariant
                self.wf(),
                self.chars@ == s,
                s == old(self).text(),
                self.rest() == whole,
                whole == old(self).rest(),
            decreases self.chars.len() - self.at,
        {
            let i: usize = self.at;
            match link_span_at(&self.chars, i) {
                Some(p) => {
                    let start: usize = self.offset;
                    self.advance(p.to);
                    let label = string_of(&self.chars, p.label_from, p.label_to);
                    let target = string_of(&self.chars, p.target_from, p.target_to);
                    assert(whole =~= seq![p.model(s)] + links_from(s, p.to as int));
                    assert(whole.skip(1) =~= links_from(s, p.to as int));
                    return Some(
                        InlineLink { kind: p.kind, label, target, range: start..self.offset },
                    );
                },
                None => {
                    self.advance(i + 1);
                },
            }
        }
        None
    }

    fn advance(&mut self, to: usize)
        requires
            old(self).wf(),
            old(self).at <= to <= old(self).chars@.len(),
        ensures
            final(self).wf(),
            final(self).chars@ == old(self).chars@,
            final(self).at == to,
    {
        let ghost s = self.chars@;
        while self.at < to
            invariant
                self.wf(),
                self.chars@ == s,
                s == old(self).chars@,
                self.at <= to <= s.len(),
            decreases to - self.at,
        {
            proof {
                lemma_byte_len_step(s, self.at as int);
                lemma_byte_len_prefix(s, self.at as int + 1);
            }
            let w: usize = width_of(self.chars[self.at]);
            self.offset = self.offset + w;
            self.at = self.at + 1;
        }
    }

    /// All the links that are still to come.
    pub fn collect(self) -> (found: Vec<InlineLink>)
        requires
            self.wf(),
        ensures
            are_links(found@, self.text(), self.rest()),
    {
        let mut walk = self;
        let mut found: Vec<InlineLink> = Vec::new();
        let ghost all = self.rest();
        let ghost s = self.text();
        assert(all.skip(0) =~= all);
        loop
            invariant
                walk.wf(),
                walk.text() == s,
                found@.len() <= all.len(),
                walk.rest() == all.skip(found@.len() as int),
                are_links(found@, s, all.take(found@.len() as int)),
            ensures
                found@.len() == all.len(),
                are_links(found@, s, all.take(found@.len() as int)),
            decreases all.len() - found@.len(),
        {
            match walk.next() {
                Some(l) => {
                    proof {
                        let n = found@.len() as int;
                        assert(all.skip(n)[0] == all[n]);
                        assert(all.skip(n).skip(1) =~= all.skip(n + 1));
                        assert(all.take(n + 1).take(n) =~= all.take(n));
                        assert forall|k: int| 0 <= k < n + 1 implies (#[trigger] found@.push(
                            l,
                        )[k]).is_link(s, all.take(n + 1)[k]) by {
                            if k < n {
                                assert(found@[k].is_link(s, all.take(n)[k]));
                            }
                        }
                    }
                    found.push(l);
                },
                None => {
                    break;
                },
            }
        }
        assert(all.take(all.len() as int) =~= all);
        found
    }
}

/// Walks `text` and yields each `[[wikilink]]` / `[label](target)` it contains,
/// in source order.
///
/// Links whose target is blank are skipped, and `[[wiki]]` is matched before
/// `[label](target)` at each position.
///
/// A `[label](target)` label may contain brackets and its target parentheses,
/// as long as each balances; an unbalanced `[` or `(` yields no link at that
/// position. A label may nest an image, and the outer target is the one
/// reported; a label nesting a link of its own is not a label at all, so the
/// nested link is reported instead. A link inside an image's alt text is part
/// of the image, so it does not count. Backslash escapes are not interpreted.
pub fn scan_inline_links(text: &str) -> (walk: InlineLinks)
    ensures
        walk.wf(),
        walk.text() == text@,
        walk.rest() == links_of(text@),
{
    let chars = chars_of(text);
    let total: usize = byte_length(text);
    assert(chars@.take(0) =~= Seq::<char>::empty());
    InlineLinks { chars, at: 0, offset: 0, total }
}

/// Whether `spans` cut the links `models` out of `s`, one for one.
pub open spec fn are_spans(spans: Seq<LinkSpan>, s: Seq<char>, models: Seq<LinkModel>) -> bool {
    &&& spans.len() == models.len()
    &&& forall|k: int|
        0 <= k < spans.len() ==> (#[trigger] spans[k]).fits(s) && spans[k].model(s) == models[k]
}

/// Where the links of a text stand.
pub fn link_spans(v: &Vec<char>) -> (spans: Vec<LinkSpan>)
    ensures
        are_spans(spans@, v@, links_of(v@)),
{
    let ghost s = v@;
    let ghost all = links_of(s);
    let mut spans: Vec<LinkSpan> = Vec::new();
    let mut i: usize = 0;
    assert(all.skip(0) =~= all);
    while i < v.len()
        invariant
            s == v@,
            i <= v@.len(),
            all == links_of(s),
            spans@.len() <= all.len(),
            all.skip(spans@.len() as int) == links_from(s, i as int),
            forall|k: int|
                0 <= k < spans@.len() ==> (#[trigger] spans@[k]).fits(s) && spans@[k].model(s)
                    == all[k],
        decreases v.len() - i,
    {
        match link_span_at(v, i) {
            Some(p) => {
                proof {
                    let n = spans@.len() as int;
                    let rest = links_from(s, p.to as int);
                    assert(all.skip(n) == seq![p.model(s)] + rest);
                    assert(all[n] == all.skip(n)[0]);
                    assert(all.skip(n + 1) =~= all.skip(n).skip(1));
                    assert(all.skip(n).skip(1) =~= rest);
                }
                spans.push(p);
                i = p.to;
            },
            None => {
                i += 1;
            },
        }
    }
    assert(all.skip(spans@.len() as int).len() == 0);
    spans
}

// ---------------------------------------------------------------------------
// Rewriting
// ---------------------------------------------------------------------------

/// Whether `rewrite` can be asked about every link.
pub open spec fn callable<F: Fn(LinkKind, &str) -> Option<String>>(rewrite: F) -> bool {
    forall|kind: LinkKind, target: &str| #[trigger] call_requires(rewrite, (kind, target))
}

/// Whether `policy` tells what `rewrite` answers.
pub open spec fn answers<F: Fn(LinkKind, &str) -> Option<String>>(
    rewrite: F,
    policy: spec_fn(LinkKind, Seq<char>) -> Option<Seq<char>>,
) -> bool {
    forall|kind: LinkKind, target: &str, answer: Option<String>|
        #[trigger] call_ensures(rewrite, (kind, target), answer) ==> opt_view(answer) == policy(
            kind,
            target@,
        )
}

/// What stands in place of a link: `[label](new target)`, or the link's own
/// characters where the policy gives no new target.
pub open spec fn replacement(s: Seq<char>, l: LinkModel, answer: Option<Seq<char>>) -> Seq<char> {
    match answer {
        Some(t) => seq!['['] + l.label + "]("@ + t + seq![')'],
        None => s.subrange(l.start, l.end),
    }
}

/// `s` from `i` on with each of its links rewritten.
pub open spec fn rewritten_from(
    s: Seq<char>,
    i: int,
    policy: spec_fn(LinkKind, Seq<char>) -> Option<Seq<char>>,
) -> Seq<char>
    decreases s.len() - i,
{
    if i < 0 || i >= s.len() {
        Seq::empty()
    } else {
        match link_at(s, i) {
            Some(l) => {
                proof {
                    lemma_link_extent(s, i);
                }
                replacement(s, l, policy(l.kind, l.target)) + rewritten_from(s, l.end, policy)
            },
            None => seq![s[i]] + rewritten_from(s, i + 1, policy),
        }
    }
}

/// `s` with each of its links rewritten as `policy` says, and everything else
/// left as it is.
pub open spec fn rewritten(
    s: Seq<char>,
    policy: spec_fn(LinkKind, Seq<char>) -> Option<Seq<char>>,
) -> Seq<char> {
    rewritten_from(s, 0, policy)
}

/// What a rewriter is asked about the links of a text, in their order: the kind
/// and the target of each.
pub open spec fn questions(s: Seq<char>) -> Seq<(LinkKind, Seq<char>)> {
    Seq::new(links_of(s).len(), |k: int| (links_of(s)[k].kind, links_of(s)[k].target))
}

/// Whether `heard` is an answer that `rewrite` may give about a target.
pub open spec fn may_answer<F: Fn(LinkKind, &str) -> Option<String>>(
    rewrite: F,
    kind: LinkKind,
    target: Seq<char>,
    heard: Option<Seq<char>>,
) -> bool {
    exists|t: &str, answer: Option<String>|
        t@ == target && #[trigger] call_ensures(rewrite, (kind, t), answer) && opt_view(answer)
            == heard
}

/// Whether `given` are answers that `rewrite` may give to what it is asked, one
/// for each question.
pub open spec fn were_given<F: Fn(LinkKind, &str) -> Option<String>>(
    rewrite: F,
    asked: Seq<(LinkKind, Seq<char>)>,
    given: Seq<Option<Seq<char>>>,
) -> bool {
    &&& given.len() == asked.len()
    &&& forall|k: int|
        0 <= k < given.len() ==> may_answer(rewrite, asked[k].0, asked[k].1, #[trigger] given[k])
}

/// `s` from `i` on with each of its links replaced as the next answer says.
pub open spec fn answered_from(s: Seq<char>, i: int, given: Seq<Option<Seq<char>>>) -> Seq<char>
    decreases s.len() - i,
{
    if i < 0 || i >= s.len() {
        Seq::empty()
    } else {
        match link_at(s, i) {
            Some(l) => {
                proof {
                    lemma_link_extent(s, i);
                }
                replacement(s, l, given[0]) + answered_from(s, l.end, given.skip(1))
            },
            None => seq![s[i]] + answered_from(s, i + 1, given),
        }
    }
}

/// `s` with its links replaced as the answers say, one for each link in their
/// order, and everything else left as it is.
pub open spec fn answered(s: Seq<char>, given: Seq<Option<Seq<char>>>) -> Seq<char> {
    answered_from(s, 0, given)
}

/// The answers that a policy gives.
pub open spec fn policy_answers(
    asked: Seq<(LinkKind, Seq<char>)>,
    policy: spec_fn(LinkKind, Seq<char>) -> Option<Seq<char>>,
) -> Seq<Option<Seq<char>>> {
    Seq::new(asked.len(), |k: int| policy(asked[k].0, asked[k].1))
}

proof fn lemma_policy_from(
    s: Seq<char>,
    i: int,
    given: Seq<Option<Seq<char>>>,
    policy: spec_fn(LinkKind, Seq<char>) -> Option<Seq<char>>,
)
    requires
        0 <= i <= s.len(),
        given.len() == links_from(s, i).len(),
        forall|k: int|
            0 <= k < given.len() ==> #[trigger] given[k] == policy(
                links_from(s, i)[k].kind,
                links_from(s, i)[k].target,
            ),
    ensures
        answered_from(s, i, given) == rewritten_from(s, i, policy),
    decreases s.len() - i,
{
    if i < s.len() {
        lemma_link_extent(s, i);
        match link_at(s, i) {
            Some(l) => {
                let rest = links_from(s, l.end);
                assert(links_from(s, i) == seq![l] + rest);
                assert(links_from(s, i)[0] == l);
                assert(given[0] == policy(l.kind, l.target));
                let later = given.skip(1);
                assert forall|k: int| 0 <= k < later.len() implies #[trigger] later[k] == policy(
                    rest[k].kind,
                    rest[k].target,
                ) by {
                    assert(later[k] == given[k + 1]);
                    assert(links_from(s, i)[k + 1] == rest[k]);
                }
                lemma_policy_from(s, l.end, later, policy);
            },
            None => {
                lemma_policy_from(s, i + 1, given, policy);
            },
        }
    }
}

/// Answers that follow a policy rewrite a text as the policy says.
pub proof fn answers_by_a_policy_rewrite_by_it(
    s: Seq<char>,
    policy: spec_fn(LinkKind, Seq<char>) -> Option<Seq<char>>,
)
    ensures
        answered(s, policy_answers(questions(s), policy)) == rewritten(s, policy),
{
    lemma_policy_from(s, 0, policy_answers(questions(s), policy), policy);
}

/// Where no answer is a new target, the text stays as it is.
pub proof fn replacing_nothing_is_identity(s: Seq<char>, given: Seq<Option<Seq<char>>>)
    requires
        given.len() == links_of(s).len(),
        forall|k: int| 0 <= k < given.len() ==> #[trigger] given[k] is None,
    ensures
        answered(s, given) == s,
{
    let policy = |kind: LinkKind, target: Seq<char>| None::<Seq<char>>;
    lemma_policy_from(s, 0, given, policy);
    rewriting_nothing_is_identity(s, policy);
}

proof fn lemma_given_by_policy<F: Fn(LinkKind, &str) -> Option<String>>(
    rewrite: F,
    asked: Seq<(LinkKind, Seq<char>)>,
    given: Seq<Option<Seq<char>>>,
    policy: spec_fn(LinkKind, Seq<char>) -> Option<Seq<char>>,
)
    requires
        answers(rewrite, policy),
        were_given(rewrite, asked, given),
    ensures
        given == policy_answers(asked, policy),
{
    assert forall|k: int| 0 <= k < given.len() implies #[trigger] given[k] == policy(
        asked[k].0,
        asked[k].1,
    ) by {
        let (t, answer): (&str, Option<String>) = choose|t: &str, answer: Option<String>|
            t@ == asked[k].1 && #[trigger] call_ensures(rewrite, (asked[k].0, t), answer)
                && opt_view(answer) == given[k];
        assert(may_answer(rewrite, asked[k].0, asked[k].1, given[k]));
    }
    assert(given =~= policy_answers(asked, policy));
}

/// Rewrites the inline links in `text`, leaving everything else intact.
///
/// For each link, `rewrite(kind, target)` may return `Some(new_target)` to
/// replace it, rendered as `[label](new_target)`, where wiki links use their
/// target as the label, or `None` to leave the original span verbatim.
pub fn rewrite_inline_links<F: Fn(LinkKind, &str) -> Option<String>>(
    text: &str,
    rewrite: F,
) -> (out: String)
    requires
        callable(rewrite),
    ensures
        exists|given: Seq<Option<Seq<char>>>| #[trigger]
            were_given(rewrite, questions(text@), given) && out@ == answered(text@, given),
        forall|policy: spec_fn(LinkKind, Seq<char>) -> Option<Seq<char>>| #[trigger]
            answers(rewrite, policy) ==> out@ == rewritten(text@, policy),
{
    rewrite_links_with(text, &rewrite)
}

/// [`rewrite_inline_links`] with a borrowed callback.
pub fn rewrite_links_with<F: Fn(LinkKind, &str) -> Option<String>>(
    text: &str,
    rewrite: &F,
) -> (out: String)
    requires
        callable(*rewrite),
    ensures
        exists|given: Seq<Option<Seq<char>>>| #[trigger]
            were_given(*rewrite, questions(text@), given) && out@ == answered(text@, given),
        forall|policy: spec_fn(LinkKind, Seq<char>) -> Option<Seq<char>>| #[trigger]
            answers(*rewrite, policy) ==> out@ == rewritten(text@, policy),
{
    let v = chars_of(text);
    let ghost s = text@;
    let ghost all = links_of(s);
    let ghost asked = questions(s);
    let ghost mut given: Seq<Option<Seq<char>>> = Seq::empty();
    let mut out = String::new();
    let mut i: usize = 0;
    proof {
        assert(all.skip(0) =~= all);
        assert forall|more: Seq<Option<Seq<char>>>| out@ + #[trigger] answered_from(s, 0, more)
            == answered(s, given + more) by {
            assert(given + more =~= more);
            assert(out@ + answered_from(s, 0, more) =~= answered_from(s, 0, more));
        }
    }
    while i < v.len()
        invariant
            v@ == s,
            s == text@,
            i <= v@.len(),
            all == links_of(s),
            asked == questions(s),
            callable(*rewrite),
            given.len() <= all.len(),
            all.skip(given.len() as int) == links_from(s, i as int),
            forall|k: int|
                0 <= k < given.len() ==> may_answer(
                    *rewrite,
                    asked[k].0,
                    asked[k].1,
                    #[trigger] given[k],
                ),
            forall|more: Seq<Option<Seq<char>>>|
                out@ + #[trigger] answered_from(s, i as int, more) == answered(s, given + more),
        decreases v.len() - i,
    {
        let ghost before = out@;
        let ghost sofar = given;
        match link_span_at(&v, i) {
            Some(p) => {
                let target = string_of(&v, p.target_from, p.target_to);
                let answer = rewrite(p.kind, target.as_str());
                let ghost heard = opt_view(answer);
                let ghost link = p.model(s);
                proof {
                    let n = sofar.len() as int;
                    assert(all.skip(n) == seq![link] + links_from(s, p.to as int));
                    assert(all[n] == all.skip(n)[0]);
                    assert(all.skip(n + 1) =~= all.skip(n).skip(1));
                    assert(all.skip(n).skip(1) =~= links_from(s, p.to as int));
                    assert(target@ == link.target);
                    assert(may_answer(*rewrite, asked[n].0, asked[n].1, heard));
                    given = sofar.push(heard);
                }
                match answer {
                    Some(new_target) => {
                        let label = string_of(&v, p.label_from, p.label_to);
                        out.push('[');
                        out.push_str(label.as_str());
                        out.push_str("](");
                        out.push_str(new_target.as_str());
                        out.push(')');
                    },
                    None => {
                        let span = string_of(&v, p.from, p.to);
                        out.push_str(span.as_str());
                    },
                }
                assert(out@ =~= before + replacement(s, link, heard));
                assert forall|more: Seq<Option<Seq<char>>>|
                    out@ + #[trigger] answered_from(s, p.to as int, more) == answered(
                        s,
                        given + more,
                    ) by {
                    let rest = seq![heard] + more;
                    assert(rest.skip(1) =~= more);
                    assert(sofar + rest =~= given + more);
                    assert(before + answered_from(s, i as int, rest) == answered(s, sofar + rest));
                    assert(out@ + answered_from(s, p.to as int, more) =~= before + answered_from(
                        s,
                        i as int,
                        rest,
                    ));
                }
                i = p.to;
            },
            None => {
                out.push(v[i]);
                assert forall|more: Seq<Option<Seq<char>>>|
                    out@ + #[trigger] answered_from(s, i as int + 1, more) == answered(
                        s,
                        given + more,
                    ) by {
                    assert(before + answered_from(s, i as int, more) == answered(s, given + more));
                    assert(out@ + answered_from(s, i as int + 1, more) =~= before
                        + answered_from(s, i as int, more));
                }
                i += 1;
            },
        }
    }
    proof {
        let none = Seq::<Option<Seq<char>>>::empty();
        assert(given + none =~= given);
        assert(out@ + answered_from(s, i as int, none) =~= out@);
        assert(all.skip(given.len() as int).len() == 0);
        assert(were_given(*rewrite, questions(s), given));
        assert forall|policy: spec_fn(LinkKind, Seq<char>) -> Option<Seq<char>>| #[trigger]
            answers(*rewrite, policy) implies out@ == rewritten(s, policy) by {
            lemma_given_by_policy(*rewrite, asked, given, policy);
            answers_by_a_policy_rewrite_by_it(s, policy);
        }
    }
    out
}

/// A policy that gives no new target leaves every text as it is.
pub proof fn rewriting_nothing_is_identity(
    s: Seq<char>,
    policy: spec_fn(LinkKind, Seq<char>) -> Option<Seq<char>>,
)
    requires
        forall|kind: LinkKind, target: Seq<char>| #[trigger] policy(kind, target) is None,
    ensures
        rewritten(s, policy) == s,
{
    lemma_rewriting_nothing_from(s, 0, policy);
    assert(s.skip(0) =~= s);
}

proof fn lemma_rewriting_nothing_from(
    s: Seq<char>,
    i: int,
    policy: spec_fn(LinkKind, Seq<char>) -> Option<Seq<char>>,
)
    requires
        0 <= i <= s.len(),
        forall|kind: LinkKind, target: Seq<char>| #[trigger] policy(kind, target) is None,
    ensures
        rewritten_from(s, i, policy) == s.skip(i),
    decreases s.len() - i,
{
    if i < s.len() {
        lemma_link_extent(s, i);
        match link_at(s, i) {
            Some(l) => {
                lemma_rewriting_nothing_from(s, l.end, policy);
                assert(policy(l.kind, l.target) is None);
                assert(s.subrange(l.start, l.end) + s.skip(l.end) =~= s.skip(i));
            },
            None => {
                lemma_rewriting_nothing_from(s, i + 1, policy);
                assert(seq![s[i]] + s.skip(i + 1) =~= s.skip(i));
            },
        }
    }
}

// ---------------------------------------------------------------------------
// What is a link
// ---------------------------------------------------------------------------

proof fn lemma_no_link_before(s: Seq<char>, i: int, n: int)
    requires
        0 <= i <= n <= s.len(),
        forall|k: int| i <= k < n ==> s[k] != '[',
    ensures
        links_from(s, i) == links_from(s, n),
    decreases n - i,
{
    if i < n {
        lemma_no_link_before(s, i + 1, n);
    }
}

proof fn lemma_kept_before(s: Seq<char>, i: int, n: int, policy: spec_fn(LinkKind, Seq<char>) -> Option<Seq<char>>)
    requires
        0 <= i <= n <= s.len(),
        forall|k: int| i <= k < n ==> s[k] != '[',
    ensures
        rewritten_from(s, i, policy) == s.subrange(i, n) + rewritten_from(s, n, policy),
    decreases n - i,
{
    if i < n {
        lemma_kept_before(s, i + 1, n, policy);
        assert(s.subrange(i, n) + rewritten_from(s, n, policy) =~= seq![s[i]] + (s.subrange(
            i + 1,
            n,
        ) + rewritten_from(s, n, policy)));
    } else {
        assert(s.subrange(i, n) + rewritten_from(s, n, policy) =~= rewritten_from(s, n, policy));
    }
}

pub proof fn lemma_double_bracket_at(s: Seq<char>, i: int, n: int)
    requires
        0 <= i <= n,
        n + 1 < s.len(),
        s[n] == ']',
        s[n + 1] == ']',
        forall|k: int| i <= k < n ==> s[k] != ']',
    ensures
        closing_double_bracket(s, i) == Some(n),
    decreases n - i,
{
    if i < n {
        lemma_double_bracket_at(s, i + 1, n);
    }
}

proof fn lemma_balanced_at(s: Seq<char>, i: int, n: int, open: char, close: char)
    requires
        0 <= i <= n < s.len(),
        open != close,
        s[n] == close,
        forall|k: int| i <= k < n ==> s[k] != open && s[k] != close,
    ensures
        balanced_close(s, i, 0, open, close) == Some(n),
    decreases n - i,
{
    if i < n {
        lemma_balanced_at(s, i + 1, n, open, close);
    }
}

proof fn lemma_no_shallow_links(s: Seq<char>, i: int)
    requires
        0 <= i,
        !contains_char(s, '['),
    ensures
        shallow_links(s, i).len() == 0,
    decreases s.len() - i,
{
    if i < s.len() {
        assert(s[i] != '[');
        lemma_no_shallow_links(s, i + 1);
    }
}

/// A text without brackets has no links, and is left as it is by every rewriting.
pub proof fn text_without_brackets_has_no_links(s: Seq<char>, policy: spec_fn(LinkKind, Seq<char>) -> Option<Seq<char>>)
    requires
        !contains_char(s, '['),
    ensures
        links_of(s).len() == 0,
        rewritten(s, policy) == s,
{
    assert forall|k: int| 0 <= k < s.len() implies s[k] != '[' by {
        if s[k] == '[' {
            assert(contains_char(s, '['));
        }
    }
    lemma_no_link_before(s, 0, s.len() as int);
    lemma_kept_before(s, 0, s.len() as int, policy);
    assert(s.subrange(0, s.len() as int) + rewritten_from(s, s.len() as int, policy) =~= s);
}

proof fn lemma_single_link(
    before: Seq<char>,
    middle: Seq<char>,
    behind: Seq<char>,
    link: LinkModel,
    policy: spec_fn(LinkKind, Seq<char>) -> Option<Seq<char>>,
)
    requires
        !contains_char(before, '['),
        !contains_char(behind, '['),
        middle.len() > 0,
        link_at(before + middle + behind, before.len() as int) == Some(link),
        link.start == before.len(),
        link.end == before.len() + middle.len(),
    ensures
        links_of(before + middle + behind) == seq![link],
        rewritten(before + middle + behind, policy) == before + replacement(
            before + middle + behind,
            link,
            policy(link.kind, link.target),
        ) + behind,
        (before + middle + behind).subrange(link.start, link.end) == middle,
{
    let s = before + middle + behind;
    let i = before.len() as int;
    let n = i + middle.len();
    assert forall|k: int| 0 <= k < i implies s[k] != '[' by {
        assert(s[k] == before[k]);
    }
    assert forall|k: int| n <= k < s.len() implies s[k] != '[' by {
        assert(s[k] == behind[k - n]);
    }
    lemma_no_link_before(s, 0, i);
    lemma_no_link_before(s, n, s.len() as int);
    assert(links_from(s, n) =~= Seq::<LinkModel>::empty());
    assert(links_from(s, i) =~= seq![link]);
    lemma_kept_before(s, 0, i, policy);
    lemma_kept_before(s, n, s.len() as int, policy);
    assert(rewritten_from(s, s.len() as int, policy) =~= Seq::<char>::empty());
    assert(s.subrange(0, i) =~= before);
    assert(s.subrange(n, s.len() as int) =~= behind);
    assert(rewritten_from(s, n, policy) =~= behind);
    assert(s.subrange(i, n) =~= middle);
    let answer = policy(link.kind, link.target);
    assert(before + (replacement(s, link, answer) + behind) =~= before + replacement(
        s,
        link,
        answer,
    ) + behind);
}

/// A name in double brackets is a wiki link: its target and its label are the
/// name, without the white space around it. A rewriting puts a markdown link with
/// the name as label in its place where it has an answer for the name, and leaves
/// it as it is where it has none. What stands around it stays.
#[verifier::rlimit(40)]
pub proof fn a_name_in_double_brackets_is_a_link(
    before: Seq<char>,
    name: Seq<char>,
    behind: Seq<char>,
    policy: spec_fn(LinkKind, Seq<char>) -> Option<Seq<char>>,
)
    requires
        !contains_char(before, '['),
        !contains_char(name, ']'),
        !contains_char(behind, '['),
        trimmed(name).len() > 0,
    ensures
        ({
            let s = before + "[["@ + name + "]]"@ + behind;
            &&& links_of(s) == seq![
                LinkModel {
                    kind: LinkKind::Wiki,
                    label: trimmed(name),
                    target: trimmed(name),
                    start: before.len() as int,
                    end: before.len() as int + name.len() + 4,
                },
            ]
            &&& policy(LinkKind::Wiki, trimmed(name)) is None ==> rewritten(s, policy) == s
            &&& forall|t: Seq<char>|
                policy(LinkKind::Wiki, trimmed(name)) == Some(t) ==> #[trigger] rewritten(s, policy)
                    == before + "["@ + trimmed(name) + "]("@ + t + ")"@ + behind
        }),
{
    reveal_strlit("[[");
    reveal_strlit("]]");
    reveal_strlit("[");
    reveal_strlit("](");
    reveal_strlit(")");
    let s = before + "[["@ + name + "]]"@ + behind;
    let i = before.len() as int;
    let n = i + 2 + name.len();
    assert forall|k: int| 0 <= k < i implies s[k] != '[' by {
        assert(s[k] == before[k]);
    }
    assert(s[i] == '[' && s[i + 1] == '[');
    assert forall|k: int| i + 2 <= k < n implies s[k] != ']' by {
        assert(s[k] == name[k - i - 2]);
    }
    assert(s[n] == ']' && s[n + 1] == ']');
    lemma_double_bracket_at(s, i + 2, n);
    assert(s.subrange(i + 2, n) =~= name);
    let link = LinkModel {
        kind: LinkKind::Wiki,
        label: trimmed(name),
        target: trimmed(name),
        start: i,
        end: n + 2,
    };
    assert(wiki_at(s, i) == Some(link));
    assert(link_at(s, i) == Some(link));
    let middle = "[["@ + name + "]]"@;
    assert(s =~= before + middle + behind);
    lemma_single_link(before, middle, behind, link, policy);
    let answer = policy(LinkKind::Wiki, trimmed(name));
    if answer is None {
        assert(before + middle + behind =~= s);
    } else {
        let t = answer->0;
        assert(before + (seq!['['] + trimmed(name) + "]("@ + t + seq![')']) + behind =~= before
            + "["@ + trimmed(name) + "]("@ + t + ")"@ + behind);
    }
}

/// A label in brackets with a target in parentheses behind it is a markdown link
/// to the target, without the white space around it. A rewriting puts its answer
/// for the target in the place of the target, and nothing else changes.
#[verifier::rlimit(40)]
pub proof fn a_label_with_a_target_is_a_link(
    before: Seq<char>,
    label: Seq<char>,
    target: Seq<char>,
    behind: Seq<char>,
    policy: spec_fn(LinkKind, Seq<char>) -> Option<Seq<char>>,
)
    requires
        !contains_char(before, '['),
        !contains_char(label, '['),
        !contains_char(label, ']'),
        !contains_char(target, '('),
        !contains_char(target, ')'),
        !contains_char(behind, '['),
        trimmed(target).len() > 0,
    ensures
        ({
            let s = before + "["@ + label + "]("@ + target + ")"@ + behind;
            &&& links_of(s) == seq![
                LinkModel {
                    kind: LinkKind::Markdown,
                    label,
                    target: trimmed(target),
                    start: before.len() as int,
                    end: before.len() as int + label.len() + target.len() + 4,
                },
            ]
            &&& links_of(s).len() > 0 && links_of(s)[0].kind == LinkKind::Markdown
            &&& links_of(s)[0].label == label && links_of(s)[0].target == trimmed(target)
            &&& policy(LinkKind::Markdown, trimmed(target)) is None ==> rewritten(s, policy) == s
            &&& forall|t: Seq<char>|
                policy(LinkKind::Markdown, trimmed(target)) == Some(t) ==> #[trigger] rewritten(
                    s,
                    policy,
                ) == before + "["@ + label + "]("@ + t + ")"@ + behind
        }),
{
    reveal_strlit("[");
    reveal_strlit(")");
    let s = before + "["@ + label + "]("@ + target + ")"@ + behind;
    let link = LinkModel {
        kind: LinkKind::Markdown,
        label,
        target: trimmed(target),
        start: before.len() as int,
        end: before.len() as int + label.len() + target.len() + 4,
    };
    lemma_markdown_link(before, label, target, behind);
    let middle = "["@ + label + "]("@ + target + ")"@;
    reveal_strlit("](");
    assert(s =~= before + middle + behind);
    lemma_single_link(before, middle, behind, link, policy);
    let answer = policy(LinkKind::Markdown, trimmed(target));
    if answer is None {
        assert(before + middle + behind =~= s);
    } else {
        let t = answer->0;
        assert(before + (seq!['['] + label + "]("@ + t + seq![')']) + behind =~= before + "["@
            + label + "]("@ + t + ")"@ + behind);
    }
}

proof fn lemma_markdown_link(
    before: Seq<char>,
    label: Seq<char>,
    target: Seq<char>,
    behind: Seq<char>,
)
    requires
        !contains_char(label, '['),
        !contains_char(label, ']'),
        !contains_char(target, '('),
        !contains_char(target, ')'),
        trimmed(target).len() > 0,
    ensures
        link_at(
            before + "["@ + label + "]("@ + target + ")"@ + behind,
            before.len() as int,
        ) == Some(
            LinkModel {
                kind: LinkKind::Markdown,
                label,
                target: trimmed(target),
                start: before.len() as int,
                end: before.len() as int + label.len() + target.len() + 4,
            },
        ),
{
    reveal_strlit("[");
    reveal_strlit("](");
    reveal_strlit(")");
    let s = before + "["@ + label + "]("@ + target + ")"@ + behind;
    let i = before.len() as int;
    let m = i + 1 + label.len();
    let n = m + 2 + target.len();
    assert(s[i] == '[');
    assert forall|k: int| i + 1 <= k < m implies s[k] != '[' && s[k] != ']' by {
        assert(s[k] == label[k - i - 1]);
    }
    assert(s[m] == ']' && s[m + 1] == '(');
    assert forall|k: int| m + 2 <= k < n implies s[k] != '(' && s[k] != ')' by {
        assert(s[k] == target[k - m - 2]);
    }
    assert(s[n] == ')');
    lemma_balanced_at(s, i + 1, m, '[', ']');
    lemma_balanced_at(s, m + 2, n, '(', ')');
    assert(s.subrange(i + 1, m) =~= label);
    assert(s.subrange(m + 2, n) =~= target);
    assert(s[i + 1] != '[');
    lemma_no_shallow_links(label, 0);
    assert(wiki_at(s, i) is None);
    assert(!nests_link(label));
}

} // verus!
