//! Link targets: finding them in content, and telling their kinds apart.

use crate::inline_link::{are_spans, link_spans, links_of, LinkModel};
use crate::json::JsonModel;
use crate::model::{item_views, lemma_list_view, node_views, Node, NodeModel};
use crate::parse::{
    a_picture_is_a_link_to_its_address, children_of, every_snippet_has_its_node, is_among, node_of,
    page_content, type_of,
};
use crate::text::{
    a_prefix_is_stripped, ascii_hex, ascii_lowered, chars_of, contains, contains_char, copy_of,
    find_from, find_text, is_ascii_hex, lemma_concat, lemma_find_from, lemma_find_is_contains,
    lemma_views_push, matches_at, opt_view, same_text, split_char, split_on, starts_with, string_of,
    text_contains, text_starts_with, to_ascii_lower, trim, trim_end, trim_start, trimmed, views,
    whitespace,
};
use vstd::prelude::*;

verus! {

/// The targets of some links, in order.
pub open spec fn targets_of(links: Seq<LinkModel>) -> Seq<Seq<char>> {
    Seq::new(links.len(), |i: int| links[i].target)
}

/// The link targets of a node: the url of a link, and the targets of the
/// inline links in its text.
pub open spec fn node_link_targets(node: NodeModel) -> Seq<Seq<char>>
    decreases node,
{
    match node {
        NodeModel::Link { text, url } => seq![url],
        NodeModel::Paragraph { text } => targets_of(links_of(text)),
        NodeModel::Text { text } => targets_of(links_of(text)),
        NodeModel::Quote { text } => targets_of(links_of(text)),
        NodeModel::Heading { level, text } => targets_of(links_of(text)),
        NodeModel::List { items } => item_link_targets(items),
        _ => Seq::empty(),
    }
}

pub open spec fn item_link_targets(items: Seq<Seq<NodeModel>>) -> Seq<Seq<char>>
    decreases items,
{
    if items.len() == 0 {
        Seq::empty()
    } else {
        item_link_targets(items.take(items.len() - 1)) + link_targets(items[items.len() - 1])
    }
}

/// The link targets of some nodes, in order.
pub open spec fn link_targets(nodes: Seq<NodeModel>) -> Seq<Seq<char>>
    decreases nodes,
{
    if nodes.len() == 0 {
        Seq::empty()
    } else {
        link_targets(nodes.take(nodes.len() - 1)) + node_link_targets(nodes[nodes.len() - 1])
    }
}

/// Appends the targets of the inline links of `text`, in source order.
pub fn extract_inline_link_targets(text: &str, out: &mut Vec<String>)
    ensures
        views(final(out)@) == views(old(out)@) + targets_of(links_of(text@)),
{
    let v = chars_of(text);
    let spans = link_spans(&v);
    let ghost all = targets_of(links_of(text@));
    let ghost before = views(out@);
    let mut i: usize = 0;
    assert(before + all.take(0) =~= before);
    while i < spans.len()
        invariant
            i <= spans@.len(),
            v@ == text@,
            are_spans(spans@, v@, links_of(text@)),
            all == targets_of(links_of(text@)),
            views(out@) == before + all.take(i as int),
        decreases spans.len() - i,
    {
        assert(spans@[i as int].model(v@) == links_of(text@)[i as int]);
        let target = string_of(&v, spans[i].target_from, spans[i].target_to);
        proof {
            lemma_views_push(out@, target);
            assert((before + all.take(i as int)).push(target@) =~= before + all.take(i as int + 1));
        }
        out.push(target);
        i += 1;
    }
    assert(all.take(i as int) =~= all);
}

fn node_targets(node: &Node, out: &mut Vec<String>)
    ensures
        views(final(out)@) == views(old(out)@) + node_link_targets(node@),
    decreases node,
{
    let ghost before = views(out@);
    match node {
        Node::Link { url, .. } => {
            let target = copy_of(url.as_str());
            proof {
                lemma_views_push(out@, target);
                assert(before.push(target@) =~= before + seq![url@]);
            }
            out.push(target);
        },
        Node::Paragraph { text } => {
            extract_inline_link_targets(text.as_str(), out);
        },
        Node::Text { text } => {
            extract_inline_link_targets(text.as_str(), out);
        },
        Node::Quote { text } => {
            extract_inline_link_targets(text.as_str(), out);
        },
        Node::Heading { text, .. } => {
            extract_inline_link_targets(text.as_str(), out);
        },
        Node::List { items } => {
            let ghost all = item_views(items@);
            let mut i: usize = 0;
            proof {
                lemma_list_view(*node);
                assert(all.take(0) =~= Seq::<Seq<NodeModel>>::empty());
                assert(before + item_link_targets(all.take(0)) =~= before);
            }
            while i < items.len()
                invariant
                    i <= items@.len(),
                    all == item_views(items@),
                    *node == (Node::List { items: *items }),
                    views(out@) == before + item_link_targets(all.take(i as int)),
                decreases items.len() - i,
            {
                proof {
                    assert(node->items == *items);
                    assert(decreases_to!(*node => node->items));
                    assert(decreases_to!(*items => items@));
                    assert(decreases_to!(items@ => items@[i as int]));
                    let next = all.take(i as int + 1);
                    assert(next.take(next.len() - 1) =~= all.take(i as int));
                    assert(next[next.len() - 1] == node_views(items@[i as int]@));
                    lemma_concat(
                        before,
                        item_link_targets(all.take(i as int)),
                        link_targets(node_views(items@[i as int]@)),
                    );
                }
                collect_link_targets(&items[i], out);
                i += 1;
            }
            assert(all.take(i as int) =~= all);
        },
        _ => {
            assert(before + Seq::<Seq<char>>::empty() =~= before);
        },
    }
}

fn collect_link_targets(nodes: &Vec<Node>, out: &mut Vec<String>)
    ensures
        views(final(out)@) == views(old(out)@) + link_targets(node_views(nodes@)),
    decreases nodes,
{
    let ghost all = node_views(nodes@);
    let ghost before = views(out@);
    let mut i: usize = 0;
    proof {
        assert(all.take(0) =~= Seq::<NodeModel>::empty());
        assert(before + link_targets(all.take(0)) =~= before);
    }
    while i < nodes.len()
        invariant
            i <= nodes@.len(),
            all == node_views(nodes@),
            views(out@) == before + link_targets(all.take(i as int)),
        decreases nodes.len() - i,
    {
        proof {
            assert(decreases_to!(*nodes => nodes@));
            assert(decreases_to!(nodes@ => nodes@[i as int]));
            let next = all.take(i as int + 1);
            assert(next.take(next.len() - 1) =~= all.take(i as int));
            assert(next[next.len() - 1] == nodes@[i as int]@);
            lemma_concat(
                before,
                link_targets(all.take(i as int)),
                node_link_targets(nodes@[i as int]@),
            );
        }
        node_targets(&nodes[i], out);
        i += 1;
    }
    assert(all.take(i as int) =~= all);
}

/// Extracts raw link target strings from a node tree.
///
/// Finds explicit `Node::Link` urls plus inline `[label](target)` and
/// `[[wikilink]]` syntax in text-bearing nodes.
pub fn extract_link_targets(nodes: &Vec<Node>) -> (out: Vec<String>)
    ensures
        views(out@) == link_targets(node_views(nodes@)),
{
    let mut out: Vec<String> = Vec::new();
    collect_link_targets(nodes, &mut out);
    assert(views(out@) =~= link_targets(node_views(nodes@)));
    out
}

// ---------------------------------------------------------------------------
// External targets
// ---------------------------------------------------------------------------

/// Whether `s` starts with `pat` once its ASCII letters are lowercased.
pub open spec fn starts_with_any_case(s: Seq<char>, pat: Seq<char>) -> bool {
    s.len() >= pat.len() && forall|i: int|
        0 <= i < pat.len() ==> to_ascii_lower(#[trigger] s[i]) == pat[i]
}

/// Whether a target names something outside the knowledge base: a well-known
/// scheme in any case, or anything with a scheme separator.
pub open spec fn external_target(target: Seq<char>) -> bool {
    ||| starts_with_any_case(target, "http://"@)
    ||| starts_with_any_case(target, "https://"@)
    ||| starts_with_any_case(target, "mailto:"@)
    ||| starts_with_any_case(target, "file://"@)
    ||| contains(target, "://"@)
}

/// Whether `haystack` starts with the lower-case `needle` in any ASCII case.
fn starts_with_ignore_ascii_case(haystack: &str, needle: &str) -> (b: bool)
    ensures
        b == starts_with_any_case(haystack@, needle@),
{
    let h = chars_of(haystack);
    let n = chars_of(needle);
    if h.len() < n.len() {
        return false;
    }
    let mut i: usize = 0;
    while i < n.len()
        invariant
            h@ == haystack@,
            n@ == needle@,
            h@.len() >= n@.len(),
            i <= n@.len(),
            forall|k: int| 0 <= k < i ==> to_ascii_lower(#[trigger] haystack@[k]) == needle@[k],
        decreases n.len() - i,
    {
        if ascii_lowered(h[i]) != n[i] {
            assert(to_ascii_lower(haystack@[i as int]) != needle@[i as int]);
            return false;
        }
        i += 1;
    }
    true
}

fn contains_scheme_separator(target: &str) -> (b: bool)
    ensures
        b == contains(target@, "://"@),
{
    text_contains(target, "://")
}

/// Whether a target is a URL or another target with a scheme.
pub fn is_external_target(target: &str) -> (b: bool)
    ensures
        b == external_target(target@),
{
    starts_with_ignore_ascii_case(target, "http://") || starts_with_ignore_ascii_case(
        target,
        "https://",
    ) || starts_with_ignore_ascii_case(target, "mailto:") || starts_with_ignore_ascii_case(
        target,
        "file://",
    ) || contains_scheme_separator(target)
}

// ---------------------------------------------------------------------------
// Attachments
// ---------------------------------------------------------------------------

/// The part of a target from `attachments/` on: the whole target where it
/// starts with it; else from its first occurrence behind a slash; else from its
/// first occurrence.
pub open spec fn attachment_relative(target: Seq<char>) -> Option<Seq<char>> {
    if starts_with(target, "attachments/"@) {
        Some(target)
    } else if let Some(k) = find_from(target, 0, "/attachments/"@) {
        Some(target.skip(k + 1))
    } else if let Some(k) = find_from(target, 0, "attachments/"@) {
        Some(target.skip(k))
    } else {
        None
    }
}

/// The path of an attachment below the knowledge base, if the target names one.
pub fn extract_attachment_relative(target: &str) -> (found: Option<String>)
    ensures
        opt_view(found) == attachment_relative(target@),
{
    if text_starts_with(target, "attachments/") {
        return Some(copy_of(target));
    }
    let v = chars_of(target);
    proof {
        lemma_find_from(target@, 0, "/attachments/"@);
        lemma_find_from(target@, 0, "attachments/"@);
        reveal_strlit("/attachments/");
    }
    if let Some(k) = find_text(&v, 0, "/attachments/") {
        let rest = string_of(&v, k + 1, v.len());
        assert(rest@ =~= target@.skip(k + 1));
        return Some(rest);
    }
    if let Some(k) = find_text(&v, 0, "attachments/") {
        let rest = string_of(&v, k, v.len());
        assert(rest@ =~= target@.skip(k as int));
        return Some(rest);
    }
    None
}

/// Attachment resolution failures.
#[derive(Debug, Clone, PartialEq, Eq)]
pub enum AttachmentError {
    /// The attachment target was empty.
    Empty,
    /// The attachment target was not recognized.
    NotAttachment(String),
    /// The attachment path escapes the knowledge base root.
    EscapesRoot(String),
    /// The attachment was not found.
    Missing(String),
}

/// What an [`AttachmentError`] holds.
pub enum AttachmentFault {
    Empty,
    NotAttachment(Seq<char>),
    EscapesRoot(Seq<char>),
    Missing(Seq<char>),
}

impl View for AttachmentError {
    type V = AttachmentFault;

    open spec fn view(&self) -> AttachmentFault {
        match self {
            AttachmentError::Empty => AttachmentFault::Empty,
            AttachmentError::NotAttachment(t) => AttachmentFault::NotAttachment(t@),
            AttachmentError::EscapesRoot(t) => AttachmentFault::EscapesRoot(t@),
            AttachmentError::Missing(t) => AttachmentFault::Missing(t@),
        }
    }
}

/// How a fault reads.
pub open spec fn fault_message(fault: AttachmentFault) -> Seq<char> {
    match fault {
        AttachmentFault::Empty => "attachment target was empty"@,
        AttachmentFault::NotAttachment(t) => "attachment target not recognized: "@ + t,
        AttachmentFault::EscapesRoot(t) => "attachment path escapes knowledge base root: "@ + t,
        AttachmentFault::Missing(t) => "attachment not found: "@ + t,
    }
}

impl AttachmentError {
    /// The message that tells a reader what went wrong.
    pub fn message(&self) -> (out: String)
        ensures
            out@ == fault_message(self@),
    {
        let mut out = String::new();
        match self {
            AttachmentError::Empty => {
                out.push_str("attachment target was empty");
                assert(out@ =~= "attachment target was empty"@);
            },
            AttachmentError::NotAttachment(t) => {
                out.push_str("attachment target not recognized: ");
                out.push_str(t.as_str());
                assert(out@ =~= "attachment target not recognized: "@ + t@);
            },
            AttachmentError::EscapesRoot(t) => {
                out.push_str("attachment path escapes knowledge base root: ");
                out.push_str(t.as_str());
                assert(out@ =~= "attachment path escapes knowledge base root: "@ + t@);
            },
            AttachmentError::Missing(t) => {
                out.push_str("attachment not found: ");
                out.push_str(t.as_str());
                assert(out@ =~= "attachment not found: "@ + t@);
            },
        }
        out
    }
}

/// Whether one of the components of a `/`-separated path is `..`.
pub open spec fn climbs(path: Seq<char>) -> bool {
    exists|k: int|
        0 <= k < split_on(path, '/').len() && #[trigger] split_on(path, '/')[k] == ".."@
}

/// A relative path that stays below where it starts: trimmed, not empty, not
/// absolute, with no `..` in it.
pub open spec fn sane_relative(rel: Seq<char>) -> Result<Seq<char>, AttachmentFault> {
    let t = trimmed(rel);
    if t.len() == 0 {
        Err(AttachmentFault::Empty)
    } else if starts_with(t, "/"@) || climbs(t) {
        Err(AttachmentFault::EscapesRoot(t))
    } else {
        Ok(t)
    }
}

pub open spec fn path_result(r: Result<String, AttachmentError>) -> Result<
    Seq<char>,
    AttachmentFault,
> {
    match r {
        Ok(p) => Ok(p@),
        Err(e) => Err(e@),
    }
}

/// Refuses a relative path that would leave the directory it starts in.
pub fn sanitize_relative_path(rel: &str) -> (r: Result<String, AttachmentError>)
    ensures
        path_result(r) == sane_relative(rel@),
{
    let t = trim(rel);
    if t.as_str().is_empty() {
        return Err(AttachmentError::Empty);
    }
    if text_starts_with(t.as_str(), "/") {
        return Err(AttachmentError::EscapesRoot(t));
    }
    let parts = split_char(t.as_str(), '/');
    let ghost all = split_on(t@, '/');
    let mut i: usize = 0;
    while i < parts.len()
        invariant
            i <= parts@.len(),
            views(parts@) == all,
            all == split_on(t@, '/'),
            t@ == trimmed(rel@),
            t@.len() > 0,
            forall|k: int| 0 <= k < i ==> #[trigger] all[k] != ".."@,
        decreases parts.len() - i,
    {
        assert(all[i as int] == parts@[i as int]@);
        if same_text(parts[i].as_str(), "..") {
            assert(climbs(t@));
            return Err(AttachmentError::EscapesRoot(t));
        }
        i += 1;
    }
    Ok(t)
}

/// A path below a directory.
pub open spec fn joined_path(root: Seq<char>, rel: Seq<char>) -> Seq<char> {
    if root.len() == 0 {
        rel
    } else if root.last() == '/' {
        root + rel
    } else {
        root + "/"@ + rel
    }
}

/// The path of `rel` below the directory `root`.
pub fn join_path(root: &str, rel: &str) -> (out: String)
    ensures
        out@ == joined_path(root@, rel@),
{
    let v = chars_of(root);
    let mut out = copy_of(root);
    if v.len() > 0 && v[v.len() - 1] != '/' {
        out.push_str("/");
    }
    out.push_str(rel);
    assert(out@ =~= joined_path(root@, rel@));
    out
}

/// The components of a `/`-separated path among its pieces: those that are
/// neither empty nor `.`.
pub open spec fn kept_parts(pieces: Seq<Seq<char>>) -> Seq<Seq<char>>
    decreases pieces.len(),
{
    if pieces.len() == 0 {
        Seq::empty()
    } else if pieces.last().len() == 0 || pieces.last() == "."@ {
        kept_parts(pieces.drop_last())
    } else {
        kept_parts(pieces.drop_last()).push(pieces.last())
    }
}

/// The components of a `/`-separated path.
pub open spec fn path_parts(path: Seq<char>) -> Seq<Seq<char>> {
    kept_parts(split_on(path, '/'))
}

/// Whether two paths are spellings of one: both absolute or both relative, with
/// the same components.
pub open spec fn same_path(a: Seq<char>, b: Seq<char>) -> bool {
    starts_with(a, "/"@) == starts_with(b, "/"@) && path_parts(a) == path_parts(b)
}

/// Whether one of some paths is a spelling of `path`.
pub open spec fn holds_path(paths: Seq<Seq<char>>, path: Seq<char>) -> bool {
    exists|k: int| 0 <= k < paths.len() && same_path(#[trigger] paths[k], path)
}

fn components_of(path: &str) -> (parts: Vec<String>)
    ensures
        views(parts@) == path_parts(path@),
{
    let pieces = split_char(path, '/');
    let ghost all = views(pieces@);
    let mut parts: Vec<String> = Vec::new();
    let mut i: usize = 0;
    assert(all.take(0) =~= Seq::<Seq<char>>::empty());
    assert(views(parts@) =~= Seq::<Seq<char>>::empty());
    while i < pieces.len()
        invariant
            i <= pieces@.len(),
            all == views(pieces@),
            views(parts@) == kept_parts(all.take(i as int)),
        decreases pieces.len() - i,
    {
        assert(all.take(i as int + 1).drop_last() =~= all.take(i as int));
        assert(all.take(i as int + 1).last() == pieces@[i as int]@);
        if !pieces[i].as_str().is_empty() && !same_text(pieces[i].as_str(), ".") {
            let part = copy_of(pieces[i].as_str());
            proof {
                lemma_views_push(parts@, part);
            }
            parts.push(part);
        }
        i += 1;
    }
    assert(all.take(i as int) =~= all);
    parts
}

fn same_parts(a: &Vec<String>, b: &Vec<String>) -> (same: bool)
    ensures
        same == (views(a@) == views(b@)),
{
    if a.len() != b.len() {
        assert(views(a@).len() != views(b@).len());
        return false;
    }
    let mut i: usize = 0;
    while i < a.len()
        invariant
            a@.len() == b@.len(),
            i <= a@.len(),
            forall|k: int| 0 <= k < i ==> (#[trigger] a@[k])@ == b@[k]@,
        decreases a.len() - i,
    {
        if !same_text(a[i].as_str(), b[i].as_str()) {
            assert(views(a@)[i as int] != views(b@)[i as int]);
            return false;
        }
        i += 1;
    }
    assert(views(a@) =~= views(b@));
    true
}

/// Whether one of some paths is a spelling of `path`.
pub fn has_path(paths: &Vec<String>, path: &str) -> (found: bool)
    ensures
        found == holds_path(views(paths@), path@),
{
    let parts = components_of(path);
    let absolute = text_starts_with(path, "/");
    let mut i: usize = 0;
    while i < paths.len()
        invariant
            i <= paths@.len(),
            views(parts@) == path_parts(path@),
            absolute == starts_with(path@, "/"@),
            forall|k: int| 0 <= k < i ==> !same_path(#[trigger] views(paths@)[k], path@),
        decreases paths.len() - i,
    {
        let other = paths[i].as_str();
        assert(views(paths@)[i as int] == other@);
        let here = components_of(other);
        if text_starts_with(other, "/") == absolute && same_parts(&here, &parts) {
            assert(same_path(views(paths@)[i as int], path@));
            return true;
        }
        i += 1;
    }
    false
}

/// Being spellings of one path sorts paths into kinds: each is a spelling of
/// itself, and two spellings of a third are spellings of one another.
pub proof fn spellings_name_one_path(a: Seq<char>, b: Seq<char>, c: Seq<char>)
    ensures
        same_path(a, a),
        same_path(a, b) == same_path(b, a),
        same_path(a, b) && same_path(b, c) ==> same_path(a, c),
{
}

/// Resolved attachment target.
#[derive(Debug, Clone, PartialEq, Eq)]
pub struct ResolvedAttachment {
    /// Full path to the attachment.
    pub path: String,
    /// Whether the attachment exists on disk.
    pub exists: bool,
}

/// Resolves attachment targets relative to the knowledge base root.
#[derive(Debug, Clone, PartialEq, Eq)]
pub struct AttachmentResolver {
    root: String,
}

/// Where the attachment that a target names lies, below `root`.
pub open spec fn located(root: Seq<char>, raw: Seq<char>) -> Result<Seq<char>, AttachmentFault> {
    let target = trimmed(raw);
    if target.len() == 0 {
        Err(AttachmentFault::Empty)
    } else {
        match attachment_relative(target) {
            None => Err(AttachmentFault::NotAttachment(target)),
            Some(rel) => match sane_relative(rel) {
                Err(e) => Err(e),
                Ok(p) => Ok(joined_path(root, p)),
            },
        }
    }
}

proof fn lemma_trim_keeps_start(s: Seq<char>, n: int)
    requires
        0 < n <= s.len(),
        !whitespace(s[n - 1]),
    ensures
        trim_end(s).len() >= n,
        trim_end(s).take(n) == s.take(n),
    decreases s.len(),
{
    if whitespace(s.last()) {
        lemma_trim_keeps_start(s.drop_last(), n);
        assert(s.drop_last().take(n) =~= s.take(n));
    }
}

proof fn lemma_attachment_relative(target: Seq<char>)
    ensures
        attachment_relative(target) matches Some(rel) ==> starts_with(rel, "attachments/"@),
{
    let behind = "/attachments/"@;
    let pat = "attachments/"@;
    reveal_strlit("/attachments/");
    reveal_strlit("attachments/");
    assert(behind.skip(1) =~= pat);
    lemma_find_from(target, 0, behind);
    lemma_find_from(target, 0, pat);
    if let Some(k) = find_from(target, 0, behind) {
        assert(target.skip(k + 1).subrange(0, 12) =~= target.subrange(k, k + 13).skip(1));
    }
    if let Some(k) = find_from(target, 0, pat) {
        assert(target.skip(k).subrange(0, 12) =~= target.subrange(k, k + 12));
    }
}

/// Whatever a target says, the attachment that it names lies in the directory
/// of attachments below the root, on a path that never climbs.
pub proof fn attachments_lie_below_the_root(root: Seq<char>, raw: Seq<char>, path: Seq<char>)
    requires
        located(root, raw) == Result::<Seq<char>, AttachmentFault>::Ok(path),
    ensures
        exists|rel: Seq<char>| #[trigger]
            joined_path(root, rel) == path && starts_with(rel, "attachments/"@) && !climbs(rel),
{
    let rel = attachment_relative(trimmed(raw))->0;
    let t = trimmed(rel);
    reveal_strlit("attachments/");
    lemma_attachment_relative(trimmed(raw));
    assert(rel.subrange(0, 12)[0] == rel[0] && rel.subrange(0, 12)[11] == rel[11]);
    assert(trim_start(rel) == rel);
    lemma_trim_keeps_start(rel, 12);
    assert(t.subrange(0, 12) =~= t.take(12));
    assert(rel.subrange(0, 12) =~= rel.take(12));
    assert(joined_path(root, t) == path);
}

impl AttachmentResolver {
    /// The directory that targets are resolved in.
    pub closed spec fn root_path(&self) -> Seq<char> {
        self.root@
    }

    /// Creates a resolver rooted at the knowledge base path.
    pub fn new(root: &str) -> (resolver: Self)
        ensures
            resolver.root_path() == root@,
    {
        AttachmentResolver { root: copy_of(root) }
    }

    /// Where the attachment lies, whether or not it is there.
    fn locate(&self, raw: &str) -> (r: Result<String, AttachmentError>)
        ensures
            path_result(r) == located(self.root_path(), raw@),
    {
        let target = trim(raw);
        if target.as_str().is_empty() {
            return Err(AttachmentError::Empty);
        }
        match extract_attachment_relative(target.as_str()) {
            None => Err(AttachmentError::NotAttachment(target)),
            Some(rel) => match sanitize_relative_path(rel.as_str()) {
                Err(e) => Err(e),
                Ok(p) => Ok(join_path(self.root.as_str(), p.as_str())),
            },
        }
    }

    /// Resolves an attachment target to a path and existence flag, which
    /// `probe` tells for the path.
    pub fn resolve<P: Fn(&str) -> bool>(&self, raw: &str, probe: P) -> (r: Result<
        ResolvedAttachment,
        AttachmentError,
    >)
        requires
            forall|path: &str| #[trigger] call_requires(probe, (path,)),
        ensures
            match r {
                Ok(a) => located(self.root_path(), raw@) == Ok::<_, AttachmentFault>(a.path@)
                    && exists|path: &str|
                    path@ == a.path@ && #[trigger] call_ensures(probe, (path,), a.exists),
                Err(e) => located(self.root_path(), raw@) == Err::<Seq<char>, _>(e@),
            },
    {
        match self.locate(raw) {
            Ok(path) => {
                let p = path.as_str();
                let there = probe(p);
                assert(call_ensures(probe, (p,), there));
                let a = ResolvedAttachment { path, exists: there };
                assert(a.exists == there);
                assert(exists|q: &str|
                    q@ == a.path@ && #[trigger] call_ensures(probe, (q,), a.exists));
                Ok(a)
            },
            Err(e) => Err(e),
        }
    }

    /// Resolves an attachment target to a path only (ignores missing).
    pub fn resolve_path(&self, raw: &str) -> (path: Option<String>)
        ensures
            opt_view(path) == match located(self.root_path(), raw@) {
                Ok(p) => Some(p),
                Err(_) => None,
            },
    {
        match self.locate(raw) {
            Ok(path) => Some(path),
            Err(_) => None,
        }
    }

    /// Resolves an attachment target and ensures the file exists.
    pub fn resolve_existing<P: Fn(&str) -> bool>(&self, raw: &str, probe: P) -> (r: Result<
        String,
        AttachmentError,
    >)
        requires
            forall|path: &str| #[trigger] call_requires(probe, (path,)),
        ensures
            match located(self.root_path(), raw@) {
                Err(fault) => r matches Err(e) && e@ == fault,
                Ok(p) => match r {
                    Ok(path) => path@ == p && exists|q: &str|
                        q@ == p && #[trigger] call_ensures(probe, (q,), true),
                    Err(e) => e@ == AttachmentFault::Missing(p) && exists|q: &str|
                        q@ == p && #[trigger] call_ensures(probe, (q,), false),
                },
            },
    {
        match self.resolve(raw, probe) {
            Ok(a) => {
                if a.exists {
                    Ok(a.path)
                } else {
                    Err(AttachmentError::Missing(a.path))
                }
            },
            Err(e) => Err(e),
        }
    }

    /// Returns the resolver root.
    pub fn root(&self) -> (path: &str)
        ensures
            path@ == self.root_path(),
    {
        self.root.as_str()
    }
}

// ---------------------------------------------------------------------------
// UUIDs
// ---------------------------------------------------------------------------

/// Whether the 36 characters at `i` have the shape of a UUID: hexadecimal
/// digits in groups of 8, 4, 4, 4 and 12 with hyphens between.
pub open spec fn uuid_at(s: Seq<char>, i: int) -> bool {
    &&& 0 <= i
    &&& i + 36 <= s.len()
    &&& forall|k: int|
        0 <= k < 36 ==> uuid_char(k, #[trigger] s[i + k])
}

/// Whether `c` may be the `k`-th character of a UUID.
pub open spec fn uuid_char(k: int, c: char) -> bool {
    if k == 8 || k == 13 || k == 18 || k == 23 {
        c == '-'
    } else {
        ascii_hex(c)
    }
}

/// The first UUID at or after `i`.
pub open spec fn uuid_from(s: Seq<char>, i: int) -> Option<Seq<char>>
    decreases s.len() - i,
{
    if i < 0 || i + 36 > s.len() {
        None
    } else if uuid_at(s, i) {
        Some(s.subrange(i, i + 36))
    } else {
        uuid_from(s, i + 1)
    }
}

fn is_uuid_at(v: &Vec<char>, i: usize) -> (b: bool)
    requires
        i + 36 <= v.len(),
    ensures
        b == uuid_at(v@, i as int),
{
    let mut k: usize = 0;
    while k < 36
        invariant
            k <= 36,
            i + 36 <= v.len(),
            forall|j: int| 0 <= j < k ==> uuid_char(j, #[trigger] v@[i + j]),
        decreases 36 - k,
    {
        let c = v[i + k];
        let ok = if k == 8 || k == 13 || k == 18 || k == 23 {
            c == '-'
        } else {
            is_ascii_hex(c)
        };
        if !ok {
            assert(!uuid_char(k as int, v@[i + k]));
            return false;
        }
        k += 1;
    }
    true
}

/// The first part of `input` that has the shape of a UUID.
pub fn extract_uuid_like(input: &str) -> (found: Option<String>)
    ensures
        opt_view(found) == uuid_from(input@, 0),
{
    let v = chars_of(input);
    if v.len() < 36 {
        return None;
    }
    let mut i: usize = 0;
    let last: usize = v.len() - 36;
    while i <= last
        invariant
            v@ == input@,
            last == v.len() - 36,
            i <= last + 1,
            uuid_from(input@, 0) == uuid_from(input@, i as int),
        decreases last + 1 - i,
    {
        if is_uuid_at(&v, i) {
            return Some(string_of(&v, i, i + 36));
        }
        i += 1;
    }
    None
}

// ---------------------------------------------------------------------------
// What the targets of a page are
// ---------------------------------------------------------------------------

/// The targets of some nodes and of more are those of the first and then those of
/// the others.
pub proof fn targets_stand_in_order(a: Seq<NodeModel>, b: Seq<NodeModel>)
    ensures
        link_targets(a + b) == link_targets(a) + link_targets(b),
    decreases b.len(),
{
    if b.len() == 0 {
        assert(a + b =~= a);
        assert(link_targets(b) =~= Seq::<Seq<char>>::empty());
        assert(link_targets(a) + link_targets(b) =~= link_targets(a));
    } else {
        let n = b.len() - 1;
        targets_stand_in_order(a, b.take(n));
        assert((a + b).take((a + b).len() - 1) =~= a + b.take(n));
        lemma_concat(link_targets(a), link_targets(b.take(n)), node_link_targets(b[n]));
    }
}

proof fn lemma_node_targets(nodes: Seq<NodeModel>, i: int, t: Seq<char>)
    requires
        0 <= i < nodes.len(),
        node_link_targets(nodes[i]).contains(t),
    ensures
        link_targets(nodes).contains(t),
    decreases nodes.len(),
{
    let n = nodes.len() - 1;
    let before = link_targets(nodes.take(n));
    let last = node_link_targets(nodes[n]);
    if i < n {
        assert(nodes.take(n)[i] == nodes[i]);
        lemma_node_targets(nodes.take(n), i, t);
    }
    vstd::seq_lib::lemma_seq_concat_contains_all_elements(before, last, t);
}

/// The address of every link of a page is among the targets of the page.
pub proof fn every_link_is_a_target(nodes: Seq<NodeModel>, i: int, text: Seq<char>, url: Seq<char>)
    requires
        0 <= i < nodes.len(),
        nodes[i] == (NodeModel::Link { text, url }),
    ensures
        link_targets(nodes).contains(url),
{
    assert(node_link_targets(nodes[i]) =~= seq![url]);
    assert(node_link_targets(nodes[i])[0] == url);
    lemma_node_targets(nodes, i, url);
}

/// The target of every link in a paragraph, a text, a quote or a heading of a page
/// is among the targets of the page.
pub proof fn every_link_in_a_text_is_a_target(
    nodes: Seq<NodeModel>,
    i: int,
    text: Seq<char>,
    k: int,
)
    requires
        0 <= i < nodes.len(),
        nodes[i] == (NodeModel::Paragraph { text }) || nodes[i] == (NodeModel::Text { text })
            || nodes[i] == (NodeModel::Quote { text }) || (nodes[i] is Heading
            && nodes[i]->Heading_text == text),
        0 <= k < links_of(text).len(),
    ensures
        link_targets(nodes).contains(links_of(text)[k].target),
{
    let ts = node_link_targets(nodes[i]);
    assert(ts[k] == links_of(text)[k].target);
    assert(ts.contains(links_of(text)[k].target));
    lemma_node_targets(nodes, i, links_of(text)[k].target);
}

/// The targets of every item of a list are among the targets of the page.
pub proof fn every_target_in_a_list_is_a_target(
    nodes: Seq<NodeModel>,
    i: int,
    items: Seq<Seq<NodeModel>>,
    k: int,
    t: Seq<char>,
)
    requires
        0 <= i < nodes.len(),
        nodes[i] == (NodeModel::List { items }),
        0 <= k < items.len(),
        link_targets(items[k]).contains(t),
    ensures
        link_targets(nodes).contains(t),
{
    lemma_item_targets(items, k, t);
    lemma_node_targets(nodes, i, t);
}

proof fn lemma_item_targets(items: Seq<Seq<NodeModel>>, k: int, t: Seq<char>)
    requires
        0 <= k < items.len(),
        link_targets(items[k]).contains(t),
    ensures
        item_link_targets(items).contains(t),
    decreases items.len(),
{
    let n = items.len() - 1;
    let before = item_link_targets(items.take(n));
    if k < n {
        assert(items.take(n)[k] == items[k]);
        lemma_item_targets(items.take(n), k, t);
    }
    vstd::seq_lib::lemma_seq_concat_contains_all_elements(before, link_targets(items[n]), t);
}

/// Code and snippets that are not understood have no targets, whatever stands in
/// them.
pub proof fn code_has_no_targets(node: NodeModel)
    requires
        node is Code || node is Unknown || node is Rewrite,
    ensures
        node_link_targets(node).len() == 0,
{
}

/// An address on the web or of mail or of a file is an external target, whatever
/// the case of its scheme; so is whatever names a scheme with two slashes.
pub proof fn addresses_are_external(rest: Seq<char>, before: Seq<char>)
    ensures
        external_target("http://"@ + rest),
        external_target("https://"@ + rest),
        external_target("HTTPS://"@ + rest),
        external_target("mailto:"@ + rest),
        external_target("Mailto:"@ + rest),
        external_target("file://"@ + rest),
        external_target(before + "://"@ + rest),
{
    reveal_strlit("http://");
    reveal_strlit("https://");
    reveal_strlit("HTTPS://");
    reveal_strlit("mailto:");
    reveal_strlit("Mailto:");
    reveal_strlit("file://");
    reveal_strlit("://");
    let s = before + "://"@ + rest;
    assert(s.subrange(before.len() as int, before.len() as int + 3) =~= "://"@);
    assert(matches_at(s, before.len() as int, "://"@));
    assert(starts_with_any_case("http://"@ + rest, "http://"@));
    assert(starts_with_any_case("https://"@ + rest, "https://"@));
    assert(starts_with_any_case("HTTPS://"@ + rest, "https://"@));
    assert(starts_with_any_case("mailto:"@ + rest, "mailto:"@));
    assert(starts_with_any_case("Mailto:"@ + rest, "mailto:"@));
    assert(starts_with_any_case("file://"@ + rest, "file://"@));
}

/// A target with no colon is not external.
pub proof fn a_target_without_a_colon_is_not_external(target: Seq<char>)
    requires
        !contains_char(target, ':'),
    ensures
        !external_target(target),
{
    reveal_strlit("http://");
    reveal_strlit("https://");
    reveal_strlit("mailto:");
    reveal_strlit("file://");
    reveal_strlit("://");
    if starts_with_any_case(target, "http://"@) {
        assert(to_ascii_lower(target[4]) == "http://"@[4]);
        assert(target[4] == ':');
    }
    if starts_with_any_case(target, "https://"@) {
        assert(to_ascii_lower(target[5]) == "https://"@[5]);
        assert(target[5] == ':');
    }
    if starts_with_any_case(target, "mailto:"@) {
        assert(to_ascii_lower(target[6]) == "mailto:"@[6]);
        assert(target[6] == ':');
    }
    if starts_with_any_case(target, "file://"@) {
        assert(to_ascii_lower(target[4]) == "file://"@[4]);
        assert(target[4] == ':');
    }
    if contains(target, "://"@) {
        let i = choose|i: int| matches_at(target, i, "://"@);
        assert(target.subrange(i, i + 3)[0] == ':');
        assert(target[i] == ':');
    }
}

/// An attachment is found below the root, under the very path that its target
/// names.
pub proof fn an_attachment_lies_where_its_target_says(root: Seq<char>, name: Seq<char>)
    requires
        name.len() > 0,
        !whitespace(name.last()),
        !climbs("attachments/"@ + name),
    ensures
        root.len() > 0 && root.last() != '/' ==> located(root, "attachments/"@ + name) == Ok::<
            Seq<char>,
            AttachmentFault,
        >(root + "/"@ + ("attachments/"@ + name)),
        root.len() > 0 && root.last() == '/' ==> located(root, "attachments/"@ + name) == Ok::<
            Seq<char>,
            AttachmentFault,
        >(root + ("attachments/"@ + name)),
        root.len() == 0 ==> located(root, "attachments/"@ + name) == Ok::<
            Seq<char>,
            AttachmentFault,
        >("attachments/"@ + name),
{
    reveal_strlit("attachments/");
    reveal_strlit("/");
    let t = "attachments/"@ + name;
    assert(t[0] == 'a');
    assert(t.last() == name.last());
    assert(trimmed(t) == t);
    a_prefix_is_stripped("attachments/"@, name);
    if starts_with(t, "/"@) {
        assert(t.subrange(0, 1)[0] == '/');
    }
}

/// A target that climbs out of the root names no attachment, and neither does one
/// that names no attachments at all; each is told apart.
pub proof fn other_targets_are_refused(root: Seq<char>, target: Seq<char>)
    ensures
        trimmed(target).len() == 0 ==> located(root, target) == Err::<Seq<char>, AttachmentFault>(
            AttachmentFault::Empty,
        ),
        trimmed(target).len() > 0 && !contains(trimmed(target), "attachments/"@) ==> located(
            root,
            target,
        ) == Err::<Seq<char>, AttachmentFault>(AttachmentFault::NotAttachment(trimmed(target))),
{
    let t = trimmed(target);
    if t.len() > 0 && !contains(t, "attachments/"@) {
        lemma_find_is_contains(t, "attachments/"@);
        lemma_find_is_contains(t, "/attachments/"@);
        assert(!starts_with(t, "attachments/"@));
        reveal_strlit("attachments/");
        reveal_strlit("/attachments/");
        if contains(t, "/attachments/"@) {
            let i = choose|i: int| matches_at(t, i, "/attachments/"@);
            assert(t.subrange(i + 1, i + 13) =~= t.subrange(i, i + 13).skip(1));
            assert(t.subrange(i + 1, i + 1 + 12) =~= "attachments/"@);
            assert(matches_at(t, i + 1, "attachments/"@));
        }
    }
}

/// An id in its canonical form is found wherever it stands first in a target.
pub proof fn an_id_in_a_target_is_found(before: Seq<char>, id: Seq<char>, behind: Seq<char>)
    requires
        id.len() == 36,
        uuid_at(id, 0),
        forall|i: int| 0 <= i < before.len() ==> !#[trigger] uuid_at(before + id + behind, i),
    ensures
        uuid_from(before + id + behind, 0) == Some(id),
{
    let s = before + id + behind;
    let n = before.len() as int;
    assert(uuid_at(s, n)) by {
        assert forall|k: int| 0 <= k < 36 implies uuid_char(k, #[trigger] s[n + k]) by {
            assert(uuid_char(k, id[0 + k]));
            assert(s[n + k] == id[k]);
        }
    }
    assert(s.subrange(n, n + 36) =~= id);
    lemma_uuid_first(s, 0, n);
}

proof fn lemma_uuid_first(s: Seq<char>, i: int, n: int)
    requires
        0 <= i <= n,
        uuid_at(s, n),
        forall|k: int| i <= k < n ==> !#[trigger] uuid_at(s, k),
    ensures
        uuid_from(s, i) == Some(s.subrange(n, n + 36)),
    decreases n - i,
{
    if i < n {
        lemma_uuid_first(s, i + 1, n);
    }
}

/// What is found as an id is a part of the target: eight, four, four, four and
/// twelve hexadecimal digits with a hyphen between each two.
pub proof fn a_found_id_is_a_part(target: Seq<char>, id: Seq<char>)
    requires
        uuid_from(target, 0) == Some(id),
    ensures
        id.len() == 36,
        contains(target, id),
        id[8] == '-' && id[13] == '-' && id[18] == '-' && id[23] == '-',
        forall|k: int|
            0 <= k < 36 && k != 8 && k != 13 && k != 18 && k != 23 ==> {
                let c = #[trigger] id[k];
                '0' <= c <= '9' || 'a' <= c <= 'f' || 'A' <= c <= 'F'
            },
{
    let i = lemma_uuid_place(target, 0);
    assert(matches_at(target, i, id));
    assert forall|k: int| 0 <= k < 36 implies uuid_char(k, #[trigger] id[k]) by {
        assert(uuid_char(k, target[i + k]));
    }
    assert(uuid_char(8, id[8]) && uuid_char(13, id[13]) && uuid_char(18, id[18]) && uuid_char(
        23,
        id[23],
    ));
}

proof fn lemma_uuid_place(s: Seq<char>, i: int) -> (n: int)
    requires
        uuid_from(s, i) is Some,
    ensures
        uuid_at(s, n),
        uuid_from(s, i) == Some(s.subrange(n, n + 36)),
    decreases s.len() - i,
{
    if uuid_at(s, i) {
        i
    } else {
        lemma_uuid_place(s, i + 1)
    }
}

/// The address of every picture of a page is among the targets of the page,
/// however deep the picture lies.
pub proof fn every_picture_is_a_target(
    raw: JsonModel,
    item: JsonModel,
    u: Seq<char>,
    c: Seq<char>,
)
    requires
        is_among(item, children_of(raw)),
        type_of(item) == Some("pictureSnippet"@),
        item.get("url"@) == Some(JsonModel::Str(u)),
        u.len() > 0,
        item.get("caption"@) == Some(JsonModel::Str(c)),
    ensures
        link_targets(page_content(raw)).contains(u),
{
    a_picture_is_a_link_to_its_address(item, u, c);
    every_snippet_has_its_node(raw, item);
    let nodes = page_content(raw);
    let i = choose|i: int| 0 <= i < nodes.len() && nodes[i] == node_of(item);
    every_link_is_a_target(nodes, i, c, u);
}

} // verus!
