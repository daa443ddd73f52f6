//! The link graph as text, as JSON and for graphviz.

use crate::index::{title_key, EdgeModel, IndexModel, KnowledgeBaseIndex, LinkEdge};
use crate::json::{
    array_of, json_views, member_views, object_of, the_first_member_of_a_name_is_got, Json,
    JsonModel,
};
use crate::lists::has_text;
use crate::number::{decimal, decimal_of, push_decimal};
use crate::parse::occurrences;
use crate::record::{field, no_members, put, text_value};
use crate::sort::{
    arranged, comes_before, key_le, key_views, lemma_all_listed, lemma_sorting, sorted_order,
    sorted_texts, KeyModel, SortKey,
};
use crate::text::{
    copy_of, lemma_views_push, ref_view, repeated, replace, replaced, same_text, text_le, views,
};
use vstd::prelude::*;

verus! {

pub open spec fn edges_of(v: Seq<&LinkEdge>) -> Seq<EdgeModel> {
    Seq::new(v.len(), |i: int| v[i]@)
}

/// The title of a page, or its id where there is no such page.
pub open spec fn title_of(m: IndexModel, id: Seq<char>) -> Seq<char> {
    if m.pages.contains_key(id) {
        m.pages[id].title
    } else {
        id
    }
}

/// The title of a page, or its id where there is no such page.
pub fn page_title(index: &KnowledgeBaseIndex, id: &str) -> (title: String)
    requires
        index.wf(),
    ensures
        title@ == title_of(index@, id@),
{
    match index.page_meta(id) {
        Some(meta) => copy_of(meta.title.as_str()),
        None => copy_of(id),
    }
}

// ---------------------------------------------------------------------------
// Nodes
// ---------------------------------------------------------------------------

/// Whether an edge starts or ends at a page.
pub open spec fn touches(e: EdgeModel, id: Seq<char>) -> bool {
    e.source == id || e.target == id
}

/// Whether one of some edges starts or ends at a page.
pub open spec fn is_end(edges: Seq<EdgeModel>, id: Seq<char>) -> bool {
    exists|i: int| 0 <= i < edges.len() && touches(#[trigger] edges[i], id)
}

/// Whether ids are those of the pages at which some edges start or end, and of
/// the page `extra`, each once and in order.
pub open spec fn are_nodes(
    ids: Seq<Seq<char>>,
    edges: Seq<EdgeModel>,
    extra: Option<Seq<char>>,
) -> bool {
    &&& ids.no_duplicates()
    &&& forall|id: Seq<char>| #[trigger]
        ids.contains(id) == (is_end(edges, id) || extra == Some(id))
    &&& forall|i: int, j: int|
        0 <= i < j < ids.len() ==> text_le(#[trigger] ids[i], #[trigger] ids[j])
}

fn push_new(ids: &mut Vec<String>, id: &str)
    requires
        views(old(ids)@).no_duplicates(),
    ensures
        views(final(ids)@).no_duplicates(),
        forall|t: Seq<char>| #[trigger]
            views(final(ids)@).contains(t) == (views(old(ids)@).contains(t) || t == id@),
{
    let ghost before = views(ids@);
    if !has_text(ids, id) {
        let t = copy_of(id);
        proof {
            lemma_views_push(ids@, t);
        }
        ids.push(t);
        proof {
            let after = views(ids@);
            assert(after == before.push(id@));
            assert forall|t: Seq<char>| #[trigger] after.contains(t) == (before.contains(t) || t
                == id@) by {
                if before.contains(t) {
                    let k = choose|k: int| 0 <= k < before.len() && before[k] == t;
                    assert(after[k] == t);
                }
                if t == id@ {
                    assert(after[before.len() as int] == t);
                }
                if after.contains(t) {
                    let k = choose|k: int| 0 <= k < after.len() && after[k] == t;
                    if k < before.len() {
                        assert(before[k] == t);
                    }
                }
            }
            assert(after.no_duplicates()) by {
                assert forall|a: int, b: int|
                    0 <= a < after.len() && 0 <= b < after.len() && a != b implies after[a]
                    != after[b] by {
                    if a < before.len() && b < before.len() {
                        assert(before[a] != before[b]);
                    } else if a < before.len() {
                        assert(before.contains(before[a]));
                    } else {
                        assert(before.contains(before[b]));
                    }
                }
            }
        }
    }
}

/// The ids of the pages at which some edges start or end, and of the page
/// `extra`, in order.
pub fn link_nodes(edges: &Vec<&LinkEdge>, extra: Option<&str>) -> (ids: Vec<String>)
    ensures
        are_nodes(
            views(ids@),
            edges_of(edges@),
            ref_view(extra),
        ),
{
    let ghost all = edges_of(edges@);
    let ghost more = ref_view(extra);
    let mut ids: Vec<String> = Vec::new();
    if let Some(id) = extra {
        push_new(&mut ids, id);
    }
    let mut i: usize = 0;
    assert forall|t: Seq<char>| #[trigger]
        views(ids@).contains(t) == (is_end(all.take(0), t) || more == Some(t)) by {}
    while i < edges.len()
        invariant
            i <= edges@.len(),
            all == edges_of(edges@),
            views(ids@).no_duplicates(),
            forall|t: Seq<char>| #[trigger]
                views(ids@).contains(t) == (is_end(all.take(i as int), t) || more == Some(t)),
        decreases edges.len() - i,
    {
        let ghost before = views(ids@);
        push_new(&mut ids, edges[i].source.as_str());
        let ghost mid = views(ids@);
        push_new(&mut ids, edges[i].target.as_str());
        proof {
            let done = all.take(i as int);
            let next = all.take(i as int + 1);
            let e = edges@[i as int]@;
            assert(next[i as int] == e);
            assert forall|t: Seq<char>| #[trigger] views(ids@).contains(t) == (is_end(next, t)
                || more == Some(t)) by {
                assert(mid.contains(t) == (before.contains(t) || t == e.source));
                assert(views(ids@).contains(t) == (mid.contains(t) || t == e.target));
                assert(before.contains(t) == (is_end(done, t) || more == Some(t)));
                if is_end(done, t) {
                    let k = choose|k: int| 0 <= k < done.len() && touches(#[trigger] done[k], t);
                    assert(touches(next[k], t));
                }
                if is_end(next, t) {
                    let k = choose|k: int| 0 <= k < next.len() && touches(#[trigger] next[k], t);
                    if k < i {
                        assert(touches(done[k], t));
                    }
                }
                if t == e.source || t == e.target {
                    assert(touches(next[i as int], t));
                }
            }
        }
        i += 1;
    }
    assert(all.take(i as int) =~= all);
    let out = sorted_texts(&ids);
    proof {
        lemma_sorting(views(out@), views(ids@));
        assert forall|t: Seq<char>| #[trigger] views(out@).contains(t) == (is_end(all, t) || more
            == Some(t)) by {
            assert(views(out@).contains(t) == views(ids@).contains(t));
        }
    }
    out
}

// ---------------------------------------------------------------------------
// JSON and graphviz
// ---------------------------------------------------------------------------

/// A page of the graph.
pub open spec fn node_object(m: IndexModel, id: Seq<char>) -> JsonModel {
    JsonModel::Object(
        seq![field("id"@, JsonModel::Str(id)), field("title"@, JsonModel::Str(title_of(m, id)))],
    )
}

/// An edge of the graph.
pub open spec fn edge_object(e: EdgeModel) -> JsonModel {
    JsonModel::Object(
        seq![
            field("source"@, JsonModel::Str(e.source)),
            field("target"@, JsonModel::Str(e.target)),
        ],
    )
}

/// The graph: its pages and its edges.
pub open spec fn graph_object(m: IndexModel, ids: Seq<Seq<char>>, edges: Seq<EdgeModel>) -> JsonModel {
    JsonModel::Object(
        seq![
            field(
                "nodes"@,
                JsonModel::Array(Seq::new(ids.len(), |i: int| node_object(m, ids[i]))),
            ),
            field(
                "edges"@,
                JsonModel::Array(Seq::new(edges.len(), |i: int| edge_object(edges[i]))),
            ),
        ],
    )
}

/// An object of an id and a title.
pub fn page_object(index: &KnowledgeBaseIndex, id: &str) -> (j: Json)
    requires
        index.wf(),
    ensures
        j@ == node_object(index@, id@),
{
    let mut members = no_members();
    put(&mut members, "id", text_value(id));
    put(&mut members, "title", Json::Str(page_title(index, id)));
    assert(member_views(members@) =~= node_object(index@, id@)->Object_0);
    object_of(members)
}

/// Objects of ids and titles.
pub fn page_objects(index: &KnowledgeBaseIndex, ids: &Vec<String>) -> (items: Vec<Json>)
    requires
        index.wf(),
    ensures
        json_views(items@) == Seq::new(
            ids@.len(),
            |i: int| node_object(index@, views(ids@)[i]),
        ),
{
    let mut items: Vec<Json> = Vec::new();
    let mut i: usize = 0;
    while i < ids.len()
        invariant
            i <= ids@.len(),
            index.wf(),
            items@.len() == i,
            forall|k: int|
                0 <= k < i ==> (#[trigger] items@[k])@ == node_object(index@, ids@[k]@),
        decreases ids.len() - i,
    {
        items.push(page_object(index, ids[i].as_str()));
        i += 1;
    }
    assert(json_views(items@) =~= Seq::new(
        ids@.len(),
        |i: int| node_object(index@, views(ids@)[i]),
    ));
    items
}

fn edge_objects(edges: &Vec<&LinkEdge>) -> (items: Vec<Json>)
    ensures
        json_views(items@) == Seq::new(
            edges@.len(),
            |i: int| edge_object(edges_of(edges@)[i]),
        ),
{
    let mut items: Vec<Json> = Vec::new();
    let mut i: usize = 0;
    while i < edges.len()
        invariant
            i <= edges@.len(),
            items@.len() == i,
            forall|k: int| 0 <= k < i ==> (#[trigger] items@[k])@ == edge_object(edges@[k]@),
        decreases edges.len() - i,
    {
        let mut members = no_members();
        put(&mut members, "source", text_value(edges[i].source.as_str()));
        put(&mut members, "target", text_value(edges[i].target.as_str()));
        assert(member_views(members@) =~= edge_object(edges@[i as int]@)->Object_0);
        items.push(object_of(members));
        i += 1;
    }
    assert(json_views(items@) =~= Seq::new(
        edges@.len(),
        |i: int| edge_object(edges_of(edges@)[i]),
    ));
    items
}

/// The graph as JSON: the pages in the order of their ids.
pub fn links_json(index: &KnowledgeBaseIndex, edges: &Vec<&LinkEdge>, ego: Option<&str>) -> (j: Json)
    requires
        index.wf(),
    ensures
        exists|ids: Seq<Seq<char>>|
            are_nodes(
                ids,
                edges_of(edges@),
                ref_view(ego),
            ) && j@ == #[trigger] graph_object(index@, ids, edges_of(edges@)),
{
    let ids = link_nodes(edges, ego);
    let mut members = no_members();
    put(&mut members, "nodes", array_of(page_objects(index, &ids)));
    put(&mut members, "edges", array_of(edge_objects(edges)));
    assert(member_views(members@) =~= graph_object(
        index@,
        views(ids@),
        edges_of(edges@),
    )->Object_0);
    object_of(members)
}

/// A text between quotes for graphviz.
pub open spec fn dot_escaped(s: Seq<char>) -> Seq<char> {
    replaced(replaced(s, "\\"@, "\\\\"@), "\""@, "\\\""@)
}

fn dot_escape(s: &str) -> (out: String)
    ensures
        out@ == dot_escaped(s@),
{
    proof {
        reveal_strlit("\\");
        reveal_strlit("\"");
    }
    let once = replace(s, "\\", "\\\\");
    replace(once.as_str(), "\"", "\\\"")
}

/// The pages of the graph for graphviz.
pub open spec fn dot_nodes(m: IndexModel, ids: Seq<Seq<char>>) -> Seq<char>
    decreases ids.len(),
{
    if ids.len() == 0 {
        Seq::empty()
    } else {
        dot_nodes(m, ids.drop_last()) + ("  \""@ + dot_escaped(ids.last()) + "\" [label=\""@
            + dot_escaped(title_of(m, ids.last())) + "\"];\n"@)
    }
}

/// The edges of the graph for graphviz.
pub open spec fn dot_edges(edges: Seq<EdgeModel>) -> Seq<char>
    decreases edges.len(),
{
    if edges.len() == 0 {
        Seq::empty()
    } else {
        dot_edges(edges.drop_last()) + ("  \""@ + dot_escaped(edges.last().source) + "\" -> \""@
            + dot_escaped(edges.last().target) + "\";\n"@)
    }
}

/// The graph for graphviz.
pub open spec fn dot_text(m: IndexModel, ids: Seq<Seq<char>>, edges: Seq<EdgeModel>) -> Seq<char> {
    "digraph links {\n  rankdir=LR;\n"@ + dot_nodes(m, ids) + dot_edges(edges) + "}\n"@
}

fn push_dot_nodes(out: &mut String, index: &KnowledgeBaseIndex, ids: &Vec<String>)
    requires
        index.wf(),
    ensures
        final(out)@ == old(out)@ + dot_nodes(index@, views(ids@)),
{
    let ghost all = views(ids@);
    let ghost start = out@;
    let mut i: usize = 0;
    assert(all.take(0) =~= Seq::<Seq<char>>::empty());
    assert(start + dot_nodes(index@, all.take(0)) =~= start);
    while i < ids.len()
        invariant
            i <= ids@.len(),
            index.wf(),
            all == views(ids@),
            out@ == start + dot_nodes(index@, all.take(i as int)),
        decreases ids.len() - i,
    {
        assert(all.take(i as int + 1).drop_last() =~= all.take(i as int));
        assert(all.take(i as int + 1).last() == ids@[i as int]@);
        let title = page_title(index, ids[i].as_str());
        out.push_str("  \"");
        out.push_str(dot_escape(ids[i].as_str()).as_str());
        out.push_str("\" [label=\"");
        out.push_str(dot_escape(title.as_str()).as_str());
        out.push_str("\"];\n");
        i += 1;
        assert(out@ =~= start + dot_nodes(index@, all.take(i as int)));
    }
    assert(all.take(i as int) =~= all);
}

fn push_dot_edges(out: &mut String, edges: &Vec<&LinkEdge>)
    ensures
        final(out)@ == old(out)@ + dot_edges(edges_of(edges@)),
{
    let ghost all = edges_of(edges@);
    let ghost start = out@;
    let mut i: usize = 0;
    assert(all.take(0) =~= Seq::<EdgeModel>::empty());
    assert(start + dot_edges(all.take(0)) =~= start);
    while i < edges.len()
        invariant
            i <= edges@.len(),
            all == edges_of(edges@),
            out@ == start + dot_edges(all.take(i as int)),
        decreases edges.len() - i,
    {
        assert(all.take(i as int + 1).drop_last() =~= all.take(i as int));
        assert(all.take(i as int + 1).last() == edges@[i as int]@);
        out.push_str("  \"");
        out.push_str(dot_escape(edges[i].source.as_str()).as_str());
        out.push_str("\" -> \"");
        out.push_str(dot_escape(edges[i].target.as_str()).as_str());
        out.push_str("\";\n");
        i += 1;
        assert(out@ =~= start + dot_edges(all.take(i as int)));
    }
    assert(all.take(i as int) =~= all);
}

/// The graph for graphviz: the pages in the order of their ids.
pub fn links_dot(index: &KnowledgeBaseIndex, edges: &Vec<&LinkEdge>) -> (out: String)
    requires
        index.wf(),
    ensures
        exists|ids: Seq<Seq<char>>|
            are_nodes(ids, edges_of(edges@), None) && out@ == #[trigger] dot_text(
                index@,
                ids,
                edges_of(edges@),
            ),
{
    let ids = link_nodes(edges, None);
    let mut out = copy_of("digraph links {\n  rankdir=LR;\n");
    push_dot_nodes(&mut out, index, &ids);
    push_dot_edges(&mut out, edges);
    out.push_str("}\n");
    assert(out@ =~= dot_text(index@, views(ids@), edges_of(edges@)));
    out
}

// ---------------------------------------------------------------------------
// Text
// ---------------------------------------------------------------------------

/// The targets of some edges.
pub open spec fn edge_targets(edges: Seq<EdgeModel>) -> Seq<Seq<char>> {
    Seq::new(edges.len(), |i: int| edges[i].target)
}

/// How many edges end at a page.
pub open spec fn in_degree(edges: Seq<EdgeModel>, id: Seq<char>) -> nat {
    occurrences(edge_targets(edges), id)
}

/// Whether a page comes before another among the most linked: more edges end at
/// it, or as many and its title comes first, or that too and its id does.
pub open spec fn more_linked(m: IndexModel, edges: Seq<EdgeModel>, a: Seq<char>, b: Seq<char>) -> bool {
    ||| in_degree(edges, a) > in_degree(edges, b)
    ||| in_degree(edges, a) == in_degree(edges, b) && {
        let ta = title_key(m.pages, a);
        let tb = title_key(m.pages, b);
        text_le(ta, tb) && (ta == tb ==> text_le(a, b))
    }
}

/// Whether ids are those of the pages at which some edges end, each once, the
/// most linked first.
pub open spec fn are_most_linked(m: IndexModel, edges: Seq<EdgeModel>, ids: Seq<Seq<char>>) -> bool {
    &&& ids.no_duplicates()
    &&& forall|id: Seq<char>| #[trigger] ids.contains(id) == edge_targets(edges).contains(id)
    &&& forall|i: int, j: int|
        0 <= i < j < ids.len() ==> more_linked(m, edges, #[trigger] ids[i], #[trigger] ids[j])
}

/// The ids of the pages at which no edge starts or ends.
pub open spec fn isolated(ids: Seq<Seq<char>>, edges: Seq<EdgeModel>) -> Seq<Seq<char>>
    decreases ids.len(),
{
    if ids.len() == 0 {
        Seq::empty()
    } else if is_end(edges, ids.last()) {
        isolated(ids.drop_last(), edges)
    } else {
        isolated(ids.drop_last(), edges).push(ids.last())
    }
}

/// The rows of the most linked pages.
pub open spec fn degree_rows(m: IndexModel, edges: Seq<EdgeModel>, ids: Seq<Seq<char>>) -> Seq<char>
    decreases ids.len(),
{
    if ids.len() == 0 {
        Seq::empty()
    } else {
        degree_rows(m, edges, ids.drop_last()) + ("  "@ + crate::listing::padded_left(
            decimal(in_degree(edges, ids.last())),
            4,
        ) + "  "@ + title_of(m, ids.last()) + "\n"@)
    }
}

/// The titles of some pages, each on a line behind `indent`.
pub open spec fn title_rows(m: IndexModel, indent: Seq<char>, ids: Seq<Seq<char>>) -> Seq<char>
    decreases ids.len(),
{
    if ids.len() == 0 {
        Seq::empty()
    } else {
        title_rows(m, indent, ids.drop_last()) + (indent + title_of(m, ids.last()) + "\n"@)
    }
}

/// The first ten of some ids.
pub open spec fn top_ten(ids: Seq<Seq<char>>) -> Seq<Seq<char>> {
    if ids.len() <= 10 {
        ids
    } else {
        ids.take(10)
    }
}

/// The graph as text: how many pages and links, the most linked pages, and the
/// pages without a link where the whole graph is shown.
pub open spec fn graph_text(
    m: IndexModel,
    edges: Seq<EdgeModel>,
    ego: Option<Seq<char>>,
    nodes: nat,
    linked: Seq<Seq<char>>,
) -> Seq<char> {
    let alone = isolated(m.order, edges);
    "Link Graph"@ + match ego {
        Some(id) => " (ego: "@ + title_of(m, id) + ")"@,
        None => Seq::empty(),
    } + "\n  pages: "@ + decimal(
        if ego is Some {
            nodes
        } else {
            m.order.len()
        },
    ) + "\n  links: "@ + decimal(edges.len()) + "\n"@ + if linked.len() == 0 {
        Seq::empty()
    } else {
        "\nMost Linked Pages:\n"@ + degree_rows(m, edges, top_ten(linked))
    } + if ego is Some || alone.len() == 0 {
        Seq::empty()
    } else {
        "\nIsolated Pages ("@ + decimal(alone.len()) + "):\n"@ + title_rows(m, "  "@, alone)
    }
}

fn count_targets(edges: &Vec<&LinkEdge>, id: &str) -> (n: usize)
    ensures
        n == in_degree(edges_of(edges@), id@),
        n <= edges@.len(),
{
    let ghost all = edge_targets(edges_of(edges@));
    let mut n: usize = 0;
    let mut i: usize = 0;
    assert(all.take(0) =~= Seq::<Seq<char>>::empty());
    while i < edges.len()
        invariant
            i <= edges@.len(),
            all == edge_targets(edges_of(edges@)),
            n == occurrences(all.take(i as int), id@),
            n <= i,
        decreases edges.len() - i,
    {
        assert(all.take(i as int + 1).drop_last() =~= all.take(i as int));
        assert(all.take(i as int + 1).last() == edges@[i as int]@.target);
        if same_text(edges[i].target.as_str(), id) {
            n += 1;
        }
        i += 1;
    }
    assert(all.take(i as int) =~= all);
    n
}

fn distinct_targets(edges: &Vec<&LinkEdge>) -> (ids: Vec<String>)
    ensures
        views(ids@).no_duplicates(),
        forall|id: Seq<char>| #[trigger]
            views(ids@).contains(id) == edge_targets(edges_of(edges@)).contains(id),
        forall|i: int, j: int|
            0 <= i < j < ids@.len() ==> text_le(
                #[trigger] views(ids@)[i],
                #[trigger] views(ids@)[j],
            ),
{
    let ghost all = edge_targets(edges_of(edges@));
    let mut ids: Vec<String> = Vec::new();
    let mut i: usize = 0;
    while i < edges.len()
        invariant
            i <= edges@.len(),
            all == edge_targets(edges_of(edges@)),
            views(ids@).no_duplicates(),
            forall|t: Seq<char>| #[trigger]
                views(ids@).contains(t) == all.take(i as int).contains(t),
        decreases edges.len() - i,
    {
        let ghost before = views(ids@);
        push_new(&mut ids, edges[i].target.as_str());
        proof {
            assert forall|t: Seq<char>| #[trigger] views(ids@).contains(t) == all.take(
                i as int + 1,
            ).contains(t) by {
                assert(before.contains(t) == all.take(i as int).contains(t));
                assert(all.take(i as int + 1) =~= all.take(i as int).push(all[i as int]));
                let done = all.take(i as int);
                let next = all.take(i as int + 1);
                if done.contains(t) {
                    let k = choose|k: int| 0 <= k < done.len() && done[k] == t;
                    assert(next[k] == t);
                }
                if next.contains(t) {
                    let k = choose|k: int| 0 <= k < next.len() && next[k] == t;
                    if k < i {
                        assert(done[k] == t);
                    }
                }
                assert(next[i as int] == all[i as int]);
            }
        }
        i += 1;
    }
    assert(all.take(i as int) =~= all);
    let out = sorted_texts(&ids);
    proof {
        lemma_sorting(views(out@), views(ids@));
        assert forall|t: Seq<char>| #[trigger] views(out@).contains(t) == all.contains(t) by {
            assert(views(out@).contains(t) == views(ids@).contains(t));
        }
    }
    out
}

/// The lowercased title of a page; nothing where there is no such page.
fn sort_title(index: &KnowledgeBaseIndex, id: &str) -> (title: String)
    requires
        index.wf(),
    ensures
        title@ == title_key(index@.pages, id@),
{
    match index.page_meta(id) {
        Some(meta) => copy_of(meta.title_lower.as_str()),
        None => String::new(),
    }
}

/// The pages at which some edges end, the most linked first.
pub fn most_linked(index: &KnowledgeBaseIndex, edges: &Vec<&LinkEdge>) -> (ids: Vec<String>)
    requires
        index.wf(),
    ensures
        are_most_linked(index@, edges_of(edges@), views(ids@)),
{
    let ghost es = edges_of(edges@);
    let targets = distinct_targets(edges);
    let ghost ts = views(targets@);
    let mut keys: Vec<SortKey> = Vec::new();
    let mut k: usize = 0;
    while k < targets.len()
        invariant
            k <= targets@.len(),
            index.wf(),
            es == edges_of(edges@),
            keys@.len() == k,
            forall|j: int|
                0 <= j < k ==> (#[trigger] keys@[j])@ == (KeyModel {
                    weight: in_degree(es, targets@[j]@),
                    text: title_key(index@.pages, targets@[j]@),
                }),
        decreases targets.len() - k,
    {
        let weight: usize = count_targets(edges, targets[k].as_str());
        keys.push(SortKey { weight, text: sort_title(index, targets[k].as_str()) });
        k += 1;
    }
    let order = sorted_order(&keys);
    let mut out: Vec<String> = Vec::new();
    let mut n: usize = 0;
    while n < order.len()
        invariant
            n <= order@.len(),
            forall|j: int| 0 <= j < order@.len() ==> (#[trigger] order@[j]) < targets@.len(),
            out@.len() == n,
            forall|j: int| 0 <= j < n ==> (#[trigger] out@[j])@ == targets@[order@[j] as int]@,
        decreases order.len() - n,
    {
        out.push(copy_of(targets[order[n]].as_str()));
        n += 1;
    }
    proof {
        let ids = views(out@);
        let ks = key_views(keys@);
        assert(ids =~= arranged(ts, order@));
        assert forall|a: int, b: int|
            0 <= a < ids.len() && 0 <= b < ids.len() && a != b implies ids[a] != ids[b] by {
            assert(order@[a] != order@[b]);
            assert(ts[order@[a] as int] != ts[order@[b] as int]);
        }
        assert forall|id: Seq<char>| #[trigger] ids.contains(id) == edge_targets(es).contains(
            id,
        ) by {
            assert(ts.contains(id) == edge_targets(es).contains(id));
            if ids.contains(id) {
                let a = choose|a: int| 0 <= a < ids.len() && ids[a] == id;
                assert(ts[order@[a] as int] == id);
            }
            if ts.contains(id) {
                let p = choose|p: int| 0 <= p < ts.len() && ts[p] == id;
                lemma_all_listed(order@, ts.len(), p);
                let a = choose|a: int| 0 <= a < order@.len() && #[trigger] order@[a] == p;
                assert(ids[a] == id);
            }
        }
        assert forall|a: int, b: int| 0 <= a < b < ids.len() implies more_linked(
            index@,
            es,
            #[trigger] ids[a],
            #[trigger] ids[b],
        ) by {
            let x = order@[a] as int;
            let y = order@[b] as int;
            assert(comes_before(ks, x, y));
            assert(ks[x] == keys@[x]@);
            assert(ks[y] == keys@[y]@);
            if ks[x].weight == ks[y].weight && ks[x].text == ks[y].text {
                assert(key_le(ks[y], ks[x]));
                assert(x < y);
                assert(text_le(ts[x], ts[y]));
            }
        }
    }
    out
}

fn isolated_ids(index: &KnowledgeBaseIndex, nodes: &Vec<String>, Ghost(edges): Ghost<Seq<EdgeModel>>) -> (alone: Vec<
    String,
>)
    requires
        index.wf(),
        are_nodes(views(nodes@), edges, None),
    ensures
        views(alone@) == isolated(index@.order, edges),
{
    let ids = index.ordered_ids();
    let ghost all = index@.order;
    let mut alone: Vec<String> = Vec::new();
    let mut i: usize = 0;
    assert(all.take(0) =~= Seq::<Seq<char>>::empty());
    assert(views(alone@) =~= Seq::<Seq<char>>::empty());
    while i < ids.len()
        invariant
            i <= ids@.len(),
            all == views(ids@),
            are_nodes(views(nodes@), edges, None),
            views(alone@) == isolated(all.take(i as int), edges),
        decreases ids.len() - i,
    {
        assert(all.take(i as int + 1).drop_last() =~= all.take(i as int));
        assert(all.take(i as int + 1).last() == ids@[i as int]@);
        if !has_text(nodes, ids[i].as_str()) {
            let t = copy_of(ids[i].as_str());
            proof {
                lemma_views_push(alone@, t);
            }
            alone.push(t);
        }
        i += 1;
    }
    assert(all.take(i as int) =~= all);
    alone
}

fn push_degree_rows(
    out: &mut String,
    index: &KnowledgeBaseIndex,
    edges: &Vec<&LinkEdge>,
    ids: &Vec<String>,
)
    requires
        index.wf(),
    ensures
        final(out)@ == old(out)@ + degree_rows(
            index@,
            edges_of(edges@),
            top_ten(views(ids@)),
        ),
{
    let ghost all = views(ids@);
    let ghost es = edges_of(edges@);
    let ghost start = out@;
    let count: usize = if ids.len() <= 10 {
        ids.len()
    } else {
        10
    };
    let mut i: usize = 0;
    assert(all.take(0) =~= Seq::<Seq<char>>::empty());
    assert(start + degree_rows(index@, es, all.take(0)) =~= start);
    while i < count
        invariant
            i <= count <= ids@.len(),
            index.wf(),
            all == views(ids@),
            es == edges_of(edges@),
            out@ == start + degree_rows(index@, es, all.take(i as int)),
        decreases count - i,
    {
        assert(all.take(i as int + 1).drop_last() =~= all.take(i as int));
        assert(all.take(i as int + 1).last() == ids@[i as int]@);
        let n: usize = count_targets(edges, ids[i].as_str());
        out.push_str("  ");
        out.push_str(crate::listing::pad_left(decimal_of(n).as_str(), 4).as_str());
        out.push_str("  ");
        out.push_str(page_title(index, ids[i].as_str()).as_str());
        out.push_str("\n");
        i += 1;
        assert(out@ =~= start + degree_rows(index@, es, all.take(i as int)));
    }
    assert(all.take(count as int) =~= top_ten(all));
}

/// Adds the titles of some pages, each on a line behind `indent`.
pub fn push_title_rows(
    out: &mut String,
    index: &KnowledgeBaseIndex,
    indent: &str,
    ids: &Vec<String>,
)
    requires
        index.wf(),
    ensures
        final(out)@ == old(out)@ + title_rows(index@, indent@, views(ids@)),
{
    let ghost all = views(ids@);
    let ghost start = out@;
    let mut i: usize = 0;
    assert(all.take(0) =~= Seq::<Seq<char>>::empty());
    assert(start + title_rows(index@, indent@, all.take(0)) =~= start);
    while i < ids.len()
        invariant
            i <= ids@.len(),
            index.wf(),
            all == views(ids@),
            out@ == start + title_rows(index@, indent@, all.take(i as int)),
        decreases ids.len() - i,
    {
        assert(all.take(i as int + 1).drop_last() =~= all.take(i as int));
        assert(all.take(i as int + 1).last() == ids@[i as int]@);
        out.push_str(indent);
        out.push_str(page_title(index, ids[i].as_str()).as_str());
        out.push_str("\n");
        i += 1;
        assert(out@ =~= start + title_rows(index@, indent@, all.take(i as int)));
    }
    assert(all.take(i as int) =~= all);
}

/// The graph as text.
pub fn links_text(index: &KnowledgeBaseIndex, edges: &Vec<&LinkEdge>, ego: Option<&str>) -> (out: String)
    requires
        index.wf(),
    ensures
        exists|nodes: Seq<Seq<char>>, linked: Seq<Seq<char>>|
            are_nodes(nodes, edges_of(edges@), None) && are_most_linked(
                index@,
                edges_of(edges@),
                linked,
            ) && out@ == #[trigger] graph_text(
                index@,
                edges_of(edges@),
                ref_view(ego),
                nodes.len(),
                linked,
            ),
{
    let ghost es = edges_of(edges@);
    let ghost center = ref_view(ego);
    let nodes = link_nodes(edges, None);
    let linked = most_linked(index, edges);
    let alone = isolated_ids(index, &nodes, Ghost(es));
    let mut out = copy_of("Link Graph");
    if let Some(id) = ego {
        out.push_str(" (ego: ");
        out.push_str(page_title(index, id).as_str());
        out.push_str(")");
    }
    out.push_str("\n  pages: ");
    let total: usize = if ego.is_some() {
        nodes.len()
    } else {
        index.page_count()
    };
    push_decimal(&mut out, total);
    out.push_str("\n  links: ");
    push_decimal(&mut out, edges.len());
    out.push_str("\n");
    if linked.len() > 0 {
        out.push_str("\nMost Linked Pages:\n");
        push_degree_rows(&mut out, index, edges, &linked);
    }
    if ego.is_none() && alone.len() > 0 {
        out.push_str("\nIsolated Pages (");
        push_decimal(&mut out, alone.len());
        out.push_str("):\n");
        push_title_rows(&mut out, index, "  ", &alone);
    }
    assert(out@ =~= graph_text(index@, es, center, views(nodes@).len(), views(linked@)));
    out
}

// ---------------------------------------------------------------------------
// What the graph of links shows
// ---------------------------------------------------------------------------

/// A page is shown by its title, and what is no page by its id.
pub proof fn a_page_is_shown_by_its_title(m: IndexModel, id: Seq<char>)
    ensures
        m.pages.contains_key(id) ==> title_of(m, id) == m.pages[id].title,
        !m.pages.contains_key(id) ==> title_of(m, id) == id,
{
}

/// One more page and one more link are one more line of the drawing: a node under
/// its id with its title as label, an arrow from the page that links to the page
/// that is linked.
pub proof fn one_more_link_is_one_more_arrow(
    m: IndexModel,
    ids: Seq<Seq<char>>,
    id: Seq<char>,
    edges: Seq<EdgeModel>,
    e: EdgeModel,
)
    ensures
        dot_nodes(m, ids.push(id)) == dot_nodes(m, ids) + ("  \""@ + dot_escaped(id)
            + "\" [label=\""@ + dot_escaped(title_of(m, id)) + "\"];\n"@),
        dot_edges(edges.push(e)) == dot_edges(edges) + ("  \""@ + dot_escaped(e.source)
            + "\" -> \""@ + dot_escaped(e.target) + "\";\n"@),
        dot_nodes(m, Seq::empty()).len() == 0,
        dot_edges(Seq::empty()).len() == 0,
        dot_text(m, ids, edges) == "digraph links {\n  rankdir=LR;\n"@ + dot_nodes(m, ids)
            + dot_edges(edges) + "}\n"@,
{
    assert(ids.push(id).drop_last() =~= ids);
    assert(edges.push(e).drop_last() =~= edges);
}

/// How often a page is linked: one more link to it counts, a link from it does
/// not.
pub proof fn links_to_a_page_are_counted(edges: Seq<EdgeModel>, e: EdgeModel, id: Seq<char>)
    ensures
        in_degree(edges.push(e), id) == in_degree(edges, id) + if e.target == id {
            1int
        } else {
            0int
        },
        in_degree(Seq::empty(), id) == 0,
{
    assert(edge_targets(edges.push(e)).drop_last() =~= edge_targets(edges));
    assert(edge_targets(edges.push(e)).last() == e.target);
    assert(edge_targets(Seq::<EdgeModel>::empty()) =~= Seq::<Seq<char>>::empty());
}

/// A page is isolated where no link leads to it or away from it; the isolated
/// pages stand in their order.
pub proof fn isolated_pages_have_no_links(
    ids: Seq<Seq<char>>,
    edges: Seq<EdgeModel>,
    id: Seq<char>,
)
    ensures
        (exists|i: int|
            0 <= i < edges.len() && ((#[trigger] edges[i]).source == id || edges[i].target == id))
            ==> isolated(ids.push(id), edges) == isolated(ids, edges),
        !(exists|i: int|
            0 <= i < edges.len() && ((#[trigger] edges[i]).source == id || edges[i].target == id))
            ==> isolated(ids.push(id), edges) == isolated(ids, edges).push(id),
        isolated(Seq::empty(), edges).len() == 0,
{
    assert(ids.push(id).drop_last() =~= ids);
    if exists|i: int|
        0 <= i < edges.len() && ((#[trigger] edges[i]).source == id || edges[i].target == id) {
        let i = choose|i: int|
            0 <= i < edges.len() && ((#[trigger] edges[i]).source == id || edges[i].target == id);
        assert(touches(edges[i], id));
        assert(is_end(edges, id));
    } else if is_end(edges, id) {
        let i = choose|i: int| 0 <= i < edges.len() && touches(#[trigger] edges[i], id);
        assert(edges[i].source == id || edges[i].target == id);
    }
}

/// One more page is one more row at the end: its title, or how often it is linked
/// in four columns before its title.
pub proof fn one_more_linked_page_is_one_more_row(
    m: IndexModel,
    edges: Seq<EdgeModel>,
    ids: Seq<Seq<char>>,
    id: Seq<char>,
    indent: Seq<char>,
)
    ensures
        title_rows(m, indent, ids.push(id)) == title_rows(m, indent, ids) + (indent + title_of(
            m,
            id,
        ) + "\n"@),
        decimal(in_degree(edges, id)).len() == 1 ==> degree_rows(m, edges, ids.push(id))
            == degree_rows(m, edges, ids) + ("  "@ + ("   "@ + decimal(in_degree(edges, id)))
            + "  "@ + title_of(m, id) + "\n"@),
{
    assert(ids.push(id).drop_last() =~= ids);
    reveal_strlit("   ");
    assert(repeated(' ', 3) =~= "   "@);
}

/// At most the first ten of the pages that are linked most are shown.
pub proof fn ten_pages_are_shown(ids: Seq<Seq<char>>, i: int)
    ensures
        top_ten(ids).len() == (if ids.len() <= 10 {
            ids.len()
        } else {
            10
        }),
        0 <= i < top_ten(ids).len() ==> top_ten(ids)[i] == ids[i],
{
}

/// What is said of the graph: how many pages and links there are, which page it is
/// seen from, which pages are linked most and which are isolated.
pub proof fn the_graph_is_told(
    m: IndexModel,
    edges: Seq<EdgeModel>,
    ego: Option<Seq<char>>,
    nodes: nat,
    linked: Seq<Seq<char>>,
)
    ensures
        ego is None && linked.len() == 0 && isolated(m.order, edges).len() == 0 ==> graph_text(
            m,
            edges,
            ego,
            nodes,
            linked,
        ) == "Link Graph\n  pages: "@ + decimal(m.order.len()) + "\n  links: "@ + decimal(
            edges.len(),
        ) + "\n"@,
        ego is None && linked.len() == 0 && isolated(m.order, edges).len() > 0 ==> graph_text(
            m,
            edges,
            ego,
            nodes,
            linked,
        ) == "Link Graph\n  pages: "@ + decimal(m.order.len()) + "\n  links: "@ + decimal(
            edges.len(),
        ) + "\n"@ + "\nIsolated Pages ("@ + decimal(isolated(m.order, edges).len()) + "):\n"@
            + title_rows(m, "  "@, isolated(m.order, edges)),
        ego is None && linked.len() > 0 && isolated(m.order, edges).len() == 0 ==> graph_text(
            m,
            edges,
            ego,
            nodes,
            linked,
        ) == "Link Graph\n  pages: "@ + decimal(m.order.len()) + "\n  links: "@ + decimal(
            edges.len(),
        ) + "\n"@ + "\nMost Linked Pages:\n"@ + degree_rows(m, edges, top_ten(linked)),
        ego is Some && linked.len() == 0 ==> graph_text(m, edges, ego, nodes, linked)
            == "Link Graph (ego: "@ + title_of(m, ego->0) + ")\n  pages: "@ + decimal(nodes)
            + "\n  links: "@ + decimal(edges.len()) + "\n"@,
        ego is Some && linked.len() > 0 ==> graph_text(m, edges, ego, nodes, linked)
            == "Link Graph (ego: "@ + title_of(m, ego->0) + ")\n  pages: "@ + decimal(nodes)
            + "\n  links: "@ + decimal(edges.len()) + "\n"@ + "\nMost Linked Pages:\n"@
            + degree_rows(m, edges, top_ten(linked)),
{
    reveal_strlit("Link Graph");
    reveal_strlit("\n  pages: ");
    reveal_strlit("Link Graph\n  pages: ");
    reveal_strlit(" (ego: ");
    reveal_strlit(")");
    reveal_strlit("Link Graph (ego: ");
    reveal_strlit(")\n  pages: ");
    let out = graph_text(m, edges, ego, nodes, linked);
    let alone = isolated(m.order, edges);
    let plain = "Link Graph\n  pages: "@ + decimal(m.order.len()) + "\n  links: "@ + decimal(
        edges.len(),
    ) + "\n"@;
    let from = "Link Graph (ego: "@ + title_of(m, ego->0) + ")\n  pages: "@ + decimal(nodes)
        + "\n  links: "@ + decimal(edges.len()) + "\n"@;
    let most = "\nMost Linked Pages:\n"@ + degree_rows(m, edges, top_ten(linked));
    let rows = title_rows(m, "  "@, alone);
    if ego is None {
        if linked.len() == 0 && alone.len() == 0 {
            assert(out =~= plain);
        } else if linked.len() == 0 {
            assert(out =~= plain + "\nIsolated Pages ("@ + decimal(alone.len()) + "):\n"@ + rows);
        } else if alone.len() == 0 {
            assert(out =~= plain + "\nMost Linked Pages:\n"@ + degree_rows(
                m,
                edges,
                top_ten(linked),
            ));
        }
    } else {
        if linked.len() == 0 {
            assert(out =~= from);
        } else {
            assert(out =~= from + "\nMost Linked Pages:\n"@ + degree_rows(
                m,
                edges,
                top_ten(linked),
            ));
        }
    }
}

/// The record of the graph holds a node with id and title for each page, and an
/// edge with both ends for each link, in order.
pub proof fn the_record_of_the_graph(
    m: IndexModel,
    ids: Seq<Seq<char>>,
    edges: Seq<EdgeModel>,
    i: int,
)
    ensures
        ({
            let g = graph_object(m, ids, edges);
            &&& g.get("nodes"@) is Some && g.get("nodes"@)->0 is Array
            &&& g.get("edges"@) is Some && g.get("edges"@)->0 is Array
            &&& (g.get("nodes"@)->0)->Array_0.len() == ids.len()
            &&& (g.get("edges"@)->0)->Array_0.len() == edges.len()
            &&& 0 <= i < ids.len() ==> (g.get("nodes"@)->0)->Array_0[i].get("id"@) == Some(
                JsonModel::Str(ids[i]),
            ) && (g.get("nodes"@)->0)->Array_0[i].get("title"@) == Some(
                JsonModel::Str(title_of(m, ids[i])),
            )
            &&& 0 <= i < edges.len() ==> (g.get("edges"@)->0)->Array_0[i].get("source"@) == Some(
                JsonModel::Str(edges[i].source),
            ) && (g.get("edges"@)->0)->Array_0[i].get("target"@) == Some(
                JsonModel::Str(edges[i].target),
            )
        }),
{
    reveal_strlit("nodes");
    reveal_strlit("edges");
    reveal_strlit("id");
    reveal_strlit("title");
    reveal_strlit("source");
    reveal_strlit("target");
    assert("nodes"@.len() == 5 && "nodes"@[0] == 'n' && "edges"@[0] == 'e');
    assert("id"@.len() == 2 && "title"@.len() == 5);
    assert("source"@.len() == 6 && "source"@[0] == 's' && "target"@[0] == 't');
    let members = graph_object(m, ids, edges)->Object_0;
    the_first_member_of_a_name_is_got(members, 0, "nodes"@);
    the_first_member_of_a_name_is_got(members, 1, "edges"@);
    if 0 <= i < ids.len() {
        let own = node_object(m, ids[i])->Object_0;
        the_first_member_of_a_name_is_got(own, 0, "id"@);
        the_first_member_of_a_name_is_got(own, 1, "title"@);
    }
    if 0 <= i < edges.len() {
        let own = edge_object(edges[i])->Object_0;
        the_first_member_of_a_name_is_got(own, 0, "source"@);
        the_first_member_of_a_name_is_got(own, 1, "target"@);
    }
}

} // verus!
