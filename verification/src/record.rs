//! Pages, their metadata and what a search found, as JSON.

use crate::json::{
    array_of, array_of_texts, json_views, member_views, object_of, text_array,
    the_first_member_of_a_name_is_got, Json, JsonModel, Member, MemberModel,
};
use crate::model::{
    item_views, lemma_list_view, node_views, HitModel, MetaModel, Node, NodeModel, Page, PageMeta,
    PageModel, SearchHit, SearchMatchKind,
};
use crate::number::{decimal, decimal_of};
use crate::text::{copy_of, ends_with, opt_view, without_suffix};
use crate::time::{rfc3339_text, Timestamp};
use vstd::prelude::*;

verus! {

pub open spec fn field(name: Seq<char>, value: JsonModel) -> MemberModel {
    MemberModel { name, value }
}

/// A text, or null where there is none.
pub open spec fn text_or_null(t: Option<Seq<char>>) -> JsonModel {
    match t {
        Some(s) => JsonModel::Str(s),
        None => JsonModel::Null,
    }
}

/// A number.
pub open spec fn number(n: nat) -> JsonModel {
    JsonModel::Number(decimal(n))
}

/// Adds a member behind the others.
pub fn put(members: &mut Vec<Member>, name: &str, value: Json)
    ensures
        member_views(final(members)@) == member_views(old(members)@).push(field(name@, value@)),
{
    let m = Member { name: copy_of(name), value };
    members.push(m);
    assert(member_views(members@) =~= member_views(old(members)@).push(field(name@, value@)));
}

/// The members of an object that has none.
pub fn no_members() -> (members: Vec<Member>)
    ensures
        member_views(members@) == Seq::<MemberModel>::empty(),
{
    let members: Vec<Member> = Vec::new();
    assert(member_views(members@) =~= Seq::<MemberModel>::empty());
    members
}

/// A text as JSON.
pub fn text_value(t: &str) -> (j: Json)
    ensures
        j@ == JsonModel::Str(t@),
{
    Json::Str(copy_of(t))
}

/// A number as JSON.
pub fn number_value(n: usize) -> (j: Json)
    ensures
        j@ == number(n as nat),
{
    Json::Number(decimal_of(n))
}

/// A text as JSON, or null.
pub fn optional_text(t: &Option<String>) -> (j: Json)
    ensures
        j@ == text_or_null(opt_view(*t)),
{
    match t {
        Some(s) => Json::Str(copy_of(s.as_str())),
        None => Json::Null,
    }
}

/// A point in time in RFC 3339 form, with a `Z` for an offset of nothing; null
/// where there is none.
pub open spec fn time_record(t: Option<Timestamp>) -> JsonModel {
    match t {
        Some(t) => match rfc3339_text(t.seconds, t.nanos, t.offset) {
            Some(s) => JsonModel::Str(
                if t.offset == 0 && ends_with(s, "+00:00"@) {
                    s.take(s.len() - 6) + "Z"@
                } else {
                    s
                },
            ),
            None => JsonModel::Null,
        },
        None => JsonModel::Null,
    }
}

/// A time as JSON, or null where there is none or it cannot be written.
pub fn time_json(t: Option<Timestamp>) -> (j: Json)
    ensures
        j@ == time_record(t),
{
    proof {
        reveal_strlit("+00:00");
    }
    match t {
        Some(t) => match t.to_rfc3339() {
            Some(s) => {
                if t.offset == 0 {
                    if let Some(rest) = without_suffix(s.as_str(), "+00:00") {
                        let mut out = rest;
                        out.push_str("Z");
                        assert(out@ =~= s@.take(s@.len() - 6) + "Z"@);
                        return Json::Str(out);
                    }
                }
                Json::Str(s)
            },
            None => Json::Null,
        },
        None => Json::Null,
    }
}

/// The metadata of a page.
pub open spec fn meta_record(m: MetaModel) -> JsonModel {
    JsonModel::Object(
        seq![
            field("id"@, JsonModel::Str(m.id)),
            field("title"@, JsonModel::Str(m.title)),
            field("path"@, JsonModel::Str(m.path)),
            field("updated_at"@, time_record(m.updated_at)),
            field("tags"@, text_array(m.tags)),
        ],
    )
}

/// The record of one page.
pub fn meta_json(meta: &PageMeta) -> (j: Json)
    ensures
        j@ == meta_record(meta@),
{
    let mut members = no_members();
    put(&mut members, "id", text_value(meta.id.as_str()));
    put(&mut members, "title", text_value(meta.title.as_str()));
    put(&mut members, "path", text_value(meta.path.as_str()));
    put(&mut members, "updated_at", time_json(meta.updated_at));
    put(&mut members, "tags", array_of_texts(&meta.tags));
    assert(member_views(members@) =~= meta_record(meta@)->Object_0);
    object_of(members)
}

/// The metadata of some pages.
pub open spec fn meta_records(metas: Seq<MetaModel>) -> JsonModel {
    JsonModel::Array(Seq::new(metas.len(), |i: int| meta_record(metas[i])))
}

pub open spec fn meta_views(metas: Seq<&PageMeta>) -> Seq<MetaModel> {
    Seq::new(metas.len(), |i: int| metas[i]@)
}

/// The records of many pages.
pub fn metas_json(metas: &Vec<&PageMeta>) -> (j: Json)
    ensures
        j@ == meta_records(meta_views(metas@)),
{
    let mut items: Vec<Json> = Vec::new();
    let mut i: usize = 0;
    while i < metas.len()
        invariant
            i <= metas@.len(),
            items@.len() == i,
            forall|k: int| 0 <= k < i ==> (#[trigger] items@[k])@ == meta_record(metas@[k]@),
        decreases metas.len() - i,
    {
        items.push(meta_json(metas[i]));
        i += 1;
    }
    assert(json_views(items@) =~= meta_records(meta_views(metas@))->Array_0);
    array_of(items)
}

/// The name of a kind of match.
pub open spec fn kind_name(kind: SearchMatchKind) -> Seq<char> {
    match kind {
        SearchMatchKind::Title => "title"@,
        SearchMatchKind::Tag => "tag"@,
        SearchMatchKind::Content => "content"@,
    }
}

/// The name of a kind of match.
pub fn kind_text(kind: SearchMatchKind) -> (text: String)
    ensures
        text@ == kind_name(kind),
{
    match kind {
        SearchMatchKind::Title => copy_of("title"),
        SearchMatchKind::Tag => copy_of("tag"),
        SearchMatchKind::Content => copy_of("content"),
    }
}

/// What a search found.
pub open spec fn hit_record(h: HitModel) -> JsonModel {
    JsonModel::Object(
        seq![field("id"@, JsonModel::Str(h.id)), field("kind"@, JsonModel::Str(kind_name(h.kind)))],
    )
}

/// The record of one search hit.
pub fn hit_json(hit: &SearchHit) -> (j: Json)
    ensures
        j@ == hit_record(hit@),
{
    let mut members = no_members();
    put(&mut members, "id", text_value(hit.id.as_str()));
    put(&mut members, "kind", Json::Str(kind_text(hit.kind)));
    assert(member_views(members@) =~= hit_record(hit@)->Object_0);
    object_of(members)
}

// ---------------------------------------------------------------------------
// Nodes
// ---------------------------------------------------------------------------

/// A node: its type, and what it holds.
pub open spec fn node_record(n: NodeModel) -> JsonModel
    decreases n,
{
    match n {
        NodeModel::Heading { level, text } => JsonModel::Object(
            seq![
                field("type"@, JsonModel::Str("heading"@)),
                field("level"@, number(level as nat)),
                field("text"@, JsonModel::Str(text)),
            ],
        ),
        NodeModel::Paragraph { text } => JsonModel::Object(
            seq![
                field("type"@, JsonModel::Str("paragraph"@)),
                field("text"@, JsonModel::Str(text)),
            ],
        ),
        NodeModel::Text { text } => JsonModel::Object(
            seq![
                field("type"@, JsonModel::Str("text"@)),
                field("text"@, JsonModel::Str(text)),
            ],
        ),
        NodeModel::List { items } => JsonModel::Object(
            seq![
                field("type"@, JsonModel::Str("list"@)),
                field("items"@, JsonModel::Array(item_records(items))),
            ],
        ),
        NodeModel::Code { language, code } => JsonModel::Object(
            seq![
                field("type"@, JsonModel::Str("code"@)),
                field("language"@, text_or_null(language)),
                field("code"@, JsonModel::Str(code)),
            ],
        ),
        NodeModel::Link { text, url } => JsonModel::Object(
            seq![
                field("type"@, JsonModel::Str("link"@)),
                field("text"@, JsonModel::Str(text)),
                field("url"@, JsonModel::Str(url)),
            ],
        ),
        NodeModel::Quote { text } => JsonModel::Object(
            seq![
                field("type"@, JsonModel::Str("quote"@)),
                field("text"@, JsonModel::Str(text)),
            ],
        ),
        NodeModel::Rewrite { language, search, replace, scope, is_method_pattern } =>
            JsonModel::Object(
            seq![
                field("type"@, JsonModel::Str("rewrite"@)),
                field("language"@, text_or_null(language)),
                field("search"@, JsonModel::Str(search)),
                field("replace"@, JsonModel::Str(replace)),
                field("scope"@, text_or_null(scope)),
                field(
                    "is_method_pattern"@,
                    match is_method_pattern {
                        Some(b) => JsonModel::Bool(b),
                        None => JsonModel::Null,
                    },
                ),
            ],
        ),
        NodeModel::Unknown { typ, raw } => JsonModel::Object(
            seq![
                field("type"@, JsonModel::Str("unknown"@)),
                field("source_type"@, JsonModel::Str(typ)),
                field("raw"@, raw),
            ],
        ),
    }
}

/// The items of a list.
pub open spec fn item_records(items: Seq<Seq<NodeModel>>) -> Seq<JsonModel>
    decreases items,
{
    if items.len() == 0 {
        Seq::empty()
    } else {
        item_records(items.take(items.len() - 1)).push(
            JsonModel::Array(node_records(items[items.len() - 1])),
        )
    }
}

/// Some nodes.
pub open spec fn node_records(nodes: Seq<NodeModel>) -> Seq<JsonModel>
    decreases nodes,
{
    if nodes.len() == 0 {
        Seq::empty()
    } else {
        node_records(nodes.take(nodes.len() - 1)).push(node_record(nodes[nodes.len() - 1]))
    }
}

fn tagged(typ: &str) -> (members: Vec<Member>)
    ensures
        member_views(members@) == seq![field("type"@, JsonModel::Str(typ@))],
{
    let mut members = no_members();
    put(&mut members, "type", text_value(typ));
    assert(member_views(members@) =~= seq![field("type"@, JsonModel::Str(typ@))]);
    members
}

/// A node of one text.
fn text_node_json(typ: &str, text: &str) -> (j: Json)
    ensures
        j@ == JsonModel::Object(
            seq![
                field("type"@, JsonModel::Str(typ@)),
                field("text"@, JsonModel::Str(text@)),
            ],
        ),
{
    let mut members = tagged(typ);
    put(&mut members, "text", text_value(text));
    assert(member_views(members@) =~= seq![
        field("type"@, JsonModel::Str(typ@)),
        field("text"@, JsonModel::Str(text@)),
    ]);
    object_of(members)
}

fn items_json(items: &Vec<Vec<Node>>) -> (out: Vec<Json>)
    ensures
        json_views(out@) == item_records(item_views(items@)),
    decreases items,
{
    let ghost all = item_views(items@);
    let mut out: Vec<Json> = Vec::new();
    let mut i: usize = 0;
    assert(all.take(0) =~= Seq::<Seq<NodeModel>>::empty());
    assert(json_views(out@) =~= Seq::<JsonModel>::empty());
    while i < items.len()
        invariant
            i <= items@.len(),
            all == item_views(items@),
            json_views(out@) == item_records(all.take(i as int)),
        decreases items.len() - i,
    {
        let ghost before = json_views(out@);
        proof {
            assert(decreases_to!(*items => items@));
            assert(decreases_to!(items@ => items@[i as int]));
            let next = all.take(i as int + 1);
            assert(next.take(next.len() - 1) =~= all.take(i as int));
            assert(next[next.len() - 1] == node_views(items@[i as int]@));
        }
        let j = array_of(nodes_json(&items[i]));
        out.push(j);
        assert(json_views(out@) =~= before.push(j@));
        i += 1;
    }
    assert(all.take(i as int) =~= all);
    out
}

/// A node.
pub fn node_json(node: &Node) -> (j: Json)
    ensures
        j@ == node_record(node@),
    decreases node,
{
    match node {
        Node::Heading { level, text } => {
            let mut members = tagged("heading");
            put(&mut members, "level", number_value(*level as usize));
            put(&mut members, "text", text_value(text.as_str()));
            assert(member_views(members@) =~= node_record(node@)->Object_0);
            object_of(members)
        },
        Node::Paragraph { text } => text_node_json("paragraph", text.as_str()),
        Node::Text { text } => text_node_json("text", text.as_str()),
        Node::List { items } => {
            proof {
                lemma_list_view(*node);
                assert(node->items == *items);
                assert(decreases_to!(*node => node->items));
            }
            let mut members = tagged("list");
            put(&mut members, "items", array_of(items_json(items)));
            assert(member_views(members@) =~= node_record(node@)->Object_0);
            object_of(members)
        },
        Node::Code { language, code } => {
            let mut members = tagged("code");
            put(&mut members, "language", optional_text(language));
            put(&mut members, "code", text_value(code.as_str()));
            assert(member_views(members@) =~= node_record(node@)->Object_0);
            object_of(members)
        },
        Node::Link { text, url } => {
            let mut members = tagged("link");
            put(&mut members, "text", text_value(text.as_str()));
            put(&mut members, "url", text_value(url.as_str()));
            assert(member_views(members@) =~= node_record(node@)->Object_0);
            object_of(members)
        },
        Node::Quote { text } => text_node_json("quote", text.as_str()),
        Node::Rewrite { language, search, replace, scope, is_method_pattern } => {
            let mut members = tagged("rewrite");
            put(&mut members, "language", optional_text(language));
            put(&mut members, "search", text_value(search.as_str()));
            put(&mut members, "replace", text_value(replace.as_str()));
            put(&mut members, "scope", optional_text(scope));
            let pattern = match is_method_pattern {
                Some(b) => Json::Bool(*b),
                None => Json::Null,
            };
            put(&mut members, "is_method_pattern", pattern);
            assert(member_views(members@) =~= node_record(node@)->Object_0);
            object_of(members)
        },
        Node::Unknown { typ, raw } => {
            let mut members = tagged("unknown");
            put(&mut members, "source_type", text_value(typ.as_str()));
            put(&mut members, "raw", raw.clone());
            assert(member_views(members@) =~= node_record(node@)->Object_0);
            object_of(members)
        },
    }
}

/// Some nodes.
pub fn nodes_json(nodes: &Vec<Node>) -> (out: Vec<Json>)
    ensures
        json_views(out@) == node_records(node_views(nodes@)),
    decreases nodes,
{
    let ghost all = node_views(nodes@);
    let mut out: Vec<Json> = Vec::new();
    let mut i: usize = 0;
    assert(all.take(0) =~= Seq::<NodeModel>::empty());
    assert(json_views(out@) =~= Seq::<JsonModel>::empty());
    while i < nodes.len()
        invariant
            i <= nodes@.len(),
            all == node_views(nodes@),
            json_views(out@) == node_records(all.take(i as int)),
        decreases nodes.len() - i,
    {
        let ghost before = json_views(out@);
        proof {
            assert(decreases_to!(*nodes => nodes@));
            assert(decreases_to!(nodes@ => nodes@[i as int]));
            let next = all.take(i as int + 1);
            assert(next.take(next.len() - 1) =~= all.take(i as int));
            assert(next[next.len() - 1] == nodes@[i as int]@);
        }
        let j = node_json(&nodes[i]);
        out.push(j);
        assert(json_views(out@) =~= before.push(j@));
        i += 1;
    }
    assert(all.take(i as int) =~= all);
    out
}

/// A page with its content.
pub open spec fn page_record(p: PageModel) -> JsonModel {
    JsonModel::Object(
        seq![
            field("id"@, JsonModel::Str(p.id)),
            field("title"@, JsonModel::Str(p.title)),
            field("updated_at"@, time_record(p.updated_at)),
            field("tags"@, text_array(p.tags)),
            field("content"@, JsonModel::Array(node_records(p.content))),
        ],
    )
}

/// The record of a page with its content.
pub fn page_json(page: &Page) -> (j: Json)
    ensures
        j@ == page_record(page@),
{
    let mut members = no_members();
    put(&mut members, "id", text_value(page.id.as_str()));
    put(&mut members, "title", text_value(page.title.as_str()));
    put(&mut members, "updated_at", time_json(page.updated_at));
    put(&mut members, "tags", array_of_texts(&page.tags));
    put(&mut members, "content", array_of(nodes_json(&page.content)));
    assert(member_views(members@) =~= page_record(page@)->Object_0);
    object_of(members)
}

// ---------------------------------------------------------------------------
// What the records hold
// ---------------------------------------------------------------------------

proof fn lemma_record_names()
    ensures
        "id"@.len() == 2,
        "title"@.len() == 5,
        "path"@.len() == 4 && "path"@[0] == 'p',
        "updated_at"@.len() == 10,
        "tags"@.len() == 4 && "tags"@[0] == 't' && "tags"@[1] == 'a',
        "content"@.len() == 7,
        "kind"@.len() == 4,
        "type"@.len() == 4 && "type"@[0] == 't' && "type"@[1] == 'y',
        "text"@.len() == 4 && "text"@[0] == 't' && "text"@[1] == 'e',
        "level"@.len() == 5,
        "items"@.len() == 5,
        "language"@.len() == 8,
        "code"@.len() == 4 && "code"@[0] == 'c',
        "url"@.len() == 3,
        "search"@.len() == 6,
        "replace"@.len() == 7,
        "scope"@.len() == 5,
        "is_method_pattern"@.len() == 17,
        "source_type"@.len() == 11,
        "raw"@.len() == 3,
{
    reveal_strlit("id");
    reveal_strlit("title");
    reveal_strlit("path");
    reveal_strlit("updated_at");
    reveal_strlit("tags");
    reveal_strlit("content");
    reveal_strlit("kind");
    reveal_strlit("type");
    reveal_strlit("text");
    reveal_strlit("level");
    reveal_strlit("items");
    reveal_strlit("language");
    reveal_strlit("code");
    reveal_strlit("url");
    reveal_strlit("search");
    reveal_strlit("replace");
    reveal_strlit("scope");
    reveal_strlit("is_method_pattern");
    reveal_strlit("source_type");
    reveal_strlit("raw");
}

/// The record of a page holds its id, its title, its place, its time and its tags,
/// and its nodes where its content is told.
pub proof fn the_record_of_a_page(m: MetaModel, p: PageModel, h: HitModel)
    ensures
        meta_record(m).get("id"@) == Some(JsonModel::Str(m.id)),
        meta_record(m).get("title"@) == Some(JsonModel::Str(m.title)),
        meta_record(m).get("path"@) == Some(JsonModel::Str(m.path)),
        meta_record(m).get("updated_at"@) == Some(time_record(m.updated_at)),
        meta_record(m).get("tags"@) == Some(text_array(m.tags)),
        page_record(p).get("id"@) == Some(JsonModel::Str(p.id)),
        page_record(p).get("title"@) == Some(JsonModel::Str(p.title)),
        page_record(p).get("updated_at"@) == Some(time_record(p.updated_at)),
        page_record(p).get("tags"@) == Some(text_array(p.tags)),
        page_record(p).get("content"@) == Some(JsonModel::Array(node_records(p.content))),
        hit_record(h).get("id"@) == Some(JsonModel::Str(h.id)),
        hit_record(h).get("kind"@) == Some(JsonModel::Str(kind_name(h.kind))),
{
    lemma_record_names();
    let a = meta_record(m)->Object_0;
    the_first_member_of_a_name_is_got(a, 0, "id"@);
    the_first_member_of_a_name_is_got(a, 1, "title"@);
    the_first_member_of_a_name_is_got(a, 2, "path"@);
    the_first_member_of_a_name_is_got(a, 3, "updated_at"@);
    the_first_member_of_a_name_is_got(a, 4, "tags"@);
    let b = page_record(p)->Object_0;
    the_first_member_of_a_name_is_got(b, 0, "id"@);
    the_first_member_of_a_name_is_got(b, 1, "title"@);
    the_first_member_of_a_name_is_got(b, 2, "updated_at"@);
    the_first_member_of_a_name_is_got(b, 3, "tags"@);
    the_first_member_of_a_name_is_got(b, 4, "content"@);
    let c = hit_record(h)->Object_0;
    the_first_member_of_a_name_is_got(c, 0, "id"@);
    the_first_member_of_a_name_is_got(c, 1, "kind"@);
}

/// The records of the nodes of a page are those of its nodes, in order, and so are
/// those of the items of a list.
pub proof fn the_records_of_nodes(nodes: Seq<NodeModel>, items: Seq<Seq<NodeModel>>, i: int)
    ensures
        node_records(nodes).len() == nodes.len(),
        0 <= i < nodes.len() ==> node_records(nodes)[i] == node_record(nodes[i]),
        item_records(items).len() == items.len(),
        0 <= i < items.len() ==> item_records(items)[i] == JsonModel::Array(node_records(items[i])),
    decreases nodes.len() + items.len(),
{
    if nodes.len() > 0 || items.len() > 0 {
        let n = nodes.len() - 1;
        let m = items.len() - 1;
        let before = if nodes.len() > 0 {
            nodes.take(n)
        } else {
            nodes
        };
        let earlier = if items.len() > 0 {
            items.take(m)
        } else {
            items
        };
        the_records_of_nodes(before, earlier, i);
        if nodes.len() > 0 {
            assert(node_records(nodes) == node_records(before).push(node_record(nodes[n])));
            if 0 <= i < n {
                assert(before[i] == nodes[i]);
            }
        }
        if items.len() > 0 {
            assert(item_records(items) == item_records(earlier).push(
                JsonModel::Array(node_records(items[m])),
            ));
            if 0 <= i < m {
                assert(earlier[i] == items[i]);
            }
        }
    }
}

/// The record of a node names its kind and holds all that the node holds.
pub proof fn the_record_of_a_text_node(level: u8, text: Seq<char>, url: Seq<char>, raw: JsonModel)
    ensures
        ({
            let r = node_record(NodeModel::Heading { level, text });
            &&& r.get("type"@) == Some(JsonModel::Str("heading"@))
            &&& r.get("level"@) == Some(number(level as nat))
            &&& r.get("text"@) == Some(JsonModel::Str(text))
        }),
        ({
            let r = node_record(NodeModel::Paragraph { text });
            &&& r.get("type"@) == Some(JsonModel::Str("paragraph"@))
            &&& r.get("text"@) == Some(JsonModel::Str(text))
        }),
        ({
            let r = node_record(NodeModel::Text { text });
            &&& r.get("type"@) == Some(JsonModel::Str("text"@))
            &&& r.get("text"@) == Some(JsonModel::Str(text))
        }),
        ({
            let r = node_record(NodeModel::Quote { text });
            &&& r.get("type"@) == Some(JsonModel::Str("quote"@))
            &&& r.get("text"@) == Some(JsonModel::Str(text))
        }),
        ({
            let r = node_record(NodeModel::Link { text, url });
            &&& r.get("type"@) == Some(JsonModel::Str("link"@))
            &&& r.get("text"@) == Some(JsonModel::Str(text))
            &&& r.get("url"@) == Some(JsonModel::Str(url))
        }),
        ({
            let r = node_record(NodeModel::Unknown { typ: text, raw });
            &&& r.get("type"@) == Some(JsonModel::Str("unknown"@))
            &&& r.get("source_type"@) == Some(JsonModel::Str(text))
            &&& r.get("raw"@) == Some(raw)
        }),
{
    lemma_record_names();
    let a = node_record(NodeModel::Heading { level, text })->Object_0;
    the_first_member_of_a_name_is_got(a, 0, "type"@);
    the_first_member_of_a_name_is_got(a, 1, "level"@);
    the_first_member_of_a_name_is_got(a, 2, "text"@);
    let b = node_record(NodeModel::Paragraph { text })->Object_0;
    the_first_member_of_a_name_is_got(b, 0, "type"@);
    the_first_member_of_a_name_is_got(b, 1, "text"@);
    let c = node_record(NodeModel::Text { text })->Object_0;
    the_first_member_of_a_name_is_got(c, 0, "type"@);
    the_first_member_of_a_name_is_got(c, 1, "text"@);
    let d = node_record(NodeModel::Quote { text })->Object_0;
    the_first_member_of_a_name_is_got(d, 0, "type"@);
    the_first_member_of_a_name_is_got(d, 1, "text"@);
    let e = node_record(NodeModel::Link { text, url })->Object_0;
    the_first_member_of_a_name_is_got(e, 0, "type"@);
    the_first_member_of_a_name_is_got(e, 1, "text"@);
    the_first_member_of_a_name_is_got(e, 2, "url"@);
    let f = node_record(NodeModel::Unknown { typ: text, raw })->Object_0;
    the_first_member_of_a_name_is_got(f, 0, "type"@);
    the_first_member_of_a_name_is_got(f, 1, "source_type"@);
    the_first_member_of_a_name_is_got(f, 2, "raw"@);
}

/// The records of code, of a rule and of a list.
pub proof fn the_record_of_a_code_node(
    language: Option<Seq<char>>,
    search: Seq<char>,
    replace: Seq<char>,
    scope: Option<Seq<char>>,
    pattern: Option<bool>,
    items: Seq<Seq<NodeModel>>,
)
    ensures
        ({
            let r = node_record(NodeModel::Code { language, code: search });
            &&& r.get("type"@) == Some(JsonModel::Str("code"@))
            &&& r.get("language"@) == Some(text_or_null(language))
            &&& r.get("code"@) == Some(JsonModel::Str(search))
        }),
        ({
            let r = node_record(
                NodeModel::Rewrite { language, search, replace, scope, is_method_pattern: pattern },
            );
            &&& r.get("type"@) == Some(JsonModel::Str("rewrite"@))
            &&& r.get("language"@) == Some(text_or_null(language))
            &&& r.get("search"@) == Some(JsonModel::Str(search))
            &&& r.get("replace"@) == Some(JsonModel::Str(replace))
            &&& r.get("scope"@) == Some(text_or_null(scope))
            &&& r.get("is_method_pattern"@) == Some(
                match pattern {
                    Some(b) => JsonModel::Bool(b),
                    None => JsonModel::Null,
                },
            )
        }),
        ({
            let r = node_record(NodeModel::List { items });
            &&& r.get("type"@) == Some(JsonModel::Str("list"@))
            &&& r.get("items"@) == Some(JsonModel::Array(item_records(items)))
        }),
{
    lemma_record_names();
    let a = node_record(NodeModel::Code { language, code: search })->Object_0;
    the_first_member_of_a_name_is_got(a, 0, "type"@);
    the_first_member_of_a_name_is_got(a, 1, "language"@);
    the_first_member_of_a_name_is_got(a, 2, "code"@);
    let b = node_record(
        NodeModel::Rewrite { language, search, replace, scope, is_method_pattern: pattern },
    )->Object_0;
    the_first_member_of_a_name_is_got(b, 0, "type"@);
    the_first_member_of_a_name_is_got(b, 1, "language"@);
    the_first_member_of_a_name_is_got(b, 2, "search"@);
    the_first_member_of_a_name_is_got(b, 3, "replace"@);
    the_first_member_of_a_name_is_got(b, 4, "scope"@);
    the_first_member_of_a_name_is_got(b, 5, "is_method_pattern"@);
    let c = node_record(NodeModel::List { items })->Object_0;
    the_first_member_of_a_name_is_got(c, 0, "type"@);
    the_first_member_of_a_name_is_got(c, 1, "items"@);
}

/// The names of the kinds of matches, and what stands for nothing.
pub proof fn the_names_of_matches(t: Seq<char>)
    ensures
        kind_name(SearchMatchKind::Title) == "title"@,
        kind_name(SearchMatchKind::Tag) == "tag"@,
        kind_name(SearchMatchKind::Content) == "content"@,
        text_or_null(Some(t)) == JsonModel::Str(t),
        text_or_null(None) == JsonModel::Null,
{
}

/// A time is told as it is written, with the sign for no offset where there is
/// none, and as nothing where there is no time.
pub proof fn the_record_of_a_time(t: Timestamp, s: Seq<char>)
    requires
        rfc3339_text(t.seconds, t.nanos, t.offset) == Some(s),
    ensures
        t.offset != 0 ==> time_record(Some(t)) == JsonModel::Str(s),
        t.offset == 0 && ends_with(s, "+00:00"@) ==> time_record(Some(t)) == JsonModel::Str(
            s.take(s.len() - 6) + "Z"@,
        ),
        time_record(None) == JsonModel::Null,
{
}

} // verus!
