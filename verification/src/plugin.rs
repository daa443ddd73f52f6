//! What is said between the reader and an external renderer of snippets.

use crate::json::{
    array_of_texts, json_views, member_views, object_of, text_array,
    the_first_member_of_a_name_is_got, Json, JsonModel,
};
use crate::number::{decimal, push_decimal};
use crate::record::{field, no_members, optional_text, put, text_or_null};
use crate::text::{copy_of, lemma_views_push, opt_view, same_text, trim, trimmed, views};
use vstd::prelude::*;

verus! {

/// A request to an external renderer of snippets.
#[derive(Debug)]
pub struct PluginRequest {
    /// The type of the snippet, such as `wardleyMap`.
    pub typ: String,
    /// The snippet.
    pub snippet: Json,
}

/// What a [`PluginRequest`] holds.
#[verifier::ext_equal]
pub struct RequestModel {
    pub typ: Seq<char>,
    pub snippet: JsonModel,
}

impl View for PluginRequest {
    type V = RequestModel;

    open spec fn view(&self) -> RequestModel {
        RequestModel { typ: self.typ@, snippet: self.snippet@ }
    }
}

/// The answer of an external renderer of snippets.
#[derive(Debug)]
pub struct PluginResponse {
    /// Whether the snippet was rendered.
    pub ok: bool,
    /// The rendered lines.
    pub lines: Vec<String>,
    /// What went wrong, if anything did.
    pub error: Option<String>,
}

/// What a [`PluginResponse`] holds.
#[verifier::ext_equal]
pub struct ResponseModel {
    pub ok: bool,
    pub lines: Seq<Seq<char>>,
    pub error: Option<Seq<char>>,
}

impl View for PluginResponse {
    type V = ResponseModel;

    open spec fn view(&self) -> ResponseModel {
        ResponseModel { ok: self.ok, lines: views(self.lines@), error: opt_view(self.error) }
    }
}

/// The answer that holds some rendered lines.
pub open spec fn rendered(lines: Seq<Seq<char>>) -> ResponseModel {
    ResponseModel { ok: true, lines, error: None }
}

/// The answer that says what went wrong.
pub open spec fn refused(message: Seq<char>) -> ResponseModel {
    ResponseModel { ok: false, lines: Seq::empty(), error: Some(message) }
}

/// The members of an answer.
pub open spec fn response_record(r: ResponseModel) -> JsonModel {
    JsonModel::Object(
        seq![
            field("ok"@, JsonModel::Bool(r.ok)),
            field("lines"@, text_array(r.lines)),
            field("error"@, text_or_null(r.error)),
        ],
    )
}

impl PluginResponse {
    /// The answer that holds some rendered lines.
    pub fn ok(lines: Vec<String>) -> (r: PluginResponse)
        ensures
            r@ == rendered(views(lines@)),
    {
        PluginResponse { ok: true, lines, error: None }
    }

    /// The answer that says what went wrong.
    pub fn error(message: &str) -> (r: PluginResponse)
        ensures
            r@ == refused(message@),
    {
        let r = PluginResponse { ok: false, lines: Vec::new(), error: Some(copy_of(message)) };
        assert(r@.lines =~= Seq::<Seq<char>>::empty());
        r
    }

    /// The answer as JSON.
    pub fn to_json(&self) -> (j: Json)
        ensures
            j@ == response_record(self@),
    {
        let mut members = no_members();
        put(&mut members, "ok", Json::Bool(self.ok));
        put(&mut members, "lines", array_of_texts(&self.lines));
        put(&mut members, "error", optional_text(&self.error));
        let j = object_of(members);
        assert(member_views(members@) =~= response_record(self@)->Object_0);
        j
    }
}

/// What follows from a line that came in.
#[derive(Debug)]
pub enum PluginStep {
    /// Nothing: the line is blank.
    Skip,
    /// The request is handed on, and what comes back is sent.
    Handle(PluginRequest),
    /// The answer is sent.
    Reply(PluginResponse),
}

/// What a [`PluginStep`] holds.
#[verifier::ext_equal]
pub enum StepModel {
    Skip,
    Handle(RequestModel),
    Reply(ResponseModel),
}

impl View for PluginStep {
    type V = StepModel;

    open spec fn view(&self) -> StepModel {
        match self {
            PluginStep::Skip => StepModel::Skip,
            PluginStep::Handle(r) => StepModel::Handle(r@),
            PluginStep::Reply(r) => StepModel::Reply(r@),
        }
    }
}

/// What follows from a line, given what reading it as a request came to.
pub open spec fn step_for(
    line: Seq<char>,
    request: Result<RequestModel, Seq<char>>,
) -> StepModel {
    if trimmed(line).len() == 0 {
        StepModel::Skip
    } else {
        match request {
            Ok(r) => StepModel::Handle(r),
            Err(e) => StepModel::Reply(refused("invalid request: "@ + e)),
        }
    }
}

pub open spec fn request_result(
    r: Result<PluginRequest, String>,
) -> Result<RequestModel, Seq<char>> {
    match r {
        Ok(request) => Ok(request@),
        Err(e) => Err(e@),
    }
}

/// What follows from a line, given what reading it as a request came to.
pub fn plugin_step(line: &str, request: Result<PluginRequest, String>) -> (step: PluginStep)
    ensures
        step@ == step_for(line@, request_result(request)),
{
    let text = trim(line);
    if text.as_str().is_empty() {
        return PluginStep::Skip;
    }
    match request {
        Ok(r) => PluginStep::Handle(r),
        Err(e) => {
            let mut message = copy_of("invalid request: ");
            message.push_str(e.as_str());
            PluginStep::Reply(PluginResponse::error(message.as_str()))
        },
    }
}

// ---------------------------------------------------------------------------
// A renderer of Wardley maps
// ---------------------------------------------------------------------------

/// The name of a node of a map, if it has one.
pub open spec fn node_name(node: JsonModel) -> Option<Seq<char>> {
    match node.get("label"@) {
        Some(label) => match label.get("text"@) {
            Some(text) => text.as_str(),
            None => None,
        },
        None => None,
    }
}

/// The names among some nodes, in order.
pub open spec fn names_of(nodes: Seq<JsonModel>) -> Seq<Seq<char>>
    decreases nodes.len(),
{
    if nodes.len() == 0 {
        Seq::empty()
    } else {
        match node_name(nodes.last()) {
            Some(name) => names_of(nodes.drop_last()).push(name),
            None => names_of(nodes.drop_last()),
        }
    }
}

/// The names of the nodes of a map.
pub open spec fn map_names(snippet: JsonModel) -> Seq<Seq<char>> {
    match snippet.get("wardleyMapDictionary"@) {
        Some(map) => match map.get("nodes"@) {
            Some(nodes) => match nodes.as_array() {
                Some(items) => names_of(items),
                None => Seq::empty(),
            },
            None => Seq::empty(),
        },
        None => Seq::empty(),
    }
}

/// The lines that show a map.
pub open spec fn map_lines(names: Seq<Seq<char>>) -> Seq<Seq<char>> {
    seq!["wardley map ("@ + decimal(names.len()) + " nodes)"@] + if names.len() == 0 {
        seq!["<no nodes found>"@]
    } else {
        Seq::new(names.len(), |i: int| "- "@ + names[i])
    }
}

/// The answer to a request for a map.
pub open spec fn map_answer(r: RequestModel) -> ResponseModel {
    if r.typ != "wardleyMap"@ {
        refused("unsupported type: "@ + r.typ)
    } else {
        rendered(map_lines(map_names(r.snippet)))
    }
}

fn find_node_name(node: &Json) -> (name: Option<&str>)
    ensures
        match name {
            Some(s) => node_name(node@) == Some(s@),
            None => node_name(node@) is None,
        },
{
    match node.get("label") {
        Some(label) => match label.get("text") {
            Some(text) => text.as_str(),
            None => None,
        },
        None => None,
    }
}

/// The names of the nodes of a map, in order.
pub fn extract_wardley_nodes(snippet: &Json) -> (names: Vec<String>)
    ensures
        views(names@) == map_names(snippet@),
{
    let mut names: Vec<String> = Vec::new();
    assert(views(names@) =~= Seq::<Seq<char>>::empty());
    let map = match snippet.get("wardleyMapDictionary") {
        Some(map) => map,
        None => return names,
    };
    let nodes = match map.get("nodes") {
        Some(nodes) => nodes,
        None => return names,
    };
    let items = match nodes.as_array() {
        Some(items) => items,
        None => return names,
    };
    let ghost all = json_views(items@);
    let mut i: usize = 0;
    assert(all.take(0) =~= Seq::<JsonModel>::empty());
    while i < items.len()
        invariant
            i <= items@.len(),
            all == json_views(items@),
            views(names@) == names_of(all.take(i as int)),
        decreases items.len() - i,
    {
        assert(all.take(i as int + 1).drop_last() =~= all.take(i as int));
        assert(all.take(i as int + 1).last() == items@[i as int]@);
        if let Some(name) = find_node_name(&items[i]) {
            let t = copy_of(name);
            proof {
                lemma_views_push(names@, t);
            }
            names.push(t);
        }
        i += 1;
    }
    assert(all.take(i as int) =~= all);
    names
}

/// The answer to a request for a map: its title line and a line for each node.
pub fn render_wardley(request: &PluginRequest) -> (r: PluginResponse)
    ensures
        r@ == map_answer(request@),
{
    if !same_text(request.typ.as_str(), "wardleyMap") {
        let mut message = copy_of("unsupported type: ");
        message.push_str(request.typ.as_str());
        return PluginResponse::error(message.as_str());
    }
    let names = extract_wardley_nodes(&request.snippet);
    let ghost all = views(names@);
    let mut lines: Vec<String> = Vec::new();
    let mut title = copy_of("wardley map (");
    push_decimal(&mut title, names.len());
    title.push_str(" nodes)");
    let ghost head = "wardley map ("@ + decimal(all.len()) + " nodes)"@;
    assert(title@ =~= head);
    lines.push(title);
    if names.len() == 0 {
        lines.push(copy_of("<no nodes found>"));
    }
    let mut i: usize = 0;
    while i < names.len()
        invariant
            i <= names@.len(),
            all == views(names@),
            names@.len() > 0 ==> lines@.len() == i + 1,
            names@.len() == 0 ==> views(lines@) == seq![head, "<no nodes found>"@],
            lines@[0]@ == head,
            forall|k: int| 0 <= k < i ==> (#[trigger] lines@[k + 1])@ == "- "@ + all[k],
        decreases names.len() - i,
    {
        let mut line = copy_of("- ");
        line.push_str(names[i].as_str());
        let ghost before = lines@;
        lines.push(line);
        proof {
            assert forall|k: int| 0 <= k < i + 1 implies (#[trigger] lines@[k + 1])@ == "- "@
                + all[k] by {
                if k < i {
                    assert(before[k + 1]@ == "- "@ + all[k]);
                }
            }
        }
        i += 1;
    }
    assert(views(lines@) =~= map_lines(all)) by {
        assert forall|j: int| 0 <= j < lines@.len() implies views(lines@)[j] == map_lines(
            all,
        )[j] by {
            if j > 0 && all.len() > 0 {
                assert(lines@[(j - 1) + 1]@ == "- "@ + all[j - 1]);
            }
        }
    }
    PluginResponse::ok(lines)
}

// ---------------------------------------------------------------------------
// What a plugin answers
// ---------------------------------------------------------------------------

/// A blank line asks nothing; a request that can be read is handled, and one that
/// cannot is answered with what is wrong.
pub proof fn each_line_is_answered(line: Seq<char>, r: RequestModel, e: Seq<char>)
    ensures
        trimmed(line).len() == 0 ==> step_for(line, Ok(r)) == StepModel::Skip && step_for(
            line,
            Err(e),
        ) == StepModel::Skip,
        trimmed(line).len() > 0 ==> step_for(line, Ok(r)) == StepModel::Handle(r),
        trimmed(line).len() > 0 ==> ({
            let s = step_for(line, Err(e));
            &&& s is Reply
            &&& !(s->Reply_0).ok
            &&& (s->Reply_0).lines.len() == 0
            &&& (s->Reply_0).error == Some("invalid request: "@ + e)
        }),
{
}

/// The answer for a map names its nodes, one to a line behind a line that counts
/// them; another type is refused.
pub proof fn a_map_is_answered_with_its_nodes(r: RequestModel, i: int)
    ensures
        r.typ != "wardleyMap"@ ==> !map_answer(r).ok && map_answer(r).error == Some(
            "unsupported type: "@ + r.typ,
        ) && map_answer(r).lines.len() == 0,
        r.typ == "wardleyMap"@ ==> ({
            let names = map_names(r.snippet);
            let a = map_answer(r);
            &&& a.ok
            &&& a.error is None
            &&& a.lines[0] == "wardley map ("@ + decimal(names.len()) + " nodes)"@
            &&& names.len() == 0 ==> a.lines.len() == 2 && a.lines[1] == "<no nodes found>"@
            &&& names.len() > 0 ==> a.lines.len() == names.len() + 1
            &&& 0 <= i < names.len() ==> a.lines[i + 1] == "- "@ + names[i]
        }),
{
}

/// The nodes of a map are named by the texts of their labels, in order; a node
/// without one is left out.
pub proof fn nodes_are_named_by_their_labels(
    nodes: Seq<JsonModel>,
    node: JsonModel,
    label: JsonModel,
    name: Seq<char>,
)
    ensures
        node.get("label"@) == Some(label) && label.get("text"@) == Some(JsonModel::Str(name))
            ==> names_of(nodes.push(node)) == names_of(nodes).push(name),
        node.get("label"@) is None ==> names_of(nodes.push(node)) == names_of(nodes),
        names_of(Seq::empty()).len() == 0,
{
    assert(nodes.push(node).drop_last() =~= nodes);
}

/// The nodes of a map stand under its dictionary.
pub proof fn a_map_holds_its_nodes(snippet: JsonModel, map: JsonModel, nodes: Seq<JsonModel>)
    ensures
        snippet.get("wardleyMapDictionary"@) == Some(map) && map.get("nodes"@) == Some(
            JsonModel::Array(nodes),
        ) ==> map_names(snippet) == names_of(nodes),
        snippet.get("wardleyMapDictionary"@) is None ==> map_names(snippet).len() == 0,
{
}

/// An answer is written with whether it went well, its lines and what went wrong.
pub proof fn an_answer_is_written(r: ResponseModel)
    ensures
        response_record(r).get("ok"@) == Some(JsonModel::Bool(r.ok)),
        response_record(r).get("lines"@) == Some(text_array(r.lines)),
        r.error is Some ==> response_record(r).get("error"@) == Some(JsonModel::Str(r.error->0)),
        r.error is None ==> response_record(r).get("error"@) == Some(JsonModel::Null),
{
    reveal_strlit("ok");
    reveal_strlit("lines");
    reveal_strlit("error");
    assert("ok"@.len() == 2 && "lines"@[0] == 'l' && "error"@[0] == 'e');
    let members = response_record(r)->Object_0;
    the_first_member_of_a_name_is_got(members, 0, "ok"@);
    the_first_member_of_a_name_is_got(members, 1, "lines"@);
    the_first_member_of_a_name_is_got(members, 2, "error"@);
}

} // verus!
