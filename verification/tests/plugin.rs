use lepiter::json::{Json, Member};
use lepiter::plugin::{
    extract_wardley_nodes, plugin_step, render_wardley, PluginRequest, PluginResponse, PluginStep,
};

fn from_value(value: &serde_json::Value) -> Json {
    match value {
        serde_json::Value::Null => Json::Null,
        serde_json::Value::Bool(b) => Json::Bool(*b),
        serde_json::Value::Number(n) => Json::Number(n.to_string()),
        serde_json::Value::String(s) => Json::Str(s.clone()),
        serde_json::Value::Array(items) => Json::Array(items.iter().map(from_value).collect()),
        serde_json::Value::Object(members) => Json::Object(
            members
                .iter()
                .map(|(name, value)| Member { name: name.clone(), value: from_value(value) })
                .collect(),
        ),
    }
}

fn json(text: &str) -> Json {
    from_value(&serde_json::from_str(text).unwrap())
}

fn to_value(json: &Json) -> serde_json::Value {
    match json {
        Json::Null => serde_json::Value::Null,
        Json::Bool(b) => serde_json::Value::Bool(*b),
        Json::Number(n) => serde_json::from_str(n).unwrap(),
        Json::Str(s) => serde_json::Value::String(s.clone()),
        Json::Array(items) => serde_json::Value::Array(items.iter().map(to_value).collect()),
        Json::Object(members) => serde_json::Value::Object(
            members.iter().map(|m| (m.name.clone(), to_value(&m.value))).collect(),
        ),
    }
}

/// A request read from a line.
fn request(line: &str) -> Result<PluginRequest, String> {
    let value: serde_json::Value = serde_json::from_str(line).map_err(|e| e.to_string())?;
    let typ = value["type"].as_str().ok_or("missing field `type`")?;
    let snippet = value.get("snippet").ok_or("missing field `snippet`")?;
    Ok(PluginRequest { typ: typ.to_string(), snippet: from_value(snippet) })
}

/// An answer read from a line.
fn response(line: &str) -> PluginResponse {
    let value: serde_json::Value = serde_json::from_str(line).unwrap();
    PluginResponse {
        ok: value["ok"].as_bool().unwrap(),
        lines: value["lines"]
            .as_array()
            .unwrap()
            .iter()
            .map(|l| l.as_str().unwrap().to_string())
            .collect(),
        error: value["error"].as_str().map(str::to_string),
    }
}

fn run_loop(input: &str, mut handler: impl FnMut(PluginRequest) -> PluginResponse) -> String {
    let mut output = String::new();
    for line in input.lines() {
        let answer = match plugin_step(line, request(line)) {
            PluginStep::Skip => continue,
            PluginStep::Handle(req) => handler(req),
            PluginStep::Reply(answer) => answer,
        };
        output.push_str(&to_value(&answer.to_json()).to_string());
        output.push('\n');
    }
    output
}

fn echo_handler(req: PluginRequest) -> PluginResponse {
    PluginResponse::ok(vec![format!("echo: {}", req.typ)])
}

#[test]
fn valid_request() {
    let input = "{\"type\":\"wardleyMap\",\"snippet\":{}}\n";
    let output = run_loop(input, echo_handler);
    let resp = response(output.trim());
    assert!(resp.ok);
    assert_eq!(resp.lines, vec!["echo: wardleyMap"]);
    assert!(resp.error.is_none());
}

#[test]
fn malformed_json() {
    let input = "not valid json\n";
    let output = run_loop(input, echo_handler);
    let resp = response(output.trim());
    assert!(!resp.ok);
    assert!(resp.error.as_ref().unwrap().contains("invalid request"));
}

#[test]
fn empty_lines_skipped() {
    let input = "\n   \n{\"type\":\"a\",\"snippet\":null}\n\n";
    let output = run_loop(input, echo_handler);
    let lines: Vec<&str> = output.trim().lines().collect();
    assert_eq!(lines.len(), 1);
    let resp = response(lines[0]);
    assert!(resp.ok);
    assert_eq!(resp.lines, vec!["echo: a"]);
}

#[test]
fn handler_error_propagated() {
    let input = "{\"type\":\"x\",\"snippet\":{}}\n";
    let output = run_loop(input, |_| PluginResponse::error("boom"));
    let resp = response(output.trim());
    assert!(!resp.ok);
    assert_eq!(resp.error.as_deref(), Some("boom"));
    assert!(resp.lines.is_empty());
}

#[test]
fn serialization_roundtrip() {
    let req = request(r#"{"type":"code","snippet":{"lang":"rust"}}"#).unwrap();
    assert_eq!(req.typ, "code");
    assert_eq!(req.snippet.get_str("lang"), Some("rust"));

    let resp = PluginResponse::ok(vec!["line1".into(), "line2".into()]);
    let decoded = response(&to_value(&resp.to_json()).to_string());
    assert!(decoded.ok);
    assert_eq!(decoded.lines, vec!["line1", "line2"]);
    assert!(decoded.error.is_none());
}

#[test]
fn multiple_requests() {
    let input = "{\"type\":\"a\",\"snippet\":{}}\n{\"type\":\"b\",\"snippet\":{}}\n";
    let mut calls = 0usize;
    let output = run_loop(input, |req| {
        calls += 1;
        PluginResponse::ok(vec![req.typ])
    });
    let lines: Vec<PluginResponse> = output
        .trim()
        .lines()
        .map(response)
        .collect();
    assert_eq!(lines.len(), 2);
    assert_eq!(lines[0].lines, vec!["a"]);
    assert_eq!(lines[1].lines, vec!["b"]);
}

#[test]
fn a_wardley_map_lists_its_nodes() {
    let line = r#"{"type":"wardleyMap","snippet":{"wardleyMapDictionary":{"nodes":[
        {"label":{"text":"Tea"}}, {"label":{}}, {"label":{"text":"Kettle"}}
    ]}}}"#;
    let req = request(line).unwrap();
    assert_eq!(extract_wardley_nodes(&req.snippet), vec!["Tea", "Kettle"]);
    assert_eq!(
        render_wardley(&req).lines,
        vec!["wardley map (2 nodes)", "- Tea", "- Kettle"]
    );
}

#[test]
fn a_wardley_map_without_nodes_says_so() {
    let req = request(r#"{"type":"wardleyMap","snippet":{}}"#).unwrap();
    assert_eq!(
        render_wardley(&req).lines,
        vec!["wardley map (0 nodes)", "<no nodes found>"]
    );
    let other = PluginRequest { typ: "code".to_string(), snippet: json("{}") };
    assert_eq!(render_wardley(&other).error.as_deref(), Some("unsupported type: code"));
}
