use anycli::adapter::{Adapter, Command, FieldDef, ParamDef, SourceFormat, Transform};
use anycli::body::substitute_json;
use anycli::extract::{extract_json_value, extract_static};
use anycli::json::Json;
use anycli::params::lookup_param;
use anycli::path::{navigate_json, resolve_json};
use anycli::resolve::resolve_params;
use anycli::result::PipelineResult;
use anycli::cli::run_output;
use anycli::output::OutputFormat;
use anycli::suggest::suggest;
use anycli::url::{build_url, is_retryable, substitute_eval};

fn to_json(v: &serde_json::Value) -> Json {
    match v {
        serde_json::Value::Null => Json::Null,
        serde_json::Value::Bool(b) => Json::Bool(*b),
        serde_json::Value::Number(n) => Json::Number(n.to_string()),
        serde_json::Value::String(s) => Json::Str(s.clone()),
        serde_json::Value::Array(a) => Json::Array(a.iter().map(to_json).collect()),
        serde_json::Value::Object(m) => Json::Object(m.iter().map(|(k, x)| (k.clone(), to_json(x))).collect()),
    }
}

fn from_json(v: &Json) -> serde_json::Value {
    match v {
        Json::Null => serde_json::Value::Null,
        Json::Bool(b) => serde_json::Value::Bool(*b),
        Json::Number(t) => serde_json::from_str(t).unwrap(),
        Json::Str(s) => serde_json::Value::String(s.clone()),
        Json::Array(a) => serde_json::Value::Array(a.iter().map(from_json).collect()),
        Json::Object(m) => {
            let mut out = serde_json::Map::new();
            for (k, x) in m {
                out.insert(k.clone(), from_json(x));
            }
            serde_json::Value::Object(out)
        }
    }
}

fn jv(text: &str) -> serde_json::Value {
    serde_json::from_str(text).unwrap()
}

fn parse_doc(text: &str) -> Json {
    to_json(&serde_json::from_str::<serde_json::Value>(text).unwrap())
}

fn param(default: Option<&str>, required: bool) -> ParamDef {
    ParamDef {
        param_type: "string".into(),
        required,
        default: default.map(|d| Json::Str(d.to_string())),
        description: None,
        positional: false,
        choices: vec![],
    }
}

fn field() -> FieldDef {
    FieldDef { pattern: None, json_path: None, alt_paths: vec![], template: None, default: None, transform: None }
}

fn command(format: SourceFormat) -> Command {
    Command {
        description: "search".into(),
        aliases: vec![],
        url: "/x".into(),
        format,
        selector: None,
        fields: vec![],
        data: None,
        columns: vec![],
        params: vec![],
        headers: vec![],
        method: None,
        body: None,
        content_type: None,
        timeout: None,
        skip: 0,
        evaluate: None,
        cdp_target: None,
        intercept_pattern: None,
        fetch_each: None,
    }
}

fn pairs(v: &[(&str, &str)]) -> Vec<(String, String)> {
    v.iter().map(|(k, x)| (k.to_string(), x.to_string())).collect()
}

#[test]
fn resolve_params_applies_defaults() {
    let defs = vec![("limit".to_string(), param(Some("10"), false)), ("query".to_string(), param(None, true))];
    let map = resolve_params(&defs, &pairs(&[("query", "rust")])).ok().unwrap();
    assert_eq!(lookup_param(&map, "limit").unwrap(), "10");
    assert_eq!(lookup_param(&map, "query").unwrap(), "rust");
}

#[test]
fn build_url_encodes_query_values() {
    let defs = vec![("query".to_string(), param(None, true))];
    let params = pairs(&[("query", "large language model")]);
    let url = build_url("https://example.com", "/search?q={query}", &params, &defs).ok().unwrap();
    assert_eq!(url, "https://example.com/search?q=large%20language%20model");
}

#[test]
fn build_url_keeps_full_urls_unencoded() {
    let defs = vec![];
    let params = pairs(&[("url", "https://mp.weixin.qq.com/s/abc")]);
    let url = build_url("", "{url}", &params, &defs).ok().unwrap();
    assert_eq!(url, "https://mp.weixin.qq.com/s/abc");
}

#[test]
fn json_path_skips_array_marker() {
    let v = parse_doc(r#"{"eid": "abc", "title": "hello"}"#);
    assert_eq!(from_json(&navigate_json(&v, "[].eid").unwrap()), jv(r#""abc""#));
    assert_eq!(from_json(&navigate_json(&v, "title").unwrap()), jv(r#""hello""#));
}

#[test]
fn json_path_bracket_indices() {
    let desc = parse_doc(r#"{"weatherDesc": [{"value": "Sunny"}]}"#);
    assert_eq!(from_json(&navigate_json(&desc, "weatherDesc[0].value").unwrap()), jv(r#""Sunny""#));
    let kline = parse_doc(r#"["t", "1.0", "2.0", "0.5", "1.5"]"#);
    assert_eq!(from_json(&navigate_json(&kline, "[1]").unwrap()), jv(r#""1.0""#));
    let nested = parse_doc(r#"{"hourly": [null, null, null, null, {"weatherDesc": [{"value": "Rain"}]}]}"#);
    assert_eq!(
        from_json(&navigate_json(&nested, "hourly[4].weatherDesc[0].value").unwrap()),
        jv(r#""Rain""#)
    );
}

#[test]
fn extract_json_applies_strip_html_and_templates() {
    let mut cmd = command(SourceFormat::Json);
    cmd.selector = Some("hits".into());
    let mut title = field();
    title.json_path = Some("title".into());
    title.transform = Some(Transform::StripHtml);
    let mut url = field();
    url.template = Some("https://example.com/posts/{id}/{slug}".into());
    let mut rank = field();
    rank.json_path = Some("@index".into());
    rank.transform = Some(Transform::AddOne);
    cmd.fields = vec![("title".into(), title), ("url".into(), url), ("rank".into(), rank)];
    let body = r#"{"hits":[{"title":"<em>Hi</em>","id":"1","slug":"hi"}]}"#;
    let items = extract_json_value(&parse_doc(body), &cmd, &vec![]);
    let first = from_json(&items[0]);
    assert_eq!(first["title"], jv(r#""Hi""#));
    assert_eq!(first["url"], jv(r#""https://example.com/posts/1/hi""#));
    assert_eq!(first["rank"], jv(r#"1"#));
}

#[test]
fn substitute_eval_replaces_mustache() {
    let params = pairs(&[("text", "hello \"world\"")]);
    let js = "const text = `${{text}}`;";
    assert_eq!(substitute_eval(js, &params), r#"const text = `hello \"world\"`;"#);
}

#[test]
fn graphql_body_only_replaces_params() {
    let params = pairs(&[("limit", "5")]);
    let body = parse_doc(r#"{"query": "{ posts(input: {terms: {view: \"top\", limit: {limit}}}) { title } }"}"#);
    let out = from_json(&substitute_json(&body, &params));
    let q = out["query"].as_str().unwrap();
    assert!(q.contains("limit: 5"));
    assert!(q.contains("{ posts"));
    assert!(q.contains("{ title }"));
}

#[test]
fn extract_static_filters_by_param() {
    let mut cmd = command(SourceFormat::Static);
    cmd.columns = vec!["type".into(), "model".into()];
    cmd.data = Some(parse_doc(r#"[{ "type": "image", "model": "flux" }, { "type": "video", "model": "kling" }]"#));
    cmd.params = vec![("type".into(), param(Some("all"), false))];
    let items = extract_static(&cmd, &pairs(&[("type", "image")]));
    assert_eq!(items.len(), 1);
    assert_eq!(from_json(&items[0])["model"], jv(r#""flux""#));
}

#[test]
fn retryable_errors() {
    assert!(is_retryable("HTTP 503 from https://example.com"));
    assert!(!is_retryable("HTTP 404 from https://example.com"));
}

#[test]
fn suggest_close_names() {
    let hint = suggest("hackernew", &vec!["hackernews".to_string(), "wikipedia".to_string()]);
    assert!(hint.contains("hackernews"));
}

#[test]
fn json_path_filter_by_field() {
    let root = parse_doc(
        r#"{"results": [
            {"kind": "podcast", "trackName": "Show"},
            {"kind": "podcast-episode", "trackName": "Ep 1"},
            {"kind": "podcast-episode", "trackName": "Ep 2"}
        ]}"#,
    );
    let selected = from_json(&resolve_json(&root, "results[?kind=='podcast-episode']").unwrap());
    assert_eq!(selected.as_array().unwrap().len(), 2);
    assert_eq!(selected[0]["trackName"], jv(r#""Ep 1""#));
}

#[test]
fn join_transform_flattens_arrays() {
    let mut cmd = command(SourceFormat::Json);
    let mut tags = field();
    tags.json_path = Some("tags".into());
    tags.transform = Some(Transform::Join);
    cmd.fields = vec![("tags".into(), tags)];
    let items = extract_json_value(&parse_doc(r#"{"tags":["rust","cli"]}"#), &cmd, &vec![]);
    assert_eq!(from_json(&items[0])["tags"], jv(r#""rust, cli""#));
}

#[test]
fn command_alias_resolves() {
    let mut cmd = command(SourceFormat::Json);
    cmd.description = "rates".into();
    cmd.aliases = vec!["rates".into()];
    let adapter = Adapter {
        name: "demo".into(),
        description: "demo".into(),
        base_url: "https://example.com".into(),
        version: String::new(),
        aliases: vec![],
        tags: vec![],
        commands: vec![("rate".into(), cmd)],
    };
    let (name, _) = adapter.command("rates").unwrap();
    assert_eq!(name, "rate");
}

#[test]
fn json_path_plucks_array_of_objects() {
    let root = parse_doc(
        r#"{"author": [{"family": "Mineault", "given": "Patrick"}, {"family": "Ng", "given": "Andrew"}]}"#,
    );
    assert_eq!(from_json(&resolve_json(&root, "author[].family").unwrap()), jv(r#"["Mineault", "Ng"]"#));
    assert_eq!(from_json(&resolve_json(&root, "author.family").unwrap()), jv(r#"["Mineault", "Ng"]"#));
}

#[test]
fn first_transform_skips_empty() {
    let mut cmd = command(SourceFormat::Json);
    cmd.selector = Some("$".into());
    let mut ph = field();
    ph.json_path = Some("phonetics[].text".into());
    ph.transform = Some(Transform::First);
    cmd.fields = vec![("phonetic".into(), ph)];
    let body = r#"{"phonetics":[{"audio":"a.mp3"},{"text":"/həˈloʊ/"}]}"#;
    let items = extract_json_value(&parse_doc(body), &cmd, &vec![]);
    assert_eq!(from_json(&items[0])["phonetic"], jv(r#""/həˈloʊ/""#));
}

#[test]
fn unique_by_keeps_first() {
    let mut result = PipelineResult {
        adapter: "demo".into(),
        command: "x".into(),
        items: vec![
            parse_doc(r#"{"title": "a", "n": 1}"#),
            parse_doc(r#"{"title": "b", "n": 2}"#),
            parse_doc(r#"{"title": "a", "n": 3}"#),
        ],
        count: 3,
    };
    result.unique_by("title");
    assert_eq!(result.items.len(), 2);
    assert_eq!(from_json(&result.items[1])["title"], jv(r#""b""#));
}

#[test]
fn run_output_projects_then_renders() {
    let mut result = PipelineResult {
        adapter: "demo".into(),
        command: "x".into(),
        items: vec![parse_doc(r#"{"title": "a", "n": 1}"#), parse_doc(r#"{"title": "b", "n": 2}"#)],
        count: 2,
    };
    let text = run_output(&mut result, &Some(" title , ".into()), OutputFormat::JsonCompact, false).unwrap();
    assert_eq!(text, r#"[{"title":"a"},{"title":"b"}]"#);
    assert_eq!(result.count, 2);
    let text = run_output(&mut result, &Some(" , ".into()), OutputFormat::Plain, false).unwrap();
    assert_eq!(text, "a\nb\n");
    assert_eq!(run_output(&mut result, &None, OutputFormat::Yaml, false).unwrap(), "- title: a\n- title: b\n");
}

#[test]
fn projection_keeps_the_order_asked_for() {
    let mut result = PipelineResult {
        adapter: "demo".into(),
        command: "x".into(),
        items: vec![parse_doc(r#"{"a": null, "b": true, "c": 3}"#), parse_doc("7")],
        count: 2,
    };
    result.project_fields(&vec!["b".into(), "z".into(), "a".into(), "b".into()]);
    assert_eq!(result.count, 2);
    let text = result.format(OutputFormat::JsonCompact, false).unwrap();
    assert_eq!(text, r#"[{"b":true,"a":null},7]"#);
    let text = run_output(&mut result, &Some("a,b".into()), OutputFormat::JsonCompact, false).unwrap();
    assert_eq!(text, r#"[{"a":null,"b":true},7]"#);
}

#[test]
fn projected_output_reads_back_up_to_member_order() {
    let mut result = PipelineResult {
        adapter: "demo".into(),
        command: "x".into(),
        items: vec![parse_doc(r#"{"a": 1, "b": [true, {"d": null, "c": "x"}]}"#)],
        count: 1,
    };
    result.project_fields(&vec!["b".into(), "a".into()]);
    let expected: serde_json::Value = serde_json::from_str(r#"[{"a": 1, "b": [true, {"c": "x", "d": null}]}]"#).unwrap();
    for fmt in [OutputFormat::Json, OutputFormat::JsonCompact] {
        let text = result.format(fmt, false).unwrap();
        assert_eq!(serde_json::from_str::<serde_json::Value>(&text).unwrap(), expected);
    }
    assert_eq!(result.format(OutputFormat::JsonCompact, false).unwrap(), r#"[{"b":[true,{"c":"x","d":null}],"a":1}]"#);
}
