use anycli::adapter::{Adapter, Command, FetchEach, FieldDef, ParamDef, SourceFormat, Transform};
use anycli::body::{number_value_of, substitute_json};
use anycli::browser::{rsclaw_result, strip_rsclaw_prefix, AgentBrowserFetcher, BrowserOp};
use anycli::html::extract_html;
use anycli::json::Json;
use anycli::pipeline::{
    body_use, collect_each, each_outcome, each_urls, each_urls_from_body, finish_run, items_from_json, http_failure, items_from_page, log_line, plan_run, request_headers,
    retry_delay, send_failure, BodyUse, EachOutcome, FetchAction, PipelineError,
};
use anycli::result::PipelineResult;
use anycli::settings::{set_timeout_secs, Settings};
use anycli::transform::apply_transform_value;
use anycli::url::{encode_url_value, http_method, js_escape};

fn run_doc(text: &str) -> Json {
    fn conv(v: &serde_json::Value) -> Json {
        match v {
            serde_json::Value::Null => Json::Null,
            serde_json::Value::Bool(b) => Json::Bool(*b),
            serde_json::Value::Number(n) => Json::Number(n.to_string()),
            serde_json::Value::String(s) => Json::Str(s.clone()),
            serde_json::Value::Array(a) => Json::Array(a.iter().map(conv).collect()),
            serde_json::Value::Object(m) => Json::Object(m.iter().map(|(k, x)| (k.clone(), conv(x))).collect()),
        }
    }
    conv(&serde_json::from_str::<serde_json::Value>(text).unwrap())
}

fn show(v: &Json) -> String {
    let mut out = String::new();
    anycli::json::push_json(&mut out, v);
    out
}

fn run_pairs(v: &[(&str, &str)]) -> Vec<(String, String)> {
    v.iter().map(|(k, x)| (k.to_string(), x.to_string())).collect()
}

fn run_field(path: Option<&str>, pattern: Option<&str>) -> FieldDef {
    FieldDef {
        pattern: pattern.map(|s| s.to_string()),
        json_path: path.map(|s| s.to_string()),
        alt_paths: vec![],
        template: None,
        default: None,
        transform: None,
    }
}

fn run_command(format: SourceFormat, url: &str) -> Command {
    Command {
        description: "c".into(),
        aliases: vec![],
        url: url.into(),
        format,
        selector: None,
        fields: vec![],
        data: None,
        columns: vec![],
        params: vec![],
        headers: vec![],
        method: None,
        body: None,
        content_type: None,
        timeout: None,
        skip: 0,
        evaluate: None,
        cdp_target: None,
        intercept_pattern: None,
        fetch_each: None,
    }
}

fn run_adapter(cmds: Vec<(String, Command)>) -> Adapter {
    Adapter {
        name: "demo".into(),
        description: "demo".into(),
        base_url: "https://example.com/".into(),
        version: String::new(),
        aliases: vec![],
        tags: vec![],
        commands: cmds,
    }
}

fn required(name: &str) -> (String, ParamDef) {
    (
        name.into(),
        ParamDef { param_type: "string".into(), required: true, default: None, description: None, positional: false, choices: vec![] },
    )
}

#[test]
fn plan_builds_an_http_request() {
    let mut cmd = run_command(SourceFormat::Json, "/search?q={q}");
    cmd.params = vec![required("q")];
    cmd.method = Some("post".into());
    cmd.body = Some(run_doc(r#"{"limit": "{q}"}"#));
    cmd.headers = vec![("X-Key".into(), "1".into())];
    let a = run_adapter(vec![("search".into(), cmd)]);
    let mut s = Settings::new();
    set_timeout_secs(&mut s, 9);
    let plan = plan_run(&a, "search", &run_pairs(&[("q", "42")]), &s).ok().unwrap();
    assert_eq!(plan.command, "search");
    assert_eq!(plan.url, "https://example.com/search?q=42");
    match plan.action {
        FetchAction::Http(req) => {
            assert_eq!(req.method, "POST");
            assert_eq!(req.timeout, Some(9));
            assert_eq!(show(req.body.as_ref().unwrap()), r#"{"limit":42}"#);
            assert_eq!(
                req.headers,
                run_pairs(&[
                    ("X-Key", "1"),
                    ("Accept", "application/json, text/html;q=0.9, */*;q=0.8"),
                    ("Content-Type", "application/json")
                ])
            );
        }
        _ => panic!("expected an HTTP request"),
    }
}

#[test]
fn plan_refusals_say_why() {
    let mut cmd = run_command(SourceFormat::Json, "/x/{q}");
    cmd.params = vec![required("q")];
    let a = run_adapter(vec![("search".into(), cmd)]);
    let s = Settings::new();
    let e = plan_run(&a, "serch", &vec![], &s).err().unwrap();
    assert_eq!(e.message(), "command `serch` not found in adapter `demo`. available: search. did you mean: search?");
    let e = plan_run(&a, "search", &vec![], &s).err().unwrap();
    assert_eq!(e.message(), "required parameter `q` not provided");
    let mut choosy = run_command(SourceFormat::Json, "/x");
    let mut p = required("kind");
    p.1.required = false;
    p.1.choices = vec!["a".into(), "b".into()];
    choosy.params = vec![p];
    let a2 = run_adapter(vec![("c".into(), choosy)]);
    let e = plan_run(&a2, "c", &run_pairs(&[("kind", "z")]), &s).err().unwrap();
    assert_eq!(e.message(), "parameter `kind` must be one of: a, b");
    let mut dangling = run_command(SourceFormat::Json, "/x/{id}");
    dangling.params = vec![("id".into(), ParamDef { param_type: "string".into(), required: false, default: None, description: None, positional: false, choices: vec![] })];
    let a3 = run_adapter(vec![("c".into(), dangling)]);
    let e = plan_run(&a3, "c", &vec![], &s).err().unwrap();
    assert_eq!(e.message(), "unresolved placeholder `{id}` in URL: /x/{id}");
    let a4 = run_adapter(vec![("c".into(), run_command(SourceFormat::Desktop, ""))]);
    let e = plan_run(&a4, "c", &vec![], &s).err().unwrap();
    assert_eq!(e.message(), "desktop format requires an 'evaluate' field");
    let a5 = run_adapter(vec![("c".into(), run_command(SourceFormat::Intercept, "/p"))]);
    let e = plan_run(&a5, "c", &vec![], &s).err().unwrap();
    assert_eq!(e.message(), "intercept format requires an 'intercept_pattern' field");
}

#[test]
fn plan_for_browser_scripts() {
    let mut cmd = run_command(SourceFormat::Desktop, "");
    cmd.evaluate = Some("go('${{q}}', '{q}')".into());
    cmd.params = vec![required("q")];
    let a = run_adapter(vec![("c".into(), cmd)]);
    let plan = plan_run(&a, "c", &run_pairs(&[("q", "it's")]), &Settings::new()).ok().unwrap();
    match plan.action {
        FetchAction::DesktopEval { target, js } => {
            assert_eq!(target, "auto");
            assert_eq!(js, "go('it\\'s', 'it\\'s')");
        }
        _ => panic!("expected a desktop evaluation"),
    }
}

#[test]
fn responses_are_read_by_format() {
    assert!(body_use(&run_command(SourceFormat::Static, "")) == BodyUse::Static);
    assert!(body_use(&run_command(SourceFormat::Xml, "")) == BodyUse::Html);
    assert!(body_use(&run_command(SourceFormat::BrowserApi, "")) == BodyUse::Json);
    let mut each = run_command(SourceFormat::Json, "");
    each.fetch_each = Some(FetchEach { url: "/item/{id}.json".into(), format: SourceFormat::Json, fields: vec![] });
    assert!(body_use(&each) == BodyUse::Ids);
}

#[test]
fn fetch_each_urls_follow_the_limit() {
    let mut cmd = run_command(SourceFormat::Json, "/top.json");
    cmd.fetch_each = Some(FetchEach { url: "/item/{id}.json".into(), format: SourceFormat::Json, fields: vec![] });
    let urls = each_urls("https://h.test//", &cmd, &run_doc("[1, 2, 3]"), &run_pairs(&[("limit", "2")]));
    assert_eq!(urls, vec!["https://h.test/item/1.json".to_string(), "https://h.test/item/2.json".to_string()]);
    cmd.fetch_each = Some(FetchEach { url: "{id}".into(), format: SourceFormat::Json, fields: vec![] });
    let urls = each_urls("https://h.test", &cmd, &run_doc(r#"["https://o.test/a"]"#), &vec![]);
    assert_eq!(urls, vec!["https://o.test/a".to_string()]);
}

#[test]
fn fetch_each_outcomes() {
    let fe = FetchEach { url: "/i/{id}".into(), format: SourceFormat::Json, fields: vec![("t".into(), run_field(Some("title"), None))] };
    let outs = vec![EachOutcome::Failed("HTTP 500".into()), EachOutcome::Parsed(run_doc(r#"{"title": "A"}"#))];
    let items = collect_each(&fe, &outs).ok().unwrap();
    assert_eq!(items.len(), 1);
    assert_eq!(show(&items[0]), r#"{"t":"A"}"#);
    let all_failed = vec![EachOutcome::Failed("x".into()), EachOutcome::Failed("y".into())];
    let e = collect_each(&fe, &all_failed).err().unwrap();
    assert_eq!(e.message(), "all 2 fetch_each requests failed: y");
    let html = FetchEach { url: "/i".into(), format: SourceFormat::Html, fields: vec![("h".into(), run_field(None, Some("<b>(.*?)</b>")))] };
    let items = collect_each(&html, &vec![EachOutcome::Text("<b>bold</b>".into())]).ok().unwrap();
    assert_eq!(show(&items[0]), r#"{"h":"bold"}"#);
    let bad = FetchEach { url: "/i".into(), format: SourceFormat::Html, fields: vec![("h".into(), run_field(None, Some("(")))] };
    let e = collect_each(&bad, &vec![EachOutcome::Text("x".into())]).err().unwrap();
    let why = regex::Regex::new("(?s)(").unwrap_err().to_string();
    assert_eq!(e.message(), format!("invalid field pattern: (: {why}"));
    assert!(why.contains("unclosed group"));
}

#[test]
fn finishing_skips_and_limits() {
    let mut cmd = run_command(SourceFormat::Json, "/x");
    cmd.skip = 1;
    let a = run_adapter(vec![]);
    let items = vec![Json::Number("1".into()), Json::Number("2".into()), Json::Number("3".into()), Json::Number("4".into())];
    let r: PipelineResult = finish_run(&a, "c".into(), &cmd, &run_pairs(&[("limit", "2")]), items);
    assert_eq!(r.count, 2);
    assert_eq!(r.adapter, "demo");
    assert_eq!(show(&r.items[0]), "2");
    assert_eq!(show(&r.items[1]), "3");
}

#[test]
fn retries_back_off() {
    assert_eq!(retry_delay(0, "HTTP 503 from x"), Some(250));
    assert_eq!(retry_delay(1, "timed out"), Some(500));
    assert_eq!(retry_delay(2, "timed out"), None);
    assert_eq!(retry_delay(0, "HTTP 404 from x"), None);
    assert_eq!(log_line("GET", "https://a", 0), "GET https://a");
    assert_eq!(log_line("GET", "https://a", 2), "GET https://a (retry 2)");
    assert_eq!(send_failure("https://a", "dns"), "failed to fetch https://a: dns");
}

#[test]
fn http_failures_quote_the_body() {
    assert_eq!(http_failure("404 Not Found", "https://a", ""), "HTTP 404 Not Found from https://a");
    assert_eq!(http_failure("500 Internal Server Error", "u", "bad\nthing"), "HTTP 500 Internal Server Error from u: bad thing");
    let long = "y".repeat(300);
    assert_eq!(http_failure("502 Bad Gateway", "u", &long), format!("HTTP 502 Bad Gateway from u: {}", "y".repeat(240)));
}

#[test]
fn request_headers_keep_given_ones() {
    let h = request_headers(&run_pairs(&[("accept", "text/plain"), ("CONTENT-TYPE", "x")]), true, &Some("y".into()));
    assert_eq!(h, run_pairs(&[("accept", "text/plain"), ("CONTENT-TYPE", "x")]));
    let h = request_headers(&vec![], true, &Some("text/xml".into()));
    assert_eq!(h[1], ("Content-Type".to_string(), "text/xml".to_string()));
}

#[test]
fn substituted_body_numbers() {
    let body = run_doc(r#"{"a": "{n}", "b": "{f}", "c": "{x}", "d": ["{n}", "keep"], "e": "{inf}"}"#);
    let out = substitute_json(&body, &run_pairs(&[("n", "-7"), ("f", "2.50"), ("x", "v"), ("inf", "Infinity")]));
    assert_eq!(show(&out), r#"{"a":-7,"b":2.5,"c":"v","d":[-7,"keep"],"e":null}"#);
    assert_eq!(show(&number_value_of(&"1e3".chars().collect::<Vec<char>>()).unwrap()), "1000.0");
    assert!(number_value_of(&"abc".chars().collect::<Vec<char>>()).is_none());
}

#[test]
fn transforms_of_values() {
    let n = apply_transform_value(Json::Str("$1,234.5 USD".into()), Some(Transform::ToNumber));
    assert_eq!(show(&n), "1234.5");
    let n = apply_transform_value(Json::Str("42".into()), Some(Transform::AddOne));
    assert_eq!(show(&n), "43");
    let d = apply_transform_value(Json::Str("a &amp; b&nbsp;c".into()), Some(Transform::DecodeEntities));
    assert_eq!(show(&d), r#""a & b c""#);
    let s = apply_transform_value(Json::Str("  <p>x &lt; y</p> ".into()), Some(Transform::StripHtml));
    assert_eq!(show(&s), r#""x < y""#);
}

#[test]
fn long_decimals_round_once() {
    let n = apply_transform_value(Json::Str("9007199254740993.0".into()), Some(Transform::ToNumber));
    assert_eq!(show(&n), "9007199254740992.0");
    let body = run_doc(r#"{"f": "{f}"}"#);
    let out = substitute_json(&body, &run_pairs(&[("f", "9007199254740993.0")]));
    assert_eq!(show(&out), r#"{"f":9007199254740992.0}"#);
}

#[test]
fn url_values_and_methods() {
    assert_eq!(encode_url_value("a b&c"), "a%20b%26c");
    assert_eq!(encode_url_value("https://x.test/a b"), "https://x.test/a b");
    assert_eq!(http_method(Some("delete"), false), "DELETE");
    assert_eq!(http_method(Some("head"), true), "GET");
    assert_eq!(http_method(None, true), "POST");
    assert_eq!(http_method(None, false), "GET");
    let e: String = js_escape(&"a\\'\"\n`".chars().collect::<Vec<char>>()).into_iter().collect();
    assert_eq!(e, "a\\\\\\'\\\"\\n\\`");
}

#[test]
fn html_pages_are_split_by_selector() {
    let mut cmd = run_command(SourceFormat::Html, "/");
    cmd.selector = Some("<li>.*?</li>".into());
    cmd.fields = vec![("t".into(), run_field(None, Some("<li>(.*?)</li>")))];
    let items = extract_html("<ul><li>a</li><li></li><li>b</li></ul>", &cmd).ok().unwrap();
    assert_eq!(items.len(), 2);
    assert_eq!(show(&items[1]), r#"{"t":"b"}"#);
    cmd.selector = Some("(".into());
    let e = items_from_page("x", &cmd).err().unwrap();
    let why = regex::Regex::new("(?s)(").unwrap_err().to_string();
    assert_eq!(e.message(), format!("invalid selector regex: (: {why}"));
}

#[test]
fn browser_plans() {
    let ab = AgentBrowserFetcher::new(false);
    let p = ab.plan(&BrowserOp::Fetch { url: "https://a".into() });
    assert_eq!(p.first.program, "agent-browser");
    assert_eq!(p.first.args, vec!["--profile", "Default", "open", "https://a"]);
    assert_eq!(p.wait_secs, 2);
    assert_eq!(p.second.as_ref().unwrap().args, vec!["get", "html", "body"]);
    let headless = AgentBrowserFetcher::headless(false);
    let p = headless.plan(&BrowserOp::Intercept { url: "https://a".into(), pattern: "api".into() });
    assert_eq!(p.first.args, vec!["open", "https://a"]);
    assert!(p.first.failure.is_none());
    assert_eq!(p.wait_secs, 3);
    assert_eq!(p.second.as_ref().unwrap().args, vec!["network", "requests", "--filter", "api"]);
    let rs = AgentBrowserFetcher::new(true);
    let p = rs.plan(&BrowserOp::Eval { url: "u".into(), js: "1+1".into() });
    assert_eq!(p.first.program, "rsclaw");
    assert_eq!(p.second.as_ref().unwrap().args, vec!["browser", "evaluate", "1+1"]);
    assert!(p.unwrap_result);
    let p = rs.plan(&BrowserOp::DesktopEval { target: "9222".into(), js: "x".into() });
    assert_eq!(p.first.program, "agent-browser");
    assert_eq!(p.first.args, vec!["--cdp", "9222", "eval", "x"]);
    let p = rs.plan(&BrowserOp::DesktopEval { target: "auto".into(), js: "x".into() });
    assert_eq!(p.first.args, vec!["--auto-connect", "eval", "x"]);
    let custom = AgentBrowserFetcher::with_profile("Work".into());
    let p = custom.plan(&BrowserOp::Eval { url: "u".into(), js: "j".into() });
    assert_eq!(p.first.args, vec!["--profile", "Work", "open", "u"]);
}

#[test]
fn rsclaw_output() {
    assert_eq!(strip_rsclaw_prefix("Connected to existing Chrome\nNavigated to x\n<html>"), "<html>");
    assert_eq!(strip_rsclaw_prefix("<html>\nConnected to"), "<html>\nConnected to");
    assert_eq!(strip_rsclaw_prefix("Launched"), "");
    assert_eq!(rsclaw_result(r#"{"action": "evaluate", "result": "hi"}"#), "hi");
    assert_eq!(rsclaw_result(r#"{"result": [1, 2]}"#), "[1,2]");
    assert_eq!(rsclaw_result(r#"{"other": 1}"#), r#"{"other": 1}"#);
    assert_eq!(rsclaw_result("raw"), "raw");
}

#[test]
fn pipeline_errors_read_as_the_cli_prints_them() {
    assert_eq!(PipelineError::InvalidJson("EOF while parsing a value at line 1 column 0".into()).message(), "invalid JSON response: EOF while parsing a value at line 1 column 0");
    assert_eq!(PipelineError::Fetch("boom".into()).message(), "boom");
    assert_eq!(
        PipelineError::MissingEvaluate(SourceFormat::BrowserApi).message(),
        "browser_api format requires an 'evaluate' field"
    );
}

#[test]
fn json_bodies_are_read_in_the_library() {
    let bad = serde_json::from_str::<serde_json::Value>("{").unwrap_err().to_string();
    let mut cmd = run_command(SourceFormat::Json, "/top.json");
    cmd.fields = vec![("t".into(), run_field(Some("title"), None))];
    let items = items_from_json(r#"[{"title": "A"}, {"title": "B"}]"#, &cmd, &vec![]).ok().unwrap();
    assert_eq!(items.len(), 2);
    assert_eq!(show(&items[1]), r#"{"t":"B"}"#);
    let e = items_from_json("{", &cmd, &vec![]).err().unwrap();
    assert_eq!(e.message(), format!("invalid JSON response: {bad}"));

    cmd.fetch_each = Some(FetchEach { url: "/item/{id}.json".into(), format: SourceFormat::Json, fields: vec![] });
    let urls = each_urls_from_body("https://h.test", &cmd, "[7, 8]", &vec![]).ok().unwrap();
    assert_eq!(urls, vec!["https://h.test/item/7.json".to_string(), "https://h.test/item/8.json".to_string()]);
    let e = each_urls_from_body("https://h.test", &cmd, "{", &vec![]).err().unwrap();
    assert_eq!(e.message(), format!("invalid JSON response: {bad}"));

    assert!(matches!(each_outcome(Err("HTTP 500".into()), true), EachOutcome::Failed(m) if m == "HTTP 500"));
    assert!(matches!(each_outcome(Ok("{".into()), true), EachOutcome::Failed(m) if m == bad));
    assert!(matches!(each_outcome(Ok("{".into()), false), EachOutcome::Text(t) if t == "{"));
    match each_outcome(Ok(r#"{"b": 2, "a": 1}"#.into()), true) {
        EachOutcome::Parsed(v) => assert_eq!(show(&v), r#"{"a":1,"b":2}"#),
        _ => panic!("expected a parsed response"),
    }
}
