//! Running a command: what to fetch, how to read what came back, and the result. The
//! fetching itself (HTTP, a browser, a desktop application) is done by the caller, which
//! hands each outcome back.

use vstd::prelude::*;
use crate::adapter::{Adapter, Command, FetchEach, FieldDef, SourceFormat, str_views, command_names, command_index};
use crate::body::{substitute_json, substitute_json_spec};
use crate::extract::{eq_ignore_ascii_case, chars_eq_ignore_ascii_case, extract_json_value, extract_json_spec, extract_static, extract_static_spec, extract_id_list, extract_object, object_spec, opt_str};
use crate::html::{ExtractError, ExtractErrorV, extract_html, extract_html_spec, items_result, extract_field_html, field_html_spec};
use crate::json::{Json, JsonV, item_views, entry_views, lemma_object_view, lemma_item_views_push};
use crate::num::{nat_text, u64_text, parse_usize, parse_usize_spec};
use crate::params::{pair_views, pair_get, get_pair};
use crate::resolve::{ParamError, ParamErrorV, resolve_params, resolve_params_spec};
use crate::result::PipelineResult;
use crate::codec::{json_parsed, parse_json_text};
use crate::settings::{Settings, global_timeout};
use crate::suggest::{suggest, suggest_spec, join_names};
use crate::text::{chars_of, string_of, push_str, push_chars, replace, replace_all, starts_with, has_prefix, contains_seq};
use crate::url::{UrlError, build_url, build_url_spec, substitute_eval, substitute_eval_spec, http_method, http_method_spec, is_retryable, retryable_spec, trim_slashes, is_full_url};

verus! {

/// Why a command could not be run.
pub enum PipelineError {
    /// No command has this name or alias.
    CommandNotFound { command: String, adapter: String, available: String, hint: String },
    /// The parameters were refused.
    Param(ParamError),
    /// The URL kept a placeholder.
    Url(UrlError),
    /// A `browser_api` or `desktop` command has no script to evaluate.
    MissingEvaluate(SourceFormat),
    /// An `intercept` command has no pattern.
    MissingInterceptPattern,
    /// A page could not be read.
    Extract(ExtractError),
    /// A response that should be JSON is not: the parser's error.
    InvalidJson(String),
    /// Every per-item request of a `fetch_each` command failed.
    AllFetchEachFailed { failures: usize, last: String },
    /// A request failed.
    Fetch(String),
}

/// The mathematical form of a [`PipelineError`].
pub enum PipelineErrorV {
    CommandNotFound(Seq<char>, Seq<char>, Seq<char>, Seq<char>),
    Param(ParamErrorV),
    Url(Seq<char>, Seq<char>),
    MissingEvaluate(SourceFormat),
    MissingInterceptPattern,
    Extract(ExtractErrorV),
    InvalidJson(Seq<char>),
    AllFetchEachFailed(nat, Seq<char>),
    Fetch(Seq<char>),
}

impl View for PipelineError {
    type V = PipelineErrorV;

    open spec fn view(&self) -> PipelineErrorV {
        match self {
            PipelineError::CommandNotFound { command, adapter, available, hint } => PipelineErrorV::CommandNotFound(
                command@,
                adapter@,
                available@,
                hint@,
            ),
            PipelineError::Param(e) => PipelineErrorV::Param(e@),
            PipelineError::Url(UrlError::Unresolved { name, url }) => PipelineErrorV::Url(name@, url@),
            PipelineError::MissingEvaluate(f) => PipelineErrorV::MissingEvaluate(*f),
            PipelineError::MissingInterceptPattern => PipelineErrorV::MissingInterceptPattern,
            PipelineError::Extract(e) => PipelineErrorV::Extract(e@),
            PipelineError::InvalidJson(m) => PipelineErrorV::InvalidJson(m@),
            PipelineError::AllFetchEachFailed { failures, last } => PipelineErrorV::AllFetchEachFailed(
                *failures as nat,
                last@,
            ),
            PipelineError::Fetch(m) => PipelineErrorV::Fetch(m@),
        }
    }
}

/// The text an error is reported with.
pub open spec fn error_text(e: PipelineErrorV) -> Seq<char> {
    match e {
        PipelineErrorV::CommandNotFound(c, a, avail, hint) => "command `"@ + c + "` not found in adapter `"@ + a
            + "`. available: "@ + avail + hint,
        PipelineErrorV::Param(ParamErrorV::Missing(n)) => "required parameter `"@ + n + "` not provided"@,
        PipelineErrorV::Param(ParamErrorV::NotAllowed(n, cs)) => "parameter `"@ + n + "` must be one of: "@
            + join_names(cs),
        PipelineErrorV::Url(n, u) => "unresolved placeholder `{"@ + n + "}` in URL: "@ + u,
        PipelineErrorV::MissingEvaluate(f) => if f == SourceFormat::Desktop {
            "desktop format requires an 'evaluate' field"@
        } else {
            "browser_api format requires an 'evaluate' field"@
        },
        PipelineErrorV::MissingInterceptPattern => "intercept format requires an 'intercept_pattern' field"@,
        PipelineErrorV::Extract(ExtractErrorV::InvalidSelector(s, why)) => "invalid selector regex: "@ + s + ": "@
            + why,
        PipelineErrorV::Extract(ExtractErrorV::InvalidPattern(p, why)) => "invalid field pattern: "@ + p + ": "@
            + why,
        PipelineErrorV::InvalidJson(m) => "invalid JSON response: "@ + m,
        PipelineErrorV::AllFetchEachFailed(n, last) => "all "@ + nat_text(n) + " fetch_each requests failed: "@
            + last,
        PipelineErrorV::Fetch(m) => m,
    }
}

fn join_strings(v: &Vec<String>) -> (r: String)
    ensures
        r@ == join_names(str_views(v@)),
{
    let ghost vv = str_views(v@);
    let mut out = String::new();
    for i in 0..v.len()
        invariant
            vv == str_views(v@),
            out@ == join_names(vv.take(i as int)),
    {
        let ghost t = vv.take(i + 1);
        assert(t.drop_last() == vv.take(i as int));
        assert(t.last() == v@[i as int]@);
        if i > 0 {
            push_str(&mut out, ", ");
        } else {
            assert(vv.take(0).len() == 0);
            assert(out@ == Seq::<char>::empty());
        }
        push_str(&mut out, v[i].as_str());
        assert(out@ =~= join_names(t));
    }
    assert(vv.take(v.len() as int) == vv);
    out
}

impl PipelineError {
    /// The text the error is reported with.
    pub fn message(&self) -> (r: String)
        ensures
            r@ == error_text(self@),
    {
        let mut out = String::new();
        match self {
            PipelineError::CommandNotFound { command, adapter, available, hint } => {
                push_str(&mut out, "command `");
                push_str(&mut out, command.as_str());
                push_str(&mut out, "` not found in adapter `");
                push_str(&mut out, adapter.as_str());
                push_str(&mut out, "`. available: ");
                push_str(&mut out, available.as_str());
                push_str(&mut out, hint.as_str());
            },
            PipelineError::Param(ParamError::Missing(n)) => {
                push_str(&mut out, "required parameter `");
                push_str(&mut out, n.as_str());
                push_str(&mut out, "` not provided");
            },
            PipelineError::Param(ParamError::NotAllowed { name, choices }) => {
                push_str(&mut out, "parameter `");
                push_str(&mut out, name.as_str());
                push_str(&mut out, "` must be one of: ");
                let j = join_strings(choices);
                push_str(&mut out, j.as_str());
            },
            PipelineError::Url(UrlError::Unresolved { name, url }) => {
                push_str(&mut out, "unresolved placeholder `{");
                push_str(&mut out, name.as_str());
                push_str(&mut out, "}` in URL: ");
                push_str(&mut out, url.as_str());
            },
            PipelineError::MissingEvaluate(f) => {
                if *f == SourceFormat::Desktop {
                    push_str(&mut out, "desktop format requires an 'evaluate' field");
                } else {
                    push_str(&mut out, "browser_api format requires an 'evaluate' field");
                }
            },
            PipelineError::MissingInterceptPattern => {
                push_str(&mut out, "intercept format requires an 'intercept_pattern' field");
            },
            PipelineError::Extract(ExtractError::InvalidSelector(s, why)) => {
                push_str(&mut out, "invalid selector regex: ");
                push_str(&mut out, s.as_str());
                push_str(&mut out, ": ");
                push_str(&mut out, why.as_str());
            },
            PipelineError::Extract(ExtractError::InvalidPattern(p, why)) => {
                push_str(&mut out, "invalid field pattern: ");
                push_str(&mut out, p.as_str());
                push_str(&mut out, ": ");
                push_str(&mut out, why.as_str());
            },
            PipelineError::InvalidJson(m) => {
                push_str(&mut out, "invalid JSON response: ");
                push_str(&mut out, m.as_str());
            },
            PipelineError::AllFetchEachFailed { failures, last } => {
                push_str(&mut out, "all ");
                let n = u64_text(*failures as u64);
                push_chars(&mut out, &n);
                push_str(&mut out, " fetch_each requests failed: ");
                push_str(&mut out, last.as_str());
            },
            PipelineError::Fetch(m) => {
                push_str(&mut out, m.as_str());
            },
        }
        assert(out@ =~= error_text(self@));
        out
    }
}

} // verus!

verus! {

/// An HTTP request, ready to send.
pub struct HttpRequest {
    pub url: String,
    pub method: String,
    /// Headers in the order they are set.
    pub headers: Vec<(String, String)>,
    /// JSON body.
    pub body: Option<Json>,
    /// Timeout in seconds; the client default when `None`.
    pub timeout: Option<u64>,
}

/// The mathematical form of an [`HttpRequest`].
pub struct HttpRequestV {
    pub url: Seq<char>,
    pub method: Seq<char>,
    pub headers: Seq<(Seq<char>, Seq<char>)>,
    pub body: Option<JsonV>,
    pub timeout: Option<u64>,
}

impl View for HttpRequest {
    type V = HttpRequestV;

    open spec fn view(&self) -> HttpRequestV {
        HttpRequestV {
            url: self.url@,
            method: self.method@,
            headers: pair_views(self.headers@),
            body: match self.body {
                Some(b) => Some(b@),
                None => None,
            },
            timeout: self.timeout,
        }
    }
}

/// The outside work a command needs before its items can be extracted.
pub enum FetchAction {
    /// Static data: nothing is fetched.
    Nothing,
    /// Render `url` in a browser and read its HTML.
    Browser { url: String },
    /// Open `url` in a browser and evaluate `js` there.
    BrowserEval { url: String, js: String },
    /// Evaluate `js` in the desktop application `target` (a CDP port, or `auto`).
    DesktopEval { target: String, js: String },
    /// Open `url` and capture the network response matching `pattern`.
    Intercept { url: String, pattern: String },
    /// Send an HTTP request.
    Http(HttpRequest),
}

/// The mathematical form of a [`FetchAction`].
pub enum FetchActionV {
    Nothing,
    Browser(Seq<char>),
    BrowserEval(Seq<char>, Seq<char>),
    DesktopEval(Seq<char>, Seq<char>),
    Intercept(Seq<char>, Seq<char>),
    Http(HttpRequestV),
}

impl View for FetchAction {
    type V = FetchActionV;

    open spec fn view(&self) -> FetchActionV {
        match self {
            FetchAction::Nothing => FetchActionV::Nothing,
            FetchAction::Browser { url } => FetchActionV::Browser(url@),
            FetchAction::BrowserEval { url, js } => FetchActionV::BrowserEval(url@, js@),
            FetchAction::DesktopEval { target, js } => FetchActionV::DesktopEval(target@, js@),
            FetchAction::Intercept { url, pattern } => FetchActionV::Intercept(url@, pattern@),
            FetchAction::Http(r) => FetchActionV::Http(r@),
        }
    }
}

/// Whether some header is named `name`, in any case.
pub open spec fn has_header(headers: Seq<(Seq<char>, Seq<char>)>, name: Seq<char>) -> bool {
    exists|i: int| 0 <= i < headers.len() && eq_ignore_ascii_case(#[trigger] headers[i].0, name)
}

/// The `Accept` value sent when the command sets none.
pub open spec fn default_accept() -> Seq<char> {
    "application/json, text/html;q=0.9, */*;q=0.8"@
}

/// `fetch_once`'s headers: the command's, then `Accept` unless one is set, then, with a body,
/// `Content-Type` (the command's content type, else `application/json`) unless one is set.
pub open spec fn request_headers_spec(
    headers: Seq<(Seq<char>, Seq<char>)>,
    has_body: bool,
    content_type: Option<Seq<char>>,
) -> Seq<(Seq<char>, Seq<char>)> {
    let a = if has_header(headers, "accept"@) {
        headers
    } else {
        headers.push(("Accept"@, default_accept()))
    };
    if has_body && !has_header(headers, "content-type"@) {
        a.push(
            (
                "Content-Type"@,
                match content_type {
                    Some(c) => c,
                    None => "application/json"@,
                },
            ),
        )
    } else {
        a
    }
}

fn has_header_of(headers: &Vec<(String, String)>, name: &str) -> (r: bool)
    ensures
        r == has_header(pair_views(headers@), name@),
{
    let n = chars_of(name);
    let ghost hv = pair_views(headers@);
    for i in 0..headers.len()
        invariant
            n@ == name@,
            hv == pair_views(headers@),
            forall|j: int| 0 <= j < i ==> !eq_ignore_ascii_case(#[trigger] hv[j].0, name@),
    {
        if chars_eq_ignore_ascii_case(&chars_of(headers[i].0.as_str()), &n) {
            assert(eq_ignore_ascii_case(hv[i as int].0, name@));
            return true;
        }
    }
    false
}

fn clone_pairs(v: &Vec<(String, String)>) -> (r: Vec<(String, String)>)
    ensures
        pair_views(r@) == pair_views(v@),
{
    let mut out: Vec<(String, String)> = Vec::new();
    for i in 0..v.len()
        invariant
            out.len() == i,
            forall|j: int| 0 <= j < i ==> (#[trigger] out@[j]).0@ == v@[j].0@ && out@[j].1@ == v@[j].1@,
    {
        out.push((v[i].0.clone(), v[i].1.clone()));
    }
    assert(pair_views(out@) =~= pair_views(v@));
    out
}

/// The headers a request is sent with (see [`request_headers_spec`]).
pub fn request_headers(headers: &Vec<(String, String)>, has_body: bool, content_type: &Option<String>) -> (r: Vec<(String, String)>)
    ensures
        pair_views(r@) == request_headers_spec(pair_views(headers@), has_body, opt_str(*content_type)),
{
    let has_accept = has_header_of(headers, "accept");
    let has_ct = has_header_of(headers, "content-type");
    let mut out = clone_pairs(headers);
    if !has_accept {
        out.push((String::from_str("Accept"), String::from_str("application/json, text/html;q=0.9, */*;q=0.8")));
    }
    if has_body && !has_ct {
        let ct = match content_type {
            Some(c) => c.clone(),
            None => String::from_str("application/json"),
        };
        out.push((String::from_str("Content-Type"), ct));
    }
    assert(pair_views(out@) =~= request_headers_spec(pair_views(headers@), has_body, opt_str(*content_type)));
    out
}

} // verus!

verus! {

/// What a command will do once its name and parameters are accepted.
pub struct RunPlan {
    /// The command's canonical name.
    pub command: String,
    /// The resolved parameters.
    pub params: Vec<(String, String)>,
    /// The URL built from the parameters.
    pub url: String,
    /// The outside work to do.
    pub action: FetchAction,
}

/// The mathematical form of a [`RunPlan`].
pub struct RunPlanV {
    pub command: Seq<char>,
    pub params: Seq<(Seq<char>, Seq<char>)>,
    pub url: Seq<char>,
    pub action: FetchActionV,
}

impl View for RunPlan {
    type V = RunPlanV;

    open spec fn view(&self) -> RunPlanV {
        RunPlanV { command: self.command@, params: pair_views(self.params@), url: self.url@, action: self.action@ }
    }
}

/// The request a JSON, HTML or XML command sends.
pub open spec fn http_spec(cmd: Command, url: Seq<char>, pm: Seq<(Seq<char>, Seq<char>)>, default_timeout: Option<u64>) -> HttpRequestV {
    HttpRequestV {
        url: url,
        method: http_method_spec(opt_str(cmd.method), cmd.body is Some),
        headers: request_headers_spec(pair_views(cmd.headers@), cmd.body is Some, opt_str(cmd.content_type)),
        body: match cmd.body {
            Some(b) => Some(substitute_json_spec(b@, pm)),
            None => None,
        },
        timeout: match cmd.timeout {
            Some(t) => Some(t),
            None => default_timeout,
        },
    }
}

/// The outside work for a command's format: none for static data, a browser for rendered
/// pages, a script (with `${{name}}` and `{name}` replaced) for `browser_api` and `desktop`,
/// a captured response for `intercept`, an HTTP request otherwise.
pub open spec fn action_spec(cmd: Command, url: Seq<char>, pm: Seq<(Seq<char>, Seq<char>)>, default_timeout: Option<u64>) -> Result<
    FetchActionV,
    PipelineErrorV,
> {
    match cmd.format {
        SourceFormat::Static => Ok(FetchActionV::Nothing),
        SourceFormat::Browser => Ok(FetchActionV::Browser(url)),
        SourceFormat::BrowserApi => match cmd.evaluate {
            None => Err(PipelineErrorV::MissingEvaluate(SourceFormat::BrowserApi)),
            Some(js) => Ok(FetchActionV::BrowserEval(url, substitute_eval_spec(js@, pm))),
        },
        SourceFormat::Desktop => match cmd.evaluate {
            None => Err(PipelineErrorV::MissingEvaluate(SourceFormat::Desktop)),
            Some(js) => Ok(
                FetchActionV::DesktopEval(
                    match cmd.cdp_target {
                        Some(t) => t@,
                        None => "auto"@,
                    },
                    substitute_eval_spec(js@, pm),
                ),
            ),
        },
        SourceFormat::Intercept => match cmd.intercept_pattern {
            None => Err(PipelineErrorV::MissingInterceptPattern),
            Some(p) => Ok(FetchActionV::Intercept(url, p@)),
        },
        _ => Ok(FetchActionV::Http(http_spec(cmd, url, pm, default_timeout))),
    }
}

/// The first part of `Pipeline::run`: the command by name or alias (refused with the names
/// available and a suggestion), its parameters resolved, its URL built, and the outside work
/// it needs.
pub open spec fn plan_spec(adapter: Adapter, name: Seq<char>, given: Seq<(Seq<char>, Seq<char>)>, default_timeout: Option<u64>) -> Result<
    RunPlanV,
    PipelineErrorV,
> {
    match command_index(adapter.commands@, name) {
        None => Err(
            PipelineErrorV::CommandNotFound(
                name,
                adapter.name@,
                join_names(command_names(adapter.commands@)),
                suggest_spec(name, command_names(adapter.commands@)),
            ),
        ),
        Some(i) => {
            let cmd = adapter.commands@[i as int].1;
            match resolve_params_spec(cmd.params@, given) {
                Err(e) => Err(PipelineErrorV::Param(e)),
                Ok(pm) => match build_url_spec(adapter.base_url@, cmd.url@, pm, cmd.params@) {
                    Err((n, u)) => Err(PipelineErrorV::Url(n, u)),
                    Ok(url) => match action_spec(cmd, url, pm, default_timeout) {
                        Err(e) => Err(e),
                        Ok(a) => Ok(RunPlanV { command: adapter.commands@[i as int].0@, params: pm, url: url, action: a }),
                    },
                },
            }
        },
    }
}

/// The mathematical form of a plan's outcome.
pub open spec fn plan_result(r: Result<RunPlan, PipelineError>) -> Result<RunPlanV, PipelineErrorV> {
    match r {
        Ok(p) => Ok(p@),
        Err(e) => Err(e@),
    }
}

fn command_name_list(adapter: &Adapter) -> (r: Vec<String>)
    ensures
        str_views(r@) == command_names(adapter.commands@),
{
    let mut out: Vec<String> = Vec::new();
    for i in 0..adapter.commands.len()
        invariant
            out.len() == i,
            forall|j: int| 0 <= j < i ==> (#[trigger] out@[j])@ == adapter.commands@[j].0@,
    {
        out.push(adapter.commands[i].0.clone());
    }
    assert(str_views(out@) =~= command_names(adapter.commands@));
    out
}

fn http_request_of(cmd: &Command, url: String, pm: &Vec<(String, String)>, default_timeout: Option<u64>) -> (r: HttpRequest)
    ensures
        r@ == http_spec(*cmd, url@, pair_views(pm@), default_timeout),
{
    let has_body = cmd.body.is_some();
    let method = http_method(
        match &cmd.method {
            Some(m) => Some(m.as_str()),
            None => None,
        },
        has_body,
    );
    let body = match &cmd.body {
        Some(b) => Some(substitute_json(b, pm)),
        None => None,
    };
    let timeout = match cmd.timeout {
        Some(t) => Some(t),
        None => default_timeout,
    };
    let r = HttpRequest {
        url: url,
        method: String::from_str(method),
        headers: request_headers(&cmd.headers, has_body, &cmd.content_type),
        body: body,
        timeout: timeout,
    };
    assert(r@ =~= http_spec(*cmd, url@, pair_views(pm@), default_timeout));
    r
}

fn action_of(cmd: &Command, url: String, pm: &Vec<(String, String)>, default_timeout: Option<u64>) -> (r: Result<
    FetchAction,
    PipelineError,
>)
    ensures
        match r {
            Ok(a) => action_spec(*cmd, url@, pair_views(pm@), default_timeout) == Ok::<FetchActionV, PipelineErrorV>(a@),
            Err(e) => action_spec(*cmd, url@, pair_views(pm@), default_timeout) == Err::<FetchActionV, PipelineErrorV>(e@),
        },
{
    match cmd.format {
        SourceFormat::Static => Ok(FetchAction::Nothing),
        SourceFormat::Browser => Ok(FetchAction::Browser { url }),
        SourceFormat::BrowserApi => match &cmd.evaluate {
            None => Err(PipelineError::MissingEvaluate(SourceFormat::BrowserApi)),
            Some(js) => Ok(FetchAction::BrowserEval { url, js: substitute_eval(js.as_str(), pm) }),
        },
        SourceFormat::Desktop => match &cmd.evaluate {
            None => Err(PipelineError::MissingEvaluate(SourceFormat::Desktop)),
            Some(js) => {
                let target = match &cmd.cdp_target {
                    Some(t) => t.clone(),
                    None => String::from_str("auto"),
                };
                Ok(FetchAction::DesktopEval { target, js: substitute_eval(js.as_str(), pm) })
            },
        },
        SourceFormat::Intercept => match &cmd.intercept_pattern {
            None => Err(PipelineError::MissingInterceptPattern),
            Some(p) => Ok(FetchAction::Intercept { url, pattern: p.clone() }),
        },
        _ => Ok(FetchAction::Http(http_request_of(cmd, url, pm, default_timeout))),
    }
}

/// The first part of `Pipeline::run` (see [`plan_spec`]); the timeout of a command that sets
/// none is the one in `settings`.
pub fn plan_run(adapter: &Adapter, command_name: &str, given: &Vec<(String, String)>, settings: &Settings) -> (r: Result<
    RunPlan,
    PipelineError,
>)
    ensures
        plan_result(r) == plan_spec(
            *adapter,
            command_name@,
            pair_views(given@),
            if settings.timeout_secs == 0 { None } else { Some(settings.timeout_secs) },
        ),
{
    let found = adapter.command(command_name);
    let (cname, cmd) = match found {
        None => {
            let names = command_name_list(adapter);
            let available = join_strings(&names);
            let hint = suggest(command_name, &names);
            return Err(
                PipelineError::CommandNotFound {
                    command: String::from_str(command_name),
                    adapter: adapter.name.clone(),
                    available,
                    hint,
                },
            );
        },
        Some(x) => x,
    };
    let pm = match resolve_params(&cmd.params, given) {
        Err(e) => {
            return Err(PipelineError::Param(e));
        },
        Ok(m) => m,
    };
    let url = match build_url(adapter.base_url.as_str(), cmd.url.as_str(), &pm, &cmd.params) {
        Err(e) => {
            return Err(PipelineError::Url(e));
        },
        Ok(u) => u,
    };
    let ghost uv = url@;
    let action = match action_of(cmd, url.clone(), &pm, global_timeout(settings)) {
        Err(e) => {
            return Err(e);
        },
        Ok(a) => a,
    };
    Ok(RunPlan { command: cname, params: pm, url, action })
}

} // verus!

verus! {

/// How a command's response is read.
#[derive(Clone, Copy, Debug, PartialEq, Eq, Structural)]
pub enum BodyUse {
    /// Nothing was fetched: the items are the command's static data.
    Static,
    /// The response is a JSON document listing IDs to fetch one by one.
    Ids,
    /// The response is HTML (or XML) read with the command's patterns.
    Html,
    /// The response is a JSON document read with the command's paths.
    Json,
}

/// How a command's response is read: static data first, then `fetch_each`, then by format.
pub open spec fn body_use_spec(cmd: Command) -> BodyUse {
    if cmd.format == SourceFormat::Static {
        BodyUse::Static
    } else if cmd.fetch_each is Some {
        BodyUse::Ids
    } else {
        match cmd.format {
            SourceFormat::Html | SourceFormat::Browser | SourceFormat::Xml => BodyUse::Html,
            _ => BodyUse::Json,
        }
    }
}

/// How a command's response is read (see [`body_use_spec`]).
pub fn body_use(cmd: &Command) -> (r: BodyUse)
    ensures
        r == body_use_spec(*cmd),
{
    if cmd.format == SourceFormat::Static {
        BodyUse::Static
    } else if cmd.fetch_each.is_some() {
        BodyUse::Ids
    } else {
        match cmd.format {
            SourceFormat::Html | SourceFormat::Browser | SourceFormat::Xml => BodyUse::Html,
            _ => BodyUse::Json,
        }
    }
}

/// The items of an HTML or XML response.
pub fn items_from_page(body: &str, cmd: &Command) -> (r: Result<Vec<Json>, PipelineError>)
    ensures
        match extract_html_spec(body@, *cmd) {
            Ok(items) => r matches Ok(v) && item_views(v@) == items,
            Err(e) => r matches Err(x) && x@ == PipelineErrorV::Extract(e),
        },
{
    match extract_html(body, cmd) {
        Ok(v) => Ok(v),
        Err(e) => Err(PipelineError::Extract(e)),
    }
}

/// The value of the `limit` parameter, when it reads as a count.
pub open spec fn limit_of(pm: Seq<(String, String)>) -> Option<usize> {
    match crate::params::param_get(pm, "limit"@) {
        Some(l) => parse_usize_spec(l),
        None => None,
    }
}

fn limit_from(pm: &Vec<(String, String)>) -> (r: Option<usize>)
    ensures
        r == limit_of(pm@),
{
    match crate::params::lookup_param(pm, "limit") {
        Some(l) => parse_usize(&chars_of(l.as_str())),
        None => None,
    }
}

/// The URL of one item of a `fetch_each` command: `{id}` replaced in its URL, which is used as
/// it is when it is a full URL and otherwise follows the base URL without trailing slashes.
pub open spec fn each_url_spec(base: Seq<char>, each_url: Seq<char>, id: Seq<char>) -> Seq<char> {
    let path = replace_all(each_url, "{id}"@, id);
    if is_full_url(path) {
        path
    } else {
        trim_slashes(base) + path
    }
}

/// The IDs fetched: those of the first response, at most `limit` of them.
pub open spec fn each_ids_spec(root: JsonV, cmd: Command, pm: Seq<(String, String)>) -> Seq<Seq<char>> {
    let ids = crate::extract::id_values(root, opt_str(cmd.selector)).map_values(|v: JsonV| crate::extract::id_text(v));
    match limit_of(pm) {
        Some(n) => if n < ids.len() { ids.take(n as int) } else { ids },
        None => ids,
    }
}

/// The URLs a `fetch_each` command fetches, one per ID, in order.
pub open spec fn each_urls_spec(base: Seq<char>, cmd: Command, root: JsonV, pm: Seq<(String, String)>) -> Seq<Seq<char>> {
    let each_url = match cmd.fetch_each {
        Some(fe) => fe.url@,
        None => Seq::empty(),
    };
    each_ids_spec(root, cmd, pm).map_values(|id: Seq<char>| each_url_spec(base, each_url, id))
}

fn each_url_of(base: &Vec<char>, each_url: &Vec<char>, id: &String) -> (r: String)
    requires
        base@ == trim_slashes(base@),
    ensures
        r@ == (if is_full_url(replace_all(each_url@, "{id}"@, id@)) {
            replace_all(each_url@, "{id}"@, id@)
        } else {
            base@ + replace_all(each_url@, "{id}"@, id@)
        }),
{
    proof {
        reveal_strlit("{id}");
    }
    let ph = chars_of("{id}");
    let path = replace(each_url, &ph, &chars_of(id.as_str()));
    if crate::url::full_url(&path) {
        string_of(&path)
    } else {
        let mut out = string_of(base);
        push_chars(&mut out, &path);
        out
    }
}

proof fn lemma_trim_slashes_idem(s: Seq<char>)
    ensures
        trim_slashes(trim_slashes(s)) == trim_slashes(s),
    decreases s.len(),
{
    if s.len() > 0 && s.last() == '/' {
        lemma_trim_slashes_idem(s.drop_last());
    }
}

/// The URLs of a `fetch_each` command (see [`each_urls_spec`]); `root` is its first response.
pub fn each_urls(base_url: &str, cmd: &Command, root: &Json, pm: &Vec<(String, String)>) -> (r: Vec<String>)
    ensures
        str_views(r@) == each_urls_spec(base_url@, *cmd, root@, pm@),
{
    let ids = extract_id_list(root, cmd);
    let ghost iv = str_views(ids@);
    let n = match limit_from(pm) {
        Some(l) => if l < ids.len() { l } else { ids.len() },
        None => ids.len(),
    };
    let ghost want = each_ids_spec(root@, *cmd, pm@);
    assert(want =~= iv.take(n as int));
    let each_url: Vec<char> = match &cmd.fetch_each {
        Some(fe) => chars_of(fe.url.as_str()),
        None => Vec::new(),
    };
    let base = crate::url::trim_slashes_of(&chars_of(base_url));
    proof {
        lemma_trim_slashes_idem(base_url@);
    }
    let mut out: Vec<String> = Vec::new();
    for i in 0..n
        invariant
            n <= ids.len(),
            iv == str_views(ids@),
            base@ == trim_slashes(base_url@),
            base@ == trim_slashes(base@),
            out.len() == i,
            forall|j: int| 0 <= j < i ==> (#[trigger] out@[j])@ == each_url_spec(base_url@, each_url@, iv[j]),
    {
        out.push(each_url_of(&base, &each_url, &ids[i]));
    }
    assert(str_views(out@) =~= each_urls_spec(base_url@, *cmd, root@, pm@));
    out
}

} // verus!

verus! {

/// What came of one per-item request of a `fetch_each` command.
pub enum EachOutcome {
    /// The request failed, with this error text.
    Failed(String),
    /// A JSON response, parsed.
    Parsed(Json),
    /// Any other response.
    Text(String),
}

/// The mathematical form of an [`EachOutcome`].
pub enum EachOutcomeV {
    Failed(Seq<char>),
    Parsed(JsonV),
    Text(Seq<char>),
}

impl View for EachOutcome {
    type V = EachOutcomeV;

    open spec fn view(&self) -> EachOutcomeV {
        match self {
            EachOutcome::Failed(m) => EachOutcomeV::Failed(m@),
            EachOutcome::Parsed(v) => EachOutcomeV::Parsed(v@),
            EachOutcome::Text(t) => EachOutcomeV::Text(t@),
        }
    }
}

/// The views of a list of outcomes.
pub open spec fn outcome_views(v: Seq<EachOutcome>) -> Seq<EachOutcomeV> {
    Seq::new(v.len(), |i: int| v[i]@)
}

/// Whether the per-item responses of a `fetch_each` command are parsed as JSON.
pub fn each_wants_json(fe: &FetchEach) -> (r: bool)
    ensures
        r == (fe.format == SourceFormat::Json),
{
    fe.format == SourceFormat::Json
}

/// Reading the outcomes in order: the items so far, the number of failed requests and the
/// last failure's text. A JSON response gives the item its fields make (its index being the
/// number of items before it); another response gives the object of its fields read with
/// their patterns; an invalid pattern ends it.
pub open spec fn each_items(fields: Seq<(String, FieldDef)>, outs: Seq<EachOutcomeV>) -> Result<
    (Seq<JsonV>, nat, Option<Seq<char>>),
    ExtractErrorV,
>
    decreases outs.len(),
{
    if outs.len() == 0 {
        Ok((Seq::empty(), 0, None))
    } else {
        match each_items(fields, outs.drop_last()) {
            Err(e) => Err(e),
            Ok((items, f, last)) => match outs.last() {
                EachOutcomeV::Failed(m) => Ok((items, f + 1, Some(m))),
                EachOutcomeV::Parsed(root) => Ok(
                    (items.push(object_spec(root, fields, Seq::empty(), items.len())), f, last),
                ),
                EachOutcomeV::Text(body) => match crate::html::block_object(body, fields) {
                    Err(e) => Err(e),
                    Ok((m, _)) => Ok((items.push(JsonV::Object(m)), f, last)),
                },
            },
        }
    }
}

/// `fetch_each_item` after the requests: the items, refused when none was made and some
/// request failed.
pub open spec fn collect_each_spec(fields: Seq<(String, FieldDef)>, outs: Seq<EachOutcomeV>) -> Result<
    Seq<JsonV>,
    PipelineErrorV,
> {
    match each_items(fields, outs) {
        Err(e) => Err(PipelineErrorV::Extract(e)),
        Ok((items, f, last)) => if items.len() == 0 && f > 0 {
            Err(
                PipelineErrorV::AllFetchEachFailed(
                    f,
                    match last {
                        Some(m) => m,
                        None => "all fetch_each requests failed"@,
                    },
                ),
            )
        } else {
            Ok(items)
        },
    }
}

/// `fetch_each_item` after the requests (see [`collect_each_spec`]).
pub fn collect_each(fe: &FetchEach, outs: &Vec<EachOutcome>) -> (r: Result<Vec<Json>, PipelineError>)
    ensures
        match collect_each_spec(fe.fields@, outcome_views(outs@)) {
            Ok(items) => r matches Ok(v) && item_views(v@) == items,
            Err(e) => r matches Err(x) && x@ == e,
        },
{
    let ghost ov = outcome_views(outs@);
    let mut items: Vec<Json> = Vec::new();
    let mut failures: usize = 0;
    let mut last: Option<String> = None;
    let empty: Vec<(String, String)> = Vec::new();
    assert(empty@ =~= Seq::<(String, String)>::empty());
    assert(ov.take(0) =~= Seq::<EachOutcomeV>::empty());
    assert(item_views(items@) =~= Seq::<JsonV>::empty());
    for i in 0..outs.len()
        invariant
            ov == outcome_views(outs@),
            empty@ == Seq::<(String, String)>::empty(),
            failures <= i,
            each_items(fe.fields@, ov.take(i as int)) == Ok::<(Seq<JsonV>, nat, Option<Seq<char>>), ExtractErrorV>(
                (item_views(items@), failures as nat, opt_str(last)),
            ),
    {
        let ghost t = ov.take(i + 1);
        assert(t.drop_last() == ov.take(i as int));
        assert(t.last() == outs@[i as int]@);
        match &outs[i] {
            EachOutcome::Failed(m) => {
                failures = failures + 1;
                last = Some(m.clone());
            },
            EachOutcome::Parsed(root) => {
                let x = extract_object(root, &fe.fields, &empty, items.len());
                let ghost before = items@;
                let ghost xx = x;
                items.push(x);
                proof {
                    lemma_item_views_push(before, xx);
                }
            },
            EachOutcome::Text(body) => {
                match crate::html::block_fields(body.as_str(), &fe.fields) {
                    Err(e) => {
                        proof {
                            lemma_each_items_err(fe.fields@, ov, i as int + 1, e@);
                        }
                        return Err(PipelineError::Extract(e));
                    },
                    Ok((m, _)) => {
                        proof {
                            lemma_object_view(m);
                        }
                        let x = Json::Object(m);
                        let ghost before = items@;
                        let ghost xx = x;
                        items.push(x);
                        proof {
                            lemma_item_views_push(before, xx);
                        }
                    },
                }
            },
        }
    }
    assert(ov.take(outs.len() as int) == ov);
    if items.len() == 0 && failures > 0 {
        let last_text = match last {
            Some(m) => m,
            None => String::from_str("all fetch_each requests failed"),
        };
        return Err(PipelineError::AllFetchEachFailed { failures, last: last_text });
    }
    Ok(items)
}

proof fn lemma_each_items_err(fields: Seq<(String, FieldDef)>, outs: Seq<EachOutcomeV>, n: int, e: ExtractErrorV)
    requires
        0 < n <= outs.len(),
        each_items(fields, outs.take(n)) == Err::<(Seq<JsonV>, nat, Option<Seq<char>>), ExtractErrorV>(e),
    ensures
        each_items(fields, outs) == Err::<(Seq<JsonV>, nat, Option<Seq<char>>), ExtractErrorV>(e),
    decreases outs.len() - n,
{
    if n < outs.len() {
        assert(outs.take(n + 1).drop_last() == outs.take(n));
        lemma_each_items_err(fields, outs, n + 1, e);
    } else {
        assert(outs.take(n) == outs);
    }
}

} // verus!

verus! {

/// The items a run ends with: the command's `skip` leading items dropped, then, unless it is
/// a `fetch_each` command (which applied the limit to its IDs), at most `limit` of them.
pub open spec fn finish_items(cmd: Command, pm: Seq<(String, String)>, items: Seq<JsonV>) -> Seq<JsonV> {
    let a = if cmd.skip < items.len() { items.skip(cmd.skip as int) } else { Seq::empty() };
    if cmd.fetch_each is None {
        match limit_of(pm) {
            Some(n) => if n < a.len() { a.take(n as int) } else { a },
            None => a,
        }
    } else {
        a
    }
}

/// The last part of `Pipeline::run`: the result of a command named `command` of `adapter`,
/// from the items it extracted (see [`finish_items`]).
pub fn finish_run(adapter: &Adapter, command: String, cmd: &Command, pm: &Vec<(String, String)>, items: Vec<Json>) -> (r: PipelineResult)
    ensures
        r.adapter@ == adapter.name@,
        r.command@ == command@,
        item_views(r.items@) == finish_items(*cmd, pm@, item_views(items@)),
        r.wf(),
{
    let count = items.len();
    let mut res = PipelineResult { adapter: adapter.name.clone(), command, items, count };
    let ghost iv = item_views(res.items@);
    res.skip(cmd.skip);
    assert(item_views(res.items@) =~= (if cmd.skip < iv.len() { iv.skip(cmd.skip as int) } else { Seq::empty() }));
    if cmd.fetch_each.is_none() {
        match limit_from(pm) {
            Some(n) => {
                res.truncate(n);
            },
            None => {},
        }
    }
    res
}

} // verus!

verus! {

/// Attempts a request gets at most.
pub const MAX_RETRIES: u32 = 3;

/// After a failed attempt (counted from 0) with error text `msg`: the wait in milliseconds
/// before the next attempt, `250 * 2^attempt`, when the error is one worth retrying and an
/// attempt is left; `None` to give up.
pub open spec fn retry_spec(attempt: nat, msg: Seq<char>) -> Option<nat> {
    if retryable_spec(msg) && attempt + 1 < MAX_RETRIES {
        Some(250 * vstd::arithmetic::power2::pow2(attempt))
    } else {
        None
    }
}

/// The retry decision of `fetch_with_client` (see [`retry_spec`]).
pub fn retry_delay(attempt: u32, msg: &str) -> (r: Option<u64>)
    ensures
        match retry_spec(attempt as nat, msg@) {
            Some(d) => r == Some(d as u64),
            None => r is None,
        },
{
    proof {
        vstd::arithmetic::power2::lemma2_to64();
    }
    if is_retryable(msg) && attempt < MAX_RETRIES - 1 {
        if attempt == 0 {
            Some(250)
        } else {
            Some(500)
        }
    } else {
        None
    }
}

/// The line logged before an attempt: `METHOD url`, with ` (retry n)` after the first.
pub open spec fn log_line_spec(method: Seq<char>, url: Seq<char>, attempt: nat) -> Seq<char> {
    method + " "@ + url + if attempt > 0 {
        " (retry "@ + nat_text(attempt) + ")"@
    } else {
        ""@
    }
}

/// The line logged before an attempt (see [`log_line_spec`]).
pub fn log_line(method: &str, url: &str, attempt: u32) -> (r: String)
    ensures
        r@ == log_line_spec(method@, url@, attempt as nat),
{
    let mut out = String::from_str(method);
    push_str(&mut out, " ");
    push_str(&mut out, url);
    if attempt > 0 {
        push_str(&mut out, " (retry ");
        push_chars(&mut out, &u64_text(attempt as u64));
        push_str(&mut out, ")");
    } else {
        push_str(&mut out, "");
    }
    assert(out@ =~= log_line_spec(method@, url@, attempt as nat));
    out
}

/// The error text of a response with a failing status: `HTTP <status> from <url>`, followed by
/// `: ` and the first 240 characters of the body with newlines as spaces, when that is not
/// empty.
pub open spec fn http_failure_spec(status: Seq<char>, url: Seq<char>, text: Seq<char>) -> Seq<char> {
    let snippet = replace_all(if text.len() > 240 { text.take(240) } else { text }, "\n"@, " "@);
    if snippet.len() == 0 {
        "HTTP "@ + status + " from "@ + url
    } else {
        "HTTP "@ + status + " from "@ + url + ": "@ + snippet
    }
}

/// The error text of a response with a failing status (see [`http_failure_spec`]).
pub fn http_failure(status: &str, url: &str, text: &str) -> (r: String)
    ensures
        r@ == http_failure_spec(status@, url@, text@),
{
    let t = chars_of(text);
    let head = if t.len() > 240 { crate::text::slice_chars(&t, 0, 240) } else { crate::text::slice_chars(&t, 0, t.len()) };
    proof {
        reveal_strlit("\n");
    }
    assert(head@ =~= (if text@.len() > 240 { text@.take(240) } else { text@ }));
    let snippet = replace(&head, &chars_of("\n"), &chars_of(" "));
    let mut out = String::from_str("HTTP ");
    push_str(&mut out, status);
    push_str(&mut out, " from ");
    push_str(&mut out, url);
    if snippet.len() > 0 {
        push_str(&mut out, ": ");
        push_chars(&mut out, &snippet);
    }
    assert(out@ =~= http_failure_spec(status@, url@, text@));
    out
}

/// The error text of a request that could not be sent.
pub open spec fn send_failure_spec(url: Seq<char>, cause: Seq<char>) -> Seq<char> {
    "failed to fetch "@ + url + ": "@ + cause
}

/// The error text of a request that could not be sent (see [`send_failure_spec`]).
pub fn send_failure(url: &str, cause: &str) -> (r: String)
    ensures
        r@ == send_failure_spec(url@, cause@),
{
    let mut out = String::from_str("failed to fetch ");
    push_str(&mut out, url);
    push_str(&mut out, ": ");
    push_str(&mut out, cause);
    out
}

/// The error text of a response whose body could not be read.
pub open spec fn read_failure_spec(url: Seq<char>, cause: Seq<char>) -> Seq<char> {
    "failed to read body from "@ + url + ": "@ + cause
}

/// The error text of a response whose body could not be read (see [`read_failure_spec`]).
pub fn read_failure(url: &str, cause: &str) -> (r: String)
    ensures
        r@ == read_failure_spec(url@, cause@),
{
    let mut out = String::from_str("failed to read body from ");
    push_str(&mut out, url);
    push_str(&mut out, ": ");
    push_str(&mut out, cause);
    out
}

} // verus!

verus! {

/// A request is tried at most `MAX_RETRIES` times, again only after an error worth retrying,
/// waiting 250 ms and then twice as long.
pub proof fn lemma_retry_bounded(attempt: nat, msg: Seq<char>)
    ensures
        attempt + 1 >= MAX_RETRIES ==> retry_spec(attempt, msg) is None,
        !retryable_spec(msg) ==> retry_spec(attempt, msg) is None,
        retryable_spec(msg) ==> retry_spec(0, msg) == Some(250nat) && retry_spec(1, msg) == Some(500nat),
{
    vstd::arithmetic::power2::lemma2_to64();
}

/// A run without `fetch_each` ends with at most `limit` items when a limit is given, and
/// never with more items than were extracted.
pub proof fn lemma_finish_limit(cmd: Command, pm: Seq<(String, String)>, items: Seq<JsonV>)
    ensures
        finish_items(cmd, pm, items).len() <= items.len(),
        cmd.fetch_each is None && limit_of(pm) is Some ==> finish_items(cmd, pm, items).len() <= limit_of(pm)->0,
{
}

/// A `fetch_each` command is refused for failed requests only when every outcome failed.
pub proof fn lemma_each_failure(fields: Seq<(String, FieldDef)>, outs: Seq<EachOutcomeV>)
    ensures
        collect_each_spec(fields, outs) matches Err(PipelineErrorV::AllFetchEachFailed(n, _)) ==> n == outs.len() && n > 0,
    decreases outs.len(),
{
    lemma_each_counts(fields, outs);
}

proof fn lemma_each_counts(fields: Seq<(String, FieldDef)>, outs: Seq<EachOutcomeV>)
    ensures
        each_items(fields, outs) matches Ok((items, f, _)) ==> items.len() + f == outs.len(),
    decreases outs.len(),
{
    if outs.len() > 0 {
        lemma_each_counts(fields, outs.drop_last());
    }
}

} // verus!

verus! {

/// `extract_json`: the items of a JSON response, or `InvalidJson` with the parser's error when
/// the body does not read as JSON.
pub fn items_from_json(body: &str, cmd: &Command, pm: &Vec<(String, String)>) -> (r: Result<Vec<Json>, PipelineError>)
    ensures
        match json_parsed(body@) {
            Ok(root) => r matches Ok(v) && item_views(v@) == extract_json_spec(root, *cmd, pm@),
            Err(e) => r matches Err(x) && x@ == PipelineErrorV::InvalidJson(e),
        },
{
    match parse_json_text(body) {
        Ok(root) => Ok(extract_json_value(&root, cmd, pm)),
        Err(e) => Err(PipelineError::InvalidJson(e)),
    }
}

/// The per-item URLs of a `fetch_each` command, from the ids its first JSON response lists
/// (`extract_id_list`); `InvalidJson` with the parser's error when the body does not read.
pub fn each_urls_from_body(base_url: &str, cmd: &Command, body: &str, pm: &Vec<(String, String)>) -> (r: Result<Vec<String>, PipelineError>)
    ensures
        match json_parsed(body@) {
            Ok(root) => r matches Ok(u) && str_views(u@) == each_urls_spec(base_url@, *cmd, root, pm@),
            Err(e) => r matches Err(x) && x@ == PipelineErrorV::InvalidJson(e),
        },
{
    match parse_json_text(body) {
        Ok(root) => Ok(each_urls(base_url, cmd, &root, pm)),
        Err(e) => Err(PipelineError::InvalidJson(e)),
    }
}

/// What one per-item request of a `fetch_each` command came to: its error; else, when the
/// items are JSON, the parsed response or the parser's error; else the response text.
pub open spec fn each_outcome_spec(fetched: Result<Seq<char>, Seq<char>>, wants_json: bool) -> EachOutcomeV {
    match fetched {
        Err(e) => EachOutcomeV::Failed(e),
        Ok(t) => if wants_json {
            match json_parsed(t) {
                Ok(v) => EachOutcomeV::Parsed(v),
                Err(e) => EachOutcomeV::Failed(e),
            }
        } else {
            EachOutcomeV::Text(t)
        },
    }
}

/// The outcome of one per-item request (see [`each_outcome_spec`]).
pub fn each_outcome(fetched: Result<String, String>, wants_json: bool) -> (r: EachOutcome)
    ensures
        r@ == each_outcome_spec(
            match fetched {
                Ok(t) => Ok::<Seq<char>, Seq<char>>(t@),
                Err(e) => Err::<Seq<char>, Seq<char>>(e@),
            },
            wants_json,
        ),
{
    match fetched {
        Err(e) => EachOutcome::Failed(e),
        Ok(t) => if wants_json {
            match parse_json_text(t.as_str()) {
                Ok(v) => EachOutcome::Parsed(v),
                Err(e) => EachOutcome::Failed(e),
            }
        } else {
            EachOutcome::Text(t)
        },
    }
}

} // verus!
