//! Browser backends: which program runs with which arguments, how long a page is given to
//! settle, and how the program's output is read.

use vstd::prelude::*;
use crate::adapter::{str_views, lemma_str_views_push};
use crate::json::{Json, JsonV, json_text, member, push_json};
use crate::num::all_digits;
use crate::text::{chars_of, string_of, has_prefix, starts_with, slice_chars, push_str};
use crate::path::index_of;
use crate::codec::{json_parsed, parse_json_text};

verus! {

/// Which browser program is driven.
pub enum BrowserBackend {
    /// `rsclaw browser`.
    Rsclaw,
    /// The `agent-browser` CLI, with a Chrome profile or a fresh session.
    AgentBrowser { profile: Option<String> },
}

/// Auto-detecting browser fetcher: rsclaw when it is available, else agent-browser.
pub struct AgentBrowserFetcher {
    pub backend: BrowserBackend,
}

/// The view of an optional string.
pub open spec fn profile_of(b: BrowserBackend) -> Option<Option<Seq<char>>> {
    match b {
        BrowserBackend::Rsclaw => None,
        BrowserBackend::AgentBrowser { profile } => Some(
            match profile {
                Some(p) => Some(p@),
                None => None,
            },
        ),
    }
}

impl AgentBrowserFetcher {
    /// rsclaw when it is available, else agent-browser with the `Default` profile: a fetch
    /// then runs `rsclaw browser open <url>` and `rsclaw browser content`, or
    /// `agent-browser --profile Default open <url>` and `agent-browser get html body`.
    pub fn new(rsclaw_available: bool) -> (r: Self)
        ensures
            profile_of(r.backend) == (if rsclaw_available { None } else { Some(Some("Default"@)) }),
            forall|url: String| #![trigger browser_plan_spec(r.backend, BrowserOp::Fetch { url })]
                rsclaw_available ==> browser_plan_spec(r.backend, BrowserOp::Fetch { url }) == rsclaw_fetch_plan(url@),
            forall|url: String| #![trigger browser_plan_spec(r.backend, BrowserOp::Fetch { url })]
                !rsclaw_available ==> {
                    let p = browser_plan_spec(r.backend, BrowserOp::Fetch { url });
                    &&& p.first.program == "agent-browser"@
                    &&& p.first.args == seq!["--profile"@, "Default"@, "open"@, url@]
                    &&& p.second matches Some(c) && c.program == "agent-browser"@ && c.args == seq!["get"@, "html"@, "body"@]
                },
    {
        if rsclaw_available {
            AgentBrowserFetcher { backend: BrowserBackend::Rsclaw }
        } else {
            AgentBrowserFetcher { backend: BrowserBackend::AgentBrowser { profile: Some(String::from_str("Default")) } }
        }
    }

    /// rsclaw when it is available, else agent-browser without a profile (a fresh session).
    pub fn headless(rsclaw_available: bool) -> (r: Self)
        ensures
            profile_of(r.backend) == (if rsclaw_available { None } else { Some(None::<Seq<char>>) }),
    {
        if rsclaw_available {
            AgentBrowserFetcher { backend: BrowserBackend::Rsclaw }
        } else {
            AgentBrowserFetcher { backend: BrowserBackend::AgentBrowser { profile: None } }
        }
    }

    /// agent-browser with the given Chrome profile, whether or not rsclaw is available: a
    /// fetch, an evaluation and an interception each start with
    /// `agent-browser --profile <profile> open <url>`.
    pub fn with_profile(profile: String) -> (r: Self)
        ensures
            profile_of(r.backend) == Some(Some(profile@)),
            forall|url: String| #![trigger browser_plan_spec(r.backend, BrowserOp::Fetch { url })] {
                let c = browser_plan_spec(r.backend, BrowserOp::Fetch { url }).first;
                c.program == "agent-browser"@ && c.args == seq!["--profile"@, profile@, "open"@, url@]
            },
            forall|url: String, js: String| #![trigger browser_plan_spec(r.backend, BrowserOp::Eval { url, js })] {
                let c = browser_plan_spec(r.backend, BrowserOp::Eval { url, js }).first;
                c.program == "agent-browser"@ && c.args == seq!["--profile"@, profile@, "open"@, url@]
            },
            forall|url: String, pattern: String| #![trigger browser_plan_spec(r.backend, BrowserOp::Intercept { url, pattern })] {
                let c = browser_plan_spec(r.backend, BrowserOp::Intercept { url, pattern }).first;
                c.program == "agent-browser"@ && c.args == seq!["--profile"@, profile@, "open"@, url@]
            },
    {
        AgentBrowserFetcher { backend: BrowserBackend::AgentBrowser { profile: Some(profile) } }
    }
}

/// One run of an outside program: its arguments, the text an error running it is reported
/// with, and, when its exit status counts, the text a failure is reported with (followed by
/// `: ` and its error output).
pub struct ProcessCall {
    pub program: String,
    pub args: Vec<String>,
    pub context: String,
    pub failure: Option<String>,
}

/// The mathematical form of a [`ProcessCall`].
pub struct ProcessCallV {
    pub program: Seq<char>,
    pub args: Seq<Seq<char>>,
    pub context: Seq<char>,
    pub failure: Option<Seq<char>>,
}

impl View for ProcessCall {
    type V = ProcessCallV;

    open spec fn view(&self) -> ProcessCallV {
        ProcessCallV {
            program: self.program@,
            args: str_views(self.args@),
            context: self.context@,
            failure: match self.failure {
                Some(f) => Some(f@),
                None => None,
            },
        }
    }
}

/// What to do for a browser operation: a program run, a wait for the page to settle, maybe a
/// second run whose output is the answer, and how that output is read.
pub struct BrowserPlan {
    pub first: ProcessCall,
    pub wait_secs: u64,
    pub second: Option<ProcessCall>,
    /// Drop rsclaw's status lines from the output.
    pub strip_status: bool,
    /// Take the `result` member of rsclaw's JSON answer.
    pub unwrap_result: bool,
}

/// A browser operation.
pub enum BrowserOp {
    /// Render `url` and read its HTML.
    Fetch { url: String },
    /// Open `url` and evaluate `js`.
    Eval { url: String, js: String },
    /// Open `url` and read the network requests matching `pattern`.
    Intercept { url: String, pattern: String },
    /// Evaluate `js` in a desktop application: `target` is a CDP port, or anything else to
    /// connect automatically.
    DesktopEval { target: String, js: String },
}

/// The arguments of an agent-browser run: the profile option, when there is one, then `rest`.
pub open spec fn ab_args(profile: Option<Seq<char>>, rest: Seq<Seq<char>>) -> Seq<Seq<char>> {
    match profile {
        Some(p) => seq!["--profile"@, p] + rest,
        None => rest,
    }
}

/// The arguments of a desktop evaluation: `--cdp <port>` for a numeric target, else
/// `--auto-connect`, then `eval <js>`.
pub open spec fn desktop_args(target: Seq<char>, js: Seq<char>) -> Seq<Seq<char>> {
    (if all_digits(target) { seq!["--cdp"@, target] } else { seq!["--auto-connect"@] }) + seq!["eval"@, js]
}

fn svec2(a: &str, b: &str) -> (r: Vec<String>)
    ensures
        str_views(r@) == seq![a@, b@],
{
    let mut v: Vec<String> = Vec::new();
    v.push(String::from_str(a));
    v.push(String::from_str(b));
    assert(str_views(v@) =~= seq![a@, b@]);
    v
}

fn svec3(a: &str, b: &str, c: &str) -> (r: Vec<String>)
    ensures
        str_views(r@) == seq![a@, b@, c@],
{
    let mut v = svec2(a, b);
    let x = String::from_str(c);
    proof {
        lemma_str_views_push(v@, x);
    }
    v.push(x);
    assert(str_views(v@) =~= seq![a@, b@, c@]);
    v
}

fn svec4(a: &str, b: &str, c: &str, d: &str) -> (r: Vec<String>)
    ensures
        str_views(r@) == seq![a@, b@, c@, d@],
{
    let mut v = svec3(a, b, c);
    let x = String::from_str(d);
    proof {
        lemma_str_views_push(v@, x);
    }
    v.push(x);
    assert(str_views(v@) =~= seq![a@, b@, c@, d@]);
    v
}

fn with_profile_args(profile: &Option<String>, rest: Vec<String>) -> (r: Vec<String>)
    ensures
        str_views(r@) == ab_args(
            match *profile {
                Some(p) => Some(p@),
                None => None,
            },
            str_views(rest@),
        ),
{
    match profile {
        Some(p) => {
            let mut v = svec2("--profile", p.as_str());
            assert(str_views(rest@).take(0) =~= Seq::<Seq<char>>::empty());
            for k in 0..rest.len()
                invariant
                    str_views(v@) == seq!["--profile"@, p@] + str_views(rest@).take(k as int),
            {
                let x = rest[k].clone();
                proof {
                    lemma_str_views_push(v@, x);
                }
                v.push(x);
                assert(str_views(rest@).take(k + 1) == str_views(rest@).take(k as int).push(rest@[k as int]@));
                assert(str_views(v@) =~= seq!["--profile"@, p@] + str_views(rest@).take(k + 1));
            }
            assert(str_views(rest@).take(rest.len() as int) == str_views(rest@));
            v
        },
        None => rest,
    }
}

fn digits_only(s: &str) -> (r: bool)
    ensures
        r == all_digits(s@),
{
    let c = chars_of(s);
    for i in 0..c.len()
        invariant
            c@ == s@,
            forall|j: int| 0 <= j < i ==> crate::num::is_digit(c@[j]),
    {
        if !crate::num::char_is_digit(c[i]) {
            return false;
        }
    }
    true
}

fn call(program: &str, args: Vec<String>, context: &str, failure: Option<&str>) -> (r: ProcessCall)
    ensures
        r@ == (ProcessCallV {
            program: program@,
            args: str_views(args@),
            context: context@,
            failure: match failure {
                Some(f) => Some(f@),
                None => None,
            },
        }),
{
    ProcessCall {
        program: String::from_str(program),
        args,
        context: String::from_str(context),
        failure: match failure {
            Some(f) => Some(String::from_str(f)),
            None => None,
        },
    }
}

} // verus!

verus! {

/// The mathematical form of a [`BrowserPlan`].
pub struct BrowserPlanV {
    pub first: ProcessCallV,
    pub wait_secs: u64,
    pub second: Option<ProcessCallV>,
    pub strip_status: bool,
    pub unwrap_result: bool,
}

impl View for BrowserPlan {
    type V = BrowserPlanV;

    open spec fn view(&self) -> BrowserPlanV {
        BrowserPlanV {
            first: self.first@,
            wait_secs: self.wait_secs,
            second: match self.second {
                Some(c) => Some(c@),
                None => None,
            },
            strip_status: self.strip_status,
            unwrap_result: self.unwrap_result,
        }
    }
}

/// A run whose exit status counts.
pub open spec fn checked(program: Seq<char>, args: Seq<Seq<char>>, context: Seq<char>, failure: Seq<char>) -> ProcessCallV {
    ProcessCallV { program, args, context, failure: Some(failure) }
}

/// rsclaw renders a page: open it, wait two seconds, read the content without its status lines.
pub open spec fn rsclaw_fetch_plan(url: Seq<char>) -> BrowserPlanV {
    BrowserPlanV {
        first: checked("rsclaw"@, seq!["browser"@, "open"@, url], "failed to run rsclaw browser open"@, "rsclaw browser open failed"@),
        wait_secs: 2,
        second: Some(
            checked("rsclaw"@, seq!["browser"@, "content"@], "failed to run rsclaw browser content"@, "rsclaw browser content failed"@),
        ),
        strip_status: true,
        unwrap_result: false,
    }
}

/// The plan of a browser operation on a backend. A desktop evaluation always runs
/// agent-browser; rsclaw has no network capture and renders the page instead.
pub open spec fn browser_plan_spec(backend: BrowserBackend, op: BrowserOp) -> BrowserPlanV {
    match op {
        BrowserOp::DesktopEval { target, js } => BrowserPlanV {
            first: checked("agent-browser"@, desktop_args(target@, js@), "failed to run desktop eval"@, "desktop eval failed"@),
            wait_secs: 0,
            second: None,
            strip_status: false,
            unwrap_result: false,
        },
        BrowserOp::Fetch { url } => match backend {
            BrowserBackend::Rsclaw => rsclaw_fetch_plan(url@),
            BrowserBackend::AgentBrowser { profile } => BrowserPlanV {
                first: checked(
                    "agent-browser"@,
                    ab_args(crate::cli::opt_view(profile), seq!["open"@, url@]),
                    "failed to run agent-browser open"@,
                    "agent-browser open failed"@,
                ),
                wait_secs: 2,
                second: Some(
                    checked(
                        "agent-browser"@,
                        seq!["get"@, "html"@, "body"@],
                        "failed to run agent-browser get html"@,
                        "agent-browser get html failed"@,
                    ),
                ),
                strip_status: false,
                unwrap_result: false,
            },
        },
        BrowserOp::Eval { url, js } => match backend {
            BrowserBackend::Rsclaw => BrowserPlanV {
                first: checked("rsclaw"@, seq!["browser"@, "open"@, url@], "failed to run rsclaw browser open"@, "rsclaw browser open failed"@),
                wait_secs: 2,
                second: Some(
                    checked(
                        "rsclaw"@,
                        seq!["browser"@, "evaluate"@, js@],
                        "failed to run rsclaw browser evaluate"@,
                        "rsclaw browser evaluate failed"@,
                    ),
                ),
                strip_status: false,
                unwrap_result: true,
            },
            BrowserBackend::AgentBrowser { profile } => BrowserPlanV {
                first: checked(
                    "agent-browser"@,
                    ab_args(crate::cli::opt_view(profile), seq!["open"@, url@]),
                    "failed to run agent-browser open"@,
                    "agent-browser open failed"@,
                ),
                wait_secs: 2,
                second: Some(
                    checked("agent-browser"@, seq!["eval"@, js@], "failed to run agent-browser eval"@, "agent-browser eval failed"@),
                ),
                strip_status: false,
                unwrap_result: false,
            },
        },
        BrowserOp::Intercept { url, pattern } => match backend {
            BrowserBackend::Rsclaw => rsclaw_fetch_plan(url@),
            BrowserBackend::AgentBrowser { profile } => BrowserPlanV {
                first: ProcessCallV {
                    program: "agent-browser"@,
                    args: ab_args(crate::cli::opt_view(profile), seq!["open"@, url@]),
                    context: "failed to open page"@,
                    failure: None,
                },
                wait_secs: 3,
                second: Some(
                    checked(
                        "agent-browser"@,
                        seq!["network"@, "requests"@, "--filter"@, pattern@],
                        "failed to get network requests"@,
                        "agent-browser network intercept failed"@,
                    ),
                ),
                strip_status: false,
                unwrap_result: false,
            },
        },
    }
}

fn rsclaw_fetch_plan_of(url: &str) -> (r: BrowserPlan)
    ensures
        r@ == rsclaw_fetch_plan(url@),
{
    BrowserPlan {
        first: call("rsclaw", svec3("browser", "open", url), "failed to run rsclaw browser open", Some("rsclaw browser open failed")),
        wait_secs: 2,
        second: Some(
            call("rsclaw", svec2("browser", "content"), "failed to run rsclaw browser content", Some("rsclaw browser content failed")),
        ),
        strip_status: true,
        unwrap_result: false,
    }
}

fn desktop_args_of(target: &str, js: &str) -> (r: Vec<String>)
    ensures
        str_views(r@) == desktop_args(target@, js@),
{
    if digits_only(target) {
        let v = svec4("--cdp", target, "eval", js);
        assert(str_views(v@) =~= desktop_args(target@, js@));
        v
    } else {
        let v = svec3("--auto-connect", "eval", js);
        assert(str_views(v@) =~= desktop_args(target@, js@));
        v
    }
}

impl AgentBrowserFetcher {
    /// The plan of a browser operation (see [`browser_plan_spec`]).
    pub fn plan(&self, op: &BrowserOp) -> (r: BrowserPlan)
        ensures
            r@ == browser_plan_spec(self.backend, *op),
    {
        match op {
            BrowserOp::DesktopEval { target, js } => BrowserPlan {
                first: call("agent-browser", desktop_args_of(target.as_str(), js.as_str()), "failed to run desktop eval", Some("desktop eval failed")),
                wait_secs: 0,
                second: None,
                strip_status: false,
                unwrap_result: false,
            },
            BrowserOp::Fetch { url } => match &self.backend {
                BrowserBackend::Rsclaw => rsclaw_fetch_plan_of(url.as_str()),
                BrowserBackend::AgentBrowser { profile } => BrowserPlan {
                    first: call(
                        "agent-browser",
                        with_profile_args(profile, svec2("open", url.as_str())),
                        "failed to run agent-browser open",
                        Some("agent-browser open failed"),
                    ),
                    wait_secs: 2,
                    second: Some(
                        call("agent-browser", svec3("get", "html", "body"), "failed to run agent-browser get html", Some("agent-browser get html failed")),
                    ),
                    strip_status: false,
                    unwrap_result: false,
                },
            },
            BrowserOp::Eval { url, js } => match &self.backend {
                BrowserBackend::Rsclaw => BrowserPlan {
                    first: call("rsclaw", svec3("browser", "open", url.as_str()), "failed to run rsclaw browser open", Some("rsclaw browser open failed")),
                    wait_secs: 2,
                    second: Some(
                        call(
                            "rsclaw",
                            svec3("browser", "evaluate", js.as_str()),
                            "failed to run rsclaw browser evaluate",
                            Some("rsclaw browser evaluate failed"),
                        ),
                    ),
                    strip_status: false,
                    unwrap_result: true,
                },
                BrowserBackend::AgentBrowser { profile } => BrowserPlan {
                    first: call(
                        "agent-browser",
                        with_profile_args(profile, svec2("open", url.as_str())),
                        "failed to run agent-browser open",
                        Some("agent-browser open failed"),
                    ),
                    wait_secs: 2,
                    second: Some(call("agent-browser", svec2("eval", js.as_str()), "failed to run agent-browser eval", Some("agent-browser eval failed"))),
                    strip_status: false,
                    unwrap_result: false,
                },
            },
            BrowserOp::Intercept { url, pattern } => match &self.backend {
                BrowserBackend::Rsclaw => rsclaw_fetch_plan_of(url.as_str()),
                BrowserBackend::AgentBrowser { profile } => BrowserPlan {
                    first: call("agent-browser", with_profile_args(profile, svec2("open", url.as_str())), "failed to open page", None),
                    wait_secs: 3,
                    second: Some(
                        call(
                            "agent-browser",
                            svec4("network", "requests", "--filter", pattern.as_str()),
                            "failed to get network requests",
                            Some("agent-browser network intercept failed"),
                        ),
                    ),
                    strip_status: false,
                    unwrap_result: false,
                },
            },
        }
    }
}

} // verus!

verus! {

/// A status line rsclaw prints before a page's content.
pub open spec fn is_status_line(line: Seq<char>) -> bool {
    has_prefix(line, "Connected to"@) || has_prefix(line, "Navigated to"@) || has_prefix(line, "Launched"@)
}

/// The line that starts at `pos` as `str::lines` gives it (a `\r` before its `\n` dropped), and
/// where the next line starts.
pub open spec fn line_at(s: Seq<char>, pos: int) -> (Seq<char>, int) {
    let rest = s.skip(pos);
    match index_of(rest, '\n') {
        Some(q) => {
            let raw = rest.take(q as int);
            (if raw.len() > 0 && raw.last() == '\r' { raw.drop_last() } else { raw }, pos + q + 1)
        },
        None => (rest, pos + rest.len() + 1),
    }
}

/// Where the content starts after the leading status lines: each status line counts its
/// length plus one.
pub open spec fn status_end(s: Seq<char>, pos: int, acc: int) -> int
    decreases s.len() + 1 - pos,
{
    if pos < 0 || pos >= s.len() {
        acc
    } else {
        proof {
            crate::cli::lemma_index_of_lt(s.skip(pos), '\n');
        }
        let (line, next) = line_at(s, pos);
        if next <= pos {
            acc
        } else if is_status_line(line) {
            status_end(s, next, acc + line.len() + 1)
        } else {
            acc
        }
    }
}

/// `strip_rsclaw_prefix`: the text after rsclaw's leading status lines.
pub open spec fn strip_rsclaw_spec(s: Seq<char>) -> Seq<char> {
    let c = status_end(s, 0, 0);
    if c >= s.len() { Seq::empty() } else { s.skip(c) }
}

proof fn lemma_newline_at(s: Seq<char>, k: int)
    requires
        0 <= k <= s.len(),
        forall|j: int| 0 <= j < k ==> s[j] != '\n',
        k == s.len() || s[k] == '\n',
    ensures
        index_of(s, '\n') == (if k == s.len() { None } else { Some(k as nat) }),
    decreases k,
{
    if k > 0 {
        lemma_newline_at(s.skip(1), k - 1);
    }
}

fn status_prefix(line: &Vec<char>) -> (r: bool)
    ensures
        r == is_status_line(line@),
{
    starts_with(line, &chars_of("Connected to")) || starts_with(line, &chars_of("Navigated to")) || starts_with(
        line,
        &chars_of("Launched"),
    )
}

/// `strip_rsclaw_prefix` (see [`strip_rsclaw_spec`]).
pub fn strip_rsclaw_prefix(s: &str) -> (r: String)
    ensures
        r@ == strip_rsclaw_spec(s@),
{
    let c = chars_of(s);
    let mut pos: u128 = 0;
    let mut acc: u128 = 0;
    let mut done = false;
    while !done && pos < c.len() as u128
        invariant
            c@ == s@,
            acc <= pos,
            pos <= c.len() + 1,
            !done ==> status_end(s@, 0, 0) == status_end(s@, pos as int, acc as int),
            done ==> status_end(s@, 0, 0) == acc,
        decreases c.len() + 2 - pos - (if done { 1int } else { 0int }),
    {
        let p = pos as usize;
        let ghost rest = s@.skip(p as int);
        let mut q = p;
        while q < c.len() && c[q] != '\n'
            invariant
                p <= q <= c.len(),
                c@ == s@,
                forall|j: int| p <= j < q ==> c@[j] != '\n',
            decreases c.len() - q,
        {
            q = q + 1;
        }
        proof {
            assert forall|j: int| 0 <= j < q - p implies rest[j] != '\n' by {
                assert(rest[j] == c@[p + j]);
            }
            lemma_newline_at(rest, q - p);
        }
        let found = q < c.len();
        let end = if found && q > p && c[q - 1] == '\r' { q - 1 } else { q };
        let line = slice_chars(&c, p, end);
        proof {
            let raw = rest.take(q - p);
            if found {
                assert(raw =~= s@.subrange(p as int, q as int));
                if q > p && c@[q - 1] == '\r' {
                    assert(raw.last() == c@[q - 1]);
                    assert(line@ =~= raw.drop_last());
                } else {
                    assert(line@ =~= raw);
                }
            } else {
                assert(line@ =~= rest);
            }
            assert(line_at(s@, p as int) == (line@, q + 1));
        }
        if !status_prefix(&line) {
            done = true;
        } else {
            acc = acc + line.len() as u128 + 1;
            pos = q as u128 + 1;
        }
    }
    if acc >= c.len() as u128 {
        String::new()
    } else {
        string_of(&slice_chars(&c, acc as usize, c.len()))
    }
}

/// What rsclaw's answer to an evaluation gives: the `result` member of its JSON (a string as
/// it is, another value as compact JSON), else the raw output.
pub open spec fn rsclaw_result_spec(raw: Seq<char>, parsed: Option<JsonV>) -> Seq<char> {
    match parsed {
        Some(v) => match member(v, "result"@) {
            Some(JsonV::Str(s)) => s,
            Some(other) => json_text(other),
            None => raw,
        },
        None => raw,
    }
}

/// The value rsclaw's output holds, when it reads as JSON.
pub open spec fn parsed_of(raw: Seq<char>) -> Option<JsonV> {
    match json_parsed(raw) {
        Ok(v) => Some(v),
        Err(_) => None,
    }
}

/// What rsclaw's answer to an evaluation gives (see [`rsclaw_result_spec`]): its output is
/// read as JSON, and taken as it is when it does not read.
pub fn rsclaw_result(raw: &str) -> (r: String)
    ensures
        r@ == rsclaw_result_spec(raw@, parsed_of(raw@)),
{
    match parse_json_text(raw) {
        Ok(v) => match v.get("result") {
            Some(Json::Str(s)) => s.clone(),
            Some(other) => {
                let mut t = String::new();
                push_json(&mut t, other);
                t
            },
            None => String::from_str(raw),
        },
        Err(_) => String::from_str(raw),
    }
}

} // verus!
