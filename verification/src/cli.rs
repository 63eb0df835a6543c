//! Command-line logic: output flags among trailing arguments, parameters in their several
//! forms, and the argument rewriting that makes `run` optional.

use vstd::prelude::*;
use crate::adapter::{Adapter, Command, ParamDef, str_views, lemma_str_views_push};
use crate::num::{parse_u64, parse_u64_spec};
use crate::path::index_of;
use crate::settings::Settings;
use crate::json::{JsonV, item_views};
use crate::result::{PipelineResult, project_item};
use crate::output::{OutputFormat, format_spec, text_result};
use crate::text::{chars_of, string_of, str_eq, starts_with, has_prefix, slice_chars};

verus! {

/// Output options found among the trailing arguments of `run`.
pub struct OutputFlags {
    pub format: Option<String>,
    pub fields: Option<String>,
    pub no_color: bool,
    pub sort: Option<String>,
    pub reverse: bool,
    pub compact: bool,
}

/// The mathematical form of [`OutputFlags`].
pub struct OutputFlagsV {
    pub format: Option<Seq<char>>,
    pub fields: Option<Seq<char>>,
    pub no_color: bool,
    pub sort: Option<Seq<char>>,
    pub reverse: bool,
    pub compact: bool,
}

/// The view of an optional string.
pub open spec fn opt_view(o: Option<String>) -> Option<Seq<char>> {
    match o {
        Some(s) => Some(s@),
        None => None,
    }
}

impl View for OutputFlags {
    type V = OutputFlagsV;

    open spec fn view(&self) -> OutputFlagsV {
        OutputFlagsV {
            format: opt_view(self.format),
            fields: opt_view(self.fields),
            no_color: self.no_color,
            sort: opt_view(self.sort),
            reverse: self.reverse,
            compact: self.compact,
        }
    }
}

/// What scanning the trailing arguments has found so far: the flags, the arguments kept, and
/// the settings they turn on (verbose logging, the last valid timeout).
pub struct StripV {
    pub flags: OutputFlagsV,
    pub rest: Seq<Seq<char>>,
    pub verbose: bool,
    pub timeout: Option<u64>,
}

/// Nothing found yet.
pub open spec fn strip_start() -> StripV {
    StripV {
        flags: OutputFlagsV { format: None, fields: None, no_color: false, sort: None, reverse: false, compact: false },
        rest: Seq::empty(),
        verbose: false,
        timeout: None,
    }
}

/// A timeout value taken when it reads as a number of seconds.
pub open spec fn with_timeout(st: StripV, v: Seq<char>) -> StripV {
    match parse_u64_spec(v) {
        Some(t) => StripV { timeout: Some(t), ..st },
        None => st,
    }
}

/// `strip_output_flags`, from argument `i` on: `--no-color`, `--verbose`/`-v`, `--reverse`,
/// `--compact` are switches; `--timeout`, `--sort`, `--format`/`-f`, `--fields` take the next
/// argument (when there is one) or a value after `=`; every other argument is kept in order.
pub open spec fn strip_from(ps: Seq<Seq<char>>, i: int, st: StripV) -> StripV
    decreases ps.len() - i,
{
    if i < 0 || i >= ps.len() {
        st
    } else {
        let p = ps[i];
        let more = i + 1 < ps.len();
        if p == "--no-color"@ {
            strip_from(ps, i + 1, StripV { flags: OutputFlagsV { no_color: true, ..st.flags }, ..st })
        } else if p == "--verbose"@ || p == "-v"@ {
            strip_from(ps, i + 1, StripV { verbose: true, ..st })
        } else if p == "--reverse"@ {
            strip_from(ps, i + 1, StripV { flags: OutputFlagsV { reverse: true, ..st.flags }, ..st })
        } else if p == "--compact"@ {
            strip_from(ps, i + 1, StripV { flags: OutputFlagsV { compact: true, ..st.flags }, ..st })
        } else if p == "--timeout"@ && more {
            strip_from(ps, i + 2, with_timeout(st, ps[i + 1]))
        } else if has_prefix(p, "--timeout="@) {
            strip_from(ps, i + 1, with_timeout(st, p.skip("--timeout="@.len() as int)))
        } else if p == "--sort"@ && more {
            strip_from(ps, i + 2, StripV { flags: OutputFlagsV { sort: Some(ps[i + 1]), ..st.flags }, ..st })
        } else if has_prefix(p, "--sort="@) {
            strip_from(
                ps,
                i + 1,
                StripV { flags: OutputFlagsV { sort: Some(p.skip("--sort="@.len() as int)), ..st.flags }, ..st },
            )
        } else if (p == "--format"@ || p == "-f"@) && more {
            strip_from(ps, i + 2, StripV { flags: OutputFlagsV { format: Some(ps[i + 1]), ..st.flags }, ..st })
        } else if has_prefix(p, "--format="@) {
            strip_from(
                ps,
                i + 1,
                StripV { flags: OutputFlagsV { format: Some(p.skip("--format="@.len() as int)), ..st.flags }, ..st },
            )
        } else if p == "--fields"@ && more {
            strip_from(ps, i + 2, StripV { flags: OutputFlagsV { fields: Some(ps[i + 1]), ..st.flags }, ..st })
        } else if has_prefix(p, "--fields="@) {
            strip_from(
                ps,
                i + 1,
                StripV { flags: OutputFlagsV { fields: Some(p.skip("--fields="@.len() as int)), ..st.flags }, ..st },
            )
        } else {
            strip_from(ps, i + 1, StripV { rest: st.rest.push(p), ..st })
        }
    }
}

fn after_prefix(p: &str, prefix: &str) -> (r: Option<String>)
    ensures
        match r {
            Some(v) => has_prefix(p@, prefix@) && v@ == p@.skip(prefix@.len() as int),
            None => !has_prefix(p@, prefix@),
        },
{
    let pc = chars_of(p);
    let xc = chars_of(prefix);
    if starts_with(&pc, &xc) {
        Some(string_of(&slice_chars(&pc, xc.len(), pc.len())))
    } else {
        None
    }
}

/// Pulls the output flags out of the trailing arguments of `run` (see [`strip_from`]);
/// `--verbose` and `--timeout` go to the settings.
pub fn strip_output_flags(params: &Vec<String>, settings: &mut Settings) -> (r: (OutputFlags, Vec<String>))
    ensures
        ({
            let st = strip_from(str_views(params@), 0, strip_start());
            &&& r.0@ == st.flags
            &&& str_views(r.1@) == st.rest
            &&& final(settings).verbose == (old(settings).verbose || st.verbose)
            &&& final(settings).timeout_secs == match st.timeout {
                Some(t) => t,
                None => old(settings).timeout_secs,
            }
            &&& final(settings).color == old(settings).color
        }),
{
    let ghost ps = str_views(params@);
    let mut flags = OutputFlags { format: None, fields: None, no_color: false, sort: None, reverse: false, compact: false };
    let mut rest: Vec<String> = Vec::new();
    let mut verbose = false;
    let mut timeout: Option<u64> = None;
    let mut i: usize = 0;
    assert(str_views(rest@) =~= Seq::<Seq<char>>::empty());
    while i < params.len()
        invariant
            i <= params.len(),
            ps == str_views(params@),
            strip_from(ps, 0, strip_start()) == strip_from(
                ps,
                i as int,
                StripV { flags: flags@, rest: str_views(rest@), verbose, timeout },
            ),
        decreases params.len() - i,
    {
        let ghost cur = StripV { flags: flags@, rest: str_views(rest@), verbose, timeout };
        let p = params[i].as_str();
        assert(ps[i as int] == p@);
        let more = i + 1 < params.len();
        if str_eq(p, "--no-color") {
            flags.no_color = true;
            i = i + 1;
            continue;
        }
        if str_eq(p, "--verbose") || str_eq(p, "-v") {
            verbose = true;
            i = i + 1;
            continue;
        }
        if str_eq(p, "--reverse") {
            flags.reverse = true;
            i = i + 1;
            continue;
        }
        if str_eq(p, "--compact") {
            flags.compact = true;
            i = i + 1;
            continue;
        }
        if str_eq(p, "--timeout") && more {
            assert(ps[i + 1] == params@[i + 1]@);
            match parse_u64(&chars_of(params[i + 1].as_str())) {
                Some(t) => {
                    timeout = Some(t);
                },
                None => {},
            }
            i = i + 2;
            continue;
        }
        match after_prefix(p, "--timeout=") {
            Some(v) => {
                match parse_u64(&chars_of(v.as_str())) {
                    Some(t) => {
                        timeout = Some(t);
                    },
                    None => {},
                }
                i = i + 1;
                continue;
            },
            None => {},
        }
        if str_eq(p, "--sort") && more {
            assert(ps[i + 1] == params@[i + 1]@);
            flags.sort = Some(params[i + 1].clone());
            i = i + 2;
            continue;
        }
        match after_prefix(p, "--sort=") {
            Some(v) => {
                flags.sort = Some(v);
                i = i + 1;
                continue;
            },
            None => {},
        }
        if (str_eq(p, "--format") || str_eq(p, "-f")) && more {
            assert(ps[i + 1] == params@[i + 1]@);
            flags.format = Some(params[i + 1].clone());
            i = i + 2;
            continue;
        }
        match after_prefix(p, "--format=") {
            Some(v) => {
                flags.format = Some(v);
                i = i + 1;
                continue;
            },
            None => {},
        }
        if str_eq(p, "--fields") && more {
            assert(ps[i + 1] == params@[i + 1]@);
            flags.fields = Some(params[i + 1].clone());
            i = i + 2;
            continue;
        }
        match after_prefix(p, "--fields=") {
            Some(v) => {
                flags.fields = Some(v);
                i = i + 1;
                continue;
            },
            None => {},
        }
        let ghost before = rest@;
        let k = params[i].clone();
        let ghost kk = k;
        rest.push(k);
        proof {
            lemma_str_views_push(before, kk);
        }
        i = i + 1;
    }
    if verbose {
        settings.verbose = true;
    }
    match timeout {
        Some(t) => {
            settings.timeout_secs = t;
        },
        None => {},
    }
    (flags, rest)
}

} // verus!

verus! {

/// The key and value around the first `=`, when there is one.
pub open spec fn split_eq(p: Seq<char>) -> Option<(Seq<char>, Seq<char>)> {
    match index_of(p, '=') {
        Some(q) => Some((p.take(q as int), p.skip(q + 1int))),
        None => None,
    }
}

/// `parse_params`, from argument `i` on: `--key=value`; `--key value` when the next argument
/// neither starts with `--` nor holds `=`, else `--key` alone meaning `true`; `key=value`;
/// anything else is a positional argument.
pub open spec fn parse_from(
    ps: Seq<Seq<char>>,
    i: int,
    parsed: Seq<(Seq<char>, Seq<char>)>,
    positionals: Seq<Seq<char>>,
) -> (Seq<(Seq<char>, Seq<char>)>, Seq<Seq<char>>)
    decreases ps.len() - i,
{
    if i < 0 || i >= ps.len() {
        (parsed, positionals)
    } else {
        let p = ps[i];
        if has_prefix(p, "--"@) {
            let rest = p.skip(2);
            match split_eq(rest) {
                Some(kv) => parse_from(ps, i + 1, parsed.push(kv), positionals),
                None => if i + 1 < ps.len() && !has_prefix(ps[i + 1], "--"@) && !ps[i + 1].contains('=') {
                    parse_from(ps, i + 2, parsed.push((rest, ps[i + 1])), positionals)
                } else {
                    parse_from(ps, i + 1, parsed.push((rest, "true"@)), positionals)
                },
            }
        } else {
            match split_eq(p) {
                Some(kv) => parse_from(ps, i + 1, parsed.push(kv), positionals),
                None => parse_from(ps, i + 1, parsed, positionals.push(p)),
            }
        }
    }
}

/// The names of the parameters that satisfy `pick` and are not among `used`, in order.
pub open spec fn unused_names(defs: Seq<(String, ParamDef)>, used: Seq<Seq<char>>, positional: bool) -> Seq<Seq<char>>
    decreases defs.len(),
{
    if defs.len() == 0 {
        Seq::empty()
    } else {
        let p = unused_names(defs.drop_last(), used, positional);
        let d = defs.last();
        let pick = if positional { d.1.positional } else { d.1.required };
        if pick && !used.contains(d.0@) {
            p.push(d.0@)
        } else {
            p
        }
    }
}

/// The names leftover positional arguments bind to: the unused positional parameters; when
/// there are none and exactly one positional argument, the first unused required parameter.
pub open spec fn bind_names(defs: Seq<(String, ParamDef)>, used: Seq<Seq<char>>, n_positionals: nat) -> Seq<Seq<char>> {
    let names = unused_names(defs, used, true);
    if names.len() == 0 && n_positionals == 1 {
        let req = unused_names(defs, used, false);
        if req.len() > 0 { req.take(1) } else { req }
    } else {
        names
    }
}

/// `parse_params`: the parameters given as arguments, then the positional ones bound to names
/// in order (those without a name are dropped).
pub open spec fn parse_params_spec(ps: Seq<Seq<char>>, cmd: Option<Command>) -> Seq<(Seq<char>, Seq<char>)> {
    let (parsed, pos) = parse_from(ps, 0, Seq::empty(), Seq::empty());
    match cmd {
        None => parsed,
        Some(c) => {
            let used = parsed.map_values(|kv: (Seq<char>, Seq<char>)| kv.0);
            let names = bind_names(c.params@, used, pos.len());
            let n = if pos.len() < names.len() { pos.len() } else { names.len() };
            parsed + Seq::new(n, |i: int| (names[i], pos[i]))
        },
    }
}

/// The views of a list of string pairs.
pub open spec fn kv_views(v: Seq<(String, String)>) -> Seq<(Seq<char>, Seq<char>)> {
    Seq::new(v.len(), |i: int| (v[i].0@, v[i].1@))
}

fn split_eq_of(p: &Vec<char>) -> (r: Option<(String, String)>)
    ensures
        match split_eq(p@) {
            Some(kv) => r matches Some(x) && x.0@ == kv.0 && x.1@ == kv.1,
            None => r is None,
        },
{
    let mut q: usize = 0;
    while q < p.len() && p[q] != '='
        invariant
            q <= p.len(),
            forall|j: int| 0 <= j < q ==> p@[j] != '=',
        decreases p.len() - q,
    {
        q = q + 1;
    }
    proof {
        lemma_index_of_eq(p@, q as int);
    }
    if q < p.len() {
        Some((string_of(&slice_chars(p, 0, q)), string_of(&slice_chars(p, q + 1, p.len()))))
    } else {
        None
    }
}

proof fn lemma_index_of_eq(s: Seq<char>, k: int)
    requires
        0 <= k <= s.len(),
        forall|j: int| 0 <= j < k ==> s[j] != '=',
        k == s.len() || s[k] == '=',
    ensures
        index_of(s, '=') == (if k == s.len() { None } else { Some(k as nat) }),
    decreases k,
{
    if k > 0 {
        lemma_index_of_eq(s.skip(1), k - 1);
    }
}

fn holds_eq(s: &String) -> (r: bool)
    ensures
        r == s@.contains('='),
{
    crate::text::find_char(&chars_of(s.as_str()), '=').is_some()
}

proof fn lemma_kv_views_push(v: Seq<(String, String)>, x: (String, String))
    ensures
        kv_views(v.push(x)) == kv_views(v).push((x.0@, x.1@)),
{
    assert(kv_views(v.push(x)) =~= kv_views(v).push((x.0@, x.1@)));
}

fn unused_names_of(defs: &Vec<(String, ParamDef)>, used: &Vec<String>, positional: bool) -> (r: Vec<String>)
    ensures
        str_views(r@) == unused_names(defs@, str_views(used@), positional),
{
    let mut out: Vec<String> = Vec::new();
    for i in 0..defs.len()
        invariant
            str_views(out@) == unused_names(defs@.take(i as int), str_views(used@), positional),
    {
        let ghost t = defs@.take(i + 1);
        assert(t.drop_last() == defs@.take(i as int));
        assert(t.last() == defs@[i as int]);
        let d = &defs[i];
        let pick = if positional { d.1.positional } else { d.1.required };
        if pick && !crate::adapter::contains_str(used, d.0.as_str()) {
            let ghost before = out@;
            let k = d.0.clone();
            let ghost kk = k;
            out.push(k);
            proof {
                lemma_str_views_push(before, kk);
            }
        }
    }
    assert(defs@.take(defs.len() as int) == defs@);
    out
}

/// `parse_params` (see [`parse_params_spec`]).
pub fn parse_params(params: &Vec<String>, cmd: Option<&Command>) -> (r: Vec<(String, String)>)
    ensures
        kv_views(r@) == parse_params_spec(
            str_views(params@),
            match cmd {
                Some(c) => Some(*c),
                None => None,
            },
        ),
{
    let ghost ps = str_views(params@);
    let mut parsed: Vec<(String, String)> = Vec::new();
    let mut positionals: Vec<String> = Vec::new();
    let mut i: usize = 0;
    assert(kv_views(parsed@) =~= Seq::<(Seq<char>, Seq<char>)>::empty());
    assert(str_views(positionals@) =~= Seq::<Seq<char>>::empty());
    while i < params.len()
        invariant
            i <= params.len(),
            ps == str_views(params@),
            parse_from(ps, 0, Seq::empty(), Seq::empty()) == parse_from(
                ps,
                i as int,
                kv_views(parsed@),
                str_views(positionals@),
            ),
        decreases params.len() - i,
    {
        let pc = chars_of(params[i].as_str());
        assert(ps[i as int] == pc@);
        let ghost bp = parsed@;
        let ghost bq = positionals@;
        if starts_with(&pc, &chars_of("--")) {
            proof {
                reveal_strlit("--");
            }
            let rest = slice_chars(&pc, 2, pc.len());
            match split_eq_of(&rest) {
                Some(kv) => {
                    let ghost kk = kv;
                    parsed.push(kv);
                    proof {
                        lemma_kv_views_push(bp, kk);
                    }
                    i = i + 1;
                },
                None => {
                    if i + 1 < params.len() && !starts_with(&chars_of(params[i + 1].as_str()), &chars_of("--"))
                        && !holds_eq(&params[i + 1]) {
                        assert(ps[i + 1] == params@[i + 1]@);
                        let kv = (string_of(&rest), params[i + 1].clone());
                        let ghost kk = kv;
                        parsed.push(kv);
                        proof {
                            lemma_kv_views_push(bp, kk);
                        }
                        i = i + 2;
                    } else {
                        proof {
                            if i + 1 < params.len() {
                                assert(ps[i + 1] == params@[i + 1]@);
                            }
                        }
                        let kv = (string_of(&rest), String::from_str("true"));
                        let ghost kk = kv;
                        parsed.push(kv);
                        proof {
                            lemma_kv_views_push(bp, kk);
                        }
                        i = i + 1;
                    }
                },
            }
        } else {
            match split_eq_of(&pc) {
                Some(kv) => {
                    let ghost kk = kv;
                    parsed.push(kv);
                    proof {
                        lemma_kv_views_push(bp, kk);
                    }
                },
                None => {
                    let k = params[i].clone();
                    let ghost kk = k;
                    positionals.push(k);
                    proof {
                        lemma_str_views_push(bq, kk);
                    }
                },
            }
            i = i + 1;
        }
    }
    let ghost pv = kv_views(parsed@);
    let ghost qv = str_views(positionals@);
    match cmd {
        None => parsed,
        Some(c) => {
            let mut used: Vec<String> = Vec::new();
            for k in 0..parsed.len()
                invariant
                    used.len() == k,
                    forall|j: int| 0 <= j < k ==> (#[trigger] used@[j])@ == parsed@[j].0@,
            {
                used.push(parsed[k].0.clone());
            }
            assert(str_views(used@) =~= pv.map_values(|kv: (Seq<char>, Seq<char>)| kv.0));
            let mut names = unused_names_of(&c.params, &used, true);
            if names.len() == 0 && positionals.len() == 1 {
                let req = unused_names_of(&c.params, &used, false);
                let mut first: Vec<String> = Vec::new();
                if req.len() > 0 {
                    first.push(req[0].clone());
                }
                assert(str_views(first@) =~= (if str_views(req@).len() > 0 { str_views(req@).take(1) } else { str_views(req@) }));
                names = first;
            }
            let ghost nv = str_views(names@);
            assert(nv == bind_names(c.params@, str_views(used@), qv.len()));
            let n = if positionals.len() < names.len() { positionals.len() } else { names.len() };
            let ghost base = parsed@;
            for k in 0..n
                invariant
                    n <= positionals.len(),
                    n <= names.len(),
                    nv == str_views(names@),
                    qv == str_views(positionals@),
                    parsed@.len() == base.len() + k,
                    forall|j: int| 0 <= j < base.len() ==> parsed@[j] == base[j],
                    forall|j: int| 0 <= j < k ==> (#[trigger] parsed@[base.len() + j]).0@ == nv[j] && parsed@[base.len() + j].1@ == qv[j],
            {
                parsed.push((names[k].clone(), positionals[k].clone()));
            }
            assert(pv == kv_views(base));
            assert forall|j: int| 0 <= j < parsed@.len() implies #[trigger] kv_views(parsed@)[j] == (pv + Seq::new(
                n as nat,
                |j: int| (nv[j], qv[j]),
            ))[j] by {
                if j < base.len() {
                    assert(parsed@[j] == base[j]);
                } else {
                    assert(parsed@[base.len() + (j - base.len())].0@ == nv[j - base.len()]);
                }
            }
            assert(kv_views(parsed@) =~= pv + Seq::new(n as nat, |j: int| (nv[j], qv[j])));
            parsed
        },
    }
}

} // verus!

verus! {

/// The subcommands `run` is not inserted before.
pub open spec fn meta_commands() -> Seq<Seq<char>> {
    seq![
        "run"@,
        "list"@,
        "info"@,
        "search"@,
        "install"@,
        "update"@,
        "uninstall"@,
        "validate"@,
        "completions"@,
        "new"@,
        "doctor"@,
        "cat"@,
        "eject"@,
        "help"@,
    ]
}

fn is_meta_command(a: &str) -> (r: bool)
    ensures
        r == meta_commands().contains(a@),
{
    let r = str_eq(a, "run") || str_eq(a, "list") || str_eq(a, "info") || str_eq(a, "search") || str_eq(a, "install")
        || str_eq(a, "update") || str_eq(a, "uninstall") || str_eq(a, "validate") || str_eq(a, "completions")
        || str_eq(a, "new") || str_eq(a, "doctor") || str_eq(a, "cat") || str_eq(a, "eject") || str_eq(a, "help");
    proof {
        let m = meta_commands();
        if r {
            if a@ == "run"@ { assert(m[0] == a@); }
            if a@ == "list"@ { assert(m[1] == a@); }
            if a@ == "info"@ { assert(m[2] == a@); }
            if a@ == "search"@ { assert(m[3] == a@); }
            if a@ == "install"@ { assert(m[4] == a@); }
            if a@ == "update"@ { assert(m[5] == a@); }
            if a@ == "uninstall"@ { assert(m[6] == a@); }
            if a@ == "validate"@ { assert(m[7] == a@); }
            if a@ == "completions"@ { assert(m[8] == a@); }
            if a@ == "new"@ { assert(m[9] == a@); }
            if a@ == "doctor"@ { assert(m[10] == a@); }
            if a@ == "cat"@ { assert(m[11] == a@); }
            if a@ == "eject"@ { assert(m[12] == a@); }
            if a@ == "help"@ { assert(m[13] == a@); }
        }
    }
    r
}

/// The position of the first argument from `i` on that does not start with `-`.
pub open spec fn first_word_from(args: Seq<Seq<char>>, i: int) -> Option<nat>
    decreases args.len() - i,
{
    if i < 0 || i >= args.len() {
        None
    } else if !has_prefix(args[i], "-"@) {
        Some(i as nat)
    } else {
        first_word_from(args, i + 1)
    }
}

/// The position of the first argument after the program name that does not start with `-`.
pub open spec fn first_word(args: Seq<Seq<char>>) -> Option<nat> {
    first_word_from(args, 1)
}

proof fn lemma_first_word_at(args: Seq<Seq<char>>, i: int, k: int)
    requires
        1 <= i <= k <= args.len(),
        forall|j: int| i <= j < k ==> has_prefix(#[trigger] args[j], "-"@),
        k == args.len() || !has_prefix(args[k], "-"@),
    ensures
        first_word_from(args, i) == (if k == args.len() { None } else { Some(k as nat) }),
    decreases k - i,
{
    if i < k {
        lemma_first_word_at(args, i + 1, k);
    }
}

/// `anycli hackernews top` means `anycli run hackernews top`: `run` goes before the first
/// argument that is no flag, unless that argument is itself a subcommand.
pub open spec fn rewrite_args_spec(args: Seq<Seq<char>>) -> Seq<Seq<char>> {
    match first_word(args) {
        Some(i) => if meta_commands().contains(args[i as int]) {
            args
        } else {
            args.insert(i as int, "run"@)
        },
        None => args,
    }
}

/// Inserts `run` where the command line leaves it out (see [`rewrite_args_spec`]).
pub fn rewrite_args(args: &Vec<String>) -> (r: Vec<String>)
    ensures
        str_views(r@) == rewrite_args_spec(str_views(args@)),
{
    let ghost av = str_views(args@);
    let dash = chars_of("-");
    let mut i: usize = 1;
    while i < args.len() && starts_with(&chars_of(args[i].as_str()), &dash)
        invariant
            1 <= i,
            i <= args.len() || args.len() == 0,
            av == str_views(args@),
            dash@ == "-"@,
            forall|j: int| 1 <= j < i && j < args.len() ==> has_prefix(#[trigger] av[j], "-"@),
        decreases args.len() - i,
    {
        assert(av[i as int] == args@[i as int]@);
        i = i + 1;
    }
    let mut out: Vec<String> = Vec::new();
    for k in 0..args.len()
        invariant
            out.len() == k,
            forall|j: int| 0 <= j < k ==> (#[trigger] out@[j])@ == args@[j]@,
    {
        out.push(args[k].clone());
    }
    assert(str_views(out@) =~= av);
    proof {
        if args.len() >= 1 {
            if i < args.len() {
                assert(av[i as int] == args@[i as int]@);
            }
            lemma_first_word_at(av, 1, i as int);
        }
    }
    if i < args.len() {
        if !is_meta_command(args[i].as_str()) {
            out.insert(i, String::from_str("run"));
            assert(str_views(out@) =~= av.insert(i as int, "run"@));
        }
        out
    } else {
        out
    }
}

} // verus!

verus! {

/// Whether an argument asks for help.
pub open spec fn is_help_flag(a: Seq<char>) -> bool {
    a == "--help"@ || a == "-h"@
}

/// `anycli run <adapter> ... --help`, looked at before the arguments are parsed: the adapter and
/// the first later argument that is neither a help flag nor another flag (the command), when
/// some argument after `run` asks for help.
pub open spec fn help_target_spec(args: Seq<Seq<char>>) -> Option<(Seq<char>, Option<Seq<char>>)> {
    if args.len() >= 3 && args[1] == "run"@ && exists|i: int| 2 <= i < args.len() && is_help_flag(#[trigger] args[i]) {
        let cmd = if exists|i: int| 3 <= i < args.len() && !is_help_flag(#[trigger] args[i]) && !has_prefix(args[i], "-"@) {
            Some(
                args[choose|i: int|
                    3 <= i < args.len() && !is_help_flag(#[trigger] args[i]) && !has_prefix(args[i], "-"@) && forall|j: int|
                        3 <= j < i ==> is_help_flag(#[trigger] args[j]) || has_prefix(args[j], "-"@)],
            )
        } else {
            None
        };
        Some((args[2], cmd))
    } else {
        None
    }
}

fn help_flag(a: &str) -> (r: bool)
    ensures
        r == is_help_flag(a@),
{
    str_eq(a, "--help") || str_eq(a, "-h")
}

/// The help request of a command line (see [`help_target_spec`]).
pub fn help_target(args: &Vec<String>) -> (r: Option<(String, Option<String>)>)
    ensures
        match help_target_spec(str_views(args@)) {
            Some((a, c)) => r matches Some(x) && x.0@ == a && opt_view(x.1) == c,
            None => r is None,
        },
{
    let ghost av = str_views(args@);
    if args.len() < 3 || !str_eq(args[1].as_str(), "run") {
        proof {
            if args.len() >= 3 {
                assert(av[1] == args@[1]@);
            }
        }
        return None;
    }
    assert(av[1] == args@[1]@);
    let mut asks = false;
    for i in 2..args.len()
        invariant
            av == str_views(args@),
            args.len() >= 3,
            asks <==> exists|j: int| 2 <= j < i && is_help_flag(#[trigger] av[j]),
    {
        assert(av[i as int] == args@[i as int]@);
        if help_flag(args[i].as_str()) {
            asks = true;
        }
    }
    if !asks {
        return None;
    }
    let dash = chars_of("-");
    let mut k: usize = 3;
    while k < args.len() && (help_flag(args[k].as_str()) || starts_with(&chars_of(args[k].as_str()), &dash))
        invariant
            3 <= k <= args.len(),
            av == str_views(args@),
            dash@ == "-"@,
            forall|j: int| 3 <= j < k ==> is_help_flag(#[trigger] av[j]) || has_prefix(av[j], "-"@),
        decreases args.len() - k,
    {
        assert(av[k as int] == args@[k as int]@);
        k = k + 1;
    }
    assert(av[2] == args@[2]@);
    if k < args.len() {
        assert(av[k as int] == args@[k as int]@);
        let ghost w = choose|w: int|
            3 <= w < av.len() && !is_help_flag(#[trigger] av[w]) && !has_prefix(av[w], "-"@) && forall|j: int|
                3 <= j < w ==> is_help_flag(#[trigger] av[j]) || has_prefix(av[j], "-"@);
        assert(w == k) by {
            if w < k {
                assert(is_help_flag(av[w]) || has_prefix(av[w], "-"@));
            }
            if w > k {
                assert(is_help_flag(av[k as int]) || has_prefix(av[k as int], "-"@));
            }
        }
        Some((args[2].clone(), Some(args[k].clone())))
    } else {
        Some((args[2].clone(), None))
    }
}

/// What `run` shows instead of running a command.
pub enum RunHelp {
    /// Nothing: run the command.
    No,
    /// The adapter's help, or that of the command named by the first parameter.
    Adapter(Option<String>),
    /// The command's help.
    Command,
}

/// A parameter that asks for a command's help.
pub open spec fn asks_help(a: Seq<char>) -> bool {
    a == "--help"@ || a == "-h"@ || a == "help"@
}

/// `run <adapter> help [cmd]` (or `--help`/`-h` as the command) shows the adapter's help; a
/// `--help`, `-h` or `help` among the parameters shows the command's.
pub open spec fn run_help_spec(command: Seq<char>, raw: Seq<Seq<char>>) -> (bool, Option<Option<Seq<char>>>) {
    if command == "help"@ || command == "--help"@ || command == "-h"@ {
        (false, Some(if raw.len() > 0 { Some(raw[0]) } else { None }))
    } else if exists|i: int| 0 <= i < raw.len() && asks_help(#[trigger] raw[i]) {
        (true, None)
    } else {
        (false, None)
    }
}

/// Whether `run` shows help (see [`run_help_spec`]).
pub fn run_help(command: &str, raw: &Vec<String>) -> (r: RunHelp)
    ensures
        match run_help_spec(command@, str_views(raw@)) {
            (_, Some(first)) => r matches RunHelp::Adapter(f) && opt_view(f) == first,
            (true, None) => r is Command,
            (false, None) => r is No,
        },
{
    let ghost rv = str_views(raw@);
    if str_eq(command, "help") || str_eq(command, "--help") || str_eq(command, "-h") {
        if raw.len() > 0 {
            assert(rv[0] == raw@[0]@);
            return RunHelp::Adapter(Some(raw[0].clone()));
        }
        return RunHelp::Adapter(None);
    }
    for i in 0..raw.len()
        invariant
            rv == str_views(raw@),
            forall|j: int| 0 <= j < i ==> !asks_help(#[trigger] rv[j]),
            !(command@ == "help"@ || command@ == "--help"@ || command@ == "-h"@),
    {
        assert(rv[i as int] == raw@[i as int]@);
        let p = raw[i].as_str();
        if str_eq(p, "--help") || str_eq(p, "-h") || str_eq(p, "help") {
            assert(asks_help(rv[i as int]));
            return RunHelp::Command;
        }
    }
    RunHelp::No
}

} // verus!

verus! {

/// The error text of an unknown format name.
pub open spec fn unknown_format_text(s: Seq<char>) -> Seq<char> {
    "unknown format `"@ + s + "`. supported: table, json, jsonc, md, yaml, csv, plain"@
}

/// The output format of `run`: the trailing `--format` when given, else the option; compact
/// JSON when compact output is asked for and the format is JSON.
pub open spec fn choose_format_spec(flag: Option<Seq<char>>, format: Seq<char>, compact: bool) -> Result<
    crate::output::OutputFormat,
    Seq<char>,
> {
    let s = match flag {
        Some(f) => f,
        None => format,
    };
    match crate::output::format_named(crate::text::lowercase(s)) {
        None => Err(unknown_format_text(s)),
        Some(f) => Ok(
            if compact && f == crate::output::OutputFormat::Json {
                crate::output::OutputFormat::JsonCompact
            } else {
                f
            },
        ),
    }
}

/// The output format of `run` (see [`choose_format_spec`]); the error is its text.
pub fn choose_format(flag: &Option<String>, format: &str, compact: bool) -> (r: Result<crate::output::OutputFormat, String>)
    ensures
        match r {
            Ok(f) => choose_format_spec(opt_view(*flag), format@, compact) == Ok::<crate::output::OutputFormat, Seq<char>>(f),
            Err(t) => choose_format_spec(opt_view(*flag), format@, compact) == Err::<crate::output::OutputFormat, Seq<char>>(t@),
        },
{
    let s: &str = match flag {
        Some(f) => f.as_str(),
        None => format,
    };
    match crate::output::OutputFormat::from_name(s) {
        None => {
            let mut t = String::from_str("unknown format `");
            crate::text::push_str(&mut t, s);
            crate::text::push_str(&mut t, "`. supported: table, json, jsonc, md, yaml, csv, plain");
            Err(t)
        },
        Some(f) => {
            if compact && f == crate::output::OutputFormat::Json {
                Ok(crate::output::OutputFormat::JsonCompact)
            } else {
                Ok(f)
            }
        },
    }
}

/// The first position of a character lies inside the text.
pub proof fn lemma_index_of_lt(s: Seq<char>, c: char)
    ensures
        match index_of(s, c) {
            Some(q) => q < s.len(),
            None => true,
        },
    decreases s.len(),
{
    if s.len() > 0 && s[0] != c {
        lemma_index_of_lt(s.skip(1), c);
    }
}

/// `str::split(c)`: the pieces between the occurrences of `c`.
pub open spec fn split_char(s: Seq<char>, c: char) -> Seq<Seq<char>>
    decreases s.len(),
{
    match index_of(s, c) {
        Some(q) => {
            proof {
                lemma_index_of_lt(s, c);
            }
            seq![s.take(q as int)] + split_char(s.skip(q + 1int), c)
        },
        None => seq![s],
    }
}

/// The non-empty trimmed pieces, in order.
pub open spec fn nonempty_trimmed(parts: Seq<Seq<char>>) -> Seq<Seq<char>>
    decreases parts.len(),
{
    if parts.len() == 0 {
        Seq::empty()
    } else {
        let p = nonempty_trimmed(parts.drop_last());
        let t = crate::text::trim(parts.last());
        if t.len() > 0 {
            p.push(t)
        } else {
            p
        }
    }
}

/// The columns of a `--fields` list: comma-separated, trimmed, empty ones dropped.
pub open spec fn field_list_spec(s: Seq<char>) -> Seq<Seq<char>> {
    nonempty_trimmed(split_char(s, ','))
}

proof fn lemma_index_of_char(s: Seq<char>, c: char, k: int)
    requires
        0 <= k <= s.len(),
        forall|j: int| 0 <= j < k ==> s[j] != c,
        k == s.len() || s[k] == c,
    ensures
        index_of(s, c) == (if k == s.len() { None } else { Some(k as nat) }),
    decreases k,
{
    if k > 0 {
        lemma_index_of_char(s.skip(1), c, k - 1);
    }
}

proof fn lemma_nonempty_trimmed_concat(a: Seq<Seq<char>>, b: Seq<Seq<char>>)
    ensures
        nonempty_trimmed(a + b) == nonempty_trimmed(a) + nonempty_trimmed(b),
    decreases b.len(),
{
    if b.len() == 0 {
        assert(a + b == a);
    } else {
        lemma_nonempty_trimmed_concat(a, b.drop_last());
        assert((a + b).drop_last() == a + b.drop_last());
    }
}

/// The columns of a `--fields` list (see [`field_list_spec`]).
pub fn field_list(s: &str) -> (r: Vec<String>)
    ensures
        str_views(r@) == field_list_spec(s@),
{
    let c = chars_of(s);
    let mut out: Vec<String> = Vec::new();
    let mut start: usize = 0;
    assert(c@.skip(0) == c@);
    assert(str_views(out@) =~= Seq::<Seq<char>>::empty());
    loop
        invariant
            start <= c.len(),
            c@ == s@,
            field_list_spec(s@) == nonempty_trimmed(seq![]) + str_views(out@) + nonempty_trimmed(split_char(c@.skip(start as int), ',')),
        decreases c.len() - start,
    {
        let ghost rest = c@.skip(start as int);
        let mut q = start;
        while q < c.len() && c[q] != ','
            invariant
                start <= q <= c.len(),
                forall|j: int| start <= j < q ==> c@[j] != ',',
            decreases c.len() - q,
        {
            q = q + 1;
        }
        proof {
            assert forall|j: int| 0 <= j < q - start implies rest[j] != ',' by {
                assert(rest[j] == c@[start + j]);
            }
            lemma_index_of_char(rest, ',', q - start);
        }
        let piece = crate::text::trim_chars(&slice_chars(&c, start, q));
        let ghost pv = c@.subrange(start as int, q as int);
        assert(pv == rest.take(q - start));
        let ghost before = out@;
        if piece.len() > 0 {
            let k = string_of(&piece);
            let ghost kk = k;
            out.push(k);
            proof {
                lemma_str_views_push(before, kk);
            }
        }
        if q < c.len() {
            proof {
                assert(rest.skip(q - start + 1) == c@.skip(q + 1));
                assert(split_char(rest, ',') == seq![pv] + split_char(c@.skip(q + 1), ','));
                lemma_nonempty_trimmed_concat(seq![pv], split_char(c@.skip(q + 1), ','));
                assert(seq![pv].drop_last() =~= Seq::<Seq<char>>::empty());
                assert(nonempty_trimmed(Seq::<Seq<char>>::empty()) == Seq::<Seq<char>>::empty());
                assert(str_views(out@) =~= str_views(before) + nonempty_trimmed(seq![pv]));
            }
            start = q + 1;
        } else {
            proof {
                assert(rest.take(q - start) == rest);
                assert(split_char(rest, ',') == seq![pv]);
                assert(seq![pv].drop_last() =~= Seq::<Seq<char>>::empty());
                assert(nonempty_trimmed(Seq::<Seq<char>>::empty()) == Seq::<Seq<char>>::empty());
                assert(str_views(out@) =~= str_views(before) + nonempty_trimmed(seq![pv]));
            }
            assert(str_views(out@) =~= field_list_spec(s@));
            return out;
        }
    }
}

} // verus!

verus! {

/// A name a new adapter may have: letters, digits, `-` and `_`, at least one.
pub open spec fn valid_name_spec(name: Seq<char>) -> bool {
    name.len() > 0 && forall|i: int|
        0 <= i < name.len() ==> {
            let c = #[trigger] name[i];
            ('a' <= c && c <= 'z') || ('A' <= c && c <= 'Z') || ('0' <= c && c <= '9') || c == '-' || c == '_'
        }
}

/// Whether a new adapter may have this name (see [`valid_name_spec`]).
pub fn valid_adapter_name(name: &str) -> (r: bool)
    ensures
        r == valid_name_spec(name@),
{
    let c = chars_of(name);
    if c.len() == 0 {
        return false;
    }
    for i in 0..c.len()
        invariant
            c@ == name@,
            forall|j: int|
                0 <= j < i ==> {
                    let x = #[trigger] c@[j];
                    ('a' <= x && x <= 'z') || ('A' <= x && x <= 'Z') || ('0' <= x && x <= '9') || x == '-' || x == '_'
                },
    {
        let x = c[i];
        if !(('a' <= x && x <= 'z') || ('A' <= x && x <= 'Z') || ('0' <= x && x <= '9') || x == '-' || x == '_') {
            return false;
        }
    }
    true
}

/// The YAML of a new adapter named `name` reading `base` (`https://api.example.com` when no
/// URL is given): one `search` command over JSON with a required query and a limit.
pub open spec fn scaffold_spec(name: Seq<char>, base: Seq<char>) -> Seq<char> {
    "name: "@ + name + "\ndescription: \""@ + name + " adapter\"\nbase_url: \""@ + base
        + "\"\nversion: \"0.1.0\"\ntags: []\n\ncommands:\n  search:\n    description: \"Search "@ + name
        + "\"\n    url: \"/search?q={query}&limit={limit}\"\n    format: json\n    selector: \"data.items\"\n    fields:\n      title:\n        json_path: \"title\"\n      url:\n        json_path: \"url\"\n        default: \"\"\n    params:\n      query:\n        type: string\n        required: true\n        description: \"Search query\"\n      limit:\n        type: integer\n        default: 10\n        description: \"Number of results\"\n"@
}

/// The YAML of a new adapter (see [`scaffold_spec`]).
pub fn scaffold_yaml(name: &str, url: Option<&str>) -> (r: String)
    ensures
        r@ == scaffold_spec(
            name@,
            match url {
                Some(u) => u@,
                None => "https://api.example.com"@,
            },
        ),
{
    let base: &str = match url {
        Some(u) => u,
        None => "https://api.example.com",
    };
    let mut out = String::from_str("name: ");
    crate::text::push_str(&mut out, name);
    crate::text::push_str(&mut out, "\ndescription: \"");
    crate::text::push_str(&mut out, name);
    crate::text::push_str(&mut out, " adapter\"\nbase_url: \"");
    crate::text::push_str(&mut out, base);
    crate::text::push_str(&mut out, "\"\nversion: \"0.1.0\"\ntags: []\n\ncommands:\n  search:\n    description: \"Search ");
    crate::text::push_str(&mut out, name);
    crate::text::push_str(
        &mut out,
        "\"\n    url: \"/search?q={query}&limit={limit}\"\n    format: json\n    selector: \"data.items\"\n    fields:\n      title:\n        json_path: \"title\"\n      url:\n        json_path: \"url\"\n        default: \"\"\n    params:\n      query:\n        type: string\n        required: true\n        description: \"Search query\"\n      limit:\n        type: integer\n        default: 10\n        description: \"Number of results\"\n",
    );
    out
}

/// The files an installed adapter may be in: `<name>.yaml`, `<name>.yml`, and `<name>.yaml`
/// with `-` written `_`.
pub open spec fn uninstall_candidates_spec(name: Seq<char>) -> Seq<Seq<char>> {
    seq![name + ".yaml"@, name + ".yml"@, crate::text::replace_all(name, "-"@, "_"@) + ".yaml"@]
}

/// The files an installed adapter may be in (see [`uninstall_candidates_spec`]).
pub fn uninstall_candidates(name: &str) -> (r: Vec<String>)
    ensures
        str_views(r@) == uninstall_candidates_spec(name@),
{
    let mut a = String::from_str(name);
    crate::text::push_str(&mut a, ".yaml");
    let mut b = String::from_str(name);
    crate::text::push_str(&mut b, ".yml");
    proof {
        reveal_strlit("-");
    }
    let u = crate::text::replace(&chars_of(name), &chars_of("-"), &chars_of("_"));
    let mut c = string_of(&u);
    crate::text::push_str(&mut c, ".yaml");
    let mut v: Vec<String> = Vec::new();
    v.push(a);
    v.push(b);
    v.push(c);
    assert(str_views(v@) =~= uninstall_candidates_spec(name@));
    v
}

} // verus!

verus! {

/// A command that has nothing to read: no URL, script or static data, and it is neither a
/// desktop nor a static command.
pub open spec fn lacks_source(c: Command) -> bool {
    c.url@.len() == 0 && c.evaluate is None && c.data is None && c.format != crate::adapter::SourceFormat::Desktop
        && c.format != crate::adapter::SourceFormat::Static
}

/// The warnings of a command's parameters that are required and have a default.
pub open spec fn param_warnings(cname: Seq<char>, ps: Seq<(String, ParamDef)>) -> Seq<Seq<char>>
    decreases ps.len(),
{
    if ps.len() == 0 {
        Seq::empty()
    } else {
        let w = param_warnings(cname, ps.drop_last());
        let p = ps.last();
        if p.1.required && p.1.default is Some {
            w.push("warning: `"@ + cname + "."@ + p.0@ + "` is required but also has a default"@)
        } else {
            w
        }
    }
}

/// Checking the commands in order: the warnings so far, and the error of the first command
/// with nothing to read.
pub open spec fn check_commands(cmds: Seq<(String, Command)>) -> (Seq<Seq<char>>, Option<Seq<char>>)
    decreases cmds.len(),
{
    if cmds.len() == 0 {
        (Seq::empty(), None)
    } else {
        let (w, e) = check_commands(cmds.drop_last());
        let c = cmds.last();
        if e is Some {
            (w, e)
        } else if lacks_source(c.1) {
            (w, Some("command `"@ + c.0@ + "` needs a url, evaluate script, or static data"@))
        } else {
            (w + param_warnings(c.0@, c.1.params@), None)
        }
    }
}

/// `anycli validate`: the warnings printed, then the error, or the `ok:` line.
pub open spec fn validate_spec(a: Adapter) -> (Seq<Seq<char>>, Result<Seq<char>, Seq<char>>) {
    if a.name@.len() == 0 {
        (Seq::empty(), Err("adapter is missing a name"@))
    } else if a.commands@.len() == 0 {
        (Seq::empty(), Err("adapter `"@ + a.name@ + "` has no commands"@))
    } else {
        let (w, e) = check_commands(a.commands@);
        match e {
            Some(m) => (w, Err(m)),
            None => {
                let n = a.commands@.len();
                (w, Ok("ok: "@ + a.name@ + " ("@ + crate::num::nat_text(n) + " command"@ + (if n == 1 { ""@ } else { "s"@ }) + ")"@))
            },
        }
    }
}

fn push_param_warnings(out: &mut Vec<String>, cname: &String, ps: &Vec<(String, ParamDef)>)
    ensures
        str_views(final(out)@) == str_views(old(out)@) + param_warnings(cname@, ps@),
{
    let ghost start = str_views(out@);
    for i in 0..ps.len()
        invariant
            str_views(out@) == start + param_warnings(cname@, ps@.take(i as int)),
    {
        let ghost t = ps@.take(i + 1);
        assert(t.drop_last() == ps@.take(i as int));
        assert(t.last() == ps@[i as int]);
        if ps[i].1.required && ps[i].1.default.is_some() {
            let mut w = String::from_str("warning: `");
            crate::text::push_str(&mut w, cname.as_str());
            crate::text::push_str(&mut w, ".");
            crate::text::push_str(&mut w, ps[i].0.as_str());
            crate::text::push_str(&mut w, "` is required but also has a default");
            let ghost before = out@;
            let ghost ww = w;
            out.push(w);
            proof {
                lemma_str_views_push(before, ww);
            }
        }
        assert(str_views(out@) =~= start + param_warnings(cname@, t));
    }
    assert(ps@.take(ps.len() as int) == ps@);
}

/// `anycli validate` on a parsed adapter (see [`validate_spec`]).
pub fn validate_adapter(a: &crate::adapter::Adapter) -> (r: (Vec<String>, Result<String, String>))
    ensures
        ({
            let (w, e) = validate_spec(*a);
            &&& str_views(r.0@) == w
            &&& match r.1 {
                Ok(t) => e == Ok::<Seq<char>, Seq<char>>(t@),
                Err(t) => e == Err::<Seq<char>, Seq<char>>(t@),
            }
        }),
{
    let mut warnings: Vec<String> = Vec::new();
    assert(str_views(warnings@) =~= Seq::<Seq<char>>::empty());
    if chars_of(a.name.as_str()).len() == 0 {
        return (warnings, Err(String::from_str("adapter is missing a name")));
    }
    if a.commands.len() == 0 {
        let mut m = String::from_str("adapter `");
        crate::text::push_str(&mut m, a.name.as_str());
        crate::text::push_str(&mut m, "` has no commands");
        return (warnings, Err(m));
    }
    let cmds = &a.commands;
    for i in 0..cmds.len()
        invariant
            check_commands(cmds@.take(i as int)) == (str_views(warnings@), None::<Seq<char>>),
            a.name@.len() > 0,
            cmds@.len() > 0,
            cmds == &a.commands,
    {
        let ghost t = cmds@.take(i + 1);
        assert(t.drop_last() == cmds@.take(i as int));
        assert(t.last() == cmds@[i as int]);
        let c = &cmds[i].1;
        if chars_of(c.url.as_str()).len() == 0 && c.evaluate.is_none() && c.data.is_none()
            && c.format != crate::adapter::SourceFormat::Desktop && c.format != crate::adapter::SourceFormat::Static {
            let mut m = String::from_str("command `");
            crate::text::push_str(&mut m, cmds[i].0.as_str());
            crate::text::push_str(&mut m, "` needs a url, evaluate script, or static data");
            assert(lacks_source(cmds@[i as int].1));
            assert(check_commands(t) == (str_views(warnings@), Some(m@)));
            proof {
                lemma_check_commands_err(cmds@, i as int + 1);
            }
            return (warnings, Err(m));
        }
        push_param_warnings(&mut warnings, &cmds[i].0, &c.params);
    }
    assert(cmds@.take(cmds.len() as int) == cmds@);
    let n = cmds.len();
    let mut m = String::from_str("ok: ");
    crate::text::push_str(&mut m, a.name.as_str());
    crate::text::push_str(&mut m, " (");
    crate::text::push_chars(&mut m, &crate::num::u64_text(n as u64));
    crate::text::push_str(&mut m, " command");
    if n == 1 {
        crate::text::push_str(&mut m, "");
    } else {
        crate::text::push_str(&mut m, "s");
    }
    crate::text::push_str(&mut m, ")");
    (warnings, Ok(m))
}

proof fn lemma_check_commands_err(cmds: Seq<(String, Command)>, n: int)
    requires
        0 < n <= cmds.len(),
        check_commands(cmds.take(n)).1 is Some,
    ensures
        check_commands(cmds) == check_commands(cmds.take(n)),
    decreases cmds.len() - n,
{
    if n < cmds.len() {
        assert(cmds.take(n + 1).drop_last() == cmds.take(n));
        lemma_check_commands_err(cmds, n + 1);
    } else {
        assert(cmds.take(n) == cmds);
    }
}

} // verus!

verus! {

/// `anycli <adapter> <command>` means `anycli run <adapter> <command>`, and rewriting a
/// rewritten command line changes nothing.
pub proof fn lemma_rewrite_idempotent(args: Seq<Seq<char>>)
    ensures
        rewrite_args_spec(rewrite_args_spec(args)) == rewrite_args_spec(args),
{
    let r = rewrite_args_spec(args);
    match first_word(args) {
        Some(i) => {
            let i = i as int;
            lemma_first_word_found(args, 1, i);
            if !meta_commands().contains(args[i]) {
                assert(r == args.insert(i, "run"@));
                assert(r[i] == "run"@);
                assert(!has_prefix("run"@, "-"@)) by {
                    reveal_strlit("run");
                    reveal_strlit("-");
                    if has_prefix("run"@, "-"@) {
                        assert("run"@.subrange(0, 1)[0] == "run"@[0]);
                        assert("run"@.subrange(0, 1)[0] == "-"@[0]);
                    }
                }
                assert forall|j: int| 1 <= j < i implies has_prefix(#[trigger] r[j], "-"@) by {
                    assert(r[j] == args[j]);
                }
                lemma_first_word_at(r, 1, i);
                assert(meta_commands()[0] == "run"@);
                assert(meta_commands().contains(r[i]));
            }
        },
        None => {},
    }
}

/// `run` may be left out: after the program name and leading flags, an adapter name that is
/// no subcommand is read as if `run` stood before it, so both command lines become the same.
pub proof fn lemma_run_optional(bin: Seq<char>, flags: Seq<Seq<char>>, a: Seq<char>, rest: Seq<Seq<char>>)
    requires
        forall|j: int| 0 <= j < flags.len() ==> has_prefix(#[trigger] flags[j], "-"@),
        !has_prefix(a, "-"@),
        !meta_commands().contains(a),
    ensures
        rewrite_args_spec(seq![bin] + flags + seq![a] + rest) == seq![bin] + flags + seq!["run"@, a] + rest,
        rewrite_args_spec(seq![bin] + flags + seq!["run"@, a] + rest) == seq![bin] + flags + seq!["run"@, a] + rest,
{
    let x = seq![bin] + flags + seq![a] + rest;
    let y = seq![bin] + flags + seq!["run"@, a] + rest;
    let k = flags.len() as int + 1;
    assert forall|j: int| 1 <= j < k implies has_prefix(#[trigger] x[j], "-"@) by {
        assert(x[j] == flags[j - 1]);
    }
    assert(x[k] == a);
    lemma_first_word_at(x, 1, k);
    assert(x.insert(k, "run"@) =~= y);
    assert(!has_prefix("run"@, "-"@)) by {
        reveal_strlit("run");
        reveal_strlit("-");
        if has_prefix("run"@, "-"@) {
            assert("run"@.subrange(0, 1)[0] == "run"@[0]);
            assert("run"@.subrange(0, 1)[0] == "-"@[0]);
        }
    }
    assert forall|j: int| 1 <= j < k implies has_prefix(#[trigger] y[j], "-"@) by {
        assert(y[j] == flags[j - 1]);
    }
    assert(y[k] == "run"@);
    lemma_first_word_at(y, 1, k);
    assert(meta_commands()[0] == "run"@);
}

proof fn lemma_first_word_found(args: Seq<Seq<char>>, i: int, k: int)
    requires
        1 <= i,
        0 <= k,
        first_word_from(args, i) == Some(k as nat),
    ensures
        i <= k < args.len(),
        !has_prefix(args[k], "-"@),
        forall|j: int| i <= j < k ==> has_prefix(#[trigger] args[j], "-"@),
    decreases args.len() - i,
{
    if i < args.len() && has_prefix(args[i], "-"@) {
        lemma_first_word_found(args, i + 1, k);
    }
}

} // verus!

verus! {

/// The items `run` shows: projected onto the `--fields` columns when that list names any.
pub open spec fn shown_items(items: Seq<JsonV>, fields: Option<Seq<char>>) -> Seq<JsonV> {
    match fields {
        Some(f) => if field_list_spec(f).len() > 0 {
            items.map_values(|v: JsonV| project_item(v, field_list_spec(f)))
        } else {
            items
        },
        None => items,
    }
}

/// The output of `run` once its items are sorted: the items projected onto the `--fields`
/// columns when that list names any, then rendered in `fmt` (see
/// [`crate::output::format_spec`]).
pub fn run_output(result: &mut PipelineResult, fields: &Option<String>, fmt: OutputFormat, color: bool) -> (r: Result<String, String>)
    ensures
        final(result).adapter == old(result).adapter,
        final(result).command == old(result).command,
        final(result).count == old(result).count,
        item_views(final(result).items@) == shown_items(item_views(old(result).items@), opt_view(*fields)),
        text_result(r) == format_spec(shown_items(item_views(old(result).items@), opt_view(*fields)), fmt, color),
{
    match fields {
        Some(f) => {
            let cols = field_list(f.as_str());
            if cols.len() > 0 {
                result.project_fields(&cols);
            }
        },
        None => {},
    }
    result.format(fmt, color)
}

} // verus!
