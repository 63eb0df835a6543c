//! The text of the help, info and listing screens.

use vstd::prelude::*;
use crate::adapter::{Adapter, Command, ParamDef, str_views, lemma_str_views_push, command_names, command_index};
use crate::json::{Json, JsonV, json_text, push_json};
use crate::output::spaces;
use crate::pipeline::{PipelineError, PipelineErrorV};
use crate::suggest::{join_names, suggest, suggest_spec};
use crate::text::{chars_of, push_str, push_chars, trim, trim_chars, string_of};
use crate::json::key_lt;

verus! {

/// `format!("{:<n}", s)`: `s` followed by spaces up to `n` characters.
pub open spec fn pad_right(s: Seq<char>, n: nat) -> Seq<char> {
    if s.len() >= n {
        s
    } else {
        s + spaces((n - s.len()) as nat)
    }
}

/// Appends `s` padded to `n` characters.
pub fn push_padded(out: &mut String, s: &str, n: usize)
    ensures
        final(out)@ == old(out)@ + pad_right(s@, n as nat),
{
    let c = chars_of(s);
    let ghost start = out@;
    push_chars(out, &c);
    if c.len() < n {
        let mut k: usize = c.len();
        while k < n
            invariant
                c.len() <= k <= n,
                c@ == s@,
                out@ == start + s@ + spaces((k - c.len()) as nat),
            decreases n - k,
        {
            crate::text::push_char(out, ' ');
            assert(spaces((k + 1 - c.len()) as nat) =~= spaces((k - c.len()) as nat).push(' '));
            k = k + 1;
        }
    } else {
        assert(out@ =~= start + s@);
    }
}

/// Strings joined with a separator.
pub open spec fn join_sep(v: Seq<Seq<char>>, sep: Seq<char>) -> Seq<char>
    decreases v.len(),
{
    if v.len() == 0 {
        Seq::empty()
    } else if v.len() == 1 {
        v[0]
    } else {
        join_sep(v.drop_last(), sep) + sep + v.last()
    }
}

/// Appends strings joined with a separator.
pub fn push_joined_strs(out: &mut String, v: &Vec<String>, sep: &str)
    ensures
        final(out)@ == old(out)@ + join_sep(str_views(v@), sep@),
{
    let ghost vv = str_views(v@);
    let ghost start = out@;
    for i in 0..v.len()
        invariant
            vv == str_views(v@),
            out@ == start + join_sep(vv.take(i as int), sep@),
    {
        let ghost t = vv.take(i + 1);
        assert(t.drop_last() == vv.take(i as int));
        assert(t.last() == v@[i as int]@);
        if i > 0 {
            push_str(out, sep);
        } else {
            assert(vv.take(0).len() == 0);
        }
        push_str(out, v[i].as_str());
        assert(out@ =~= start + join_sep(t, sep@));
    }
    assert(vv.take(v.len() as int) == vv);
}

/// The ` [default: value]` note of a parameter (its value as compact JSON), if it has one.
pub open spec fn default_note(p: ParamDef) -> Seq<char> {
    match p.default {
        Some(d) => " [default: "@ + json_text(d@) + "]"@,
        None => ""@,
    }
}

/// The ` (required)` note of a parameter.
pub open spec fn required_note(p: ParamDef) -> Seq<char> {
    if p.required { " (required)"@ } else { ""@ }
}

fn push_default_note(out: &mut String, p: &ParamDef)
    ensures
        final(out)@ == old(out)@ + default_note(*p),
{
    match &p.default {
        Some(d) => {
            push_str(out, " [default: ");
            push_json(out, d);
            push_str(out, "]");
        },
        None => {
            push_str(out, "");
        },
    }
}

fn push_required_note(out: &mut String, p: &ParamDef)
    ensures
        final(out)@ == old(out)@ + required_note(*p),
{
    if p.required {
        push_str(out, " (required)");
    } else {
        push_str(out, "");
    }
}

/// A parameter's description, empty when it has none.
pub open spec fn description_of(p: ParamDef) -> Seq<char> {
    match p.description {
        Some(d) => d@,
        None => ""@,
    }
}

fn push_description(out: &mut String, p: &ParamDef)
    ensures
        final(out)@ == old(out)@ + description_of(*p),
{
    match &p.description {
        Some(d) => push_str(out, d.as_str()),
        None => push_str(out, ""),
    }
}

} // verus!

verus! {

/// The parameters whose `required` flag is `req`, in order.
pub open spec fn with_required(ps: Seq<(String, ParamDef)>, req: bool) -> Seq<(String, ParamDef)>
    decreases ps.len(),
{
    if ps.len() == 0 {
        Seq::empty()
    } else {
        let p = with_required(ps.drop_last(), req);
        if ps.last().1.required == req {
            p.push(ps.last())
        } else {
            p
        }
    }
}

/// One line of a command's parameter list.
pub open spec fn param_line(name: Seq<char>, p: ParamDef) -> Seq<char> {
    "  "@ + pad_right(name, 14) + " <"@ + p.param_type@ + ">  "@ + description_of(p) + default_note(p) + required_note(p)
        + "\n"@
}

/// The lines of the parameters whose `required` flag is `req`.
pub open spec fn param_lines(ps: Seq<(String, ParamDef)>, req: bool) -> Seq<char>
    decreases ps.len(),
{
    if ps.len() == 0 {
        Seq::empty()
    } else {
        let p = param_lines(ps.drop_last(), req);
        if ps.last().1.required == req {
            p + param_line(ps.last().0@, ps.last().1)
        } else {
            p
        }
    }
}

/// `NAME=VALUE` for each required parameter, in order.
pub open spec fn example_params(ps: Seq<(String, ParamDef)>) -> Seq<Seq<char>>
    decreases ps.len(),
{
    if ps.len() == 0 {
        Seq::empty()
    } else {
        let p = example_params(ps.drop_last());
        if ps.last().1.required {
            p.push(ps.last().0@ + "=VALUE"@)
        } else {
            p
        }
    }
}

/// The help of a command, shown as `print_command_help` prints it; the command is found by
/// name or alias, and refused as `run` refuses it.
pub open spec fn command_help_spec(a: Adapter, name: Seq<char>) -> Result<Seq<char>, PipelineErrorV> {
    match command_index(a.commands@, name) {
        None => Err(
            PipelineErrorV::CommandNotFound(
                name,
                a.name@,
                join_names(command_names(a.commands@)),
                suggest_spec(name, command_names(a.commands@)),
            ),
        ),
        Some(i) => {
            let cn = a.commands@[i as int].0@;
            let cmd = a.commands@[i as int].1;
            Ok(
                "Usage: anycli "@ + a.name@ + " "@ + cn + " [params...]\n\n"@ + cmd.description@ + "\n\n"@ + (if cmd.aliases@.len()
                    > 0 {
                    "Aliases: "@ + join_sep(str_views(cmd.aliases@), ", "@) + "\n\n"@
                } else {
                    ""@
                }) + (if cmd.params@.len() == 0 {
                    "No parameters.\n"@
                } else {
                    "Parameters:\n"@ + param_lines(cmd.params@, true) + param_lines(cmd.params@, false)
                }) + "\nExample:\n"@ + "  anycli "@ + a.name@ + " "@ + name + " "@ + join_sep(
                    example_params(cmd.params@),
                    " "@,
                ) + "\n"@,
            )
        },
    }
}

fn push_param_lines(out: &mut String, ps: &Vec<(String, ParamDef)>, req: bool)
    ensures
        final(out)@ == old(out)@ + param_lines(ps@, req),
{
    let ghost start = out@;
    for i in 0..ps.len()
        invariant
            out@ == start + param_lines(ps@.take(i as int), req),
    {
        let ghost t = ps@.take(i + 1);
        assert(t.drop_last() == ps@.take(i as int));
        assert(t.last() == ps@[i as int]);
        let ghost before = out@;
        let p = &ps[i].1;
        if p.required == req {
            push_str(out, "  ");
            push_padded(out, ps[i].0.as_str(), 14);
            push_str(out, " <");
            push_str(out, p.param_type.as_str());
            push_str(out, ">  ");
            push_description(out, p);
            push_default_note(out, p);
            push_required_note(out, p);
            push_str(out, "\n");
            assert(out@ =~= before + param_line(ps@[i as int].0@, *p));
        }
        assert(out@ =~= start + param_lines(t, req));
    }
    assert(ps@.take(ps.len() as int) == ps@);
}

fn example_list(ps: &Vec<(String, ParamDef)>) -> (r: Vec<String>)
    ensures
        str_views(r@) == example_params(ps@),
{
    let mut out: Vec<String> = Vec::new();
    for i in 0..ps.len()
        invariant
            str_views(out@) == example_params(ps@.take(i as int)),
    {
        let ghost t = ps@.take(i + 1);
        assert(t.drop_last() == ps@.take(i as int));
        assert(t.last() == ps@[i as int]);
        if ps[i].1.required {
            let mut e = ps[i].0.clone();
            push_str(&mut e, "=VALUE");
            let ghost before = out@;
            let ghost ee = e;
            out.push(e);
            proof {
                lemma_str_views_push(before, ee);
            }
        }
    }
    assert(ps@.take(ps.len() as int) == ps@);
    out
}

fn command_name_list(a: &Adapter) -> (r: Vec<String>)
    ensures
        str_views(r@) == command_names(a.commands@),
{
    let mut out: Vec<String> = Vec::new();
    for i in 0..a.commands.len()
        invariant
            out.len() == i,
            forall|j: int| 0 <= j < i ==> (#[trigger] out@[j])@ == a.commands@[j].0@,
    {
        out.push(a.commands[i].0.clone());
    }
    assert(str_views(out@) =~= command_names(a.commands@));
    out
}

/// `print_command_help`: the help text of a command (see [`command_help_spec`]).
pub fn command_help(a: &Adapter, name: &str) -> (r: Result<String, PipelineError>)
    ensures
        match r {
            Ok(t) => command_help_spec(*a, name@) == Ok::<Seq<char>, PipelineErrorV>(t@),
            Err(e) => command_help_spec(*a, name@) == Err::<Seq<char>, PipelineErrorV>(e@),
        },
{
    let (cn, cmd) = match a.command(name) {
        None => {
            let names = command_name_list(a);
            let mut available = String::new();
            push_joined_strs(&mut available, &names, ", ");
            proof {
                lemma_join_sep_names(str_views(names@));
            }
            let hint = suggest(name, &names);
            return Err(
                PipelineError::CommandNotFound { command: String::from_str(name), adapter: a.name.clone(), available, hint },
            );
        },
        Some(x) => x,
    };
    let mut out = String::from_str("Usage: anycli ");
    push_str(&mut out, a.name.as_str());
    push_str(&mut out, " ");
    push_str(&mut out, cn.as_str());
    push_str(&mut out, " [params...]\n\n");
    push_str(&mut out, cmd.description.as_str());
    push_str(&mut out, "\n\n");
    if cmd.aliases.len() > 0 {
        push_str(&mut out, "Aliases: ");
        push_joined_strs(&mut out, &cmd.aliases, ", ");
        push_str(&mut out, "\n\n");
    } else {
        push_str(&mut out, "");
    }
    if cmd.params.len() == 0 {
        push_str(&mut out, "No parameters.\n");
    } else {
        push_str(&mut out, "Parameters:\n");
        push_param_lines(&mut out, &cmd.params, true);
        push_param_lines(&mut out, &cmd.params, false);
    }
    push_str(&mut out, "\nExample:\n");
    push_str(&mut out, "  anycli ");
    push_str(&mut out, a.name.as_str());
    push_str(&mut out, " ");
    push_str(&mut out, name);
    push_str(&mut out, " ");
    let ex = example_list(&cmd.params);
    push_joined_strs(&mut out, &ex, " ");
    push_str(&mut out, "\n");
    assert(out@ =~= command_help_spec(*a, name@)->Ok_0);
    Ok(out)
}

/// Joining with `", "` is [`join_names`].
pub proof fn lemma_join_sep_names(v: Seq<Seq<char>>)
    ensures
        join_sep(v, ", "@) == join_names(v),
    decreases v.len(),
{
    if v.len() > 1 {
        lemma_join_sep_names(v.drop_last());
    }
}

} // verus!

verus! {

/// `idx` inserted into the name-ordered index list `s`: before the first index whose name is
/// greater, so equal names keep their order.
pub open spec fn insert_idx(names: Seq<Seq<char>>, s: Seq<int>, x: int) -> Seq<int>
    decreases s.len(),
{
    if s.len() == 0 {
        seq![x]
    } else if key_lt(names[x], names[s[0]]) {
        seq![x] + s
    } else {
        seq![s[0]] + insert_idx(names, s.skip(1), x)
    }
}

/// The positions `0..n` ordered by name, stably (`sort_by_key` on the names).
pub open spec fn name_order(names: Seq<Seq<char>>, n: int) -> Seq<int>
    decreases n,
{
    if n <= 0 {
        Seq::empty()
    } else {
        insert_idx(names, name_order(names, n - 1), n - 1)
    }
}

proof fn lemma_insert_idx_at(names: Seq<Seq<char>>, s: Seq<int>, x: int, p: int)
    requires
        0 <= p <= s.len(),
        forall|j: int| 0 <= j < p ==> !key_lt(names[x], names[#[trigger] s[j]]),
        p == s.len() || key_lt(names[x], names[s[p]]),
    ensures
        insert_idx(names, s, x) == s.take(p) + seq![x] + s.skip(p),
    decreases p,
{
    if p == 0 {
        if s.len() == 0 {
            assert(s.take(0) + seq![x] + s.skip(0) =~= seq![x]);
        } else {
            assert(s.take(0) + seq![x] + s.skip(0) =~= seq![x] + s);
        }
    } else {
        assert forall|j: int| 0 <= j < p - 1 implies !key_lt(names[x], names[#[trigger] s.skip(1)[j]]) by {
            assert(s.skip(1)[j] == s[j + 1]);
        }
        lemma_insert_idx_at(names, s.skip(1), x, p - 1);
        assert(s.take(p) + seq![x] + s.skip(p) =~= seq![s[0]] + (s.skip(1).take(p - 1) + seq![x] + s.skip(1).skip(p - 1)));
    }
}

/// The positions of the names in name order (see [`name_order`]).
pub fn order_by_name(names: &Vec<String>) -> (r: Vec<usize>)
    ensures
        r@.len() == names@.len(),
        forall|j: int| 0 <= j < r@.len() ==> (#[trigger] r@[j]) < names@.len(),
        Seq::new(r@.len(), |j: int| r@[j] as int) == name_order(str_views(names@), names@.len() as int),
{
    let ghost nv = str_views(names@);
    let mut order: Vec<usize> = Vec::new();
    for i in 0..names.len()
        invariant
            nv == str_views(names@),
            order@.len() == i,
            forall|j: int| 0 <= j < order@.len() ==> (#[trigger] order@[j]) < i,
            Seq::new(order@.len(), |j: int| order@[j] as int) == name_order(nv, i as int),
    {
        let ghost s = Seq::new(order@.len(), |j: int| order@[j] as int);
        let xc = chars_of(names[i].as_str());
        let mut p: usize = 0;
        while p < order.len() && !crate::json::key_less(&xc, &chars_of(names[order[p]].as_str()))
            invariant
                p <= order@.len(),
                xc@ == nv[i as int],
                nv == str_views(names@),
                i < names@.len(),
                forall|j: int| 0 <= j < order@.len() ==> (#[trigger] order@[j]) < i,
                s == Seq::new(order@.len(), |j: int| order@[j] as int),
                forall|j: int| 0 <= j < p ==> !key_lt(nv[i as int], nv[#[trigger] s[j]]),
            decreases order@.len() - p,
        {
            assert(nv[s[p as int]] == names@[order@[p as int] as int]@);
            p = p + 1;
        }
        proof {
            if p < order@.len() {
                assert(nv[s[p as int]] == names@[order@[p as int] as int]@);
            }
            lemma_insert_idx_at(nv, s, i as int, p as int);
        }
        order.insert(p, i);
        assert(Seq::new(order@.len(), |j: int| order@[j] as int) =~= s.take(p as int) + seq![i as int] + s.skip(p as int));
    }
    order
}

} // verus!

verus! {

/// `<name>` for each required parameter, in order.
pub open spec fn required_hints(ps: Seq<(String, ParamDef)>) -> Seq<Seq<char>>
    decreases ps.len(),
{
    if ps.len() == 0 {
        Seq::empty()
    } else {
        let p = required_hints(ps.drop_last());
        if ps.last().1.required {
            p.push("<"@ + ps.last().0@ + ">"@)
        } else {
            p
        }
    }
}

/// Whether some parameter is optional.
pub open spec fn has_optional(ps: Seq<(String, ParamDef)>) -> bool {
    exists|i: int| 0 <= i < ps.len() && !(#[trigger] ps[i]).1.required
}

/// The line of one command in an adapter's help: its name (with its aliases), `[options]`
/// when it has optional parameters and its required parameters, padded to 28 characters,
/// then its description.
pub open spec fn command_line(name: Seq<char>, cmd: Command) -> Seq<char> {
    let label = if cmd.aliases@.len() == 0 {
        name
    } else {
        name + "|"@ + join_sep(str_views(cmd.aliases@), "|"@)
    };
    let opts = if has_optional(cmd.params@) { "[options] "@ } else { ""@ };
    "  "@ + pad_right(trim(label + " "@ + opts + join_sep(required_hints(cmd.params@), " "@)), 28) + " "@
        + cmd.description@ + "\n"@
}

/// The command lines in the given order.
pub open spec fn command_lines(cmds: Seq<(String, Command)>, order: Seq<int>) -> Seq<char>
    decreases order.len(),
{
    if order.len() == 0 {
        Seq::empty()
    } else {
        command_lines(cmds, order.drop_last()) + command_line(cmds[order.last()].0@, cmds[order.last()].1)
    }
}

/// The options every adapter command takes, as its help lists them.
pub open spec fn options_text() -> Seq<char> {
    "\nOptions:\n"@
        + "  -f, --format <fmt>         Output format: json, jsonc, table, csv, markdown, yaml, plain [default: table]\n"@
        + "      --fields <cols>        Comma-separated columns to include\n"@
        + "      --sort <field>         Sort rows by field\n"@ + "      --reverse              Reverse sort order\n"@
        + "      --compact              Compact JSON output\n"@
        + "      --timeout <secs>       Request timeout in seconds\n"@ + "      --no-color             Disable ANSI colors\n"@
        + "  -h, --help                 Display help for command\n"@
}

/// `print_adapter_help` without a command: usage, description, aliases, the commands in
/// name order, the options and a pointer to the command help.
pub open spec fn adapter_help_spec(a: Adapter) -> Seq<char> {
    "Usage: anycli "@ + a.name@ + " [options] <command> [params...]\n\n"@ + a.description@ + "\n\n"@ + (if a.aliases@.len()
        > 0 {
        "Aliases: "@ + join_sep(str_views(a.aliases@), ", "@) + "\n\n"@
    } else {
        ""@
    }) + "Commands:\n"@ + command_lines(a.commands@, name_order(command_names(a.commands@), a.commands@.len() as int))
        + options_text() + "\nRun 'anycli "@ + a.name@ + " help <command>' for more info on a specific command.\n"@
}

fn hint_list(ps: &Vec<(String, ParamDef)>) -> (r: Vec<String>)
    ensures
        str_views(r@) == required_hints(ps@),
{
    let mut out: Vec<String> = Vec::new();
    for i in 0..ps.len()
        invariant
            str_views(out@) == required_hints(ps@.take(i as int)),
    {
        let ghost t = ps@.take(i + 1);
        assert(t.drop_last() == ps@.take(i as int));
        assert(t.last() == ps@[i as int]);
        if ps[i].1.required {
            let mut e = String::from_str("<");
            push_str(&mut e, ps[i].0.as_str());
            push_str(&mut e, ">");
            let ghost before = out@;
            let ghost ee = e;
            out.push(e);
            proof {
                lemma_str_views_push(before, ee);
            }
        }
    }
    assert(ps@.take(ps.len() as int) == ps@);
    out
}

fn any_optional(ps: &Vec<(String, ParamDef)>) -> (r: bool)
    ensures
        r == has_optional(ps@),
{
    for i in 0..ps.len()
        invariant
            forall|j: int| 0 <= j < i ==> (#[trigger] ps@[j]).1.required,
    {
        if !ps[i].1.required {
            return true;
        }
    }
    false
}

fn push_command_line(out: &mut String, name: &String, cmd: &Command)
    ensures
        final(out)@ == old(out)@ + command_line(name@, *cmd),
{
    let mut label = name.clone();
    if cmd.aliases.len() > 0 {
        push_str(&mut label, "|");
        push_joined_strs(&mut label, &cmd.aliases, "|");
    }
    push_str(&mut label, " ");
    if any_optional(&cmd.params) {
        push_str(&mut label, "[options] ");
    } else {
        push_str(&mut label, "");
    }
    push_joined_strs(&mut label, &hint_list(&cmd.params), " ");
    let t = string_of(&trim_chars(&chars_of(label.as_str())));
    push_str(out, "  ");
    push_padded(out, t.as_str(), 28);
    push_str(out, " ");
    push_str(out, cmd.description.as_str());
    push_str(out, "\n");
    assert(out@ =~= old(out)@ + command_line(name@, *cmd));
}

fn push_command_lines(out: &mut String, a: &Adapter)
    ensures
        final(out)@ == old(out)@ + command_lines(a.commands@, name_order(command_names(a.commands@), a.commands@.len() as int)),
{
    let names = command_name_list(a);
    let order = order_by_name(&names);
    assert(str_views(names@).len() == command_names(a.commands@).len());
    let ghost ov = Seq::new(order@.len(), |j: int| order@[j] as int);
    let ghost start = out@;
    for k in 0..order.len()
        invariant
            ov == Seq::new(order@.len(), |j: int| order@[j] as int),
            order@.len() == a.commands@.len(),
            forall|j: int| 0 <= j < order@.len() ==> (#[trigger] order@[j]) < a.commands@.len(),
            out@ == start + command_lines(a.commands@, ov.take(k as int)),
    {
        let ghost t = ov.take(k + 1);
        assert(t.drop_last() == ov.take(k as int));
        assert(t.last() == order@[k as int] as int);
        let c = order[k];
        push_command_line(out, &a.commands[c].0, &a.commands[c].1);
    }
    assert(ov.take(order.len() as int) == ov);
}

fn push_options(out: &mut String)
    ensures
        final(out)@ == old(out)@ + options_text(),
{
    push_str(out, "\nOptions:\n");
    push_str(out, "  -f, --format <fmt>         Output format: json, jsonc, table, csv, markdown, yaml, plain [default: table]\n");
    push_str(out, "      --fields <cols>        Comma-separated columns to include\n");
    push_str(out, "      --sort <field>         Sort rows by field\n");
    push_str(out, "      --reverse              Reverse sort order\n");
    push_str(out, "      --compact              Compact JSON output\n");
    push_str(out, "      --timeout <secs>       Request timeout in seconds\n");
    push_str(out, "      --no-color             Disable ANSI colors\n");
    push_str(out, "  -h, --help                 Display help for command\n");
    assert(final(out)@ =~= old(out)@ + options_text());
}

/// `print_adapter_help`: the command's help when one is named (see [`command_help`]), else the
/// adapter's (see [`adapter_help_spec`]).
pub fn adapter_help(a: &Adapter, sub_command: Option<&str>) -> (r: Result<String, PipelineError>)
    ensures
        match sub_command {
            Some(c) => match r {
                Ok(t) => command_help_spec(*a, c@) == Ok::<Seq<char>, PipelineErrorV>(t@),
                Err(e) => command_help_spec(*a, c@) == Err::<Seq<char>, PipelineErrorV>(e@),
            },
            None => r matches Ok(t) && t@ == adapter_help_spec(*a),
        },
{
    match sub_command {
        Some(c) => {
            return command_help(a, c);
        },
        None => {},
    }
    let mut out = String::from_str("Usage: anycli ");
    push_str(&mut out, a.name.as_str());
    push_str(&mut out, " [options] <command> [params...]\n\n");
    push_str(&mut out, a.description.as_str());
    push_str(&mut out, "\n\n");
    if a.aliases.len() > 0 {
        push_str(&mut out, "Aliases: ");
        push_joined_strs(&mut out, &a.aliases, ", ");
        push_str(&mut out, "\n\n");
    } else {
        push_str(&mut out, "");
    }
    push_str(&mut out, "Commands:\n");
    push_command_lines(&mut out, a);
    push_options(&mut out);
    push_str(&mut out, "\nRun 'anycli ");
    push_str(&mut out, a.name.as_str());
    push_str(&mut out, " help <command>' for more info on a specific command.\n");
    assert(out@ =~= adapter_help_spec(*a));
    Ok(out)
}

} // verus!

verus! {

/// One line of a parameter in `info`.
pub open spec fn info_param_line(name: Seq<char>, p: ParamDef) -> Seq<char> {
    "    "@ + pad_right(name, 14) + " "@ + description_of(p) + default_note(p) + required_note(p) + "\n"@
}

/// The parameter lines of a command in `info`.
pub open spec fn info_params(ps: Seq<(String, ParamDef)>) -> Seq<char>
    decreases ps.len(),
{
    if ps.len() == 0 {
        Seq::empty()
    } else {
        info_params(ps.drop_last()) + info_param_line(ps.last().0@, ps.last().1)
    }
}

/// The lines of the commands in `info`, in definition order.
pub open spec fn info_commands(cmds: Seq<(String, Command)>) -> Seq<char>
    decreases cmds.len(),
{
    if cmds.len() == 0 {
        Seq::empty()
    } else {
        let c = cmds.last();
        info_commands(cmds.drop_last()) + "  "@ + pad_right(c.0@, 16) + " "@ + c.1.description@ + "\n"@ + info_params(
            c.1.params@,
        )
    }
}

/// The text of `anycli info <adapter>`.
pub open spec fn info_spec(a: Adapter) -> Seq<char> {
    info_head(a) + "\nCommands:\n"@ + info_commands(a.commands@)
}

/// The lines of `info` above the commands.
pub open spec fn info_head(a: Adapter) -> Seq<char> {
    "Name:        "@ + a.name@ + "\n"@ + "Description: "@ + a.description@ + "\n"@ + "Base URL:    "@ + a.base_url@
        + "\n"@ + (if a.version@.len() > 0 { "Version:     "@ + a.version@ + "\n"@ } else { ""@ }) + (if a.aliases@.len()
        > 0 {
        "Aliases:     "@ + join_sep(str_views(a.aliases@), ", "@) + "\n"@
    } else {
        ""@
    }) + (if a.tags@.len() > 0 {
        "Tags:        "@ + join_sep(str_views(a.tags@), ", "@) + "\n"@
    } else {
        ""@
    })
}

fn info_param_line_of(name: &String, p: &ParamDef) -> (r: String)
    ensures
        r@ == info_param_line(name@, *p),
{
    let mut out = String::from_str("    ");
    push_padded(&mut out, name.as_str(), 14);
    push_str(&mut out, " ");
    push_description(&mut out, p);
    push_default_note(&mut out, p);
    push_required_note(&mut out, p);
    push_str(&mut out, "\n");
    assert(out@ =~= info_param_line(name@, *p));
    out
}

fn push_info_params(out: &mut String, ps: &Vec<(String, ParamDef)>)
    ensures
        final(out)@ == old(out)@ + info_params(ps@),
{
    let ghost start = out@;
    for i in 0..ps.len()
        invariant
            out@ == start + info_params(ps@.take(i as int)),
    {
        let ghost t = ps@.take(i + 1);
        assert(t.drop_last() == ps@.take(i as int));
        assert(t.last() == ps@[i as int]);
        let line = info_param_line_of(&ps[i].0, &ps[i].1);
        push_str(out, line.as_str());
        assert(out@ =~= start + info_params(t));
    }
    assert(ps@.take(ps.len() as int) == ps@);
}

fn info_head_of(a: &Adapter) -> (r: String)
    ensures
        r@ == info_head(*a),
{
    let mut out = String::from_str("Name:        ");
    push_str(&mut out, a.name.as_str());
    push_str(&mut out, "\n");
    push_str(&mut out, "Description: ");
    push_str(&mut out, a.description.as_str());
    push_str(&mut out, "\n");
    push_str(&mut out, "Base URL:    ");
    push_str(&mut out, a.base_url.as_str());
    push_str(&mut out, "\n");
    let ghost s1 = out@;
    if chars_of(a.version.as_str()).len() > 0 {
        push_str(&mut out, "Version:     ");
        push_str(&mut out, a.version.as_str());
        push_str(&mut out, "\n");
    } else {
        push_str(&mut out, "");
    }
    let ghost s2 = out@;
    if a.aliases.len() > 0 {
        push_str(&mut out, "Aliases:     ");
        push_joined_strs(&mut out, &a.aliases, ", ");
        push_str(&mut out, "\n");
    } else {
        push_str(&mut out, "");
    }
    let ghost s3 = out@;
    if a.tags.len() > 0 {
        push_str(&mut out, "Tags:        ");
        push_joined_strs(&mut out, &a.tags, ", ");
        push_str(&mut out, "\n");
    } else {
        push_str(&mut out, "");
    }
    assert(out@ =~= info_head(*a));
    out
}

/// The text of `anycli info <adapter>` (see [`info_spec`]).
pub fn info_text(a: &Adapter) -> (r: String)
    ensures
        r@ == info_spec(*a),
{
    let mut out = info_head_of(a);
    push_str(&mut out, "\nCommands:\n");
    let ghost start = out@;
    let cmds = &a.commands;
    for i in 0..cmds.len()
        invariant
            out@ == start + info_commands(cmds@.take(i as int)),
    {
        let ghost t = cmds@.take(i + 1);
        assert(t.drop_last() == cmds@.take(i as int));
        assert(t.last() == cmds@[i as int]);
        push_str(&mut out, "  ");
        push_padded(&mut out, cmds[i].0.as_str(), 16);
        push_str(&mut out, " ");
        push_str(&mut out, cmds[i].1.description.as_str());
        push_str(&mut out, "\n");
        push_info_params(&mut out, &cmds[i].1.params);
        assert(out@ =~= start + info_commands(t));
    }
    assert(cmds@.take(cmds.len() as int) == cmds@);
    out
}

} // verus!

verus! {

/// A row of the adapter tables: two columns padded to 22 and 8 characters, then the last.
pub open spec fn row3(a: Seq<char>, b: Seq<char>, c: Seq<char>) -> Seq<char> {
    pad_right(a, 22) + " "@ + pad_right(b, 8) + " "@ + c + "\n"@
}

fn push_row3(out: &mut String, a: &str, b: &str, c: &str)
    ensures
        final(out)@ == old(out)@ + row3(a@, b@, c@),
{
    push_padded(out, a, 22);
    push_str(out, " ");
    push_padded(out, b, 8);
    push_str(out, " ");
    push_str(out, c);
    push_str(out, "\n");
    assert(final(out)@ =~= old(out)@ + row3(a@, b@, c@));
}

/// The rows of adapters in `list`: name, number of commands, description.
pub open spec fn list_rows(v: Seq<Adapter>) -> Seq<char>
    decreases v.len(),
{
    if v.len() == 0 {
        Seq::empty()
    } else {
        list_rows(v.drop_last()) + row3(v.last().name@, crate::num::nat_text(v.last().commands@.len()), v.last().description@)
    }
}

/// The table of `anycli list`.
pub open spec fn list_spec(v: Seq<Adapter>) -> Seq<char> {
    row3("ADAPTER"@, "CMDS"@, "DESCRIPTION"@) + row3("-------"@, "----"@, "-----------"@) + list_rows(v) + "\n"@
        + crate::num::nat_text(v.len()) + " adapters\n"@
}

/// The table of `anycli list` (see [`list_spec`]).
pub fn list_text(v: &Vec<&Adapter>) -> (r: String)
    ensures
        r@ == list_spec(crate::registry::derefs(v@)),
{
    let ghost dv = crate::registry::derefs(v@);
    let mut out = String::new();
    push_row3(&mut out, "ADAPTER", "CMDS", "DESCRIPTION");
    push_row3(&mut out, "-------", "----", "-----------");
    let ghost start = out@;
    for i in 0..v.len()
        invariant
            dv == crate::registry::derefs(v@),
            out@ == start + list_rows(dv.take(i as int)),
    {
        let ghost t = dv.take(i + 1);
        assert(t.drop_last() == dv.take(i as int));
        assert(t.last() == *v@[i as int]);
        let n = string_of(&crate::num::u64_text(v[i].commands.len() as u64));
        push_row3(&mut out, v[i].name.as_str(), n.as_str(), v[i].description.as_str());
        assert(out@ =~= start + list_rows(t));
    }
    assert(dv.take(v.len() as int) == dv);
    push_str(&mut out, "\n");
    push_chars(&mut out, &crate::num::u64_text(v.len() as u64));
    push_str(&mut out, " adapters\n");
    assert(out@ =~= list_spec(dv));
    out
}

/// The hub rows of `search`: entries whose name no local adapter has.
pub open spec fn hub_rows(hub: Seq<crate::hub::HubEntry>, local: Seq<Seq<char>>) -> Seq<char>
    decreases hub.len(),
{
    if hub.len() == 0 {
        Seq::empty()
    } else {
        let e = hub.last();
        hub_rows(hub.drop_last(), local) + if local.contains(e.name@) {
            Seq::empty()
        } else {
            row3(e.name@, "hub"@, e.description@)
        }
    }
}

/// The local rows of `search`.
pub open spec fn local_rows(v: Seq<Adapter>) -> Seq<char>
    decreases v.len(),
{
    if v.len() == 0 {
        Seq::empty()
    } else {
        local_rows(v.drop_last()) + row3(v.last().name@, "local"@, v.last().description@)
    }
}

/// The text of `anycli search <query>`: local matches, then hub entries not found locally.
pub open spec fn search_spec(local: Seq<Adapter>, hub: Seq<crate::hub::HubEntry>, query: Seq<char>) -> Seq<char> {
    if local.len() == 0 && hub.len() == 0 {
        "No adapters found for `"@ + query + "`\n"@
    } else {
        row3("ADAPTER"@, "SOURCE"@, "DESCRIPTION"@) + row3("-------"@, "------"@, "-----------"@) + local_rows(local)
            + hub_rows(hub, crate::registry::adapter_names(local)) + if hub.len() > 0 {
            "\nInstall from hub: anycli install <name>\n"@
        } else {
            ""@
        }
    }
}

/// The text of `anycli search <query>` (see [`search_spec`]).
pub fn search_text(local: &Vec<&Adapter>, hub: &Vec<crate::hub::HubEntry>, query: &str) -> (r: String)
    ensures
        r@ == search_spec(crate::registry::derefs(local@), hub@, query@),
{
    let ghost lv = crate::registry::derefs(local@);
    if local.len() == 0 && hub.len() == 0 {
        let mut out = String::from_str("No adapters found for `");
        push_str(&mut out, query);
        push_str(&mut out, "`\n");
        return out;
    }
    let mut out = String::new();
    push_row3(&mut out, "ADAPTER", "SOURCE", "DESCRIPTION");
    push_row3(&mut out, "-------", "------", "-----------");
    let ghost s1 = out@;
    let mut names: Vec<String> = Vec::new();
    for i in 0..local.len()
        invariant
            lv == crate::registry::derefs(local@),
            out@ == s1 + local_rows(lv.take(i as int)),
            names.len() == i,
            forall|j: int| 0 <= j < i ==> (#[trigger] names@[j])@ == local@[j].name@,
    {
        let ghost t = lv.take(i + 1);
        assert(t.drop_last() == lv.take(i as int));
        assert(t.last() == *local@[i as int]);
        push_row3(&mut out, local[i].name.as_str(), "local", local[i].description.as_str());
        names.push(local[i].name.clone());
        assert(out@ =~= s1 + local_rows(t));
    }
    assert(lv.take(local.len() as int) == lv);
    assert(str_views(names@) =~= crate::registry::adapter_names(lv));
    let ghost s2 = out@;
    for i in 0..hub.len()
        invariant
            out@ == s2 + hub_rows(hub@.take(i as int), str_views(names@)),
    {
        let ghost t = hub@.take(i + 1);
        assert(t.drop_last() == hub@.take(i as int));
        assert(t.last() == hub@[i as int]);
        if !crate::adapter::contains_str(&names, hub[i].name.as_str()) {
            push_row3(&mut out, hub[i].name.as_str(), "hub", hub[i].description.as_str());
        }
        assert(out@ =~= s2 + hub_rows(t, str_views(names@)));
    }
    assert(hub@.take(hub.len() as int) == hub@);
    if hub.len() > 0 {
        push_str(&mut out, "\nInstall from hub: anycli install <name>\n");
    } else {
        push_str(&mut out, "");
    }
    assert(out@ =~= search_spec(lv, hub@, query@));
    out
}

} // verus!

verus! {

/// `key_lt` is asymmetric.
pub proof fn lemma_key_lt_asym(a: Seq<char>, b: Seq<char>)
    ensures
        key_lt(a, b) ==> !key_lt(b, a),
    decreases a.len(),
{
    if a.len() > 0 && b.len() > 0 && a[0] == b[0] {
        lemma_key_lt_asym(a.skip(1), b.skip(1));
    }
}

/// The positions at `k` and `k + 1` are in name order.
pub open spec fn adjacent_ordered(names: Seq<Seq<char>>, s: Seq<int>, k: int) -> bool {
    !key_lt(names[s[k + 1]], names[s[k]])
}

/// Consecutive positions are in name order.
pub open spec fn sorted_by_name(names: Seq<Seq<char>>, s: Seq<int>) -> bool {
    forall|k: int| 0 <= k < s.len() - 1 ==> #[trigger] adjacent_ordered(names, s, k)
}

proof fn lemma_insert_idx_props(names: Seq<Seq<char>>, s: Seq<int>, x: int)
    requires
        sorted_by_name(names, s),
    ensures
        sorted_by_name(names, insert_idx(names, s, x)),
        insert_idx(names, s, x).len() == s.len() + 1,
        insert_idx(names, s, x)[0] == x || (s.len() > 0 && insert_idx(names, s, x)[0] == s[0]),
        forall|k: int| 0 <= k < insert_idx(names, s, x).len() ==> #[trigger] insert_idx(names, s, x)[k] == x || s.contains(insert_idx(names, s, x)[k]),
        insert_idx(names, s, x).contains(x),
        forall|j: int| 0 <= j < s.len() ==> insert_idx(names, s, x).contains(#[trigger] s[j]),
        (forall|i: int, j: int| 0 <= i < j < s.len() ==> s[i] != s[j]) && !s.contains(x) ==> forall|i: int, j: int|
            0 <= i < j < insert_idx(names, s, x).len() ==> #[trigger] insert_idx(names, s, x)[i] != #[trigger] insert_idx(names, s, x)[j],
    decreases s.len(),
{
    let r = insert_idx(names, s, x);
    if s.len() == 0 {
        assert(r[0] == x);
    } else if key_lt(names[x], names[s[0]]) {
        lemma_key_lt_asym(names[x], names[s[0]]);
        assert(r == seq![x] + s);
        assert forall|k: int| 0 <= k < r.len() - 1 implies #[trigger] adjacent_ordered(names, r, k) by {
            if k > 0 {
                assert(r[k] == s[k - 1]);
                assert(r[k + 1] == s[k]);
                assert(adjacent_ordered(names, s, k - 1));
            }
        }
        assert forall|k: int| 0 <= k < r.len() implies #[trigger] r[k] == x || s.contains(r[k]) by {
            if k > 0 {
                assert(r[k] == s[k - 1]);
            }
        }
        assert(r[0] == x);
        assert forall|j: int| 0 <= j < s.len() implies r.contains(#[trigger] s[j]) by {
            assert(r[j + 1] == s[j]);
        }
    } else {
        let t = s.skip(1);
        assert(sorted_by_name(names, t)) by {
            assert forall|k: int| 0 <= k < t.len() - 1 implies #[trigger] adjacent_ordered(names, t, k) by {
                assert(t[k] == s[k + 1]);
                assert(t[k + 1] == s[k + 2]);
                assert(adjacent_ordered(names, s, k + 1));
            }
        }
        lemma_insert_idx_props(names, t, x);
        let rt = insert_idx(names, t, x);
        assert(r == seq![s[0]] + rt);
        assert forall|k: int| 0 <= k < r.len() - 1 implies #[trigger] adjacent_ordered(names, r, k) by {
            if k == 0 {
                assert(r[1] == rt[0]);
                if rt[0] != x {
                    assert(rt[0] == t[0]);
                    assert(t[0] == s[1]);
                    assert(adjacent_ordered(names, s, 0));
                }
            } else {
                assert(r[k] == rt[k - 1]);
                assert(r[k + 1] == rt[k]);
                assert(adjacent_ordered(names, rt, k - 1));
            }
        }
        assert forall|k: int| 0 <= k < r.len() implies #[trigger] r[k] == x || s.contains(r[k]) by {
            if k == 0 {
                assert(s[0] == r[0]);
            } else {
                assert(r[k] == rt[k - 1]);
                if rt[k - 1] != x {
                    let w = choose|w: int| 0 <= w < t.len() && t[w] == rt[k - 1];
                    assert(s[w + 1] == t[w]);
                }
            }
        }
        let wx = choose|w: int| 0 <= w < rt.len() && rt[w] == x;
        assert(r[wx + 1] == x);
        assert forall|j: int| 0 <= j < s.len() implies r.contains(#[trigger] s[j]) by {
            if j == 0 {
                assert(r[0] == s[0]);
            } else {
                assert(t[j - 1] == s[j]);
                let w = choose|w: int| 0 <= w < rt.len() && rt[w] == t[j - 1];
                assert(r[w + 1] == s[j]);
            }
        }
        if (forall|i: int, j: int| 0 <= i < j < s.len() ==> s[i] != s[j]) && !s.contains(x) {
            assert(forall|i: int, j: int| 0 <= i < j < t.len() ==> t[i] != t[j]) by {
                assert forall|i: int, j: int| 0 <= i < j < t.len() implies t[i] != t[j] by {
                    assert(t[i] == s[i + 1]);
                    assert(t[j] == s[j + 1]);
                }
            }
            assert(!t.contains(x)) by {
                if t.contains(x) {
                    let w = choose|w: int| 0 <= w < t.len() && t[w] == x;
                    assert(s[w + 1] == x);
                }
            }
            assert forall|i: int, j: int| 0 <= i < j < r.len() implies #[trigger] r[i] != #[trigger] r[j] by {
                if i == 0 {
                    assert(r[j] == rt[j - 1]);
                    if rt[j - 1] == x {
                        assert(s[0] != x);
                    } else {
                        let w = choose|w: int| 0 <= w < t.len() && t[w] == rt[j - 1];
                        assert(s[w + 1] == t[w]);
                        assert(s[0] != s[w + 1]);
                    }
                } else {
                    assert(r[i] == rt[i - 1]);
                    assert(r[j] == rt[j - 1]);
                }
            }
        }
    }
}

/// The name order lists each position `0..n` once, in name order.
pub proof fn lemma_name_order(names: Seq<Seq<char>>, n: int)
    requires
        n >= 0,
    ensures
        name_order(names, n).len() == n,
        forall|k: int| 0 <= k < n ==> 0 <= #[trigger] name_order(names, n)[k] < n,
        forall|j: int| 0 <= j < n ==> name_order(names, n).contains(j),
        forall|i: int, j: int| 0 <= i < j < n ==> #[trigger] name_order(names, n)[i] != #[trigger] name_order(names, n)[j],
        sorted_by_name(names, name_order(names, n)),
    decreases n,
{
    if n > 0 {
        lemma_name_order(names, n - 1);
        let s = name_order(names, n - 1);
        assert(!s.contains(n - 1)) by {
            if s.contains(n - 1) {
                let w = choose|w: int| 0 <= w < s.len() && s[w] == n - 1;
            }
        }
        lemma_insert_idx_props(names, s, n - 1);
        let r = name_order(names, n);
        assert forall|k: int| 0 <= k < n implies 0 <= #[trigger] r[k] < n by {
            if r[k] != n - 1 {
                let w = choose|w: int| 0 <= w < s.len() && s[w] == r[k];
            }
        }
        assert forall|j: int| 0 <= j < n implies r.contains(j) by {
            if j < n - 1 {
                assert(s.contains(j));
                let w = choose|w: int| 0 <= w < s.len() && s[w] == j;
                assert(r.contains(s[w]));
            }
        }
    }
}

} // verus!
