//! Text output of extracted items: table, CSV, Markdown, plain and compact JSON.

use vstd::prelude::*;
use crate::json::{Json, JsonV, json_text, pretty_text, member, entry_views, item_views, lemma_array_view, lemma_object_view, lemma_entry_views, push_json, push_json_array, push_pretty};
use crate::text::{chars_of, string_of, push_char, push_str, push_chars, replace, replace_all, contains_seq, contains};
use crate::num::{nat_text, u64_text};
use crate::adapter::{str_views, lemma_str_views_push};
use crate::codec::{yaml_text, format_yaml};

verus! {

/// Supported output formats.
#[derive(Clone, Copy, Debug, PartialEq, Eq, Structural)]
pub enum OutputFormat {
    Table,
    Json,
    /// JSON array on one line.
    JsonCompact,
    Csv,
    Markdown,
    Yaml,
    /// Tab-separated values without headers.
    Plain,
}

/// The format a name selects (after Unicode lower-casing), if any.
pub open spec fn format_named(n: Seq<char>) -> Option<OutputFormat> {
    if n == "table"@ {
        Some(OutputFormat::Table)
    } else if n == "json"@ || n == "pretty"@ {
        Some(OutputFormat::Json)
    } else if n == "jsonc"@ || n == "compact"@ || n == "json-compact"@ {
        Some(OutputFormat::JsonCompact)
    } else if n == "csv"@ {
        Some(OutputFormat::Csv)
    } else if n == "markdown"@ || n == "md"@ {
        Some(OutputFormat::Markdown)
    } else if n == "yaml"@ || n == "yml"@ {
        Some(OutputFormat::Yaml)
    } else if n == "plain"@ || n == "tsv"@ {
        Some(OutputFormat::Plain)
    } else {
        None
    }
}

fn is_name(n: &Vec<char>, lit: &str) -> (r: bool)
    ensures
        r == (n@ == lit@),
{
    let l = chars_of(lit);
    crate::text::chars_eq(n, &l)
}

impl OutputFormat {
    /// `OutputFormat::from_str`: the format a name selects, in any case.
    pub fn from_name(s: &str) -> (r: Option<OutputFormat>)
        ensures
            r == format_named(crate::text::lowercase(s@)),
    {
        let lower = crate::text::to_lowercase(s);
        let n = chars_of(lower.as_str());
        if is_name(&n, "table") {
            Some(OutputFormat::Table)
        } else if is_name(&n, "json") || is_name(&n, "pretty") {
            Some(OutputFormat::Json)
        } else if is_name(&n, "jsonc") || is_name(&n, "compact") || is_name(&n, "json-compact") {
            Some(OutputFormat::JsonCompact)
        } else if is_name(&n, "csv") {
            Some(OutputFormat::Csv)
        } else if is_name(&n, "markdown") || is_name(&n, "md") {
            Some(OutputFormat::Markdown)
        } else if is_name(&n, "yaml") || is_name(&n, "yml") {
            Some(OutputFormat::Yaml)
        } else if is_name(&n, "plain") || is_name(&n, "tsv") {
            Some(OutputFormat::Plain)
        } else {
            None
        }
    }
}

/// Characters that take two terminal columns (CJK, Hangul, full-width forms).
pub open spec fn is_wide(c: char) -> bool {
    let u = c as u32;
    (0x1100 <= u && u <= 0x115F) || (0x2E80 <= u && u <= 0x303E) || (0x3040 <= u && u <= 0x33BF) || (0x3400 <= u
        && u <= 0x4DBF) || (0x4E00 <= u && u <= 0x9FFF) || (0xA000 <= u && u <= 0xA4CF) || (0xAC00 <= u && u
        <= 0xD7AF) || (0xF900 <= u && u <= 0xFAFF) || (0xFE30 <= u && u <= 0xFE4F) || (0xFF01 <= u && u <= 0xFF60)
        || (0xFFE0 <= u && u <= 0xFFE6) || (0x20000 <= u && u <= 0x2FA1F)
}

/// `is_wide_char`.
pub fn is_wide_char(c: char) -> (r: bool)
    ensures
        r == is_wide(c),
{
    let u = c as u32;
    (0x1100 <= u && u <= 0x115F) || (0x2E80 <= u && u <= 0x303E) || (0x3040 <= u && u <= 0x33BF) || (0x3400 <= u
        && u <= 0x4DBF) || (0x4E00 <= u && u <= 0x9FFF) || (0xA000 <= u && u <= 0xA4CF) || (0xAC00 <= u && u
        <= 0xD7AF) || (0xF900 <= u && u <= 0xFAFF) || (0xFE30 <= u && u <= 0xFE4F) || (0xFF01 <= u && u <= 0xFF60)
        || (0xFFE0 <= u && u <= 0xFFE6) || (0x20000 <= u && u <= 0x2FA1F)
}

/// The columns one character takes.
pub open spec fn char_width(c: char) -> nat {
    if is_wide(c) { 2 } else { 1 }
}

/// `display_width`: the columns a text takes.
pub open spec fn width(s: Seq<char>) -> nat
    decreases s.len(),
{
    if s.len() == 0 {
        0
    } else {
        width(s.drop_last()) + char_width(s.last())
    }
}

proof fn lemma_width_bound(s: Seq<char>)
    ensures
        width(s) <= 2 * s.len(),
    decreases s.len(),
{
    if s.len() > 0 {
        lemma_width_bound(s.drop_last());
    }
}

/// `display_width`.
pub fn display_width(s: &str) -> (r: usize)
    requires
        s@.len() <= usize::MAX / 2,
    ensures
        r == width(s@),
{
    let c = chars_of(s);
    let w = width_of(&c);
    proof {
        lemma_width_bound(s@);
    }
    w as usize
}

/// `n` spaces.
pub open spec fn spaces(n: nat) -> Seq<char> {
    Seq::new(n, |i: int| ' ')
}

/// `pad_display`: `s` followed by spaces up to `w` columns.
pub open spec fn pad_spec(s: Seq<char>, w: nat) -> Seq<char> {
    if width(s) >= w {
        s
    } else {
        s + spaces((w - width(s)) as nat)
    }
}

/// The longest prefix of `s` whose width stays within `max`, taken character by character.
pub open spec fn fit_prefix(s: Seq<char>, max: nat) -> Seq<char>
    decreases s.len(),
{
    if s.len() == 0 || char_width(s[0]) > max {
        Seq::empty()
    } else {
        seq![s[0]] + fit_prefix(s.skip(1), (max - char_width(s[0])) as nat)
    }
}

/// `truncate_display`: `s` when it fits in `max` columns; else what fits, followed by `...`
/// unless `max` is 3 or less.
pub open spec fn truncate_spec(s: Seq<char>, max: nat) -> Seq<char> {
    if width(s) <= max {
        s
    } else if max <= 3 {
        fit_prefix(s, max)
    } else {
        fit_prefix(s, (max - 3) as nat) + "..."@
    }
}

/// `csv_escape`: quoted, with doubled quotes, when the text holds a comma, a quote or a newline.
pub open spec fn csv_escape_spec(s: Seq<char>) -> Seq<char> {
    if s.contains(',') || s.contains('"') || s.contains('\n') {
        seq!['"'] + replace_all(s, seq!['"'], seq!['"', '"']) + seq!['"']
    } else {
        s
    }
}

/// `csv_escape`.
pub fn csv_escape(s: &[char]) -> (r: Vec<char>)
    ensures
        r@ == csv_escape_spec(s@),
{
    let q = crate::text::find_char(s, ',').is_some() || crate::text::find_char(s, '"').is_some()
        || crate::text::find_char(s, '\n').is_some();
    if q {
        let mut f: Vec<char> = Vec::new();
        f.push('"');
        let mut t: Vec<char> = Vec::new();
        t.push('"');
        t.push('"');
        assert(f@ =~= seq!['"']);
        assert(t@ =~= seq!['"', '"']);
        let inner = replace(s, &f, &t);
        let mut out: Vec<char> = Vec::new();
        out.push('"');
        for i in 0..inner.len()
            invariant
                out@ == seq!['"'] + inner@.take(i as int),
        {
            out.push(inner[i]);
            assert(inner@.take(i + 1) == inner@.take(i as int).push(inner@[i as int]));
        }
        assert(inner@.take(inner.len() as int) == inner@);
        out.push('"');
        assert(out@ =~= csv_escape_spec(s@));
        out
    } else {
        crate::text::slice_chars(s, 0, s.len())
    }
}

/// `s` without its leading and trailing `"` characters.
pub open spec fn trim_quotes(s: Seq<char>) -> Seq<char>
    decreases s.len(),
{
    if s.len() > 0 && s[0] == '"' {
        trim_quotes(s.skip(1))
    } else if s.len() > 0 && s.last() == '"' {
        trim_quotes(s.drop_last())
    } else {
        s
    }
}

/// How an array item is shown in a cell.
pub open spec fn item_cell_text(v: JsonV) -> Seq<char> {
    match v {
        JsonV::Str(s) => s,
        JsonV::Null => Seq::empty(),
        _ => trim_quotes(json_text(v)),
    }
}

/// The non-empty cell texts of array items joined with `, `.
pub open spec fn array_cell(items: Seq<JsonV>) -> Seq<char>
    decreases items.len(),
{
    if items.len() == 0 {
        Seq::empty()
    } else {
        let r = array_cell(items.drop_last());
        let t = item_cell_text(items.last());
        if t.len() == 0 {
            r
        } else if r.len() == 0 {
            t
        } else {
            r + ", "@ + t
        }
    }
}

/// `cell_value`: how the member `key` of an item is shown.
pub open spec fn cell_spec(item: JsonV, key: Seq<char>) -> Seq<char> {
    match member(item, key) {
        Some(JsonV::Str(s)) => s,
        Some(JsonV::Number(t)) => t,
        Some(JsonV::Bool(b)) => if b { "true"@ } else { "false"@ },
        Some(JsonV::Null) => Seq::empty(),
        None => Seq::empty(),
        Some(JsonV::Array(items)) => array_cell(items),
        Some(other) => json_text(other),
    }
}

fn trim_quotes_of(s: &[char]) -> (r: Vec<char>)
    ensures
        r@ == trim_quotes(s@),
{
    let mut a: usize = 0;
    let mut b: usize = s.len();
    assert(s@.subrange(0, s.len() as int) == s@);
    while a < b && (s[a] == '"' || s[b - 1] == '"')
        invariant
            a <= b <= s.len(),
            trim_quotes(s@) == trim_quotes(s@.subrange(a as int, b as int)),
        decreases b - a,
    {
        let ghost t = s@.subrange(a as int, b as int);
        if s[a] == '"' {
            assert(t[0] == s@[a as int]);
            assert(t.skip(1) == s@.subrange(a + 1, b as int));
            a = a + 1;
        } else {
            assert(t[0] == s@[a as int]);
            assert(t.last() == s@[b - 1]);
            assert(t.drop_last() == s@.subrange(a as int, b - 1));
            b = b - 1;
        }
    }
    crate::text::slice_chars(s, a, b)
}

fn item_cell(v: &Json) -> (r: Vec<char>)
    ensures
        r@ == item_cell_text(v@),
{
    match v {
        Json::Str(s) => chars_of(s.as_str()),
        Json::Null => Vec::new(),
        _ => {
            let mut t = String::new();
            push_json(&mut t, v);
            assert(t@ =~= json_text(v@));
            trim_quotes_of(&chars_of(t.as_str()))
        },
    }
}

/// `cell_value`.
pub fn cell_value(item: &Json, key: &str) -> (r: Vec<char>)
    ensures
        r@ == cell_spec(item@, key@),
{
    match item.get(key) {
        None => Vec::new(),
        Some(v) => match v {
            Json::Str(s) => chars_of(s.as_str()),
            Json::Number(t) => chars_of(t.as_str()),
            Json::Bool(b) => if *b {
                chars_of("true")
            } else {
                chars_of("false")
            },
            Json::Null => Vec::new(),
            Json::Array(items) => {
                proof {
                    lemma_array_view(*items);
                }
                let ghost iv = item_views(items@);
                let mut out: Vec<char> = Vec::new();
                for i in 0..items.len()
                    invariant
                        iv == item_views(items@),
                        out@ == array_cell(iv.take(i as int)),
                {
                    let ghost t = iv.take(i + 1);
                    assert(t.drop_last() == iv.take(i as int));
                    assert(t.last() == items@[i as int]@);
                    let c = item_cell(&items[i]);
                    if c.len() == 0 {
                    } else if out.len() == 0 {
                        out = c;
                    } else {
                        let ghost before = out@;
                        out.push(',');
                        out.push(' ');
                        proof {
                            reveal_strlit(", ");
                        }
                        assert(out@ =~= before + ", "@ + c@.take(0));
                        for k in 0..c.len()
                            invariant
                                out@ == before + ", "@ + c@.take(k as int),
                        {
                            out.push(c[k]);
                            assert(c@.take(k + 1) == c@.take(k as int).push(c@[k as int]));
                        }
                        assert(c@.take(c.len() as int) == c@);
                        proof {
                            reveal_strlit(", ");
                        }
                        assert(out@ =~= before + ", "@ + c@);
                    }
                }
                assert(iv.take(items.len() as int) == iv);
                out
            },
            Json::Object(_) => {
                let mut t = String::new();
                push_json(&mut t, v);
                chars_of(t.as_str())
            },
        },
    }
}

} // verus!

verus! {

/// Parts joined with `sep`.
pub open spec fn join_with(parts: Seq<Seq<char>>, sep: Seq<char>) -> Seq<char>
    decreases parts.len(),
{
    if parts.len() == 0 {
        Seq::empty()
    } else if parts.len() == 1 {
        parts[0]
    } else {
        join_with(parts.drop_last(), sep) + sep + parts.last()
    }
}

/// The views of a list of character vectors.
pub open spec fn vec_views(v: Seq<Vec<char>>) -> Seq<Seq<char>> {
    Seq::new(v.len(), |i: int| v[i]@)
}

/// Appends the parts joined with `sep`.
fn push_joined(out: &mut Vec<char>, parts: &Vec<Vec<char>>, sep: &str)
    ensures
        final(out)@ == old(out)@ + join_with(vec_views(parts@), sep@),
{
    let sc = chars_of(sep);
    let ghost start = out@;
    let ghost pv = vec_views(parts@);
    for i in 0..parts.len()
        invariant
            pv == vec_views(parts@),
            sc@ == sep@,
            out@ == start + join_with(pv.take(i as int), sep@),
    {
        let ghost t = pv.take(i + 1);
        assert(t.drop_last() == pv.take(i as int));
        assert(t.last() == parts@[i as int]@);
        let ghost before = out@;
        if i > 0 {
            for k in 0..sc.len()
                invariant
                    out@ == before + sc@.take(k as int),
            {
                out.push(sc[k]);
                assert(sc@.take(k + 1) == sc@.take(k as int).push(sc@[k as int]));
            }
            assert(sc@.take(sc.len() as int) == sc@);
        }
        let ghost mid = out@;
        let p = &parts[i];
        for k in 0..p.len()
            invariant
                out@ == mid + p@.take(k as int),
        {
            out.push(p[k]);
            assert(p@.take(k + 1) == p@.take(k as int).push(p@[k as int]));
        }
        assert(p@.take(p.len() as int) == p@);
        proof {
            if i == 0 {
                assert(t.len() == 1);
                assert(pv.take(0).len() == 0);
                assert(out@ =~= start + join_with(t, sep@));
            } else {
                assert(out@ =~= start + join_with(t, sep@));
            }
        }
    }
    assert(pv.take(parts.len() as int) == pv);
}

/// Appends the characters of a string slice.
fn push_lit(out: &mut Vec<char>, s: &str)
    ensures
        final(out)@ == old(out)@ + s@,
{
    let c = chars_of(s);
    let ghost start = out@;
    for k in 0..c.len()
        invariant
            out@ == start + c@.take(k as int),
    {
        out.push(c[k]);
        assert(c@.take(k + 1) == c@.take(k as int).push(c@[k as int]));
    }
    assert(c@.take(c.len() as int) == c@);
}

fn push_vec(out: &mut Vec<char>, c: &Vec<char>)
    ensures
        final(out)@ == old(out)@ + c@,
{
    let ghost start = out@;
    for k in 0..c.len()
        invariant
            out@ == start + c@.take(k as int),
    {
        out.push(c[k]);
        assert(c@.take(k + 1) == c@.take(k as int).push(c@[k as int]));
    }
    assert(c@.take(c.len() as int) == c@);
}

/// The field names of the first item, in its order; none when it is not an object.
pub open spec fn keys_spec(items: Seq<JsonV>) -> Seq<Seq<char>> {
    if items.len() > 0 {
        match items[0] {
            JsonV::Object(m) => m.map_values(|e: (Seq<char>, JsonV)| e.0),
            _ => Seq::empty(),
        }
    } else {
        Seq::empty()
    }
}

/// `collect_keys`.
pub fn collect_keys(items: &Vec<Json>) -> (r: Vec<String>)
    ensures
        str_views(r@) == keys_spec(item_views(items@)),
{
    let mut out: Vec<String> = Vec::new();
    if items.len() == 0 {
        assert(str_views(out@) =~= keys_spec(item_views(items@)));
        return out;
    }
    match &items[0] {
        Json::Object(m) => {
            proof {
                lemma_object_view(*m);
                lemma_entry_views(m@);
            }
            let ghost ev = entry_views(m@);
            for i in 0..m.len()
                invariant
                    items@.len() > 0,
                    out.len() == i,
                    items@[0]@ == JsonV::Object(ev),
                    ev == entry_views(m@),
                    ev.len() == m@.len(),
                    forall|j: int| 0 <= j < m@.len() ==> #[trigger] ev[j] == (m@[j].0@, m@[j].1@),
                    str_views(out@) == ev.take(i as int).map_values(|e: (Seq<char>, JsonV)| e.0),
            {
                let ghost before = out@;
                let k = m[i].0.clone();
                let ghost kk = k;
                out.push(k);
                proof {
                    lemma_str_views_push(before, kk);
                }
                assert(ev[i as int].0 == m@[i as int].0@);
                assert(str_views(out@) =~= ev.take(i + 1).map_values(|e: (Seq<char>, JsonV)| e.0));
            }
            assert(ev.take(m.len() as int) == ev);
            out
        },
        _ => {
            assert(str_views(out@) =~= keys_spec(item_views(items@)));
            out
        },
    }
}

/// `n` horizontal box-drawing lines.
pub open spec fn dashes(n: nat) -> Seq<char> {
    Seq::new(n, |i: int| '─')
}

/// `pad_display`.
pub fn pad_display(s: &str, target_width: usize) -> (r: String)
    ensures
        r@ == pad_spec(s@, target_width as nat),
{
    let c = chars_of(s);
    string_of(&pad_chars(&c, target_width as u128))
}

fn pad_chars(s: &Vec<char>, w: u128) -> (r: Vec<char>)
    ensures
        r@ == pad_spec(s@, w as nat),
{
    let dw = width_of(s);
    let mut out = s.clone();
    assert(out@ == s@);
    if dw >= w {
        return out;
    }
    let mut k: u128 = 0;
    while k < w - dw
        invariant
            dw < w,
            dw == width(s@),
            k <= w - dw,
            out@ == s@ + spaces(k as nat),
        decreases w - dw - k,
    {
        out.push(' ');
        assert(spaces((k + 1) as nat) =~= spaces(k as nat).push(' '));
        k = k + 1;
    }
    out
}

/// The width of a text, without bound on its length.
fn width_of(s: &Vec<char>) -> (r: u128)
    ensures
        r == width(s@),
{
    let mut w: u128 = 0;
    for i in 0..s.len()
        invariant
            w == width(s@.take(i as int)),
            w <= 2 * i,
    {
        let ghost t = s@.take(i + 1);
        assert(t.drop_last() == s@.take(i as int));
        w = w + if is_wide_char(s[i]) { 2 } else { 1 };
    }
    assert(s@.take(s.len() as int) == s@);
    w
}

fn fit_prefix_of(s: &Vec<char>, max: u128) -> (r: Vec<char>)
    ensures
        r@ == fit_prefix(s@, max as nat),
{
    let mut out: Vec<char> = Vec::new();
    let mut used: u128 = 0;
    let mut i: usize = 0;
    assert(s@.skip(0) == s@);
    while i < s.len()
        invariant
            i <= s.len(),
            used <= max,
            used <= 2 * i,
            out@ + fit_prefix(s@.skip(i as int), (max - used) as nat) == fit_prefix(s@, max as nat),
        decreases s.len() - i,
    {
        let ghost t = s@.skip(i as int);
        assert(t[0] == s@[i as int]);
        let cw: u128 = if is_wide_char(s[i]) { 2 } else { 1 };
        if used + cw > max {
            assert(out@ + Seq::<char>::empty() == out@);
            return out;
        }
        let ghost before = out@;
        out.push(s[i]);
        assert(t.skip(1) == s@.skip(i + 1));
        assert(before + (seq![t[0]] + fit_prefix(t.skip(1), (max - used - cw) as nat)) =~= out@ + fit_prefix(
            s@.skip(i + 1),
            (max - (used + cw)) as nat,
        ));
        used = used + cw;
        i = i + 1;
    }
    assert(s@.skip(i as int).len() == 0);
    assert(out@ + Seq::<char>::empty() == out@);
    out
}

/// `truncate_display`.
pub fn truncate_display(s: &str, max: usize) -> (r: String)
    ensures
        r@ == truncate_spec(s@, max as nat),
{
    let c = chars_of(s);
    string_of(&truncate_chars(&c, max as u128))
}

fn truncate_chars(s: &Vec<char>, max: u128) -> (r: Vec<char>)
    ensures
        r@ == truncate_spec(s@, max as nat),
{
    if width_of(s) <= max {
        return s.clone();
    }
    if max <= 3 {
        return fit_prefix_of(s, max);
    }
    let mut out = fit_prefix_of(s, max - 3);
    push_lit(&mut out, "...");
    out
}

} // verus!

verus! {

/// The width of a table column: that of its key, widened to each cell's width capped at 60.
pub open spec fn col_width(items: Seq<JsonV>, key: Seq<char>) -> nat
    decreases items.len(),
{
    if items.len() == 0 {
        width(key)
    } else {
        let p = col_width(items.drop_last(), key);
        let cw = width(cell_spec(items.last(), key));
        let c = if cw < 60 { cw } else { 60 };
        if c > p { c } else { p }
    }
}

/// The widths of all columns.
pub open spec fn widths_spec(items: Seq<JsonV>, keys: Seq<Seq<char>>) -> Seq<nat> {
    Seq::new(keys.len(), |i: int| col_width(items, keys[i]))
}

/// The widths held by a vector.
pub open spec fn nat_views(w: Seq<u128>) -> Seq<nat> {
    Seq::new(w.len(), |i: int| w[i] as nat)
}

/// A border line: `l`, the dashes of each column joined by `m`, then `r`.
pub open spec fn rule_spec(ws: Seq<nat>, l: Seq<char>, m: Seq<char>, r: Seq<char>) -> Seq<char> {
    l + join_with(Seq::new(ws.len(), |i: int| dashes(ws[i] + 2)), m) + r
}

/// A header cell, bold cyan when colors are on.
pub open spec fn header_cell(key: Seq<char>, w: nat, color: bool) -> Seq<char> {
    if color {
        " \x1b[1;36m"@ + pad_spec(key, w) + "\x1b[0m "@
    } else {
        " "@ + pad_spec(key, w) + " "@
    }
}

/// The header line of a table.
pub open spec fn header_spec(keys: Seq<Seq<char>>, ws: Seq<nat>, color: bool) -> Seq<char> {
    "│"@ + join_with(Seq::new(keys.len(), |i: int| header_cell(keys[i], ws[i], color)), "│"@) + "│\n"@
}

/// Row styles of the text formats.
#[derive(Clone, Copy, Debug, PartialEq, Eq, Structural)]
pub enum RowStyle {
    Table,
    Csv,
    Markdown,
    Plain,
}

/// One cell of a row in a style; `w` is the column width (tables only).
pub open spec fn piece_spec(style: RowStyle, w: nat, cell: Seq<char>) -> Seq<char> {
    match style {
        RowStyle::Table => " "@ + pad_spec(truncate_spec(cell, w), w) + " "@,
        RowStyle::Csv => csv_escape_spec(cell),
        RowStyle::Markdown => " "@ + replace_all(cell, "|"@, "\\|"@) + " |"@,
        RowStyle::Plain => cell,
    }
}

/// What starts a row.
pub open spec fn row_start(style: RowStyle) -> Seq<char> {
    match style {
        RowStyle::Table => "│"@,
        RowStyle::Markdown => "|"@,
        _ => ""@,
    }
}

/// What separates the cells of a row.
pub open spec fn row_sep(style: RowStyle) -> Seq<char> {
    match style {
        RowStyle::Table => "│"@,
        RowStyle::Csv => ","@,
        RowStyle::Markdown => ""@,
        RowStyle::Plain => "\t"@,
    }
}

/// What ends a row.
pub open spec fn row_end(style: RowStyle) -> Seq<char> {
    match style {
        RowStyle::Table => "│\n"@,
        _ => "\n"@,
    }
}

/// The line of one item.
pub open spec fn row_spec(style: RowStyle, ws: Seq<nat>, item: JsonV, keys: Seq<Seq<char>>) -> Seq<char> {
    row_start(style) + join_with(
        Seq::new(keys.len(), |i: int| piece_spec(style, ws[i], cell_spec(item, keys[i]))),
        row_sep(style),
    ) + row_end(style)
}

/// The lines of all items.
pub open spec fn rows_spec(style: RowStyle, ws: Seq<nat>, items: Seq<JsonV>, keys: Seq<Seq<char>>) -> Seq<char>
    decreases items.len(),
{
    if items.len() == 0 {
        Seq::empty()
    } else {
        rows_spec(style, ws, items.drop_last(), keys) + row_spec(style, ws, items.last(), keys)
    }
}

/// `format_table`.
pub open spec fn table_spec(items: Seq<JsonV>, color: bool) -> Seq<char> {
    if items.len() == 0 {
        "(no results)"@
    } else {
        let keys = keys_spec(items);
        let ws = widths_spec(items, keys);
        rule_spec(ws, "┌"@, "┬"@, "┐\n"@) + header_spec(keys, ws, color) + rule_spec(ws, "├"@, "┼"@, "┤\n"@)
            + rows_spec(RowStyle::Table, ws, items, keys) + rule_spec(ws, "└"@, "┴"@, "┘\n"@) + "("@ + nat_text(
            items.len(),
        ) + " rows)\n"@
    }
}

/// `format_csv`.
pub open spec fn csv_spec(items: Seq<JsonV>) -> Seq<char> {
    if items.len() == 0 {
        Seq::empty()
    } else {
        let keys = keys_spec(items);
        join_with(keys, ","@) + "\n"@ + rows_spec(RowStyle::Csv, Seq::empty(), items, keys)
    }
}

/// `format_markdown`.
pub open spec fn markdown_spec(items: Seq<JsonV>) -> Seq<char> {
    if items.len() == 0 {
        "*No results*"@
    } else {
        let keys = keys_spec(items);
        "|"@ + join_with(Seq::new(keys.len(), |i: int| " "@ + keys[i] + " |"@), ""@) + "\n"@ + "|"@ + join_with(
            Seq::new(keys.len(), |i: int| " --- |"@),
            ""@,
        ) + "\n"@ + rows_spec(RowStyle::Markdown, Seq::empty(), items, keys)
    }
}

/// `format_plain`.
pub open spec fn plain_spec(items: Seq<JsonV>) -> Seq<char> {
    if items.len() == 0 {
        Seq::empty()
    } else {
        rows_spec(RowStyle::Plain, Seq::empty(), items, keys_spec(items))
    }
}

/// `format_result`: the text of the items in a format; YAML is what `serde_yaml_ng` writes
/// ([`yaml_text`]), which may be its error.
pub open spec fn format_spec(items: Seq<JsonV>, fmt: OutputFormat, color: bool) -> Result<Seq<char>, Seq<char>> {
    match fmt {
        OutputFormat::Table => Ok(table_spec(items, color)),
        OutputFormat::JsonCompact => Ok(json_text(JsonV::Array(items))),
        OutputFormat::Csv => Ok(csv_spec(items)),
        OutputFormat::Markdown => Ok(markdown_spec(items)),
        OutputFormat::Plain => Ok(plain_spec(items)),
        OutputFormat::Json => Ok(pretty_text(JsonV::Array(items), Seq::empty())),
        OutputFormat::Yaml => yaml_text(items),
    }
}

/// The view of a text or its error.
pub open spec fn text_result(r: Result<String, String>) -> Result<Seq<char>, Seq<char>> {
    match r {
        Ok(t) => Ok(t@),
        Err(e) => Err(e@),
    }
}

} // verus!

verus! {

fn column_width(items: &Vec<Json>, key: &String) -> (r: u128)
    ensures
        r == col_width(item_views(items@), key@),
{
    let ghost iv = item_views(items@);
    let kc = chars_of(key.as_str());
    let mut w = width_of(&kc);
    for j in 0..items.len()
        invariant
            iv == item_views(items@),
            w == col_width(iv.take(j as int), key@),
    {
        let ghost t = iv.take(j + 1);
        assert(t.drop_last() == iv.take(j as int));
        assert(t.last() == items@[j as int]@);
        let c = cell_value(&items[j], key.as_str());
        let cw = width_of(&c);
        let cw = if cw < 60 { cw } else { 60 };
        if cw > w {
            w = cw;
        }
    }
    assert(iv.take(items.len() as int) == iv);
    w
}

/// The width of each column of a table.
fn column_widths(items: &Vec<Json>, keys: &Vec<String>) -> (r: Vec<u128>)
    ensures
        nat_views(r@) == widths_spec(item_views(items@), str_views(keys@)),
{
    let mut ws: Vec<u128> = Vec::new();
    for i in 0..keys.len()
        invariant
            ws.len() == i,
            forall|j: int| 0 <= j < i ==> ws@[j] as nat == col_width(item_views(items@), #[trigger] keys@[j]@),
    {
        ws.push(column_width(items, &keys[i]));
    }
    assert(nat_views(ws@) =~= widths_spec(item_views(items@), str_views(keys@)));
    ws
}

fn push_rule(out: &mut Vec<char>, ws: &Vec<u128>, l: &str, m: &str, r: &str)
    ensures
        final(out)@ == old(out)@ + rule_spec(nat_views(ws@), l@, m@, r@),
{
    let ghost start = out@;
    let mut parts: Vec<Vec<char>> = Vec::new();
    for i in 0..ws.len()
        invariant
            parts.len() == i,
            forall|j: int| 0 <= j < i ==> (#[trigger] parts@[j])@ == dashes((ws@[j] + 2) as nat),
    {
        let mut d: Vec<char> = Vec::new();
        d.push('─');
        let wi = ws[i];
        let mut k: u128 = 0;
        while k < wi
            invariant
                k <= wi,
                d@ == dashes((k + 1) as nat),
            decreases wi - k,
        {
            d.push('─');
            assert(d@ =~= dashes((k + 2) as nat));
            k = k + 1;
        }
        d.push('─');
        assert(d@ =~= dashes((ws@[i as int] + 2) as nat));
        parts.push(d);
    }
    assert(vec_views(parts@) =~= Seq::new(ws@.len(), |i: int| dashes(nat_views(ws@)[i] + 2)));
    push_lit(out, l);
    push_joined(out, &parts, m);
    push_lit(out, r);
    assert(out@ =~= start + rule_spec(nat_views(ws@), l@, m@, r@));
}

fn header_cell_of(key: &String, w: u128, color: bool) -> (r: Vec<char>)
    ensures
        r@ == header_cell(key@, w as nat, color),
{
    let p = pad_chars(&chars_of(key.as_str()), w);
    let mut out: Vec<char> = Vec::new();
    if color {
        push_lit(&mut out, " \x1b[1;36m");
        push_vec(&mut out, &p);
        push_lit(&mut out, "\x1b[0m ");
    } else {
        push_lit(&mut out, " ");
        push_vec(&mut out, &p);
        push_lit(&mut out, " ");
    }
    assert(out@ =~= header_cell(key@, w as nat, color));
    out
}

fn push_header(out: &mut Vec<char>, keys: &Vec<String>, ws: &Vec<u128>, color: bool)
    requires
        ws.len() == keys.len(),
    ensures
        final(out)@ == old(out)@ + header_spec(str_views(keys@), nat_views(ws@), color),
{
    let ghost start = out@;
    let mut parts: Vec<Vec<char>> = Vec::new();
    for i in 0..keys.len()
        invariant
            ws.len() == keys.len(),
            parts.len() == i,
            forall|j: int|
                0 <= j < i ==> (#[trigger] parts@[j])@ == header_cell(keys@[j]@, ws@[j] as nat, color),
    {
        parts.push(header_cell_of(&keys[i], ws[i], color));
    }
    assert(vec_views(parts@) =~= Seq::new(
        keys@.len(),
        |i: int| header_cell(str_views(keys@)[i], nat_views(ws@)[i], color),
    ));
    push_lit(out, "│");
    push_joined(out, &parts, "│");
    push_lit(out, "│\n");
    assert(out@ =~= start + header_spec(str_views(keys@), nat_views(ws@), color));
}

fn piece_of(style: RowStyle, w: u128, cell: &Vec<char>) -> (r: Vec<char>)
    ensures
        r@ == piece_spec(style, w as nat, cell@),
{
    match style {
        RowStyle::Table => {
            let p = pad_chars(&truncate_chars(cell, w), w);
            let mut out: Vec<char> = Vec::new();
            push_lit(&mut out, " ");
            push_vec(&mut out, &p);
            push_lit(&mut out, " ");
            assert(out@ =~= piece_spec(style, w as nat, cell@));
            out
        },
        RowStyle::Csv => csv_escape(cell),
        RowStyle::Markdown => {
            proof {
                reveal_strlit("|");
            }
            let f = chars_of("|");
            let t = chars_of("\\|");
            let e = replace(cell, &f, &t);
            let mut out: Vec<char> = Vec::new();
            push_lit(&mut out, " ");
            push_vec(&mut out, &e);
            push_lit(&mut out, " |");
            assert(out@ =~= piece_spec(style, w as nat, cell@));
            out
        },
        RowStyle::Plain => cell.clone(),
    }
}

fn push_row(out: &mut Vec<char>, style: RowStyle, ws: &Vec<u128>, item: &Json, keys: &Vec<String>)
    requires
        style == RowStyle::Table ==> ws.len() == keys.len(),
    ensures
        final(out)@ == old(out)@ + row_spec(style, nat_views(ws@), item@, str_views(keys@)),
{
    let ghost start = out@;
    let ghost wv = nat_views(ws@);
    let mut parts: Vec<Vec<char>> = Vec::new();
    for i in 0..keys.len()
        invariant
            style == RowStyle::Table ==> ws.len() == keys.len(),
            wv == nat_views(ws@),
            parts.len() == i,
            forall|j: int|
                0 <= j < i ==> (#[trigger] parts@[j])@ == piece_spec(style, wv[j], cell_spec(item@, keys@[j]@)),
    {
        let c = cell_value(item, keys[i].as_str());
        let w: u128 = if i < ws.len() { ws[i] } else { 0 };
        let p = piece_of(style, w, &c);
        parts.push(p);
    }
    assert(vec_views(parts@) =~= Seq::new(
        keys@.len(),
        |i: int| piece_spec(style, wv[i], cell_spec(item@, str_views(keys@)[i])),
    ));
    match style {
        RowStyle::Table => push_lit(out, "│"),
        RowStyle::Markdown => push_lit(out, "|"),
        _ => push_lit(out, ""),
    }
    match style {
        RowStyle::Table => push_joined(out, &parts, "│"),
        RowStyle::Csv => push_joined(out, &parts, ","),
        RowStyle::Markdown => push_joined(out, &parts, ""),
        RowStyle::Plain => push_joined(out, &parts, "\t"),
    }
    match style {
        RowStyle::Table => push_lit(out, "│\n"),
        _ => push_lit(out, "\n"),
    }
    assert(out@ =~= start + row_spec(style, wv, item@, str_views(keys@)));
}

fn push_rows(out: &mut Vec<char>, style: RowStyle, ws: &Vec<u128>, items: &Vec<Json>, keys: &Vec<String>)
    requires
        style == RowStyle::Table ==> ws.len() == keys.len(),
    ensures
        final(out)@ == old(out)@ + rows_spec(style, nat_views(ws@), item_views(items@), str_views(keys@)),
{
    let ghost start = out@;
    let ghost iv = item_views(items@);
    for i in 0..items.len()
        invariant
            style == RowStyle::Table ==> ws.len() == keys.len(),
            iv == item_views(items@),
            out@ == start + rows_spec(style, nat_views(ws@), iv.take(i as int), str_views(keys@)),
    {
        let ghost t = iv.take(i + 1);
        assert(t.drop_last() == iv.take(i as int));
        assert(t.last() == items@[i as int]@);
        push_row(out, style, ws, &items[i], keys);
        assert(out@ =~= start + rows_spec(style, nat_views(ws@), t, str_views(keys@)));
    }
    assert(iv.take(items.len() as int) == iv);
}

} // verus!

verus! {

/// `format_table`: a box-drawn table of the items' fields (those of the first item).
pub fn format_table(items: &Vec<Json>, color: bool) -> (r: String)
    ensures
        r@ == table_spec(item_views(items@), color),
{
    if items.len() == 0 {
        return "(no results)".to_string();
    }
    let keys = collect_keys(items);
    let ws = column_widths(items, &keys);
    assert(ws@.len() == keys@.len()) by {
        assert(nat_views(ws@).len() == str_views(keys@).len());
    }
    let mut out: Vec<char> = Vec::new();
    push_rule(&mut out, &ws, "┌", "┬", "┐\n");
    push_header(&mut out, &keys, &ws, color);
    push_rule(&mut out, &ws, "├", "┼", "┤\n");
    push_rows(&mut out, RowStyle::Table, &ws, items, &keys);
    push_rule(&mut out, &ws, "└", "┴", "┘\n");
    push_lit(&mut out, "(");
    let n = u64_text(items.len() as u64);
    push_vec(&mut out, &n);
    push_lit(&mut out, " rows)\n");
    assert(out@ =~= table_spec(item_views(items@), color));
    string_of(&out)
}

/// `format_csv`: a header of the field names, then one line per item.
pub fn format_csv(items: &Vec<Json>) -> (r: String)
    ensures
        r@ == csv_spec(item_views(items@)),
{
    if items.len() == 0 {
        return String::new();
    }
    let keys = collect_keys(items);
    let mut names: Vec<Vec<char>> = Vec::new();
    for i in 0..keys.len()
        invariant
            names.len() == i,
            forall|j: int| 0 <= j < i ==> (#[trigger] names@[j])@ == keys@[j]@,
    {
        names.push(chars_of(keys[i].as_str()));
    }
    assert(vec_views(names@) =~= str_views(keys@));
    let mut out: Vec<char> = Vec::new();
    push_joined(&mut out, &names, ",");
    push_lit(&mut out, "\n");
    let ws: Vec<u128> = Vec::new();
    push_rows(&mut out, RowStyle::Csv, &ws, items, &keys);
    assert(nat_views(ws@) =~= Seq::<nat>::empty());
    assert(out@ =~= csv_spec(item_views(items@)));
    string_of(&out)
}

/// `format_markdown`: a Markdown table of the items.
pub fn format_markdown(items: &Vec<Json>) -> (r: String)
    ensures
        r@ == markdown_spec(item_views(items@)),
{
    if items.len() == 0 {
        return "*No results*".to_string();
    }
    let keys = collect_keys(items);
    let ghost kv = str_views(keys@);
    let mut heads: Vec<Vec<char>> = Vec::new();
    let mut seps: Vec<Vec<char>> = Vec::new();
    for i in 0..keys.len()
        invariant
            kv == str_views(keys@),
            heads.len() == i,
            seps.len() == i,
            forall|j: int| 0 <= j < i ==> (#[trigger] heads@[j])@ == " "@ + kv[j] + " |"@,
            forall|j: int| 0 <= j < i ==> (#[trigger] seps@[j])@ == " --- |"@,
    {
        let mut h: Vec<char> = Vec::new();
        push_lit(&mut h, " ");
        push_vec(&mut h, &chars_of(keys[i].as_str()));
        push_lit(&mut h, " |");
        heads.push(h);
        let mut d: Vec<char> = Vec::new();
        push_lit(&mut d, " --- |");
        seps.push(d);
    }
    assert(vec_views(heads@) =~= Seq::new(kv.len(), |i: int| " "@ + kv[i] + " |"@));
    assert(vec_views(seps@) =~= Seq::new(kv.len(), |i: int| " --- |"@));
    let mut out: Vec<char> = Vec::new();
    push_lit(&mut out, "|");
    push_joined(&mut out, &heads, "");
    push_lit(&mut out, "\n");
    push_lit(&mut out, "|");
    push_joined(&mut out, &seps, "");
    push_lit(&mut out, "\n");
    let ws: Vec<u128> = Vec::new();
    push_rows(&mut out, RowStyle::Markdown, &ws, items, &keys);
    assert(nat_views(ws@) =~= Seq::<nat>::empty());
    assert(out@ =~= markdown_spec(item_views(items@)));
    string_of(&out)
}

/// `format_plain`: tab-separated values, one line per item, no header.
pub fn format_plain(items: &Vec<Json>) -> (r: String)
    ensures
        r@ == plain_spec(item_views(items@)),
{
    if items.len() == 0 {
        return String::new();
    }
    let keys = collect_keys(items);
    let mut out: Vec<char> = Vec::new();
    let ws: Vec<u128> = Vec::new();
    push_rows(&mut out, RowStyle::Plain, &ws, items, &keys);
    assert(nat_views(ws@) =~= Seq::<nat>::empty());
    assert(out@ =~= plain_spec(item_views(items@)));
    string_of(&out)
}

/// `format_json_compact`: the items as a JSON array on one line.
pub fn format_json_compact(items: &Vec<Json>) -> (r: String)
    ensures
        r@ == json_text(JsonV::Array(item_views(items@))),
{
    let mut out = String::new();
    push_json_array(&mut out, items);
    out
}

/// `format_json`: the items as a pretty-printed JSON array.
pub fn format_json(items: &Vec<Json>) -> (r: String)
    ensures
        r@ == pretty_text(JsonV::Array(item_views(items@)), Seq::empty()),
{
    let mut out = String::new();
    let ind = String::new();
    let mut copy: Vec<Json> = Vec::new();
    for i in 0..items.len()
        invariant
            copy.len() == i,
            forall|j: int| 0 <= j < i ==> (#[trigger] copy@[j])@ == items@[j]@,
    {
        copy.push(items[i].deep_clone());
    }
    assert(item_views(copy@) =~= item_views(items@));
    proof {
        lemma_array_view(copy);
    }
    let arr = Json::Array(copy);
    push_pretty(&mut out, &arr, &ind);
    out
}

/// `format_result`: the items rendered in `fmt`; table headers are colored when `color`.
/// Both JSON texts read back as the items: see `reader::lemma_json_output_reads_back`.
pub fn format_result(items: &Vec<Json>, fmt: OutputFormat, color: bool) -> (r: Result<String, String>)
    ensures
        text_result(r) == format_spec(item_views(items@), fmt, color),
{
    match fmt {
        OutputFormat::Table => Ok(format_table(items, color)),
        OutputFormat::JsonCompact => Ok(format_json_compact(items)),
        OutputFormat::Csv => Ok(format_csv(items)),
        OutputFormat::Markdown => Ok(format_markdown(items)),
        OutputFormat::Plain => Ok(format_plain(items)),
        OutputFormat::Json => Ok(format_json(items)),
        OutputFormat::Yaml => format_yaml(items),
    }
}

} // verus!

verus! {

proof fn lemma_width_concat(a: Seq<char>, b: Seq<char>)
    ensures
        width(a + b) == width(a) + width(b),
    decreases b.len(),
{
    if b.len() > 0 {
        lemma_width_concat(a, b.drop_last());
        assert((a + b).drop_last() == a + b.drop_last());
        assert((a + b).last() == b.last());
    } else {
        assert(a + b == a);
    }
}

proof fn lemma_width_spaces(n: nat)
    ensures
        width(spaces(n)) == n,
    decreases n,
{
    if n > 0 {
        lemma_width_spaces((n - 1) as nat);
        assert(spaces(n).drop_last() == spaces((n - 1) as nat));
    }
}

proof fn lemma_fit_prefix_width(s: Seq<char>, max: nat)
    ensures
        width(fit_prefix(s, max)) <= max,
    decreases s.len(),
{
    if s.len() > 0 && char_width(s[0]) <= max {
        lemma_fit_prefix_width(s.skip(1), (max - char_width(s[0])) as nat);
        lemma_width_concat(seq![s[0]], fit_prefix(s.skip(1), (max - char_width(s[0])) as nat));
        assert(seq![s[0]].drop_last() =~= Seq::<char>::empty());
        assert(width(Seq::<char>::empty()) == 0);
        assert(width(seq![s[0]]) == char_width(s[0]));
    }
}

/// A padded text is exactly as wide as the larger of its own width and the target.
pub proof fn lemma_pad_width(s: Seq<char>, w: nat)
    ensures
        width(pad_spec(s, w)) == if width(s) >= w { width(s) } else { w },
{
    if width(s) < w {
        lemma_width_concat(s, spaces((w - width(s)) as nat));
        lemma_width_spaces((w - width(s)) as nat);
    }
}

/// A truncated text never takes more than `max` columns, and a text that fits is kept whole.
pub proof fn lemma_truncate_width(s: Seq<char>, max: nat)
    ensures
        width(truncate_spec(s, max)) <= max,
        width(s) <= max ==> truncate_spec(s, max) == s,
{
    if width(s) > max {
        if max <= 3 {
            lemma_fit_prefix_width(s, max);
        } else {
            lemma_fit_prefix_width(s, (max - 3) as nat);
            lemma_width_concat(fit_prefix(s, (max - 3) as nat), "..."@);
            assert(width("..."@) == 3) by {
                reveal_strlit("...");
                let d = seq!['.', '.', '.'];
                assert("..."@ =~= d);
                assert(d.drop_last() =~= seq!['.', '.']);
                assert(seq!['.', '.'].drop_last() =~= seq!['.']);
                assert(seq!['.'].drop_last() =~= Seq::<char>::empty());
                assert(width(Seq::<char>::empty()) == 0);
                assert(!is_wide('.'));
                assert(width(seq!['.']) == 1);
                assert(width(seq!['.', '.']) == 2);
                assert(width(d) == 3);
            }
        }
    }
}

} // verus!

verus! {

proof fn lemma_col_width_ge(items: Seq<JsonV>, key: Seq<char>)
    ensures
        col_width(items, key) >= width(key),
    decreases items.len(),
{
    if items.len() > 0 {
        lemma_col_width_ge(items.drop_last(), key);
    }
}

proof fn lemma_width_dashes(n: nat)
    ensures
        width(dashes(n)) == n,
    decreases n,
{
    if n > 0 {
        lemma_width_dashes((n - 1) as nat);
        assert(dashes(n).drop_last() =~= dashes((n - 1) as nat));
    }
}

proof fn lemma_join_width_eq(p1: Seq<Seq<char>>, s1: Seq<char>, p2: Seq<Seq<char>>, s2: Seq<char>)
    requires
        p1.len() == p2.len(),
        forall|i: int| 0 <= i < p1.len() ==> width(#[trigger] p1[i]) == width(p2[i]),
        width(s1) == width(s2),
    ensures
        width(join_with(p1, s1)) == width(join_with(p2, s2)),
    decreases p1.len(),
{
    if p1.len() > 1 {
        lemma_join_width_eq(p1.drop_last(), s1, p2.drop_last(), s2);
        lemma_width_concat(join_with(p1.drop_last(), s1), s1);
        lemma_width_concat(join_with(p1.drop_last(), s1) + s1, p1.last());
        lemma_width_concat(join_with(p2.drop_last(), s2), s2);
        lemma_width_concat(join_with(p2.drop_last(), s2) + s2, p2.last());
    }
}

proof fn lemma_width3(a: Seq<char>, b: Seq<char>, c: Seq<char>)
    ensures
        width(a + b + c) == width(a) + width(b) + width(c),
{
    lemma_width_concat(a, b);
    lemma_width_concat(a + b, c);
}

proof fn lemma_one_char_width(c: char)
    requires
        !is_wide(c),
    ensures
        width(seq![c]) == 1,
        width(seq![c, '\n']) == 2,
{
    assert(seq![c].drop_last() =~= Seq::<char>::empty());
    assert(width(Seq::<char>::empty()) == 0);
    assert(seq![c].last() == c);
    assert(char_width(c) == 1);
    assert(width(seq![c]) == width(seq![c].drop_last()) + char_width(c));
    assert(seq![c, '\n'].drop_last() =~= seq![c]);
    assert(seq![c, '\n'].last() == '\n');
    assert(!is_wide('\n'));
    assert(width(seq![c, '\n']) == width(seq![c]) + char_width('\n'));
}

proof fn lemma_border_widths()
    ensures
        width("┌"@) == 1,
        width("┬"@) == 1,
        width("┐\n"@) == 2,
        width("├"@) == 1,
        width("┼"@) == 1,
        width("┤\n"@) == 2,
        width("└"@) == 1,
        width("┴"@) == 1,
        width("┘\n"@) == 2,
        width("│"@) == 1,
        width("│\n"@) == 2,
        width(" "@) == 1,
{
    reveal_strlit("┌");
    reveal_strlit("┬");
    reveal_strlit("┐\n");
    reveal_strlit("├");
    reveal_strlit("┼");
    reveal_strlit("┤\n");
    reveal_strlit("└");
    reveal_strlit("┴");
    reveal_strlit("┘\n");
    reveal_strlit("│");
    reveal_strlit("│\n");
    reveal_strlit(" ");
    assert("┌"@ =~= seq!['┌']);
    assert("┬"@ =~= seq!['┬']);
    assert("├"@ =~= seq!['├']);
    assert("┼"@ =~= seq!['┼']);
    assert("└"@ =~= seq!['└']);
    assert("┴"@ =~= seq!['┴']);
    assert("│"@ =~= seq!['│']);
    assert(" "@ =~= seq![' ']);
    assert("┐\n"@ =~= seq!['┐', '\n']);
    assert("┤\n"@ =~= seq!['┤', '\n']);
    assert("┘\n"@ =~= seq!['┘', '\n']);
    assert("│\n"@ =~= seq!['│', '\n']);
    lemma_one_char_width('┌');
    lemma_one_char_width('┬');
    lemma_one_char_width('├');
    lemma_one_char_width('┼');
    lemma_one_char_width('└');
    lemma_one_char_width('┴');
    lemma_one_char_width('│');
    lemma_one_char_width(' ');
    lemma_one_char_width('┐');
    lemma_one_char_width('┤');
    lemma_one_char_width('┘');
}

/// A table's columns line up (colors off): each column is at least as wide as its header,
/// and the top, middle and bottom borders, the header line and every row take the same
/// display width.
pub proof fn lemma_table_lines_line_up(items: Seq<JsonV>)
    requires
        items.len() > 0,
    ensures
        ({
            let keys = keys_spec(items);
            let ws = widths_spec(items, keys);
            let h = width(header_spec(keys, ws, false));
            &&& forall|i: int| 0 <= i < keys.len() ==> #[trigger] ws[i] >= width(keys[i])
            &&& width(rule_spec(ws, "┌"@, "┬"@, "┐\n"@)) == h
            &&& width(rule_spec(ws, "├"@, "┼"@, "┤\n"@)) == h
            &&& width(rule_spec(ws, "└"@, "┴"@, "┘\n"@)) == h
            &&& forall|j: int| 0 <= j < items.len() ==> width(#[trigger] row_spec(RowStyle::Table, ws, items[j], keys)) == h
        }),
{
    let keys = keys_spec(items);
    let ws = widths_spec(items, keys);
    let n = keys.len();
    lemma_border_widths();
    assert forall|i: int| 0 <= i < n implies #[trigger] ws[i] >= width(keys[i]) by {
        lemma_col_width_ge(items, keys[i]);
    }
    let hp = Seq::new(n, |i: int| header_cell(keys[i], ws[i], false));
    let dp = Seq::new(ws.len(), |i: int| dashes(ws[i] + 2));
    assert forall|i: int| 0 <= i < n implies width(#[trigger] hp[i]) == width(dp[i]) by {
        lemma_col_width_ge(items, keys[i]);
        lemma_pad_width(keys[i], ws[i]);
        lemma_width3(" "@, pad_spec(keys[i], ws[i]), " "@);
        lemma_width_dashes(ws[i] + 2);
    }
    lemma_join_width_eq(dp, "┬"@, hp, "│"@);
    lemma_join_width_eq(dp, "┼"@, hp, "│"@);
    lemma_join_width_eq(dp, "┴"@, hp, "│"@);
    lemma_width3("│"@, join_with(hp, "│"@), "│\n"@);
    lemma_width3("┌"@, join_with(dp, "┬"@), "┐\n"@);
    lemma_width3("├"@, join_with(dp, "┼"@), "┤\n"@);
    lemma_width3("└"@, join_with(dp, "┴"@), "┘\n"@);
    assert forall|j: int| 0 <= j < items.len() implies width(#[trigger] row_spec(RowStyle::Table, ws, items[j], keys))
        == width(header_spec(keys, ws, false)) by {
        let rp = Seq::new(n, |i: int| piece_spec(RowStyle::Table, ws[i], cell_spec(items[j], keys[i])));
        assert forall|i: int| 0 <= i < n implies width(#[trigger] rp[i]) == width(dp[i]) by {
            let c = cell_spec(items[j], keys[i]);
            lemma_truncate_width(c, ws[i]);
            lemma_pad_width(truncate_spec(c, ws[i]), ws[i]);
            lemma_width3(" "@, pad_spec(truncate_spec(c, ws[i]), ws[i]), " "@);
            lemma_width_dashes(ws[i] + 2);
        }
        lemma_join_width_eq(dp, "┬"@, rp, "│"@);
        lemma_width3("│"@, join_with(rp, "│"@), "│\n"@);
    }
}

} // verus!
