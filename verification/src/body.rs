//! Request bodies: parameters substituted into a JSON template, and the numbers that a
//! substituted text turns into.

use vstd::prelude::*;
use crate::json::{Json, JsonV, item_views, entry_views, lemma_array_view, lemma_object_view, lemma_entry_views, lemma_item_views_push};
use crate::num::{is_digit, all_digits, parse_i64, parse_i64_spec, int_text, i64_text, char_is_digit};
use crate::path::index_of;
use crate::text::{chars_of, string_of, slice_chars, chars_eq};
use crate::transform::{strip_zeros, strip_zeros_of, float_text, json_float_text};
use crate::extract::{eq_ignore_ascii_case, chars_eq_ignore_ascii_case};
use crate::url::{substitute_known, substitute_known_spec};
use crate::params::pair_views;

verus! {

/// A leading sign split off: whether it was `-`, and the rest.
pub open spec fn sign_split(s: Seq<char>) -> (bool, Seq<char>) {
    if s.len() > 0 && (s[0] == '+' || s[0] == '-') {
        (s[0] == '-', s.skip(1))
    } else {
        (false, s)
    }
}

/// The position of the first exponent marker (`e` or `E`).
pub open spec fn exp_index(s: Seq<char>) -> Option<nat>
    decreases s.len(),
{
    if s.len() == 0 {
        None
    } else if s[0] == 'e' || s[0] == 'E' {
        Some(0)
    } else {
        match exp_index(s.skip(1)) {
            Some(i) => Some(i + 1),
            None => None,
        }
    }
}

/// An exponent: an optional sign and at least one digit.
pub open spec fn exp_ok(e: Seq<char>) -> bool {
    let d = sign_split(e).1;
    d.len() > 0 && all_digits(d)
}

/// `inf`, `infinity` or `nan` in any case: the texts that `str::parse` reads as
/// non-finite floats.
pub open spec fn is_special(u: Seq<char>) -> bool {
    eq_ignore_ascii_case(u, "inf"@) || eq_ignore_ascii_case(u, "infinity"@) || eq_ignore_ascii_case(u, "nan"@)
}

/// The mantissa and the exponent (after the marker) of a text without its sign.
pub open spec fn mantissa_exp(u: Seq<char>) -> (Seq<char>, Option<Seq<char>>) {
    match exp_index(u) {
        Some(p) => (u.take(p as int), Some(u.skip(p + 1int))),
        None => (u, None),
    }
}

/// The integer and fraction digits of a mantissa.
pub open spec fn int_frac(m: Seq<char>) -> (Seq<char>, Seq<char>) {
    match index_of(m, '.') {
        Some(q) => (m.take(q as int), m.skip(q + 1int)),
        None => (m, Seq::empty()),
    }
}

/// A decimal that `str::parse::<f64>` reads, written as the JSON number literal of the same
/// value: `-` when negative, the integer digits without leading zeros (`0` when none are
/// left), `.` and the fraction digits when there are any, `e` and the exponent when there is
/// one. `None` for any other text.
pub open spec fn decimal_literal(s: Seq<char>) -> Option<Seq<char>> {
    let (neg, u) = sign_split(s);
    let (m, ex) = mantissa_exp(u);
    let (ip, fp) = int_frac(m);
    if all_digits(ip) && all_digits(fp) && ip.len() + fp.len() > 0 && match ex {
        Some(e) => exp_ok(e),
        None => true,
    } {
        Some(
            (if neg { "-"@ } else { ""@ }) + (if strip_zeros(ip).len() == 0 { "0"@ } else { strip_zeros(ip) }) + (
            if fp.len() > 0 { "."@ + fp } else { ""@ }) + match ex {
                Some(e) => "e"@ + e,
                None => ""@,
            },
        )
    } else {
        None
    }
}

/// The JSON value a substituted text becomes when it reads as a number: an `i64` stays an
/// integer, another float is displayed as `serde_json` displays it (null when it is not
/// finite); `None` when the text is no number.
pub open spec fn number_value(t: Seq<char>) -> Option<JsonV> {
    match parse_i64_spec(t) {
        Some(n) => Some(JsonV::Number(int_text(n as int))),
        None => if is_special(sign_split(t).1) {
            Some(JsonV::Null)
        } else {
            match decimal_literal(t) {
                Some(l) => Some(
                    match float_text(l) {
                        Some(x) => JsonV::Number(x),
                        None => JsonV::Null,
                    },
                ),
                None => None,
            }
        },
    }
}

/// `substitute_json`: known `{name}` placeholders in the strings of a JSON template are
/// replaced by parameter values (not encoded); a string that changed and now reads as a
/// number becomes that number.
pub open spec fn substitute_json_spec(v: JsonV, ps: Seq<(Seq<char>, Seq<char>)>) -> JsonV
    decreases v,
{
    match v {
        JsonV::Str(s) => {
            let r = substitute_known_spec(s, ps, false);
            if r == s {
                JsonV::Str(s)
            } else {
                match number_value(r) {
                    Some(n) => n,
                    None => JsonV::Str(r),
                }
            }
        },
        JsonV::Array(items) => JsonV::Array(
            Seq::new(items.len(), |i: int| if 0 <= i < items.len() { substitute_json_spec(items[i], ps) } else { JsonV::Null }),
        ),
        JsonV::Object(entries) => JsonV::Object(
            Seq::new(
                entries.len(),
                |i: int|
                    if 0 <= i < entries.len() {
                        (entries[i].0, substitute_json_spec(entries[i].1, ps))
                    } else {
                        (Seq::empty(), JsonV::Null)
                    },
            ),
        ),
        _ => v,
    }
}

} // verus!

verus! {

proof fn lemma_exp_index(s: Seq<char>, k: int)
    requires
        0 <= k <= s.len(),
        forall|j: int| 0 <= j < k ==> s[j] != 'e' && s[j] != 'E',
        k == s.len() || s[k] == 'e' || s[k] == 'E',
    ensures
        exp_index(s) == (if k == s.len() { None } else { Some(k as nat) }),
    decreases k,
{
    if k > 0 {
        lemma_exp_index(s.skip(1), k - 1);
    }
}

proof fn lemma_index_of_dot(s: Seq<char>, k: int)
    requires
        0 <= k <= s.len(),
        forall|j: int| 0 <= j < k ==> s[j] != '.',
        k == s.len() || s[k] == '.',
    ensures
        index_of(s, '.') == (if k == s.len() { None } else { Some(k as nat) }),
    decreases k,
{
    if k > 0 {
        lemma_index_of_dot(s.skip(1), k - 1);
    }
}

fn digits_only(s: &[char]) -> (r: bool)
    ensures
        r == all_digits(s@),
{
    for i in 0..s.len()
        invariant
            forall|j: int| 0 <= j < i ==> is_digit(s@[j]),
    {
        if !char_is_digit(s[i]) {
            return false;
        }
    }
    true
}

fn push_all(out: &mut Vec<char>, s: &[char])
    ensures
        final(out)@ == old(out)@ + s@,
{
    let ghost start = out@;
    for k in 0..s.len()
        invariant
            out@ == start + s@.take(k as int),
    {
        out.push(s[k]);
        assert(s@.take(k + 1) == s@.take(k as int).push(s@[k as int]));
    }
    assert(s@.take(s.len() as int) == s@);
}

/// The exec form of an optional text.
pub open spec fn opt_chars(o: Option<Vec<char>>) -> Option<Seq<char>> {
    match o {
        Some(v) => Some(v@),
        None => None,
    }
}

fn literal_parts(s: &[char]) -> (r: (bool, Vec<char>, Vec<char>, Option<Vec<char>>))
    ensures
        sign_split(s@).0 == r.0,
        int_frac(mantissa_exp(sign_split(s@).1).0) == (r.1@, r.2@),
        mantissa_exp(sign_split(s@).1).1 == opt_chars(r.3),
{
    let signed = s.len() > 0 && (s[0] == '+' || s[0] == '-');
    let neg = s.len() > 0 && s[0] == '-';
    let u = if signed { slice_chars(s, 1, s.len()) } else { slice_chars(s, 0, s.len()) };
    assert(sign_split(s@) == (neg, u@));
    let mut p: usize = 0;
    while p < u.len() && u[p] != 'e' && u[p] != 'E'
        invariant
            p <= u.len(),
            forall|j: int| 0 <= j < p ==> u@[j] != 'e' && u@[j] != 'E',
        decreases u.len() - p,
    {
        p = p + 1;
    }
    proof {
        lemma_exp_index(u@, p as int);
    }
    let m = slice_chars(&u, 0, p);
    let e = if p < u.len() { Some(slice_chars(&u, p + 1, u.len())) } else { None };
    assert(mantissa_exp(u@).0 == m@);
    assert(mantissa_exp(u@).1 == opt_chars(e));
    let mut q: usize = 0;
    while q < m.len() && m[q] != '.'
        invariant
            q <= m.len(),
            forall|j: int| 0 <= j < q ==> m@[j] != '.',
        decreases m.len() - q,
    {
        q = q + 1;
    }
    proof {
        lemma_index_of_dot(m@, q as int);
    }
    let ip = slice_chars(&m, 0, q);
    let fp = if q < m.len() { slice_chars(&m, q + 1, m.len()) } else { Vec::new() };
    assert(int_frac(m@) == (ip@, fp@));
    (neg, ip, fp, e)
}

fn exp_good(e: &Vec<char>) -> (r: bool)
    ensures
        r == exp_ok(e@),
{
    let esigned = e.len() > 0 && (e[0] == '+' || e[0] == '-');
    let d = if esigned { slice_chars(e, 1, e.len()) } else { slice_chars(e, 0, e.len()) };
    assert(sign_split(e@).1 == d@);
    d.len() > 0 && digits_only(&d)
}

fn assemble_literal(neg: bool, ip: &Vec<char>, fp: &Vec<char>, e: &Option<Vec<char>>) -> (r: Vec<char>)
    ensures
        r@ == (if neg { "-"@ } else { ""@ }) + (if strip_zeros(ip@).len() == 0 { "0"@ } else { strip_zeros(ip@) }) + (
        if fp@.len() > 0 { "."@ + fp@ } else { ""@ }) + match opt_chars(*e) {
            Some(x) => "e"@ + x,
            None => ""@,
        },
{
    let mut out: Vec<char> = Vec::new();
    let ghost a = if neg { "-"@ } else { ""@ };
    if neg {
        out.push('-');
    }
    assert(out@ =~= a) by {
        reveal_strlit("-");
        reveal_strlit("");
    }
    let ghost b = if strip_zeros(ip@).len() == 0 { "0"@ } else { strip_zeros(ip@) };
    let ip2 = strip_zeros_of(ip);
    if ip2.len() == 0 {
        out.push('0');
    } else {
        push_all(&mut out, &ip2);
    }
    assert(out@ =~= a + b) by {
        reveal_strlit("0");
    }
    let ghost c = if fp@.len() > 0 { "."@ + fp@ } else { ""@ };
    if fp.len() > 0 {
        out.push('.');
        push_all(&mut out, fp);
    }
    assert(out@ =~= a + b + c) by {
        reveal_strlit(".");
        reveal_strlit("");
    }
    match e {
        Some(x) => {
            out.push('e');
            push_all(&mut out, x);
            assert(out@ =~= a + b + c + ("e"@ + x@)) by {
                reveal_strlit("e");
            }
        },
        None => {
            assert(out@ =~= a + b + c + ""@) by {
                reveal_strlit("");
            }
        },
    }
    out
}

fn decimal_literal_of(s: &[char]) -> (r: Option<Vec<char>>)
    ensures
        opt_chars(r) == decimal_literal(s@),
{
    let (neg, ip, fp, e) = literal_parts(s);
    let eg = match &e {
        Some(x) => exp_good(x),
        None => true,
    };
    if digits_only(&ip) && digits_only(&fp) && (ip.len() > 0 || fp.len() > 0) && eg {
        Some(assemble_literal(neg, &ip, &fp, &e))
    } else {
        None
    }
}

fn is_special_of(u: &[char]) -> (r: bool)
    ensures
        r == is_special(u@),
{
    chars_eq_ignore_ascii_case(u, &chars_of("inf")) || chars_eq_ignore_ascii_case(u, &chars_of("infinity"))
        || chars_eq_ignore_ascii_case(u, &chars_of("nan"))
}

/// `parse::<i64>`, else `parse::<f64>`, as a JSON value; `None` when the text is no number.
pub fn number_value_of(t: &[char]) -> (r: Option<Json>)
    ensures
        match r {
            Some(v) => number_value(t@) == Some(v@),
            None => number_value(t@) is None,
        },
{
    match parse_i64(t) {
        Some(n) => {
            return Some(Json::Number(string_of(&i64_text(n))));
        },
        None => {},
    }
    let signed = t.len() > 0 && (t[0] == '+' || t[0] == '-');
    let u = if signed { slice_chars(t, 1, t.len()) } else { slice_chars(t, 0, t.len()) };
    assert(sign_split(t@).1 == u@);
    if is_special_of(&u) {
        return Some(Json::Null);
    }
    match decimal_literal_of(t) {
        Some(l) => match json_float_text(string_of(&l).as_str()) {
            Some(x) => Some(Json::Number(x)),
            None => Some(Json::Null),
        },
        None => None,
    }
}

/// `substitute_json`.
pub fn substitute_json(v: &Json, ps: &Vec<(String, String)>) -> (r: Json)
    ensures
        r@ == substitute_json_spec(v@, pair_views(ps@)),
    decreases v,
{
    match v {
        Json::Str(s) => {
            let r = substitute_known(s.as_str(), ps, false);
            let rc = chars_of(r.as_str());
            if chars_eq(&rc, &chars_of(s.as_str())) {
                Json::Str(s.clone())
            } else {
                match number_value_of(&rc) {
                    Some(n) => n,
                    None => Json::Str(r),
                }
            }
        },
        Json::Array(a) => {
            proof {
                lemma_array_view(*a);
            }
            let ghost iv = item_views(a@);
            let mut out: Vec<Json> = Vec::new();
            for i in 0..a.len()
                invariant
                    *v == Json::Array(*a),
                    iv == item_views(a@),
                    item_views(out@) == Seq::new(i as nat, |j: int| substitute_json_spec(iv[j], pair_views(ps@))),
            {
                assert(decreases_to!(*v => v->Array_0));
                assert(decreases_to!(v->Array_0 => v->Array_0@));
                assert(decreases_to!(v->Array_0@ => v->Array_0@[i as int]));
                let x = substitute_json(&a[i], ps);
                let ghost before = out@;
                let ghost xx = x;
                out.push(x);
                proof {
                    lemma_item_views_push(before, xx);
                }
                assert(item_views(out@) =~= Seq::new((i + 1) as nat, |j: int| substitute_json_spec(iv[j], pair_views(ps@))));
            }
            proof {
                lemma_array_view(out);
            }
            let r = Json::Array(out);
            assert(r@ =~= substitute_json_spec(v@, pair_views(ps@))) by {
                if let JsonV::Array(x) = r@ {
                    assert(x =~= substitute_json_spec(v@, pair_views(ps@))->Array_0);
                }
            }
            r
        },
        Json::Object(m) => {
            proof {
                lemma_object_view(*m);
                lemma_entry_views(m@);
            }
            let ghost ev = entry_views(m@);
            let mut out: Vec<(String, Json)> = Vec::new();
            for i in 0..m.len()
                invariant
                    *v == Json::Object(*m),
                    ev == entry_views(m@),
                    ev.len() == m@.len(),
                    forall|j: int| 0 <= j < m@.len() ==> #[trigger] ev[j] == (m@[j].0@, m@[j].1@),
                    out.len() == i,
                    forall|j: int|
                        0 <= j < i ==> (#[trigger] out@[j]).0@ == ev[j].0 && out@[j].1@ == substitute_json_spec(
                            ev[j].1,
                            pair_views(ps@),
                        ),
            {
                assert(decreases_to!(*v => v->Object_0));
                assert(decreases_to!(v->Object_0 => v->Object_0@));
                assert(decreases_to!(v->Object_0@ => v->Object_0@[i as int]));
                assert(decreases_to!(v->Object_0@[i as int] => v->Object_0@[i as int].1));
                let x = substitute_json(&m[i].1, ps);
                out.push((m[i].0.clone(), x));
            }
            proof {
                lemma_object_view(out);
                lemma_entry_views(out@);
            }
            let r = Json::Object(out);
            assert(r@ =~= substitute_json_spec(v@, pair_views(ps@))) by {
                assert(entry_views(out@) =~= substitute_json_spec(v@, pair_views(ps@))->Object_0);
            }
            r
        },
        Json::Null => Json::Null,
        Json::Bool(b) => Json::Bool(*b),
        Json::Number(t) => Json::Number(t.clone()),
    }
}

} // verus!
