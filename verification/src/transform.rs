//! Post-processing of extracted values: tag stripping, entity decoding, trimming,
//! number conversion, joining and picking.

use vstd::prelude::*;
use crate::adapter::Transform;
use crate::json::{Json, JsonV, plain_text, to_plain, item_views, lemma_array_view};
use crate::num::{is_digit, parse_i64, parse_i64_spec, int_text, i64_text};
use crate::path::index_of;
use crate::text::{chars_of, string_of, push_chars, replace, replace_all, trim, trim_chars, slice_chars};

verus! {

/// `decode_entities`: the common HTML entities become the characters they stand for, in this order:
/// `&amp;`, `&lt;`, `&gt;`, `&quot;`, `&#39;`, `&apos;`, `&#x27;`, `&nbsp;`.
pub open spec fn decode_spec(s: Seq<char>) -> Seq<char> {
    let s1 = replace_all(s, "&amp;"@, "&"@);
    let s2 = replace_all(s1, "&lt;"@, "<"@);
    let s3 = replace_all(s2, "&gt;"@, ">"@);
    let s4 = replace_all(s3, "&quot;"@, "\""@);
    let s5 = replace_all(s4, "&#39;"@, "'"@);
    let s6 = replace_all(s5, "&apos;"@, "'"@);
    let s7 = replace_all(s6, "&#x27;"@, "'"@);
    replace_all(s7, "&nbsp;"@, " "@)
}

fn replace_lit(s: Vec<char>, from: &str, to: &str) -> (r: Vec<char>)
    requires
        from@.len() > 0,
    ensures
        r@ == replace_all(s@, from@, to@),
{
    let f = chars_of(from);
    let t = chars_of(to);
    replace(&s, &f, &t)
}

/// `decode_entities`.
pub fn decode_entities(s: &[char]) -> (r: Vec<char>)
    ensures
        r@ == decode_spec(s@),
{
    proof {
        reveal_strlit("&amp;");
        reveal_strlit("&lt;");
        reveal_strlit("&gt;");
        reveal_strlit("&quot;");
        reveal_strlit("&#39;");
        reveal_strlit("&apos;");
        reveal_strlit("&#x27;");
        reveal_strlit("&nbsp;");
    }
    let v = slice_chars(s, 0, s.len());
    assert(v@ =~= s@);
    let v = replace_lit(v, "&amp;", "&");
    let v = replace_lit(v, "&lt;", "<");
    let v = replace_lit(v, "&gt;", ">");
    let v = replace_lit(v, "&quot;", "\"");
    let v = replace_lit(v, "&#39;", "'");
    let v = replace_lit(v, "&apos;", "'");
    let v = replace_lit(v, "&#x27;", "'");
    replace_lit(v, "&nbsp;", " ")
}

/// Removing every tag `<...>`: scanning left to right, a `<` followed by at least one character
/// and then the next `>` is dropped together with them (the matches of `<[^>]+>`).
pub open spec fn strip_tags(s: Seq<char>) -> Seq<char>
    decreases s.len(),
{
    if s.len() == 0 {
        Seq::empty()
    } else {
        match tag_len(s) {
            Some(n) => if 0 < n <= s.len() { strip_tags(s.skip(n as int)) } else { Seq::empty() },
            None => seq![s[0]] + strip_tags(s.skip(1)),
        }
    }
}

/// The length of the tag `<...>` at the start of `s`, if one starts there.
pub open spec fn tag_len(s: Seq<char>) -> Option<nat> {
    if s.len() > 0 && s[0] == '<' {
        match index_of(s.skip(1), '>') {
            Some(k) => if k >= 1 && k + 2 <= s.len() { Some(k + 2) } else { None },
            None => None,
        }
    } else {
        None
    }
}

/// `strip_html`: tags removed, then surrounding whitespace, then entities decoded.
pub open spec fn strip_html_spec(s: Seq<char>) -> Seq<char> {
    decode_spec(trim(strip_tags(s)))
}

proof fn lemma_index_of_at(s: Seq<char>, c: char, k: int)
    requires
        0 <= k <= s.len(),
        forall|j: int| 0 <= j < k ==> s[j] != c,
        k == s.len() || s[k] == c,
    ensures
        index_of(s, c) == (if k == s.len() { None } else { Some(k as nat) }),
    decreases k,
{
    if k > 0 {
        lemma_index_of_at(s.skip(1), c, k - 1);
    }
}

/// Removes every `<...>` tag.
pub fn strip_tags_chars(s: &[char]) -> (r: Vec<char>)
    ensures
        r@ == strip_tags(s@),
{
    let mut out: Vec<char> = Vec::new();
    let mut i: usize = 0;
    assert(s@.skip(0) == s@);
    while i < s.len()
        invariant
            i <= s.len(),
            out@ + strip_tags(s@.skip(i as int)) == strip_tags(s@),
        decreases s.len() - i,
    {
        let ghost t = s@.skip(i as int);
        assert(t[0] == s@[i as int]);
        let mut j = i + 1;
        if s[i] == '<' {
            while j < s.len() && s[j] != '>'
                invariant
                    i < j <= s.len(),
                    forall|m: int| i < m < j ==> s@[m] != '>',
                decreases s.len() - j,
            {
                j = j + 1;
            }
            proof {
                let u = t.skip(1);
                assert(u =~= s@.skip(i + 1));
                assert forall|m: int| 0 <= m < j - i - 1 implies u[m] != '>' by {
                    assert(u[m] == s@[i + 1 + m]);
                }
                lemma_index_of_at(u, '>', j - i - 1);
            }
            if j < s.len() && j > i + 1 {
                assert(t.skip(j - i - 1 + 2) =~= s@.skip(j + 1));
                i = j + 1;
                continue;
            }
        }
        assert(t.skip(1) =~= s@.skip(i + 1));
        let ghost before = out@;
        out.push(s[i]);
        assert(before + (seq![t[0]] + strip_tags(t.skip(1))) =~= out@ + strip_tags(s@.skip(i + 1)));
        i = i + 1;
    }
    assert(s@.skip(i as int).len() == 0);
    assert(out@ + Seq::<char>::empty() == out@);
    out
}

/// `strip_html`.
pub fn strip_html(s: &[char]) -> (r: Vec<char>)
    ensures
        r@ == strip_html_spec(s@),
{
    let a = strip_tags_chars(s);
    let b = trim_chars(&a);
    decode_entities(&b)
}

} // verus!

verus! {

/// Characters kept by `to_number`: digits, `.` and `-`.
pub open spec fn number_char(c: char) -> bool {
    is_digit(c) || c == '.' || c == '-'
}

/// The characters of `s` that `to_number` keeps, in order.
pub open spec fn number_chars(s: Seq<char>) -> Seq<char>
    decreases s.len(),
{
    if s.len() == 0 {
        Seq::empty()
    } else if number_char(s.last()) {
        number_chars(s.drop_last()).push(s.last())
    } else {
        number_chars(s.drop_last())
    }
}

/// The number of times `c` occurs in `s`.
pub open spec fn count_char(s: Seq<char>, c: char) -> nat
    decreases s.len(),
{
    if s.len() == 0 {
        0
    } else {
        count_char(s.drop_last(), c) + if s.last() == c { 1nat } else { 0nat }
    }
}

/// `s` without its leading `-`.
pub open spec fn unsigned_part(d: Seq<char>) -> Seq<char> {
    if d.len() > 0 && d[0] == '-' {
        d.skip(1)
    } else {
        d
    }
}

/// Over digits, `.` and `-`: the text is a decimal number that `str::parse::<f64>` accepts:
/// an optional `-`, digits with at most one `.`, at least one digit.
pub open spec fn float_syntax(d: Seq<char>) -> bool {
    let b = unsigned_part(d);
    count_char(b, '-') == 0 && count_char(b, '.') <= 1 && exists|i: int| 0 <= i < b.len() && is_digit(b[i])
}

/// `s` without its leading zeros.
pub open spec fn strip_zeros(s: Seq<char>) -> Seq<char>
    decreases s.len(),
{
    if s.len() > 0 && s[0] == '0' {
        strip_zeros(s.skip(1))
    } else {
        s
    }
}

/// The JSON number literal with the same value as a decimal accepted by [`float_syntax`]:
/// `-`, the integer digits without leading zeros (`0` when none are left), `.`, the fraction
/// digits (`0` when there are none).
pub open spec fn float_literal(d: Seq<char>) -> Seq<char> {
    let b = unsigned_part(d);
    let sign = if d.len() > 0 && d[0] == '-' { seq!['-'] } else { Seq::empty() };
    let ip = match index_of(b, '.') {
        Some(p) => b.take(p as int),
        None => b,
    };
    let fp = match index_of(b, '.') {
        Some(p) => b.skip(p + 1int),
        None => Seq::empty(),
    };
    let ip2 = if strip_zeros(ip).len() == 0 { seq!['0'] } else { strip_zeros(ip) };
    let fp2 = if fp.len() == 0 { seq!['0'] } else { fp };
    sign + ip2 + seq!['.'] + fp2
}

/// The text `serde_json` displays for the number it reads from the JSON literal `lit`, the
/// literal rounded once to the nearest `f64` (`None` when it does not read one, as for a
/// value out of range).
pub uninterp spec fn float_text(lit: Seq<char>) -> Option<Seq<char>>;

/// `serde_json::from_str::<serde_json::Number>` followed by `Number::to_string`: reads a
/// JSON number literal and displays the number it holds. With the crate's `float_roundtrip`
/// feature the reading rounds correctly, as `str::parse::<f64>` does.
#[verifier::external_body]
pub(crate) fn json_float_text(lit: &str) -> (r: Option<String>)
    ensures
        match r {
            Some(t) => float_text(lit@) == Some(t@),
            None => float_text(lit@) is None,
        },
{
    serde_json::from_str::<serde_json::Number>(lit).ok().map(|n| n.to_string())
}

/// `to_number`: keep digits, `.` and `-`; an `i64` becomes an integer, another decimal
/// becomes a float (null when out of range), anything else stays text.
pub open spec fn to_number_spec(v: JsonV) -> JsonV {
    let d = number_chars(plain_text(v));
    match parse_i64_spec(d) {
        Some(n) => JsonV::Number(int_text(n as int)),
        None => if float_syntax(d) {
            match float_text(float_literal(d)) {
                Some(t) => JsonV::Number(t),
                None => JsonV::Null,
            }
        } else {
            JsonV::Str(d)
        },
    }
}

/// `n + 1` with wrapping: `i64::MAX` is followed by `i64::MIN`.
pub open spec fn inc_i64(n: i64) -> i64 {
    if n == i64::MAX {
        i64::MIN
    } else {
        (n + 1) as i64
    }
}

/// `add_one`: the integer value of the plain text (0 when it is none) plus one.
pub open spec fn add_one_spec(v: JsonV) -> JsonV {
    let n = match parse_i64_spec(plain_text(v)) {
        Some(n) => n,
        None => 0i64,
    };
    JsonV::Number(int_text(inc_i64(n) as int))
}

/// The plain texts of array items that are neither empty nor `null`, joined with `, `.
pub open spec fn join_texts(items: Seq<JsonV>) -> Seq<char>
    decreases items.len(),
{
    if items.len() == 0 {
        Seq::empty()
    } else {
        let r = join_texts(items.drop_last());
        let t = plain_text(items.last());
        if t.len() == 0 || t == seq!['n', 'u', 'l', 'l'] {
            r
        } else if r.len() == 0 {
            t
        } else {
            r + seq![',', ' '] + t
        }
    }
}

/// The first array item that is neither null nor an empty string.
pub open spec fn first_present(items: Seq<JsonV>) -> JsonV
    decreases items.len(),
{
    if items.len() == 0 {
        JsonV::Null
    } else if items[0] == JsonV::Null || items[0] == JsonV::Str(Seq::empty()) {
        first_present(items.skip(1))
    } else {
        items[0]
    }
}

/// `apply_transform_value`.
pub open spec fn transform_spec(v: JsonV, t: Option<Transform>) -> JsonV {
    match t {
        None => v,
        Some(Transform::Trim) => JsonV::Str(trim(plain_text(v))),
        Some(Transform::StripHtml) => JsonV::Str(strip_html_spec(plain_text(v))),
        Some(Transform::DecodeEntities) => JsonV::Str(decode_spec(plain_text(v))),
        Some(Transform::ToNumber) => to_number_spec(v),
        Some(Transform::AddOne) => add_one_spec(v),
        Some(Transform::Join) => match v {
            JsonV::Array(items) => JsonV::Str(join_texts(items)),
            _ => JsonV::Str(plain_text(v)),
        },
        Some(Transform::First) => match v {
            JsonV::Array(items) => first_present(items),
            _ => v,
        },
    }
}

fn number_chars_of(s: &[char]) -> (r: Vec<char>)
    ensures
        r@ == number_chars(s@),
{
    let mut out: Vec<char> = Vec::new();
    for i in 0..s.len()
        invariant
            out@ == number_chars(s@.take(i as int)),
    {
        let ghost t = s@.take(i + 1);
        assert(t.drop_last() == s@.take(i as int));
        let c = s[i];
        if crate::num::char_is_digit(c) || c == '.' || c == '-' {
            out.push(c);
        }
    }
    assert(s@.take(s.len() as int) == s@);
    out
}

fn count_of(s: &[char], c: char) -> (r: usize)
    ensures
        r == count_char(s@, c),
{
    let mut n: usize = 0;
    for i in 0..s.len()
        invariant
            n == count_char(s@.take(i as int), c),
            n <= i,
    {
        let ghost t = s@.take(i + 1);
        assert(t.drop_last() == s@.take(i as int));
        if s[i] == c {
            n = n + 1;
        }
    }
    assert(s@.take(s.len() as int) == s@);
    n
}

fn is_float_syntax(d: &[char]) -> (r: bool)
    ensures
        r == float_syntax(d@),
{
    let start: usize = if d.len() > 0 && d[0] == '-' { 1 } else { 0 };
    let b = slice_chars(d, start, d.len());
    assert(b@ =~= unsigned_part(d@));
    if count_of(&b, '-') != 0 || count_of(&b, '.') > 1 {
        return false;
    }
    for i in 0..b.len()
        invariant
            b@ == unsigned_part(d@),
            count_char(b@, '-') == 0,
            count_char(b@, '.') <= 1,
            forall|j: int| 0 <= j < i ==> !is_digit(b@[j]),
    {
        if crate::num::char_is_digit(b[i]) {
            return true;
        }
    }
    false
}

pub(crate) fn strip_zeros_of(s: &[char]) -> (r: Vec<char>)
    ensures
        r@ == strip_zeros(s@),
{
    let mut i: usize = 0;
    assert(s@.skip(0) == s@);
    while i < s.len() && s[i] == '0'
        invariant
            i <= s.len(),
            strip_zeros(s@) == strip_zeros(s@.skip(i as int)),
        decreases s.len() - i,
    {
        assert(s@.skip(i as int).skip(1) == s@.skip(i + 1));
        i = i + 1;
    }
    slice_chars(s, i, s.len())
}

fn float_literal_of(d: &[char]) -> (r: Vec<char>)
    ensures
        r@ == float_literal(d@),
{
    let neg = d.len() > 0 && d[0] == '-';
    let start: usize = if neg { 1 } else { 0 };
    let b = slice_chars(d, start, d.len());
    assert(b@ =~= unsigned_part(d@));
    let mut k: usize = 0;
    while k < b.len() && b[k] != '.'
        invariant
            k <= b.len(),
            forall|j: int| 0 <= j < k ==> b@[j] != '.',
        decreases b.len() - k,
    {
        k = k + 1;
    }
    proof {
        lemma_index_of_at(b@, '.', k as int);
    }
    let ip = slice_chars(&b, 0, k);
    let fp = if k < b.len() { slice_chars(&b, k + 1, b.len()) } else { Vec::new() };
    assert(ip@ =~= (match index_of(b@, '.') { Some(p) => b@.take(p as int), None => b@ }));
    assert(fp@ =~= (match index_of(b@, '.') { Some(p) => b@.skip(p + 1int), None => Seq::<char>::empty() }));
    let ip2 = strip_zeros_of(&ip);
    let mut out: Vec<char> = Vec::new();
    if neg {
        out.push('-');
    }
    if ip2.len() == 0 {
        out.push('0');
    } else {
        for i in 0..ip2.len()
            invariant
                out@ == (if neg { seq!['-'] } else { Seq::<char>::empty() }) + ip2@.take(i as int),
        {
            out.push(ip2[i]);
            assert(ip2@.take(i + 1) == ip2@.take(i as int).push(ip2@[i as int]));
        }
        assert(ip2@.take(ip2.len() as int) == ip2@);
    }
    out.push('.');
    if fp.len() == 0 {
        out.push('0');
    } else {
        let ghost before = out@;
        for i in 0..fp.len()
            invariant
                out@ == before + fp@.take(i as int),
        {
            out.push(fp[i]);
            assert(fp@.take(i + 1) == fp@.take(i as int).push(fp@[i as int]));
        }
        assert(fp@.take(fp.len() as int) == fp@);
    }
    assert(out@ =~= float_literal(d@));
    out
}

fn number_value(text: &[char]) -> (r: Json)
    ensures
        r@ == to_number_spec(JsonV::Str(text@)),
{
    let d = number_chars_of(text);
    match parse_i64(&d) {
        Some(n) => Json::Number(string_of(&i64_text(n))),
        None => {
            if is_float_syntax(&d) {
                let lit = string_of(&float_literal_of(&d));
                match json_float_text(lit.as_str()) {
                    Some(t) => Json::Number(t),
                    None => Json::Null,
                }
            } else {
                Json::Str(string_of(&d))
            }
        },
    }
}

fn join_items(items: &Vec<Json>) -> (r: Vec<char>)
    ensures
        r@ == join_texts(item_views(items@)),
{
    let ghost iv = item_views(items@);
    let mut out: Vec<char> = Vec::new();
    let null_text = chars_of("null");
    proof {
        reveal_strlit("null");
    }
    assert(null_text@ =~= seq!['n', 'u', 'l', 'l']);
    for i in 0..items.len()
        invariant
            iv == item_views(items@),
            null_text@ == seq!['n', 'u', 'l', 'l'],
            out@ == join_texts(iv.take(i as int)),
    {
        let ghost t = iv.take(i + 1);
        assert(t.drop_last() == iv.take(i as int));
        assert(t.last() == items@[i as int]@);
        let p = chars_of(to_plain(&items[i]).as_str());
        if p.len() == 0 || crate::text::chars_eq(&p, &null_text) {
        } else if out.len() == 0 {
            out = p;
        } else {
            out.push(',');
            out.push(' ');
            let ghost before = out@;
            for k in 0..p.len()
                invariant
                    out@ == before + p@.take(k as int),
            {
                out.push(p[k]);
                assert(p@.take(k + 1) == p@.take(k as int).push(p@[k as int]));
            }
            assert(p@.take(p.len() as int) == p@);
        }
    }
    assert(iv.take(items.len() as int) == iv);
    out
}

fn first_item(items: Vec<Json>) -> (r: Json)
    ensures
        r@ == first_present(item_views(items@)),
{
    let ghost iv = item_views(items@);
    let mut i: usize = 0;
    assert(iv.skip(0) == iv);
    while i < items.len()
        invariant
            i <= items.len(),
            iv == item_views(items@),
            first_present(iv) == first_present(iv.skip(i as int)),
        decreases items.len() - i,
    {
        assert(iv.skip(i as int)[0] == items@[i as int]@);
        assert(iv.skip(i as int).skip(1) == iv.skip(i + 1));
        let blank = match &items[i] {
            Json::Null => true,
            Json::Str(s) => {
                let e = s.as_str().is_empty();
                proof {
                    if e {
                        assert(s@ =~= Seq::<char>::empty());
                    }
                }
                e
            },
            _ => false,
        };
        if !blank {
            return items[i].deep_clone();
        }
        i = i + 1;
    }
    Json::Null
}

/// `apply_transform_value`.
pub fn apply_transform_value(val: Json, t: Option<Transform>) -> (r: Json)
    ensures
        r@ == transform_spec(val@, t),
{
    match t {
        None => val,
        Some(Transform::Trim) => {
            let p = chars_of(to_plain(&val).as_str());
            Json::Str(string_of(&trim_chars(&p)))
        },
        Some(Transform::StripHtml) => {
            let p = chars_of(to_plain(&val).as_str());
            Json::Str(string_of(&strip_html(&p)))
        },
        Some(Transform::DecodeEntities) => {
            let p = chars_of(to_plain(&val).as_str());
            Json::Str(string_of(&decode_entities(&p)))
        },
        Some(Transform::ToNumber) => {
            let p = chars_of(to_plain(&val).as_str());
            number_value(&p)
        },
        Some(Transform::AddOne) => {
            let p = chars_of(to_plain(&val).as_str());
            let n: i64 = match parse_i64(&p) {
                Some(n) => n,
                None => 0,
            };
            let m: i64 = if n == i64::MAX { i64::MIN } else { n + 1 };
            Json::Number(string_of(&i64_text(m)))
        },
        Some(Transform::Join) => match val {
            Json::Array(items) => {
                proof {
                    lemma_array_view(items);
                }
                Json::Str(string_of(&join_items(&items)))
            },
            other => Json::Str(to_plain(&other)),
        },
        Some(Transform::First) => match val {
            Json::Array(items) => {
                proof {
                    lemma_array_view(items);
                }
                first_item(items)
            },
            other => other,
        },
    }
}

/// `apply_transform`: a transform applied to extracted text, read back as plain text.
pub fn apply_transform(val: String, t: Option<Transform>) -> (r: String)
    ensures
        r@ == plain_text(transform_spec(JsonV::Str(val@), t)),
{
    let v = apply_transform_value(Json::Str(val), t);
    to_plain(&v)
}

} // verus!

verus! {

/// A text without `&`.
pub open spec fn no_amp(s: Seq<char>) -> bool {
    forall|i: int| 0 <= i < s.len() ==> s[i] != '&'
}

/// A text without `;`.
pub open spec fn no_semi(s: Seq<char>) -> bool {
    forall|i: int| 0 <= i < s.len() ==> s[i] != ';'
}

/// The shape of an entity: `&`, then characters that are neither `&` nor `;`, then `;`.
pub open spec fn entity_shaped(e: Seq<char>) -> bool {
    &&& e.len() >= 2
    &&& e[0] == '&'
    &&& e[e.len() - 1] == ';'
    &&& forall|i: int| 1 <= i < e.len() ==> e[i] != '&'
    &&& forall|i: int| 0 <= i < e.len() - 1 ==> e[i] != ';'
}

/// The character each entity `decode_entities` knows stands for.
pub open spec fn entity_char(e: Seq<char>) -> Option<char> {
    if e == "&amp;"@ {
        Some('&')
    } else if e == "&lt;"@ {
        Some('<')
    } else if e == "&gt;"@ {
        Some('>')
    } else if e == "&quot;"@ {
        Some('"')
    } else if e == "&#39;"@ || e == "&apos;"@ || e == "&#x27;"@ {
        Some('\'')
    } else if e == "&nbsp;"@ {
        Some(' ')
    } else {
        None
    }
}

proof fn lemma_replace_no_amp(x: Seq<char>, y: Seq<char>, p: Seq<char>, r: Seq<char>)
    requires
        no_amp(x),
        p.len() > 0,
        p[0] == '&',
    ensures
        replace_all(x + y, p, r) == x + replace_all(y, p, r),
    decreases x.len(),
{
    if x.len() == 0 {
        assert(x + y =~= y);
    } else {
        let s = x + y;
        assert(s[0] == x[0]);
        if s.len() >= p.len() {
            assert(s.take(p.len() as int)[0] != p[0]);
            assert(s.take(p.len() as int) != p);
        }
        lemma_replace_no_amp(x.skip(1), y, p, r);
        assert(s.skip(1) =~= x.skip(1) + y);
        if s.len() < p.len() {
            lemma_replace_short(y, p, r);
        }
        assert(seq![x[0]] + (x.skip(1) + replace_all(y, p, r)) =~= x + replace_all(y, p, r));
    }
}

proof fn lemma_replace_short(y: Seq<char>, p: Seq<char>, r: Seq<char>)
    requires
        y.len() < p.len(),
    ensures
        replace_all(y, p, r) == y,
{
}

proof fn lemma_replace_text(x: Seq<char>, p: Seq<char>, r: Seq<char>)
    requires
        no_amp(x),
        p.len() > 0,
        p[0] == '&',
    ensures
        replace_all(x, p, r) == x,
{
    lemma_replace_no_amp(x, Seq::empty(), p, r);
    assert(x + Seq::<char>::empty() =~= x);
    assert(replace_all(Seq::<char>::empty(), p, r) =~= Seq::<char>::empty());
}

proof fn lemma_replace_hit(p: Seq<char>, y: Seq<char>, r: Seq<char>)
    requires
        p.len() > 0,
    ensures
        replace_all(p + y, p, r) == r + replace_all(y, p, r),
{
    assert((p + y).take(p.len() as int) =~= p);
    assert((p + y).skip(p.len() as int) =~= y);
}

proof fn lemma_replace_miss(e: Seq<char>, y: Seq<char>, p: Seq<char>, r: Seq<char>)
    requires
        entity_shaped(e),
        entity_shaped(p),
        e != p,
    ensures
        replace_all(e + y, p, r) == e + replace_all(y, p, r),
{
    let s = e + y;
    if s.len() >= p.len() {
        assert(s.take(p.len() as int) != p) by {
            if s.take(p.len() as int) == p {
                if p.len() <= e.len() {
                    assert(e[p.len() - 1] == p[p.len() - 1]);
                    assert(p.len() == e.len());
                    assert(e =~= p);
                } else {
                    assert(p[e.len() - 1] == e[e.len() - 1]);
                }
            }
        }
    }
    let t = e.skip(1);
    assert(no_amp(t));
    lemma_replace_no_amp(t, y, p, r);
    assert(s.skip(1) =~= t + y);
    if s.len() < p.len() {
        lemma_replace_short(y, p, r);
        lemma_replace_short(s, p, r);
    }
    assert(seq![e[0]] + (t + replace_all(y, p, r)) =~= e + replace_all(y, p, r));
}

proof fn lemma_replace_amp_tail(b: Seq<char>, p: Seq<char>, r: Seq<char>)
    requires
        no_amp(b),
        no_semi(b),
        entity_shaped(p),
    ensures
        replace_all(seq!['&'] + b, p, r) == seq!['&'] + b,
{
    let s = seq!['&'] + b;
    if s.len() >= p.len() {
        assert(s.take(p.len() as int) != p) by {
            if s.take(p.len() as int) == p {
                assert(s[p.len() - 1] == ';');
                assert(s[p.len() - 1] == b[p.len() - 2]);
            }
        }
    }
    lemma_replace_text(b, p, r);
    assert(s.skip(1) =~= b);
    assert(seq![s[0]] + b =~= s);
}

/// One replacement step of decoding on `a + x + b`, where `x` is an entity or a character
/// that an earlier step put there.
proof fn lemma_decode_step(a: Seq<char>, x: Seq<char>, b: Seq<char>, p: Seq<char>, r: Seq<char>)
    requires
        no_amp(a),
        no_amp(b),
        no_semi(b),
        entity_shaped(p),
        entity_shaped(x) || (x.len() == 1 && x[0] != ';'),
    ensures
        replace_all(a + x + b, p, r) == a + (if x == p { r } else { x }) + b,
{
    lemma_replace_no_amp(a, x + b, p, r);
    assert(a + x + b =~= a + (x + b));
    lemma_replace_text(b, p, r);
    if x == p {
        lemma_replace_hit(p, b, r);
    } else if entity_shaped(x) {
        lemma_replace_miss(x, b, p, r);
    } else if x[0] == '&' {
        assert(x =~= seq!['&']);
        lemma_replace_amp_tail(b, p, r);
    } else {
        assert(no_amp(x));
        lemma_replace_no_amp(x, b, p, r);
    }
    assert(a + (if x == p { r } else { x }) + b =~= a + ((if x == p { r } else { x }) + b));
}

proof fn lemma_entities_shaped()
    ensures
        entity_shaped("&amp;"@),
        entity_shaped("&lt;"@),
        entity_shaped("&gt;"@),
        entity_shaped("&quot;"@),
        entity_shaped("&#39;"@),
        entity_shaped("&apos;"@),
        entity_shaped("&#x27;"@),
        entity_shaped("&nbsp;"@),
        "&"@ == seq!['&'],
        "<"@ == seq!['<'],
        ">"@ == seq!['>'],
        "\""@ == seq!['"'],
        "'"@ == seq!['\''],
        " "@ == seq![' '],
{
    reveal_strlit("&amp;");
    reveal_strlit("&lt;");
    reveal_strlit("&gt;");
    reveal_strlit("&quot;");
    reveal_strlit("&#39;");
    reveal_strlit("&apos;");
    reveal_strlit("&#x27;");
    reveal_strlit("&nbsp;");
    reveal_strlit("&");
    reveal_strlit("<");
    reveal_strlit(">");
    reveal_strlit("\"");
    reveal_strlit("'");
    reveal_strlit(" ");
    assert("&"@ =~= seq!['&']);
    assert("<"@ =~= seq!['<']);
    assert(">"@ =~= seq!['>']);
    assert("\""@ =~= seq!['"']);
    assert("'"@ =~= seq!['\'']);
    assert(" "@ =~= seq![' ']);
}

/// `decode_entities` turns an entity into its character: for every entity it knows (`&amp;`,
/// `&lt;`, `&gt;`, `&quot;`, `&#39;`, `&apos;`, `&#x27;`, `&nbsp;`) and texts `a` and `b`
/// without `&` (and `b` without `;`), decoding `a`, the entity, `b` gives `a`, its character,
/// `b`; a text without `&` is left as it is.
pub proof fn lemma_decode_entity(a: Seq<char>, e: Seq<char>, b: Seq<char>)
    requires
        no_amp(a),
        no_amp(b),
        no_semi(b),
        entity_char(e) is Some,
    ensures
        decode_spec(a + e + b) == a + seq![entity_char(e)->0] + b,
        decode_spec(a) == a,
{
    lemma_entities_shaped();
    let c = seq![entity_char(e)->0];
    assert(entity_shaped(e));
    assert(c[0] != ';');
    // Each step either turns the entity into its character or leaves the text as it is.
    lemma_decode_step(a, e, b, "&amp;"@, "&"@);
    let x1 = if e == "&amp;"@ { "&"@ } else { e };
    assert(entity_shaped(x1) || (x1.len() == 1 && x1[0] != ';'));
    lemma_decode_step(a, x1, b, "&lt;"@, "<"@);
    let x2 = if x1 == "&lt;"@ { "<"@ } else { x1 };
    lemma_decode_step(a, x2, b, "&gt;"@, ">"@);
    let x3 = if x2 == "&gt;"@ { ">"@ } else { x2 };
    lemma_decode_step(a, x3, b, "&quot;"@, "\""@);
    let x4 = if x3 == "&quot;"@ { "\""@ } else { x3 };
    lemma_decode_step(a, x4, b, "&#39;"@, "'"@);
    let x5 = if x4 == "&#39;"@ { "'"@ } else { x4 };
    lemma_decode_step(a, x5, b, "&apos;"@, "'"@);
    let x6 = if x5 == "&apos;"@ { "'"@ } else { x5 };
    lemma_decode_step(a, x6, b, "&#x27;"@, "'"@);
    let x7 = if x6 == "&#x27;"@ { "'"@ } else { x6 };
    lemma_decode_step(a, x7, b, "&nbsp;"@, " "@);
    let x8 = if x7 == "&nbsp;"@ { " "@ } else { x7 };
    assert(x8 == c);
    lemma_replace_text(a, "&amp;"@, "&"@);
    lemma_replace_text(a, "&lt;"@, "<"@);
    lemma_replace_text(a, "&gt;"@, ">"@);
    lemma_replace_text(a, "&quot;"@, "\""@);
    lemma_replace_text(a, "&#39;"@, "'"@);
    lemma_replace_text(a, "&apos;"@, "'"@);
    lemma_replace_text(a, "&#x27;"@, "'"@);
    lemma_replace_text(a, "&nbsp;"@, " "@);
}

} // verus!

verus! {

/// Texts and tokens in turn: `texts[0]`, `toks[0]`, `texts[1]`, ..., with one text more than
/// tokens.
pub open spec fn interleave(texts: Seq<Seq<char>>, toks: Seq<Seq<char>>) -> Seq<char>
    decreases toks.len(),
{
    if toks.len() == 0 || texts.len() == 0 {
        if texts.len() == 0 { Seq::empty() } else { texts[0] }
    } else {
        texts[0] + toks[0] + interleave(texts.skip(1), toks.skip(1))
    }
}

/// A text without `&` and without `;`.
pub open spec fn plain(s: Seq<char>) -> bool {
    no_amp(s) && no_semi(s)
}

/// A token: an entity, or one character other than `;`.
pub open spec fn token_ok(x: Seq<char>) -> bool {
    entity_shaped(x) || (x.len() == 1 && x[0] != ';')
}

/// Every `;` comes after some `&`.
pub open spec fn semi_guarded(s: Seq<char>) -> bool {
    forall|i: int| 0 <= i < s.len() && s[i] == ';' ==> exists|j: int| 0 <= j < i && s[j] == '&'
}

/// Each token equal to `p` replaced by `r`.
pub open spec fn step_map(toks: Seq<Seq<char>>, p: Seq<char>, r: Seq<char>) -> Seq<Seq<char>> {
    toks.map_values(|x: Seq<char>| if x == p { r } else { x })
}

proof fn lemma_guarded_concat(a: Seq<char>, b: Seq<char>)
    requires
        semi_guarded(a),
        semi_guarded(b),
    ensures
        semi_guarded(a + b),
{
    let s = a + b;
    assert forall|i: int| 0 <= i < s.len() && s[i] == ';' implies exists|j: int| 0 <= j < i && s[j] == '&' by {
        if i < a.len() {
            assert(a[i] == ';');
            let j = choose|j: int| 0 <= j < i && a[j] == '&';
            assert(s[j] == '&');
        } else {
            assert(b[i - a.len()] == ';');
            let j = choose|j: int| 0 <= j < i - a.len() && b[j] == '&';
            assert(s[j + a.len()] == '&');
        }
    }
}

proof fn lemma_interleave_guarded(texts: Seq<Seq<char>>, toks: Seq<Seq<char>>)
    requires
        texts.len() == toks.len() + 1,
        forall|i: int| 0 <= i < texts.len() ==> plain(#[trigger] texts[i]),
        forall|i: int| 0 <= i < toks.len() ==> token_ok(#[trigger] toks[i]),
    ensures
        semi_guarded(interleave(texts, toks)),
    decreases toks.len(),
{
    assert(plain(texts[0]));
    if toks.len() > 0 {
        assert forall|i: int| 0 <= i < texts.skip(1).len() implies plain(#[trigger] texts.skip(1)[i]) by {
            assert(texts.skip(1)[i] == texts[i + 1]);
        }
        assert forall|i: int| 0 <= i < toks.skip(1).len() implies token_ok(#[trigger] toks.skip(1)[i]) by {
            assert(toks.skip(1)[i] == toks[i + 1]);
        }
        lemma_interleave_guarded(texts.skip(1), toks.skip(1));
        assert(token_ok(toks[0]));
        let k = toks[0];
        assert(semi_guarded(k)) by {
            if entity_shaped(k) {
                assert forall|i: int| 0 <= i < k.len() && k[i] == ';' implies exists|j: int| 0 <= j < i && k[j] == '&' by {
                    assert(i == k.len() - 1);
                    assert(k[0] == '&');
                }
            }
        }
        lemma_guarded_concat(texts[0], k);
        lemma_guarded_concat(texts[0] + k, interleave(texts.skip(1), toks.skip(1)));
    }
}

proof fn lemma_replace_amp_guarded(rest: Seq<char>, p: Seq<char>, r: Seq<char>)
    requires
        semi_guarded(rest),
        entity_shaped(p),
    ensures
        replace_all(seq!['&'] + rest, p, r) == seq!['&'] + replace_all(rest, p, r),
{
    let s = seq!['&'] + rest;
    if s.len() >= p.len() {
        assert(s.take(p.len() as int) != p) by {
            if s.take(p.len() as int) == p {
                let i = p.len() - 2;
                assert(rest[i] == s[i + 1]);
                assert(rest[i] == ';');
                let j = choose|j: int| 0 <= j < i && rest[j] == '&';
                assert(s[j + 1] == '&');
                assert(p[j + 1] == '&');
            }
        }
    }
    assert(s.skip(1) =~= rest);
    if s.len() < p.len() {
        lemma_replace_short(rest, p, r);
    }
}

proof fn lemma_stage_all(texts: Seq<Seq<char>>, toks: Seq<Seq<char>>, p: Seq<char>, r: Seq<char>)
    requires
        texts.len() == toks.len() + 1,
        forall|i: int| 0 <= i < texts.len() ==> plain(#[trigger] texts[i]),
        forall|i: int| 0 <= i < toks.len() ==> token_ok(#[trigger] toks[i]),
        entity_shaped(p),
    ensures
        replace_all(interleave(texts, toks), p, r) == interleave(texts, step_map(toks, p, r)),
    decreases toks.len(),
{
    assert(plain(texts[0]));
    if toks.len() == 0 {
        lemma_replace_text(texts[0], p, r);
    } else {
        let t0 = texts[0];
        let k0 = toks[0];
        let ts = texts.skip(1);
        let ks = toks.skip(1);
        assert forall|i: int| 0 <= i < ts.len() implies plain(#[trigger] ts[i]) by {
            assert(ts[i] == texts[i + 1]);
        }
        assert forall|i: int| 0 <= i < ks.len() implies token_ok(#[trigger] ks[i]) by {
            assert(ks[i] == toks[i + 1]);
        }
        let rest = interleave(ts, ks);
        lemma_stage_all(ts, ks, p, r);
        assert(token_ok(k0));
        assert(interleave(texts, toks) == t0 + k0 + rest);
        assert(t0 + k0 + rest =~= t0 + (k0 + rest));
        lemma_replace_no_amp(t0, k0 + rest, p, r);
        let k1 = if k0 == p { r } else { k0 };
        if k0 == p {
            lemma_replace_hit(p, rest, r);
        } else if entity_shaped(k0) {
            lemma_replace_miss(k0, rest, p, r);
        } else if k0[0] == '&' {
            assert(k0 =~= seq!['&']);
            lemma_interleave_guarded(ts, ks);
            lemma_replace_amp_guarded(rest, p, r);
        } else {
            assert(no_amp(k0));
            lemma_replace_no_amp(k0, rest, p, r);
        }
        let m = step_map(toks, p, r);
        assert(m.skip(1) =~= step_map(ks, p, r));
        assert(m[0] == k1);
        assert(interleave(texts, m) == t0 + k1 + interleave(ts, m.skip(1)));
        assert(t0 + (k1 + replace_all(rest, p, r)) =~= t0 + k1 + replace_all(rest, p, r));
    }
}

/// The character of an entity, as a one-character text.
pub open spec fn entity_text(e: Seq<char>) -> Seq<char> {
    seq![entity_char(e)->0]
}

/// `decode_entities` turns every entity into its character: for texts without `&` or `;` and
/// entities it knows in between (`&amp;`, `&lt;`, `&gt;`, `&quot;`, `&#39;`, `&apos;`,
/// `&#x27;`, `&nbsp;`, any number of each, in any order), decoding the whole gives the same
/// texts with each entity replaced by its character.
pub proof fn lemma_decode_all(texts: Seq<Seq<char>>, toks: Seq<Seq<char>>)
    requires
        texts.len() == toks.len() + 1,
        forall|i: int| 0 <= i < texts.len() ==> plain(#[trigger] texts[i]),
        forall|i: int| 0 <= i < toks.len() ==> entity_char(#[trigger] toks[i]) is Some,
    ensures
        decode_spec(interleave(texts, toks)) == interleave(texts, toks.map_values(|e: Seq<char>| entity_text(e))),
{
    lemma_entities_shaped();
    let k0 = toks;
    assert forall|i: int| 0 <= i < k0.len() implies token_ok(#[trigger] k0[i]) by {
        assert(entity_shaped(k0[i]));
    }
    lemma_stage_all(texts, k0, "&amp;"@, "&"@);
    let k1 = step_map(k0, "&amp;"@, "&"@);
    assert forall|i: int| 0 <= i < k1.len() implies token_ok(#[trigger] k1[i]) by {
        assert(entity_shaped(k0[i]));
    }
    lemma_stage_all(texts, k1, "&lt;"@, "<"@);
    let k2 = step_map(k1, "&lt;"@, "<"@);
    assert forall|i: int| 0 <= i < k2.len() implies token_ok(#[trigger] k2[i]) by {
        assert(entity_shaped(k0[i]));
    }
    lemma_stage_all(texts, k2, "&gt;"@, ">"@);
    let k3 = step_map(k2, "&gt;"@, ">"@);
    assert forall|i: int| 0 <= i < k3.len() implies token_ok(#[trigger] k3[i]) by {
        assert(entity_shaped(k0[i]));
    }
    lemma_stage_all(texts, k3, "&quot;"@, "\""@);
    let k4 = step_map(k3, "&quot;"@, "\""@);
    assert forall|i: int| 0 <= i < k4.len() implies token_ok(#[trigger] k4[i]) by {
        assert(entity_shaped(k0[i]));
    }
    lemma_stage_all(texts, k4, "&#39;"@, "'"@);
    let k5 = step_map(k4, "&#39;"@, "'"@);
    assert forall|i: int| 0 <= i < k5.len() implies token_ok(#[trigger] k5[i]) by {
        assert(entity_shaped(k0[i]));
    }
    lemma_stage_all(texts, k5, "&apos;"@, "'"@);
    let k6 = step_map(k5, "&apos;"@, "'"@);
    assert forall|i: int| 0 <= i < k6.len() implies token_ok(#[trigger] k6[i]) by {
        assert(entity_shaped(k0[i]));
    }
    lemma_stage_all(texts, k6, "&#x27;"@, "'"@);
    let k7 = step_map(k6, "&#x27;"@, "'"@);
    assert forall|i: int| 0 <= i < k7.len() implies token_ok(#[trigger] k7[i]) by {
        assert(entity_shaped(k0[i]));
    }
    lemma_stage_all(texts, k7, "&nbsp;"@, " "@);
    let k8 = step_map(k7, "&nbsp;"@, " "@);
    assert(k8 =~= toks.map_values(|e: Seq<char>| entity_text(e))) by {
        assert forall|i: int| 0 <= i < k8.len() implies #[trigger] k8[i] == entity_text(toks[i]) by {
            assert(entity_shaped(k0[i]));
        }
    }
}

} // verus!
