//! Building request URLs, bodies and scripts from parameter values.

use vstd::prelude::*;
use vstd::utf8::encode_utf8;
use crate::adapter::ParamDef;
use crate::json::{plain_text, to_plain};
use crate::params::{pair_views};
use crate::text::{
    chars_of, string_of, replace, replace_all, contains, contains_seq, has_prefix, starts_with, slice_chars,
};

verus! {

/// Bytes that URL encoding keeps: ASCII letters and digits, `-`, `.`, `_`, `~`.
pub open spec fn url_safe(b: u8) -> bool {
    (48 <= b && b <= 57) || (65 <= b && b <= 90) || (97 <= b && b <= 122) || b == 45 || b == 46 || b == 95
        || b == 126
}

/// An upper-case hexadecimal digit.
pub open spec fn hex_upper(d: nat) -> char {
    if d < 10 {
        ((d + 48) as u32) as char
    } else {
        ((d - 10 + 65) as u32) as char
    }
}

/// How one byte is written: as itself when safe, else as `%` and two upper-case hex digits.
pub open spec fn encode_byte(b: u8) -> Seq<char> {
    if url_safe(b) {
        seq![(b as u32) as char]
    } else {
        seq!['%', hex_upper((b / 16) as nat), hex_upper((b % 16) as nat)]
    }
}

/// Percent-encoding of a byte string.
pub open spec fn encode_bytes(bs: Seq<u8>) -> Seq<char>
    decreases bs.len(),
{
    if bs.len() == 0 {
        Seq::empty()
    } else {
        encode_bytes(bs.drop_last()) + encode_byte(bs.last())
    }
}

/// URL encoding of a string: every byte of its UTF-8 form except the safe ones is percent-encoded.
pub open spec fn percent_encode(s: Seq<char>) -> Seq<char> {
    encode_bytes(encode_utf8(s))
}

/// `urlencoding::encode`: percent-encodes every UTF-8 byte of `s` except ASCII letters and
/// digits and `-`, `.`, `_`, `~`.
#[verifier::external_body]
fn url_encode(s: &str) -> (r: String)
    ensures
        r@ == percent_encode(s@),
{
    urlencoding::encode(s).into_owned()
}

/// A value that is itself a URL.
pub open spec fn is_full_url(v: Seq<char>) -> bool {
    has_prefix(v, "http://"@) || has_prefix(v, "https://"@)
}

/// `encode_url_value`: full URLs stay as they are, other values are URL-encoded.
pub open spec fn encode_value_spec(v: Seq<char>) -> Seq<char> {
    if is_full_url(v) {
        v
    } else {
        percent_encode(v)
    }
}

pub(crate) fn full_url(v: &[char]) -> (r: bool)
    ensures
        r == is_full_url(v@),
{
    let a = chars_of("http://");
    let b = chars_of("https://");
    starts_with(v, &a) || starts_with(v, &b)
}

/// `encode_url_value`.
pub fn encode_url_value(v: &str) -> (r: String)
    ensures
        r@ == encode_value_spec(v@),
{
    let c = chars_of(v);
    if full_url(&c) {
        String::from_str(v)
    } else {
        url_encode(v)
    }
}

/// The placeholder `{k}`.
pub open spec fn placeholder(k: Seq<char>) -> Seq<char> {
    seq!['{'] + k + seq!['}']
}

fn placeholder_of(k: &str) -> (r: Vec<char>)
    ensures
        r@ == placeholder(k@),
{
    let kc = chars_of(k);
    let mut r: Vec<char> = Vec::new();
    r.push('{');
    for i in 0..kc.len()
        invariant
            r@ == seq!['{'] + kc@.take(i as int),
    {
        r.push(kc[i]);
        assert(kc@.take(i + 1) == kc@.take(i as int).push(kc@[i as int]));
    }
    assert(kc@.take(kc.len() as int) == kc@);
    r.push('}');
    assert(r@ =~= placeholder(k@));
    r
}

/// The length of the longest name of a map.
pub open spec fn max_name_len(ps: Seq<(Seq<char>, Seq<char>)>) -> nat
    decreases ps.len(),
{
    if ps.len() == 0 {
        0
    } else {
        let m = max_name_len(ps.drop_last());
        if ps.last().0.len() > m {
            ps.last().0.len()
        } else {
            m
        }
    }
}

/// The bindings whose name has `n` characters, in map order.
pub open spec fn with_name_len(ps: Seq<(Seq<char>, Seq<char>)>, n: nat) -> Seq<(Seq<char>, Seq<char>)> {
    ps.filter(|e: (Seq<char>, Seq<char>)| e.0.len() == n)
}

/// Each binding of the group, in order, replaces its placeholder by its value (URL-encoded
/// when `encode`).
pub open spec fn replace_group(s: Seq<char>, group: Seq<(Seq<char>, Seq<char>)>, encode: bool) -> Seq<char>
    decreases group.len(),
{
    if group.len() == 0 {
        s
    } else {
        let t = replace_group(s, group.drop_last(), encode);
        let v = if encode { encode_value_spec(group.last().1) } else { group.last().1 };
        replace_all(t, placeholder(group.last().0), v)
    }
}

/// The groups of names of `n` characters and fewer, longest first.
pub open spec fn replace_down(s: Seq<char>, ps: Seq<(Seq<char>, Seq<char>)>, n: nat, encode: bool) -> Seq<char>
    decreases n,
{
    let t = replace_group(s, with_name_len(ps, n), encode);
    if n == 0 {
        t
    } else {
        replace_down(t, ps, (n - 1) as nat, encode)
    }
}

/// `substitute_known`: the placeholders of known parameters replaced by their values, longer
/// names first so that no name is cut short by a shorter one; other braces stay.
pub open spec fn substitute_known_spec(s: Seq<char>, ps: Seq<(Seq<char>, Seq<char>)>, encode: bool) -> Seq<char> {
    replace_down(s, ps, max_name_len(ps), encode)
}

fn max_len_of(ps: &Vec<(String, String)>) -> (r: usize)
    ensures
        r == max_name_len(pair_views(ps@)),
{
    let ghost pv = pair_views(ps@);
    let mut m: usize = 0;
    for i in 0..ps.len()
        invariant
            pv == pair_views(ps@),
            m == max_name_len(pv.take(i as int)),
    {
        let ghost t = pv.take(i + 1);
        assert(t.drop_last() == pv.take(i as int));
        let n = chars_of(ps[i].0.as_str()).len();
        if n > m {
            m = n;
        }
    }
    assert(pv.take(ps.len() as int) == pv);
    m
}

fn replace_len(s: Vec<char>, ps: &Vec<(String, String)>, n: usize, encode: bool) -> (r: Vec<char>)
    ensures
        r@ == replace_group(s@, with_name_len(pair_views(ps@), n as nat), encode),
{
    let ghost pv = pair_views(ps@);
    let mut out = s;
    let ghost s0 = out@;
    assert(pv.take(0).filter(|e: (Seq<char>, Seq<char>)| e.0.len() == n as nat) =~= Seq::empty());
    for i in 0..ps.len()
        invariant
            pv == pair_views(ps@),
            out@ == replace_group(s0, with_name_len(pv.take(i as int), n as nat), encode),
    {
        let ghost t = pv.take(i + 1);
        assert(t.drop_last() == pv.take(i as int));
        assert(t.last() == pv[i as int]);
        let k = chars_of(ps[i].0.as_str());
        let ghost g = with_name_len(pv.take(i as int), n as nat);
        if k.len() == n {
            let ph = placeholder_of(ps[i].0.as_str());
            let v = if encode { chars_of(encode_url_value(ps[i].1.as_str()).as_str()) } else { chars_of(ps[i].1.as_str()) };
            out = replace(&out, &ph, &v);
            assert(g.push(pv[i as int]).drop_last() =~= g);
            assert(out@ == replace_group(s0, g.push(pv[i as int]), encode));
        }
        assert(with_name_len(t, n as nat) == if pv[i as int].0.len() == n as nat {
            with_name_len(pv.take(i as int), n as nat).push(pv[i as int])
        } else {
            with_name_len(pv.take(i as int), n as nat)
        }) by {
            reveal_with_fuel(Seq::<_>::filter, 1);
        }
    }
    assert(pv.take(ps.len() as int) == pv);
    out
}

/// `substitute_known`.
pub fn substitute_known(input: &str, ps: &Vec<(String, String)>, encode: bool) -> (r: String)
    ensures
        r@ == substitute_known_spec(input@, pair_views(ps@), encode),
{
    let m = max_len_of(ps);
    let mut out = chars_of(input);
    let mut n = m;
    loop
        invariant_except_break
            n <= m,
            m == max_name_len(pair_views(ps@)),
            substitute_known_spec(input@, pair_views(ps@), encode) == replace_down(out@, pair_views(ps@), n as nat, encode),
        ensures
            substitute_known_spec(input@, pair_views(ps@), encode) == out@,
        decreases n,
    {
        out = replace_len(out, ps, n, encode);
        if n == 0 {
            break;
        }
        n = n - 1;
    }
    string_of(&out)
}

} // verus!

verus! {

/// The placeholders of defined parameters that are still in `u` get their default value
/// (URL-encoded), in definition order.
pub open spec fn fill_defaults(u: Seq<char>, defs: Seq<(String, ParamDef)>) -> Seq<char>
    decreases defs.len(),
{
    if defs.len() == 0 {
        u
    } else {
        let t = fill_defaults(u, defs.drop_last());
        let ph = placeholder(defs.last().0@);
        match defs.last().1.default {
            Some(d) => if contains_seq(t, ph) {
                replace_all(t, ph, encode_value_spec(plain_text(d@)))
            } else {
                t
            },
            None => t,
        }
    }
}

/// The first defined parameter, in definition order, whose placeholder is still in `u`.
pub open spec fn first_unresolved(u: Seq<char>, defs: Seq<(String, ParamDef)>) -> Option<Seq<char>>
    decreases defs.len(),
{
    if defs.len() == 0 {
        None
    } else if contains_seq(u, placeholder(defs[0].0@)) {
        Some(defs[0].0@)
    } else {
        first_unresolved(u, defs.skip(1))
    }
}

/// `s` without its trailing `/` characters.
pub open spec fn trim_slashes(s: Seq<char>) -> Seq<char>
    decreases s.len(),
{
    if s.len() > 0 && s.last() == '/' {
        trim_slashes(s.drop_last())
    } else {
        s
    }
}

/// Why no URL could be built.
pub enum UrlError {
    /// The placeholder of this parameter is left in the URL path.
    Unresolved { name: String, url: String },
}

/// `build_url`: placeholders of known parameters replaced (URL-encoded, longest names first),
/// then defaults for the rest; refused while a defined parameter's placeholder is left; a path
/// that is a full URL is used as it is, an empty path gives the base, otherwise the base
/// without trailing slashes is followed by the path.
pub open spec fn build_url_spec(
    base: Seq<char>,
    path: Seq<char>,
    params: Seq<(Seq<char>, Seq<char>)>,
    defs: Seq<(String, ParamDef)>,
) -> Result<Seq<char>, (Seq<char>, Seq<char>)> {
    let u = fill_defaults(substitute_known_spec(path, params, true), defs);
    match first_unresolved(u, defs) {
        Some(k) => Err((k, u)),
        None => {
            let b = trim_slashes(base);
            if is_full_url(u) {
                Ok(u)
            } else if u.len() == 0 {
                Ok(b)
            } else {
                Ok(b + u)
            }
        },
    }
}

proof fn lemma_first_unresolved(u: Seq<char>, defs: Seq<(String, ParamDef)>, i: int)
    requires
        0 <= i <= defs.len(),
        forall|j: int| 0 <= j < i ==> !contains_seq(u, placeholder(#[trigger] defs[j].0@)),
        i == defs.len() || contains_seq(u, placeholder(defs[i].0@)),
    ensures
        first_unresolved(u, defs) == (if i == defs.len() { None } else { Some(defs[i].0@) }),
    decreases i,
{
    if i > 0 {
        assert forall|j: int| 0 <= j < i - 1 implies !contains_seq(u, placeholder(#[trigger] defs.skip(1)[j].0@)) by {
            assert(defs.skip(1)[j] == defs[j + 1]);
        }
        lemma_first_unresolved(u, defs.skip(1), i - 1);
    }
}

/// `first_unresolved_param`.
pub fn first_unresolved_param(url: &[char], defs: &Vec<(String, ParamDef)>) -> (r: Option<String>)
    ensures
        match first_unresolved(url@, defs@) {
            Some(k) => r matches Some(x) && x@ == k,
            None => r is None,
        },
{
    let mut i: usize = 0;
    while i < defs.len() && !contains(url, &placeholder_of(defs[i].0.as_str()))
        invariant
            i <= defs.len(),
            forall|j: int| 0 <= j < i ==> !contains_seq(url@, placeholder(#[trigger] defs@[j].0@)),
        decreases defs.len() - i,
    {
        i = i + 1;
    }
    proof {
        lemma_first_unresolved(url@, defs@, i as int);
    }
    if i < defs.len() {
        Some(defs[i].0.clone())
    } else {
        None
    }
}

pub(crate) fn trim_slashes_of(s: &[char]) -> (r: Vec<char>)
    ensures
        r@ == trim_slashes(s@),
{
    let mut n = s.len();
    assert(s@.take(n as int) == s@);
    while n > 0 && s[n - 1] == '/'
        invariant
            n <= s.len(),
            trim_slashes(s@) == trim_slashes(s@.take(n as int)),
        decreases n,
    {
        assert(s@.take(n as int).drop_last() == s@.take(n - 1));
        n = n - 1;
    }
    slice_chars(s, 0, n)
}

/// `build_url`.
pub fn build_url(base: &str, path: &str, params: &Vec<(String, String)>, defs: &Vec<(String, ParamDef)>) -> (r: Result<
    String,
    UrlError,
>)
    ensures
        match r {
            Ok(u) => build_url_spec(base@, path@, pair_views(params@), defs@) == Ok::<Seq<char>, (Seq<char>, Seq<char>)>(u@),
            Err(UrlError::Unresolved { name, url }) => build_url_spec(base@, path@, pair_views(params@), defs@)
                == Err::<Seq<char>, (Seq<char>, Seq<char>)>((name@, url@)),
        },
{
    let mut u = chars_of(substitute_known(path, params, true).as_str());
    let ghost u0 = u@;
    for i in 0..defs.len()
        invariant
            u@ == fill_defaults(u0, defs@.take(i as int)),
    {
        let ghost t = defs@.take(i + 1);
        assert(t.drop_last() == defs@.take(i as int));
        assert(t.last() == defs@[i as int]);
        let ph = placeholder_of(defs[i].0.as_str());
        match &defs[i].1.default {
            Some(d) => {
                if contains(&u, &ph) {
                    let v = chars_of(encode_url_value(to_plain(d).as_str()).as_str());
                    u = replace(&u, &ph, &v);
                }
            },
            None => {},
        }
    }
    assert(defs@.take(defs.len() as int) == defs@);
    match first_unresolved_param(&u, defs) {
        Some(name) => {
            return Err(UrlError::Unresolved { name, url: string_of(&u) });
        },
        None => {},
    }
    let b = trim_slashes_of(&chars_of(base));
    if full_url(&u) {
        Ok(string_of(&u))
    } else if u.len() == 0 {
        Ok(string_of(&b))
    } else {
        let mut out = string_of(&b);
        crate::text::push_chars(&mut out, &u);
        Ok(out)
    }
}

/// `js_escape`: backslashes, quotes, newlines and backticks escaped for a JS string literal.
pub open spec fn js_escape_spec(s: Seq<char>) -> Seq<char> {
    let s1 = replace_all(s, seq!['\\'], seq!['\\', '\\']);
    let s2 = replace_all(s1, seq!['\''], seq!['\\', '\'']);
    let s3 = replace_all(s2, seq!['"'], seq!['\\', '"']);
    let s4 = replace_all(s3, seq!['\n'], seq!['\\', 'n']);
    replace_all(s4, seq!['`'], seq!['\\', '`'])
}

fn replace_char(s: &[char], c: char, a: char, b: char) -> (r: Vec<char>)
    ensures
        r@ == replace_all(s@, seq![c], seq![a, b]),
{
    let mut f: Vec<char> = Vec::new();
    f.push(c);
    let mut t: Vec<char> = Vec::new();
    t.push(a);
    t.push(b);
    assert(f@ =~= seq![c]);
    assert(t@ =~= seq![a, b]);
    replace(s, &f, &t)
}

/// `js_escape`.
pub fn js_escape(s: &[char]) -> (r: Vec<char>)
    ensures
        r@ == js_escape_spec(s@),
{
    let s1 = replace_char(s, '\\', '\\', '\\');
    let s2 = replace_char(&s1, '\'', '\\', '\'');
    let s3 = replace_char(&s2, '"', '\\', '"');
    let s4 = replace_char(&s3, '\n', '\\', 'n');
    replace_char(&s4, '`', '\\', '`')
}

/// The mustache placeholder `${{k}}`.
pub open spec fn mustache(k: Seq<char>) -> Seq<char> {
    seq!['$', '{', '{'] + k + seq!['}', '}']
}

/// Each binding of the group, in order, replaces `${{k}}` and then `{k}` by its escaped value.
pub open spec fn eval_group(s: Seq<char>, group: Seq<(Seq<char>, Seq<char>)>) -> Seq<char>
    decreases group.len(),
{
    if group.len() == 0 {
        s
    } else {
        let t = eval_group(s, group.drop_last());
        let e = js_escape_spec(group.last().1);
        replace_all(replace_all(t, mustache(group.last().0), e), placeholder(group.last().0), e)
    }
}

/// The groups of names of `n` characters and fewer, longest first.
pub open spec fn eval_down(s: Seq<char>, ps: Seq<(Seq<char>, Seq<char>)>, n: nat) -> Seq<char>
    decreases n,
{
    let t = eval_group(s, with_name_len(ps, n));
    if n == 0 {
        t
    } else {
        eval_down(t, ps, (n - 1) as nat)
    }
}

/// `substitute_eval`: `${{name}}` and `{name}` in a script replaced by the escaped values,
/// longer names first.
pub open spec fn substitute_eval_spec(js: Seq<char>, ps: Seq<(Seq<char>, Seq<char>)>) -> Seq<char> {
    eval_down(js, ps, max_name_len(ps))
}

fn mustache_of(k: &str) -> (r: Vec<char>)
    ensures
        r@ == mustache(k@),
{
    let kc = chars_of(k);
    let mut r: Vec<char> = Vec::new();
    r.push('$');
    r.push('{');
    r.push('{');
    for i in 0..kc.len()
        invariant
            r@ == seq!['$', '{', '{'] + kc@.take(i as int),
    {
        r.push(kc[i]);
        assert(kc@.take(i + 1) == kc@.take(i as int).push(kc@[i as int]));
    }
    assert(kc@.take(kc.len() as int) == kc@);
    r.push('}');
    r.push('}');
    assert(r@ =~= mustache(k@));
    r
}

fn eval_len(s: Vec<char>, ps: &Vec<(String, String)>, n: usize) -> (r: Vec<char>)
    ensures
        r@ == eval_group(s@, with_name_len(pair_views(ps@), n as nat)),
{
    let ghost pv = pair_views(ps@);
    let mut out = s;
    let ghost s0 = out@;
    assert(pv.take(0).filter(|e: (Seq<char>, Seq<char>)| e.0.len() == n as nat) =~= Seq::empty());
    for i in 0..ps.len()
        invariant
            pv == pair_views(ps@),
            out@ == eval_group(s0, with_name_len(pv.take(i as int), n as nat)),
    {
        let ghost t = pv.take(i + 1);
        assert(t.drop_last() == pv.take(i as int));
        assert(t.last() == pv[i as int]);
        let k = chars_of(ps[i].0.as_str());
        let ghost g = with_name_len(pv.take(i as int), n as nat);
        if k.len() == n {
            let e = js_escape(&chars_of(ps[i].1.as_str()));
            let m = mustache_of(ps[i].0.as_str());
            let ph = placeholder_of(ps[i].0.as_str());
            out = replace(&out, &m, &e);
            out = replace(&out, &ph, &e);
            assert(g.push(pv[i as int]).drop_last() =~= g);
            assert(out@ == eval_group(s0, g.push(pv[i as int])));
        }
        assert(with_name_len(t, n as nat) == if pv[i as int].0.len() == n as nat {
            with_name_len(pv.take(i as int), n as nat).push(pv[i as int])
        } else {
            with_name_len(pv.take(i as int), n as nat)
        }) by {
            reveal_with_fuel(Seq::<_>::filter, 1);
        }
    }
    assert(pv.take(ps.len() as int) == pv);
    out
}

/// `substitute_eval`.
pub fn substitute_eval(js: &str, ps: &Vec<(String, String)>) -> (r: String)
    ensures
        r@ == substitute_eval_spec(js@, pair_views(ps@)),
{
    let m = max_len_of(ps);
    let mut out = chars_of(js);
    let mut n = m;
    loop
        invariant_except_break
            n <= m,
            substitute_eval_spec(js@, pair_views(ps@)) == eval_down(out@, pair_views(ps@), n as nat),
        ensures
            substitute_eval_spec(js@, pair_views(ps@)) == out@,
        decreases n,
    {
        out = eval_len(out, ps, n);
        if n == 0 {
            break;
        }
        n = n - 1;
    }
    string_of(&out)
}

/// ASCII upper-casing of a string.
pub open spec fn ascii_upper(s: Seq<char>) -> Seq<char> {
    s.map_values(|c: char| if 'a' <= c && c <= 'z' { ((c as u32) - 32) as char } else { c })
}

/// `http_method`: POST, PUT, PATCH or DELETE named in any ASCII case; GET for any other name;
/// without a name, POST when there is a body and GET otherwise.
pub open spec fn http_method_spec(method: Option<Seq<char>>, has_body: bool) -> Seq<char> {
    match method {
        Some(m) => {
            let u = ascii_upper(m);
            if u == "POST"@ {
                "POST"@
            } else if u == "PUT"@ {
                "PUT"@
            } else if u == "PATCH"@ {
                "PATCH"@
            } else if u == "DELETE"@ {
                "DELETE"@
            } else {
                "GET"@
            }
        },
        None => if has_body { "POST"@ } else { "GET"@ },
    }
}

fn upper_of(s: &str) -> (r: Vec<char>)
    ensures
        r@ == ascii_upper(s@),
{
    let c = chars_of(s);
    let mut out: Vec<char> = Vec::new();
    for i in 0..c.len()
        invariant
            out@ == ascii_upper(c@.take(i as int)),
    {
        let x = c[i];
        let y = if 'a' <= x && x <= 'z' { ((x as u32) - 32) as u8 as char } else { x };
        out.push(y);
        assert(ascii_upper(c@.take(i + 1)) =~= ascii_upper(c@.take(i as int)).push(y));
    }
    assert(c@.take(c.len() as int) == c@);
    out
}

/// `http_method`.
pub fn http_method(method: Option<&str>, has_body: bool) -> (r: &'static str)
    ensures
        r@ == http_method_spec(
            match method {
                Some(m) => Some(m@),
                None => None,
            },
            has_body,
        ),
{
    match method {
        Some(m) => {
            let u = upper_of(m);
            if crate::text::chars_eq(&u, &chars_of("POST")) {
                "POST"
            } else if crate::text::chars_eq(&u, &chars_of("PUT")) {
                "PUT"
            } else if crate::text::chars_eq(&u, &chars_of("PATCH")) {
                "PATCH"
            } else if crate::text::chars_eq(&u, &chars_of("DELETE")) {
                "DELETE"
            } else {
                "GET"
            }
        },
        None => if has_body {
            "POST"
        } else {
            "GET"
        },
    }
}

/// `is_retryable`: the error text tells of a rate limit, a server error, a failed or timed-out
/// request.
pub open spec fn retryable_spec(msg: Seq<char>) -> bool {
    contains_seq(msg, "HTTP 429"@) || contains_seq(msg, "HTTP 500"@) || contains_seq(msg, "HTTP 502"@)
        || contains_seq(msg, "HTTP 503"@) || contains_seq(msg, "HTTP 504"@) || contains_seq(msg, "failed to fetch"@)
        || contains_seq(msg, "timed out"@) || contains_seq(msg, "error sending request"@)
}

/// `is_retryable`, on the error's full text.
pub fn is_retryable(msg: &str) -> (r: bool)
    ensures
        r == retryable_spec(msg@),
{
    let m = chars_of(msg);
    contains(&m, &chars_of("HTTP 429")) || contains(&m, &chars_of("HTTP 500")) || contains(&m, &chars_of("HTTP 502"))
        || contains(&m, &chars_of("HTTP 503")) || contains(&m, &chars_of("HTTP 504")) || contains(
        &m,
        &chars_of("failed to fetch"),
    ) || contains(&m, &chars_of("timed out")) || contains(&m, &chars_of("error sending request"))
}

} // verus!

verus! {

proof fn lemma_replace_absent(s: Seq<char>, f: Seq<char>, t: Seq<char>)
    requires
        !contains_seq(s, f),
    ensures
        replace_all(s, f, t) == s,
    decreases s.len(),
{
    if f.len() == 0 || s.len() < f.len() {
    } else {
        assert(s.take(f.len() as int) != f) by {
            if s.take(f.len() as int) == f {
                assert(crate::text::occurs_at(s, f, 0));
            }
        }
        assert(!contains_seq(s.skip(1), f)) by {
            if contains_seq(s.skip(1), f) {
                let i = choose|i: int| crate::text::occurs_at(s.skip(1), f, i);
                assert(s.subrange(i + 1, i + 1 + f.len()) =~= s.skip(1).subrange(i, i + f.len()));
                assert(crate::text::occurs_at(s, f, i + 1));
            }
        }
        lemma_replace_absent(s.skip(1), f, t);
        assert(seq![s[0]] + s.skip(1) =~= s);
    }
}

proof fn lemma_group_absent(s: Seq<char>, group: Seq<(Seq<char>, Seq<char>)>, encode: bool)
    requires
        forall|j: int| 0 <= j < group.len() ==> !contains_seq(s, placeholder(#[trigger] group[j].0)),
    ensures
        replace_group(s, group, encode) == s,
    decreases group.len(),
{
    if group.len() > 0 {
        lemma_group_absent(s, group.drop_last(), encode);
        let v = if encode { encode_value_spec(group.last().1) } else { group.last().1 };
        assert(!contains_seq(s, placeholder(group[group.len() - 1].0)));
        lemma_replace_absent(s, placeholder(group.last().0), v);
    }
}

proof fn lemma_down_absent(s: Seq<char>, ps: Seq<(Seq<char>, Seq<char>)>, n: nat, encode: bool)
    requires
        forall|j: int| 0 <= j < ps.len() ==> !contains_seq(s, placeholder(#[trigger] ps[j].0)),
    ensures
        replace_down(s, ps, n, encode) == s,
    decreases n,
{
    let g = with_name_len(ps, n);
    assert forall|j: int| 0 <= j < g.len() implies !contains_seq(s, placeholder(#[trigger] g[j].0)) by {
        assert(g.contains(g[j]));
        ps.lemma_filter_contains_rev(|e: (Seq<char>, Seq<char>)| e.0.len() == n, g[j]);
        let w = choose|w: int| 0 <= w < ps.len() && ps[w] == g[j];
        assert(!contains_seq(s, placeholder(ps[w].0)));
    }
    lemma_group_absent(s, g, encode);
    if n > 0 {
        lemma_down_absent(s, ps, (n - 1) as nat, encode);
    }
}

/// Only placeholders of known parameters are replaced: a text in which none occurs (such as a
/// GraphQL query's own braces) comes back unchanged.
pub proof fn lemma_substitute_known_untouched(s: Seq<char>, ps: Seq<(Seq<char>, Seq<char>)>, encode: bool)
    requires
        forall|j: int| 0 <= j < ps.len() ==> !contains_seq(s, placeholder(#[trigger] ps[j].0)),
    ensures
        substitute_known_spec(s, ps, encode) == s,
{
    lemma_down_absent(s, ps, max_name_len(ps), encode);
}

} // verus!
