//! The path language that addresses values inside a JSON document:
//! `data.items`, `weatherDesc[0].value`, `[].eid`, `author[].family`,
//! `results[?kind=='podcast-episode']`.

use vstd::prelude::*;
use crate::json::{Json, JsonV, member, plain_text, entries_get, item_views, lemma_array_view};
use crate::num::{parse_usize, parse_usize_spec};
use crate::text::{chars_of, chars_eq, trim, trim_chars, slice_chars};

verus! {

/// One step of a path.
pub enum PathToken {
    /// `[]`: stay on the current value.
    Skip,
    /// `name`: a member of an object, an index into an array, or the member of every object item.
    Key(String),
    /// `[n]`: an array item.
    Index(usize),
    /// `[?key==value]`: the array items whose `key` has the plain text `value`.
    Filter { key: String, value: String },
}

/// The mathematical form of a [`PathToken`].
pub enum TokenV {
    Skip,
    Key(Seq<char>),
    Index(nat),
    Filter(Seq<char>, Seq<char>),
}

impl View for PathToken {
    type V = TokenV;

    open spec fn view(&self) -> TokenV {
        match self {
            PathToken::Skip => TokenV::Skip,
            PathToken::Key(k) => TokenV::Key(k@),
            PathToken::Index(i) => TokenV::Index(*i as nat),
            PathToken::Filter { key, value } => TokenV::Filter(key@, value@),
        }
    }
}

/// The position of the first `c` in `s`.
pub open spec fn index_of(s: Seq<char>, c: char) -> Option<nat>
    decreases s.len(),
{
    if s.len() == 0 {
        None
    } else if s[0] == c {
        Some(0)
    } else {
        match index_of(s.skip(1), c) {
            Some(i) => Some(i + 1),
            None => None,
        }
    }
}

/// The length of the leading run of `s` that holds neither `.` nor `[`.
pub open spec fn name_len(s: Seq<char>) -> nat
    decreases s.len(),
{
    if s.len() == 0 || s[0] == '.' || s[0] == '[' {
        0
    } else {
        1 + name_len(s.skip(1))
    }
}

/// The position of the first `==` in `s`.
pub open spec fn index_of_eqeq(s: Seq<char>) -> Option<nat>
    decreases s.len(),
{
    if s.len() < 2 {
        None
    } else if s[0] == '=' && s[1] == '=' {
        Some(0)
    } else {
        match index_of_eqeq(s.skip(1)) {
            Some(i) => Some(i + 1),
            None => None,
        }
    }
}

/// `s` without one pair of matching surrounding quotes (`'..'` or `".."`).
pub open spec fn unquote_spec(s: Seq<char>) -> Seq<char> {
    if s.len() >= 2 && ((s[0] == '\'' && s.last() == '\'') || (s[0] == '"' && s.last() == '"')) {
        s.subrange(1, s.len() - 1)
    } else {
        s
    }
}

/// The filter written inside brackets: `?key==value`, with blanks around both sides
/// and optional quotes around the value.
pub open spec fn filter_spec(inner: Seq<char>) -> Option<TokenV> {
    if inner.len() == 0 || inner[0] != '?' {
        None
    } else {
        let expr = trim(inner.skip(1));
        match index_of_eqeq(expr) {
            None => None,
            Some(p) => {
                let key = trim(expr.take(p as int));
                if key.len() == 0 || p + 2 > expr.len() {
                    None
                } else {
                    Some(TokenV::Filter(key, unquote_spec(trim(expr.skip(p + 2int)))))
                }
            },
        }
    }
}

/// The token written inside brackets: empty, a filter, or an index.
pub open spec fn bracket_spec(inner: Seq<char>) -> Option<TokenV> {
    if inner.len() == 0 {
        Some(TokenV::Skip)
    } else {
        match filter_spec(inner) {
            Some(f) => Some(f),
            None => match parse_usize_spec(inner) {
                Some(n) => Some(TokenV::Index(n as nat)),
                None => None,
            },
        }
    }
}

/// The tokens of a path; `None` when a bracket is not closed or holds neither an index
/// nor a filter.
pub open spec fn tokens_spec(p: Seq<char>) -> Option<Seq<TokenV>>
    decreases p.len(),
{
    if p.len() == 0 {
        Some(Seq::empty())
    } else if p[0] == '.' {
        tokens_spec(p.skip(1))
    } else if p[0] == '[' {
        match index_of(p.skip(1), ']') {
            None => None,
            Some(c) => {
                if c + 2 > p.len() {
                    None
                } else {
                    match bracket_spec(p.subrange(1, 1 + c as int)) {
                        None => None,
                        Some(t) => match tokens_spec(p.skip(c + 2int)) {
                            None => None,
                            Some(rest) => Some(seq![t] + rest),
                        },
                    }
                }
            },
        }
    } else {
        let n = name_len(p);
        if n == 0 || n > p.len() {
            None
        } else {
            match tokens_spec(p.skip(n as int)) {
                None => None,
                Some(rest) => Some(seq![TokenV::Key(p.take(n as int))] + rest),
            }
        }
    }
}

} // verus!

verus! {

proof fn lemma_index_of(s: Seq<char>, c: char, k: int)
    requires
        0 <= k <= s.len(),
        forall|j: int| 0 <= j < k ==> s[j] != c,
        k == s.len() || s[k] == c,
    ensures
        index_of(s, c) == (if k == s.len() { None } else { Some(k as nat) }),
    decreases k,
{
    if k > 0 {
        lemma_index_of(s.skip(1), c, k - 1);
    }
}

proof fn lemma_name_len(s: Seq<char>, k: int)
    requires
        0 <= k <= s.len(),
        forall|j: int| 0 <= j < k ==> s[j] != '.' && s[j] != '[',
        k == s.len() || s[k] == '.' || s[k] == '[',
    ensures
        name_len(s) == k,
    decreases k,
{
    if k > 0 {
        lemma_name_len(s.skip(1), k - 1);
    }
}

proof fn lemma_eqeq(s: Seq<char>, k: int)
    requires
        0 <= k <= s.len(),
        forall|j: int| 0 <= j < k && j + 1 < s.len() ==> !(#[trigger] s[j] == '=' && s[j + 1] == '='),
        k + 1 < s.len() ==> s[k] == '=' && s[k + 1] == '=',
    ensures
        index_of_eqeq(s) == (if k + 1 < s.len() { Some(k as nat) } else { None }),
    decreases k,
{
    if k > 0 && s.len() >= 2 {
        lemma_eqeq(s.skip(1), k - 1);
    }
}

/// The first index at or after `from` holding `c`.
fn find_char_from(s: &[char], c: char, from: usize) -> (r: Option<usize>)
    requires
        from <= s.len(),
    ensures
        match index_of(s@.skip(from as int), c) {
            Some(k) => from + k < s.len() && r == Some((from + k) as usize),
            None => r is None,
        },
        match r {
            Some(j) => from <= j < s.len() && s@[j as int] == c,
            None => true,
        },
{
    let mut i = from;
    while i < s.len() && s[i] != c
        invariant
            from <= i <= s.len(),
            forall|j: int| from <= j < i ==> s@[j] != c,
        decreases s.len() - i,
    {
        i = i + 1;
    }
    proof {
        let t = s@.skip(from as int);
        assert forall|j: int| 0 <= j < i - from implies t[j] != c by {
            assert(t[j] == s@[from + j]);
        }
        lemma_index_of(t, c, i - from);
    }
    if i < s.len() {
        Some(i)
    } else {
        None
    }
}

/// The length of the name starting at `from`.
fn name_len_from(s: &[char], from: usize) -> (r: usize)
    requires
        from <= s.len(),
    ensures
        r == name_len(s@.skip(from as int)),
        from + r <= s.len(),
{
    let mut i = from;
    while i < s.len() && s[i] != '.' && s[i] != '['
        invariant
            from <= i <= s.len(),
            forall|j: int| from <= j < i ==> s@[j] != '.' && s@[j] != '[',
        decreases s.len() - i,
    {
        i = i + 1;
    }
    proof {
        let t = s@.skip(from as int);
        assert forall|j: int| 0 <= j < i - from implies t[j] != '.' && t[j] != '[' by {
            assert(t[j] == s@[from + j]);
        }
        lemma_name_len(t, i - from);
    }
    i - from
}

/// The position of the first `==` in `s`.
fn find_eqeq(s: &[char]) -> (r: Option<usize>)
    ensures
        match index_of_eqeq(s@) {
            Some(k) => r == Some(k as usize) && k + 2 <= s.len(),
            None => r is None,
        },
{
    let mut i: usize = 0;
    while i < s.len() && s.len() - i > 1 && !(s[i] == '=' && s[i + 1] == '=')
        invariant
            i <= s.len(),
            forall|j: int| 0 <= j < i && j + 1 < s.len() ==> !(#[trigger] s@[j] == '=' && s@[j + 1] == '='),
        decreases s.len() - i,
    {
        i = i + 1;
    }
    proof {
        lemma_eqeq(s@, i as int);
    }
    if i < s.len() && s.len() - i > 1 {
        Some(i)
    } else {
        None
    }
}

/// `unquote`: drops one pair of matching surrounding quotes.
pub fn unquote(s: &[char]) -> (r: Vec<char>)
    ensures
        r@ == unquote_spec(s@),
{
    let n = s.len();
    if n >= 2 && ((s[0] == '\'' && s[n - 1] == '\'') || (s[0] == '"' && s[n - 1] == '"')) {
        slice_chars(s, 1, n - 1)
    } else {
        slice_chars(s, 0, n)
    }
}

/// `parse_filter`: reads `?key==value` from the inside of a bracket.
pub fn parse_filter(inner: &[char]) -> (r: Option<PathToken>)
    ensures
        match r {
            Some(t) => filter_spec(inner@) == Some(t@),
            None => filter_spec(inner@) is None,
        },
{
    if inner.len() == 0 || inner[0] != '?' {
        return None;
    }
    let rest = slice_chars(inner, 1, inner.len());
    assert(rest@ == inner@.skip(1));
    let expr = trim_chars(&rest);
    match find_eqeq(&expr) {
        None => None,
        Some(p) => {
            let left = slice_chars(&expr, 0, p);
            let key = trim_chars(&left);
            if key.len() == 0 {
                return None;
            }
            let right = slice_chars(&expr, p + 2, expr.len());
            assert(right@ == expr@.skip(p + 2));
            let value = unquote(&trim_chars(&right));
            Some(PathToken::Filter { key: crate::text::string_of(&key), value: crate::text::string_of(&value) })
        },
    }
}

fn bracket_token(inner: &[char]) -> (r: Option<PathToken>)
    ensures
        match r {
            Some(t) => bracket_spec(inner@) == Some(t@),
            None => bracket_spec(inner@) is None,
        },
{
    if inner.len() == 0 {
        return Some(PathToken::Skip);
    }
    match parse_filter(inner) {
        Some(f) => Some(f),
        None => match parse_usize(inner) {
            Some(n) => Some(PathToken::Index(n)),
            None => None,
        },
    }
}

/// The views of a list of tokens.
pub open spec fn token_views(v: Seq<PathToken>) -> Seq<TokenV> {
    Seq::new(v.len(), |i: int| v[i]@)
}

/// What follows the first token of `p` once `t` is known to be it and `rest` starts at `j`.
pub open spec fn tokens_after(p: Seq<char>, t: TokenV, j: int) -> Option<Seq<TokenV>> {
    match tokens_spec(p.skip(j)) {
        None => None,
        Some(rest) => Some(seq![t] + rest),
    }
}

/// Reads the bracket token that starts at `p[i] == '['`.
fn bracket_step(p: &[char], i: usize) -> (r: Option<(PathToken, usize)>)
    requires
        i < p.len(),
        p@[i as int] == '[',
    ensures
        match r {
            None => tokens_spec(p@.skip(i as int)) is None,
            Some((tok, j)) => i < j <= p.len() && tokens_spec(p@.skip(i as int)) == tokens_after(p@, tok@, j as int),
        },
{
    let ghost t = p@.skip(i as int);
    let ghost q = p@.skip(i + 1);
    assert(t[0] == '[');
    assert(t.skip(1) =~= q);
    match find_char_from(p, ']', i + 1) {
        None => {
            assert(index_of(q, ']') is None);
            None
        },
        Some(close) => {
            let ghost k = (close - i - 1) as int;
            assert(index_of(q, ']') == Some(k as nat));
            let inner = slice_chars(p, i + 1, close);
            assert(inner@ =~= t.subrange(1, 1 + k));
            match bracket_token(&inner) {
                None => None,
                Some(tok) => {
                    assert(t.skip(k + 2) =~= p@.skip(close + 1));
                    Some((tok, close + 1))
                },
            }
        },
    }
}

/// Reads the name token that starts at `p[i]`, which is neither `.` nor `[`.
fn name_step(p: &[char], i: usize) -> (r: (PathToken, usize))
    requires
        i < p.len(),
        p@[i as int] != '[',
        p@[i as int] != '.',
    ensures
        i < r.1 <= p.len(),
        tokens_spec(p@.skip(i as int)) == tokens_after(p@, r.0@, r.1 as int),
{
    let ghost t = p@.skip(i as int);
    assert(t[0] == p@[i as int]);
    let n = name_len_from(p, i);
    assert(t.skip(1) =~= p@.skip(i + 1));
    assert(n > 0);
    let name = slice_chars(p, i, i + n);
    assert(name@ =~= t.take(n as int));
    assert(t.skip(n as int) =~= p@.skip(i + n));
    (PathToken::Key(crate::text::string_of(&name)), i + n)
}

/// `path_tokens`: splits a path into its tokens.
pub fn path_tokens(path: &str) -> (r: Option<Vec<PathToken>>)
    ensures
        match r {
            Some(v) => tokens_spec(path@) == Some(token_views(v@)),
            None => tokens_spec(path@) is None,
        },
{
    let p = chars_of(path);
    let mut toks: Vec<PathToken> = Vec::new();
    let mut i: usize = 0;
    assert(p@.skip(0) == p@);
    assert(token_views(toks@) =~= Seq::<TokenV>::empty());
    while i < p.len()
        invariant
            i <= p.len(),
            p@ == path@,
            tokens_spec(p@) == match tokens_spec(p@.skip(i as int)) {
                None => None,
                Some(rest) => Some(token_views(toks@) + rest),
            },
        decreases p.len() - i,
    {
        let ghost t = p@.skip(i as int);
        assert(t[0] == p@[i as int]);
        if p[i] == '.' {
            assert(t.skip(1) =~= p@.skip(i + 1));
            i = i + 1;
        } else {
            let step = if p[i] == '[' {
                bracket_step(&p, i)
            } else {
                Some(name_step(&p, i))
            };
            match step {
                None => {
                    return None;
                },
                Some((tok, j)) => {
                    let ghost before = token_views(toks@);
                    toks.push(tok);
                    assert(token_views(toks@) =~= before + seq![tok@]);
                    proof {
                        if let Some(rest) = tokens_spec(p@.skip(j as int)) {
                            assert(before + (seq![tok@] + rest) =~= (before + seq![tok@]) + rest);
                        }
                    }
                    i = j;
                },
            }
        }
    }
    assert(p@.skip(i as int).len() == 0);
    assert(token_views(toks@) + Seq::<TokenV>::empty() =~= token_views(toks@));
    Some(toks)
}

} // verus!

verus! {

/// The `k` members of the object items of an array, in order (items without it are left out).
pub open spec fn pluck(items: Seq<JsonV>, k: Seq<char>) -> Seq<JsonV>
    decreases items.len(),
{
    if items.len() == 0 {
        Seq::empty()
    } else {
        let rest = pluck(items.drop_last(), k);
        match items.last() {
            JsonV::Object(m) => match entries_get(m, k) {
                Some(x) => rest.push(x),
                None => rest,
            },
            _ => rest,
        }
    }
}

/// An item passes the filter `[?k==v]` when its member `k` has the plain text `v`.
pub open spec fn filter_matches(item: JsonV, k: Seq<char>, v: Seq<char>) -> bool {
    match member(item, k) {
        Some(x) => plain_text(x) == v,
        None => false,
    }
}

/// The items of an array that pass the filter `[?k==v]`, in order.
pub open spec fn select(items: Seq<JsonV>, k: Seq<char>, v: Seq<char>) -> Seq<JsonV>
    decreases items.len(),
{
    if items.len() == 0 {
        Seq::empty()
    } else {
        let rest = select(items.drop_last(), k, v);
        if filter_matches(items.last(), k, v) {
            rest.push(items.last())
        } else {
            rest
        }
    }
}

/// One step of path resolution. With `derive` false only values that already exist inside the
/// document are reached (no filters, no plucking).
pub open spec fn step_spec(cur: JsonV, t: TokenV, derive: bool) -> Option<JsonV> {
    match t {
        TokenV::Skip => Some(cur),
        TokenV::Key(k) => match cur {
            JsonV::Object(m) => entries_get(m, k),
            JsonV::Array(items) => match parse_usize_spec(k) {
                Some(n) => if (n as int) < items.len() { Some(items[n as int]) } else { None },
                None => if derive { Some(JsonV::Array(pluck(items, k))) } else { None },
            },
            _ => None,
        },
        TokenV::Index(n) => match cur {
            JsonV::Array(items) => if (n as int) < items.len() { Some(items[n as int]) } else { None },
            _ => None,
        },
        TokenV::Filter(k, v) => if derive {
            match cur {
                JsonV::Array(items) => Some(JsonV::Array(select(items, k, v))),
                _ => None,
            }
        } else {
            None
        },
    }
}

/// Following the tokens one by one from `v`.
pub open spec fn apply_tokens(v: JsonV, toks: Seq<TokenV>, derive: bool) -> Option<JsonV>
    decreases toks.len(),
{
    if toks.len() == 0 {
        Some(v)
    } else {
        match step_spec(v, toks[0], derive) {
            None => None,
            Some(n) => apply_tokens(n, toks.skip(1), derive),
        }
    }
}

/// Paths that stand for the whole value: empty, `[]`, `$` and `.`.
pub open spec fn is_whole_path(p: Seq<char>) -> bool {
    p.len() == 0 || p == seq!['[', ']'] || p == seq!['$'] || p == seq!['.']
}

/// The value a path leads to in `v`.
pub open spec fn path_value(v: JsonV, p: Seq<char>, derive: bool) -> Option<JsonV> {
    if is_whole_path(p) {
        Some(v)
    } else {
        match tokens_spec(p) {
            None => None,
            Some(toks) => apply_tokens(v, toks, derive),
        }
    }
}

/// `resolve_json`: the value at `path`; filters and plucks build new arrays.
pub open spec fn resolve_spec(v: JsonV, p: Seq<char>) -> Option<JsonV> {
    path_value(v, p, true)
}

/// `navigate_json`: the value at `path` that already exists inside `v`.
pub open spec fn navigate_spec(v: JsonV, p: Seq<char>) -> Option<JsonV> {
    path_value(v, p, false)
}

/// The views of an optional value.
pub open spec fn opt_view(r: Option<Json>) -> Option<JsonV> {
    match r {
        Some(x) => Some(x@),
        None => None,
    }
}

fn pluck_items(items: &Vec<Json>, key: &str) -> (r: Vec<Json>)
    ensures
        item_views(r@) == pluck(item_views(items@), key@),
{
    let mut out: Vec<Json> = Vec::new();
    let ghost iv = item_views(items@);
    for i in 0..items.len()
        invariant
            iv == item_views(items@),
            item_views(out@) == pluck(iv.take(i as int), key@),
    {
        let ghost before = item_views(out@);
        let ghost t = iv.take(i + 1);
        assert(t.drop_last() == iv.take(i as int));
        assert(t.last() == items@[i as int]@);
        match items[i].get(key) {
            Some(x) => {
                out.push(x.deep_clone());
                assert(item_views(out@) =~= before.push(x@));
            },
            None => {},
        }
    }
    assert(iv.take(items.len() as int) == iv);
    out
}

fn select_items(items: &Vec<Json>, key: &str, value: &str) -> (r: Vec<Json>)
    ensures
        item_views(r@) == select(item_views(items@), key@, value@),
{
    let mut out: Vec<Json> = Vec::new();
    let ghost iv = item_views(items@);
    for i in 0..items.len()
        invariant
            iv == item_views(items@),
            item_views(out@) == select(iv.take(i as int), key@, value@),
    {
        let ghost before = item_views(out@);
        let ghost t = iv.take(i + 1);
        assert(t.drop_last() == iv.take(i as int));
        assert(t.last() == items@[i as int]@);
        let keep = match items[i].get(key) {
            Some(x) => crate::text::str_eq(crate::json::to_plain(x).as_str(), value),
            None => false,
        };
        if keep {
            out.push(items[i].deep_clone());
            assert(item_views(out@) =~= before.push(items@[i as int]@));
        }
    }
    assert(iv.take(items.len() as int) == iv);
    out
}

fn step(cur: &Json, t: &PathToken, derive: bool) -> (r: Option<Json>)
    ensures
        opt_view(r) == step_spec(cur@, t@, derive),
{
    match t {
        PathToken::Skip => Some(cur.deep_clone()),
        PathToken::Key(k) => match cur {
            Json::Object(_) => match cur.get(k.as_str()) {
                Some(x) => Some(x.deep_clone()),
                None => None,
            },
            Json::Array(items) => {
                proof {
                    lemma_array_view(*items);
                }
                let kc = chars_of(k.as_str());
                match parse_usize(&kc) {
                    Some(n) => {
                        if n < items.len() {
                            Some(items[n].deep_clone())
                        } else {
                            None
                        }
                    },
                    None => {
                        if derive {
                            let v = pluck_items(items, k.as_str());
                            proof {
                                lemma_array_view(v);
                            }
                            Some(Json::Array(v))
                        } else {
                            None
                        }
                    },
                }
            },
            _ => None,
        },
        PathToken::Index(n) => match cur {
            Json::Array(items) => {
                proof {
                    lemma_array_view(*items);
                }
                if *n < items.len() {
                    Some(items[*n].deep_clone())
                } else {
                    None
                }
            },
            _ => None,
        },
        PathToken::Filter { key, value } => {
            if derive {
                match cur {
                    Json::Array(items) => {
                        proof {
                            lemma_array_view(*items);
                        }
                        let v = select_items(items, key.as_str(), value.as_str());
                        proof {
                            lemma_array_view(v);
                        }
                        Some(Json::Array(v))
                    },
                    _ => None,
                }
            } else {
                None
            }
        },
    }
}

fn is_whole(p: &[char]) -> (r: bool)
    ensures
        r == is_whole_path(p@),
{
    if p.len() == 0 {
        return true;
    }
    let r = (p.len() == 2 && p[0] == '[' && p[1] == ']') || (p.len() == 1 && (p[0] == '$' || p[0] == '.'));
    proof {
        if p.len() == 2 && p[0] == '[' && p[1] == ']' {
            assert(p@ =~= seq!['[', ']']);
        }
        if p.len() == 1 && p[0] == '$' {
            assert(p@ =~= seq!['$']);
        }
        if p.len() == 1 && p[0] == '.' {
            assert(p@ =~= seq!['.']);
        }
    }
    r
}

fn follow(val: &Json, path: &str, derive: bool) -> (r: Option<Json>)
    ensures
        opt_view(r) == path_value(val@, path@, derive),
{
    let p = chars_of(path);
    if is_whole(&p) {
        return Some(val.deep_clone());
    }
    match path_tokens(path) {
        None => None,
        Some(toks) => {
            let ghost tv = token_views(toks@);
            let mut cur = val.deep_clone();
            assert(tv.skip(0) == tv);
            for i in 0..toks.len()
                invariant
                    tv == token_views(toks@),
                    path_value(val@, path@, derive) == apply_tokens(val@, tv, derive),
                    apply_tokens(val@, tv, derive) == apply_tokens(cur@, tv.skip(i as int), derive),
            {
                assert(tv.skip(i as int)[0] == toks@[i as int]@);
                assert(tv.skip(i as int).skip(1) == tv.skip(i + 1));
                match step(&cur, &toks[i], derive) {
                    None => {
                        return None;
                    },
                    Some(n) => {
                        cur = n;
                    },
                }
            }
            assert(tv.skip(toks.len() as int).len() == 0);
            Some(cur)
        },
    }
}

/// `resolve_json`: the value at `path` inside `val`.
pub fn resolve_json(val: &Json, path: &str) -> (r: Option<Json>)
    ensures
        opt_view(r) == resolve_spec(val@, path@),
{
    follow(val, path, true)
}

/// `navigate_json`: the value at `path` that exists inside `val` (no filters, no plucking).
pub fn navigate_json(val: &Json, path: &str) -> (r: Option<Json>)
    ensures
        opt_view(r) == navigate_spec(val@, path@),
{
    follow(val, path, false)
}

} // verus!

verus! {

proof fn lemma_apply_tokens_derive(v: JsonV, toks: Seq<TokenV>)
    requires
        apply_tokens(v, toks, false) is Some,
    ensures
        apply_tokens(v, toks, true) == apply_tokens(v, toks, false),
    decreases toks.len(),
{
    if toks.len() > 0 {
        let n = step_spec(v, toks[0], false);
        assert(step_spec(v, toks[0], true) == n);
        lemma_apply_tokens_derive(n->0, toks.skip(1));
    }
}

/// Where `navigate_json` finds a value, `resolve_json` finds the same one; both give the
/// whole value for the paths ``, `[]`, `$` and `.`.
pub proof fn lemma_navigate_resolve(v: JsonV, p: Seq<char>)
    ensures
        navigate_spec(v, p) is Some ==> resolve_spec(v, p) == navigate_spec(v, p),
        is_whole_path(p) ==> resolve_spec(v, p) == Some(v) && navigate_spec(v, p) == Some(v),
{
    if !is_whole_path(p) && navigate_spec(v, p) is Some {
        lemma_apply_tokens_derive(v, tokens_spec(p)->0);
    }
}

} // verus!
