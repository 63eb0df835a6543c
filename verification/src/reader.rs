//! Reading JSON text back into values: the grammar of JSON text, read the way `serde_json`
//! reads it into a `Value` (object members land in a map ordered by key, a later member
//! replacing an earlier one of the same key), and the law that JSON output reads back as the
//! items it was written from.

use vstd::prelude::*;
use crate::output::{format_spec, OutputFormat};
use crate::json::{JsonV, key_lt, entries_insert, escaped, escape_char, hex_lower, quoted, json_text, items_text, entries_text, pretty_text, pretty_items, pretty_entries, pretty_sep};

verus! {

/// JSON whitespace.
pub open spec fn is_ws(c: char) -> bool {
    c == ' ' || c == '\t' || c == '\n' || c == '\r'
}

/// The text after its leading whitespace.
pub open spec fn skip_ws(s: Seq<char>) -> Seq<char>
    decreases s.len(),
{
    if s.len() > 0 && is_ws(s[0]) {
        skip_ws(s.skip(1))
    } else {
        s
    }
}

/// An ASCII digit.
pub open spec fn is_digit(c: char) -> bool {
    48 <= (c as u32) && (c as u32) <= 57
}

/// A character that can stand in a number.
pub open spec fn is_num_char(c: char) -> bool {
    is_digit(c) || c == '-' || c == '+' || c == '.' || c == 'e' || c == 'E'
}

/// The number of leading digits.
pub open spec fn digit_run(s: Seq<char>) -> nat
    decreases s.len(),
{
    if s.len() > 0 && is_digit(s[0]) {
        1 + digit_run(s.skip(1))
    } else {
        0
    }
}

/// The number of leading characters that can stand in a number.
pub open spec fn num_run(s: Seq<char>) -> nat
    decreases s.len(),
{
    if s.len() > 0 && is_num_char(s[0]) {
        1 + num_run(s.skip(1))
    } else {
        0
    }
}

/// An exponent part, or nothing: `e` or `E`, an optional sign, digits.
pub open spec fn exp_ok(r: Seq<char>) -> bool {
    r.len() == 0 || ((r[0] == 'e' || r[0] == 'E') && {
        let q = if r.len() > 1 && (r[1] == '+' || r[1] == '-') {
            r.skip(2)
        } else {
            r.skip(1)
        };
        q.len() > 0 && digit_run(q) == q.len()
    })
}

/// An optional fraction part (`.` and digits), then an optional exponent part.
pub open spec fn frac_exp_ok(r: Seq<char>) -> bool {
    if r.len() > 0 && r[0] == '.' {
        let k = digit_run(r.skip(1));
        k > 0 && exp_ok(r.skip((1 + k) as int))
    } else {
        exp_ok(r)
    }
}

/// A JSON number literal: an optional `-`, an integer part without leading zeros, an
/// optional fraction part, an optional exponent part.
pub open spec fn number_literal(t: Seq<char>) -> bool {
    let u = if t.len() > 0 && t[0] == '-' {
        t.skip(1)
    } else {
        t
    };
    let i = digit_run(u);
    &&& forall|j: int| 0 <= j < t.len() ==> is_num_char(#[trigger] t[j])
    &&& i > 0
    &&& (i == 1 || u[0] != '0')
    &&& frac_exp_ok(u.skip(i as int))
}

/// The value of a hexadecimal digit.
pub open spec fn hex_val(c: char) -> Option<nat> {
    let n = c as u32;
    if 48 <= n && n <= 57 {
        Some((n - 48) as nat)
    } else if 97 <= n && n <= 102 {
        Some((n - 87) as nat)
    } else if 65 <= n && n <= 70 {
        Some((n - 55) as nat)
    } else {
        None
    }
}

/// The value of four hexadecimal digits at the start of `s`.
pub open spec fn hex4(s: Seq<char>) -> Option<nat> {
    if s.len() < 4 {
        None
    } else {
        match (hex_val(s[0]), hex_val(s[1]), hex_val(s[2]), hex_val(s[3])) {
            (Some(a), Some(b), Some(c), Some(d)) => Some(4096 * a + 256 * b + 16 * c + d),
            _ => None,
        }
    }
}

/// The character a one-letter escape stands for.
pub open spec fn unescape_char(c: char) -> Option<char> {
    if c == '"' {
        Some('"')
    } else if c == '\\' {
        Some('\\')
    } else if c == '/' {
        Some('/')
    } else if c == 'b' {
        Some('\x08')
    } else if c == 'f' {
        Some('\x0C')
    } else if c == 'n' {
        Some('\n')
    } else if c == 'r' {
        Some('\r')
    } else if c == 't' {
        Some('\t')
    } else {
        None
    }
}

/// A `\u` escape at the start of `s` (`s` starting with `\u`): the character and the number
/// of characters it takes; a high surrogate must be followed by an escaped low surrogate.
pub open spec fn read_unicode_escape(s: Seq<char>) -> Option<(char, nat)> {
    match hex4(s.skip(2)) {
        None => None,
        Some(code) => if 0xD800 <= code && code < 0xDC00 {
            if s.len() >= 12 && s[6] == '\\' && s[7] == 'u' {
                match hex4(s.skip(8)) {
                    Some(low) => if 0xDC00 <= low && low < 0xE000 {
                        Some(((0x10000 + (code - 0xD800) * 1024 + (low - 0xDC00)) as u32 as char, 12))
                    } else {
                        None
                    },
                    None => None,
                }
            } else {
                None
            }
        } else if 0xDC00 <= code && code < 0xE000 {
            None
        } else {
            Some((code as u32 as char, 6))
        },
    }
}

/// The body of a string literal (the text after the opening quote): the string it spells
/// and the text after the closing quote.
pub open spec fn read_str_body(s: Seq<char>) -> Option<(Seq<char>, Seq<char>)>
    decreases s.len(),
{
    if s.len() == 0 {
        None
    } else if s[0] == '"' {
        Some((Seq::empty(), s.skip(1)))
    } else if s[0] == '\\' {
        if s.len() >= 2 && s[1] == 'u' {
            match read_unicode_escape(s) {
                Some((c, n)) => if 2 <= n && n <= s.len() {
                    match read_str_body(s.skip(n as int)) {
                        Some((b, r)) => Some((seq![c] + b, r)),
                        None => None,
                    }
                } else {
                    None
                },
                None => None,
            }
        } else if s.len() >= 2 && unescape_char(s[1]) is Some {
            match read_str_body(s.skip(2)) {
                Some((b, r)) => Some((seq![unescape_char(s[1])->0] + b, r)),
                None => None,
            }
        } else {
            None
        }
    } else if (s[0] as u32) < 0x20 {
        None
    } else {
        match read_str_body(s.skip(1)) {
            Some((b, r)) => Some((seq![s[0]] + b, r)),
            None => None,
        }
    }
}

/// The object entries a list of members makes, each member inserted by key in turn.
pub open spec fn object_of(members: Seq<(Seq<char>, JsonV)>) -> Seq<(Seq<char>, JsonV)>
    decreases members.len(),
{
    if members.len() == 0 {
        Seq::empty()
    } else {
        entries_insert(object_of(members.drop_last()), members.last().0, members.last().1)
    }
}

/// One JSON value at the start of `s` (after whitespace): the value and the text after it.
pub open spec fn read_value(s: Seq<char>) -> Option<(JsonV, Seq<char>)>
    decreases s.len(), 0int,
{
    let t = skip_ws(s);
    if t.len() == 0 || t.len() > s.len() {
        None
    } else if t[0] == 'n' {
        if t.len() >= 4 && t.take(4) == seq!['n', 'u', 'l', 'l'] {
            Some((JsonV::Null, t.skip(4)))
        } else {
            None
        }
    } else if t[0] == 't' {
        if t.len() >= 4 && t.take(4) == seq!['t', 'r', 'u', 'e'] {
            Some((JsonV::Bool(true), t.skip(4)))
        } else {
            None
        }
    } else if t[0] == 'f' {
        if t.len() >= 5 && t.take(5) == seq!['f', 'a', 'l', 's', 'e'] {
            Some((JsonV::Bool(false), t.skip(5)))
        } else {
            None
        }
    } else if t[0] == '"' {
        match read_str_body(t.skip(1)) {
            Some((b, r)) => Some((JsonV::Str(b), r)),
            None => None,
        }
    } else if t[0] == '[' {
        let u = skip_ws(t.skip(1));
        if u.len() > 0 && u[0] == ']' {
            Some((JsonV::Array(Seq::empty()), u.skip(1)))
        } else {
            match read_elems(t.skip(1)) {
                Some((items, r)) => Some((JsonV::Array(items), r)),
                None => None,
            }
        }
    } else if t[0] == '{' {
        let u = skip_ws(t.skip(1));
        if u.len() > 0 && u[0] == '}' {
            Some((JsonV::Object(Seq::empty()), u.skip(1)))
        } else {
            match read_members(t.skip(1)) {
                Some((ms, r)) => Some((JsonV::Object(object_of(ms)), r)),
                None => None,
            }
        }
    } else {
        let n = num_run(t);
        if n <= t.len() && number_literal(t.take(n as int)) {
            Some((JsonV::Number(t.take(n as int)), t.skip(n as int)))
        } else {
            None
        }
    }
}

/// The elements of an array after its `[`: values separated by `,`, then `]`.
pub open spec fn read_elems(s: Seq<char>) -> Option<(Seq<JsonV>, Seq<char>)>
    decreases s.len(), 1int,
{
    match read_value(s) {
        None => None,
        Some((v, r)) => {
            let t = skip_ws(r);
            if t.len() == 0 || t.len() >= s.len() {
                None
            } else if t[0] == ']' {
                Some((seq![v], t.skip(1)))
            } else if t[0] == ',' {
                match read_elems(t.skip(1)) {
                    Some((vs, r2)) => Some((seq![v] + vs, r2)),
                    None => None,
                }
            } else {
                None
            }
        },
    }
}

/// The members of an object after its `{`: `"key": value` pairs separated by `,`, then `}`.
pub open spec fn read_members(s: Seq<char>) -> Option<(Seq<(Seq<char>, JsonV)>, Seq<char>)>
    decreases s.len(), 1int,
{
    let t = skip_ws(s);
    if t.len() == 0 || t.len() > s.len() || t[0] != '"' {
        None
    } else {
        match read_str_body(t.skip(1)) {
            None => None,
            Some((k, r1)) => {
                let u = skip_ws(r1);
                if u.len() == 0 || u.len() > s.len() || u[0] != ':' {
                    None
                } else {
                    match read_value(u.skip(1)) {
                        None => None,
                        Some((v, r2)) => {
                            let w = skip_ws(r2);
                            if w.len() == 0 || w.len() >= s.len() {
                                None
                            } else if w[0] == '}' {
                                Some((seq![(k, v)], w.skip(1)))
                            } else if w[0] == ',' {
                                match read_members(w.skip(1)) {
                                    Some((ms, r3)) => Some((seq![(k, v)] + ms, r3)),
                                    None => None,
                                }
                            } else {
                                None
                            }
                        },
                    }
                }
            },
        }
    }
}

/// A whole JSON text: one value with nothing but whitespace around it.
pub open spec fn read_json(s: Seq<char>) -> Option<JsonV> {
    match read_value(s) {
        Some((v, r)) => if skip_ws(r).len() == 0 {
            Some(v)
        } else {
            None
        },
        None => None,
    }
}

/// A value as it can come out of reading JSON text: numbers are number literals, and object
/// keys are distinct and in ascending order, at every level.
pub open spec fn json_wf(v: JsonV) -> bool
    decreases v,
{
    match v {
        JsonV::Number(t) => number_literal(t),
        JsonV::Array(items) => forall|i: int| 0 <= i < items.len() ==> json_wf(#[trigger] items[i]),
        JsonV::Object(m) => {
            &&& forall|i: int, j: int| 0 <= i < j < m.len() ==> key_lt(#[trigger] m[i].0, #[trigger] m[j].0)
            &&& forall|i: int| 0 <= i < m.len() ==> json_wf(#[trigger] m[i].1)
        },
        _ => true,
    }
}

/// A value that can be written as JSON and read back: its numbers are number literals, at
/// every level (object keys may come in any order, and twice).
pub open spec fn json_readable(v: JsonV) -> bool
    decreases v,
{
    match v {
        JsonV::Number(t) => number_literal(t),
        JsonV::Array(items) => forall|i: int| 0 <= i < items.len() ==> json_readable(#[trigger] items[i]),
        JsonV::Object(m) => forall|i: int| 0 <= i < m.len() ==> json_readable(#[trigger] m[i].1),
        _ => true,
    }
}

/// What reading a value's JSON text gives: the same value, with the members of each object
/// put into a map ordered by key (a later member replacing an earlier one of the same key).
pub open spec fn normalized(v: JsonV) -> JsonV
    decreases v, 0int,
{
    match v {
        JsonV::Array(items) => JsonV::Array(normalized_items(items)),
        JsonV::Object(m) => JsonV::Object(object_of(normalized_members(m))),
        _ => v,
    }
}

/// [`normalized`] of each item.
pub open spec fn normalized_items(items: Seq<JsonV>) -> Seq<JsonV>
    decreases items, 1int,
{
    if items.len() == 0 {
        Seq::empty()
    } else {
        seq![normalized(items[0])] + normalized_items(items.subrange(1, items.len() as int))
    }
}

/// Each member with its value [`normalized`].
pub open spec fn normalized_members(m: Seq<(Seq<char>, JsonV)>) -> Seq<(Seq<char>, JsonV)>
    decreases m, 1int,
{
    if m.len() == 0 {
        Seq::empty()
    } else {
        seq![(m[0].0, normalized(m[0].1))] + normalized_members(m.subrange(1, m.len() as int))
    }
}

#[verifier::spinoff_prover]
proof fn lemma_escaped_concat(a: Seq<char>, b: Seq<char>)
    ensures
        escaped(a + b) == escaped(a) + escaped(b),
    decreases b.len(),
{
    if b.len() == 0 {
        assert(a + b =~= a);
        assert(escaped(a) + escaped(b) =~= escaped(a));
    } else {
        lemma_escaped_concat(a, b.drop_last());
        assert((a + b).drop_last() =~= a + b.drop_last());
        assert((a + b).last() == b.last());
        assert(escaped(a) + escaped(b.drop_last()) + escape_char(b.last()) =~= escaped(a) + (escaped(
            b.drop_last(),
        ) + escape_char(b.last())));
    }
}

#[verifier::spinoff_prover]
proof fn lemma_hex_digit(d: nat)
    requires
        d < 16,
    ensures
        hex_val(hex_lower(d)) == Some(d),
        !is_ws(hex_lower(d)),
        hex_lower(d) != '\n',
{
}

/// Reading one written character: what `escape_char(c)` spells comes back as `c`.
pub open spec fn read_after(c: char, r: Option<(Seq<char>, Seq<char>)>) -> Option<(Seq<char>, Seq<char>)> {
    match r {
        Some((b, rest)) => Some((seq![c] + b, rest)),
        None => None,
    }
}

#[verifier::spinoff_prover]
proof fn lemma_read_control_char(c: char, tail: Seq<char>)
    requires
        (c as u32) < 0x20,
        c != '\n' && c != '\r' && c != '\t' && c != '\x08' && c != '\x0C',
    ensures
        read_str_body(escape_char(c) + tail) == read_after(c, read_str_body(tail)),
{
    let s = escape_char(c) + tail;
    let hi = (c as u32 / 16) as nat;
    let lo = (c as u32 % 16) as nat;
    lemma_hex_digit(hi);
    lemma_hex_digit(lo);
    assert(escape_char(c) =~= seq!['\\', 'u', '0', '0', hex_lower(hi), hex_lower(lo)]);
    assert(s[0] == '\\');
    assert(s[1] == 'u');
    let h = s.skip(2);
    assert(h[0] == '0' && h[1] == '0' && h[2] == hex_lower(hi) && h[3] == hex_lower(lo));
    assert(hex_val('0') == Some(0nat));
    assert(hex4(h) == Some(4096 * 0 + 256 * 0 + 16 * hi + lo));
    assert(16 * hi + lo == c as u32);
    vstd::utf8::char_u32_cast(c, c as u32);
    assert(((16 * hi + lo) as u32) as char == c);
    assert(read_unicode_escape(s) == Some((c, 6nat)));
    assert(s.skip(6) =~= tail);
}

#[verifier::spinoff_prover]
proof fn lemma_read_char(c: char, tail: Seq<char>)
    ensures
        read_str_body(escape_char(c) + tail) == read_after(c, read_str_body(tail)),
{
    let e = escape_char(c);
    let s = e + tail;
    if c == '"' || c == '\\' || c == '\n' || c == '\r' || c == '\t' || c == '\x08' || c == '\x0C' {
        assert(e.len() == 2);
        assert(s[0] == '\\');
        assert(s[1] == e[1]);
        assert(unescape_char(s[1]) == Some(c));
        assert(s.skip(2) =~= tail);
    } else if (c as u32) < 0x20 {
        lemma_read_control_char(c, tail);
    } else {
        assert(e =~= seq![c]);
        assert(s[0] == c);
        assert(s.skip(1) =~= tail);
    }
}

#[verifier::spinoff_prover]
proof fn lemma_read_str(x: Seq<char>, rest: Seq<char>)
    ensures
        read_str_body(escaped(x) + seq!['"'] + rest) == Some((x, rest)),
    decreases x.len(),
{
    let s = escaped(x) + seq!['"'] + rest;
    if x.len() == 0 {
        assert(escaped(x) =~= Seq::<char>::empty());
        assert(s =~= seq!['"'] + rest);
        assert(s.skip(1) =~= rest);
    } else {
        let c = x[0];
        let y = x.skip(1);
        assert(seq![c] + y =~= x);
        lemma_escaped_concat(seq![c], y);
        assert(seq![c].drop_last() =~= Seq::<char>::empty());
        assert(escaped(Seq::<char>::empty()) =~= Seq::<char>::empty());
        assert(Seq::<char>::empty() + escape_char(c) =~= escape_char(c));
        assert(escaped(seq![c]) =~= escape_char(c));
        let tail = escaped(y) + seq!['"'] + rest;
        assert(s =~= escape_char(c) + tail);
        lemma_read_str(y, rest);
        lemma_read_char(c, tail);
    }
}

#[verifier::spinoff_prover]
proof fn lemma_num_scan(t: Seq<char>, rest: Seq<char>)
    requires
        forall|j: int| 0 <= j < t.len() ==> is_num_char(#[trigger] t[j]),
        rest.len() == 0 || !is_num_char(rest[0]),
    ensures
        num_run(t + rest) == t.len(),
    decreases t.len(),
{
    if t.len() == 0 {
        assert(t + rest =~= rest);
    } else {
        assert((t + rest).skip(1) =~= t.skip(1) + rest);
        assert(forall|j: int| 0 <= j < t.skip(1).len() ==> t.skip(1)[j] == t[j + 1]);
        lemma_num_scan(t.skip(1), rest);
    }
}

#[verifier::rlimit(60)]
#[verifier::spinoff_prover]
proof fn lemma_items_text_front(items: Seq<JsonV>)
    requires
        items.len() >= 2,
    ensures
        items_text(items) == json_text(items[0]) + seq![','] + items_text(items.skip(1)),
    decreases items.len(),
{
    let n = items.len();
    let p = items.subrange(0, n - 1);
    let q = items.skip(1);
    assert(q.subrange(0, q.len() - 1) =~= p.skip(1));
    assert(q[q.len() - 1] == items[n - 1]);
    if n == 2 {
        assert(p.len() == 1);
        assert(q.len() == 1);
        assert(items_text(q) =~= json_text(items[1]));
        assert(items_text(p) =~= json_text(items[0]));
        assert(items_text(items) =~= json_text(items[0]) + seq![','] + json_text(items[1]));
    } else {
        lemma_items_text_front(p);
        assert(items_text(q) =~= items_text(p.skip(1)) + seq![','] + json_text(items[n - 1]));
        assert(items_text(items) =~= items_text(p) + seq![','] + json_text(items[n - 1]));
        assert(p[0] == items[0]);
        assert(json_text(items[0]) + seq![','] + items_text(p.skip(1)) + seq![','] + json_text(items[n - 1])
            =~= json_text(items[0]) + seq![','] + (items_text(p.skip(1)) + seq![','] + json_text(items[n - 1])));
    }
}

/// The text of one object member.
pub open spec fn member_text(e: (Seq<char>, JsonV)) -> Seq<char> {
    quoted(e.0) + seq![':'] + json_text(e.1)
}

#[verifier::rlimit(60)]
#[verifier::spinoff_prover]
proof fn lemma_entries_text_front(m: Seq<(Seq<char>, JsonV)>)
    requires
        m.len() >= 2,
    ensures
        entries_text(m) == member_text(m[0]) + seq![','] + entries_text(m.skip(1)),
    decreases m.len(),
{
    let n = m.len();
    let p = m.subrange(0, n - 1);
    let q = m.skip(1);
    assert(q.subrange(0, q.len() - 1) =~= p.skip(1));
    assert(q[q.len() - 1] == m[n - 1]);
    if n == 2 {
        assert(p.len() == 1);
        assert(q.len() == 1);
        assert(entries_text(q) =~= member_text(m[1]));
        assert(entries_text(p) =~= member_text(m[0]));
        assert(entries_text(m) =~= member_text(m[0]) + seq![','] + member_text(m[1]));
    } else {
        lemma_entries_text_front(p);
        assert(p[0] == m[0]);
        assert(entries_text(q) =~= entries_text(p.skip(1)) + seq![','] + member_text(m[n - 1]));
        assert(entries_text(m) =~= entries_text(p) + seq![','] + member_text(m[n - 1]));
        assert(member_text(m[0]) + seq![','] + entries_text(p.skip(1)) + seq![','] + member_text(m[n - 1])
            =~= member_text(m[0]) + seq![','] + (entries_text(p.skip(1)) + seq![','] + member_text(m[n - 1])));
    }
}

#[verifier::spinoff_prover]
proof fn lemma_text_start(v: JsonV)
    requires
        json_readable(v),
    ensures
        json_text(v).len() > 0,
        !is_ws(json_text(v)[0]),
        json_text(v)[0] != ']',
        json_text(v)[0] != '}',
        json_text(v)[0] != ',',
{
    match v {
        JsonV::Number(t) => {
            assert(t.len() > 0) by {
                if t.len() == 0 {
                    assert(digit_run(t) == 0);
                }
            }
            assert(is_num_char(t[0]));
        },
        JsonV::Str(x) => {
            assert(json_text(v)[0] == '"');
        },
        JsonV::Array(items) => {
            assert(json_text(v)[0] == '[');
        },
        JsonV::Object(m) => {
            assert(json_text(v)[0] == '{');
        },
        _ => {},
    }
}

#[verifier::spinoff_prover]
proof fn lemma_insert_greatest(m: Seq<(Seq<char>, JsonV)>, k: Seq<char>, v: JsonV)
    requires
        forall|i: int| 0 <= i < m.len() ==> key_lt(#[trigger] m[i].0, k),
    ensures
        entries_insert(m, k, v) == m.push((k, v)),
    decreases m.len(),
{
    if m.len() == 0 {
        assert(seq![(k, v)] =~= m.push((k, v)));
    } else {
        crate::help::lemma_key_lt_asym(m[0].0, k);
        crate::help::lemma_key_lt_asym(k, k);
        assert(key_lt(m[0].0, k));
        assert(m[0].0 != k);
        assert(!key_lt(k, m[0].0));
        assert(forall|i: int| 0 <= i < m.skip(1).len() ==> m.skip(1)[i] == m[i + 1]);
        lemma_insert_greatest(m.skip(1), k, v);
        assert(seq![m[0]] + m.skip(1).push((k, v)) =~= m.push((k, v)));
    }
}

#[verifier::spinoff_prover]
proof fn lemma_object_of_sorted(m: Seq<(Seq<char>, JsonV)>)
    requires
        forall|i: int, j: int| 0 <= i < j < m.len() ==> key_lt(#[trigger] m[i].0, #[trigger] m[j].0),
    ensures
        object_of(m) == m,
    decreases m.len(),
{
    if m.len() == 0 {
        assert(object_of(m) =~= m);
    } else {
        let p = m.drop_last();
        assert(forall|i: int| 0 <= i < p.len() ==> p[i] == m[i]);
        lemma_object_of_sorted(p);
        assert forall|i: int| 0 <= i < p.len() implies key_lt(#[trigger] p[i].0, m.last().0) by {
            assert(key_lt(m[i].0, m[m.len() - 1].0));
        }
        lemma_insert_greatest(p, m.last().0, m.last().1);
        assert(p.push((m.last().0, m.last().1)) =~= m);
    }
}

#[verifier::rlimit(80)]
#[verifier::spinoff_prover]
proof fn lemma_read_value(v: JsonV, rest: Seq<char>)
    requires
        json_readable(v),
        rest.len() == 0 || !is_num_char(rest[0]),
    ensures
        read_value(json_text(v) + rest) == Some((normalized(v), rest)),
    decreases v, 0int,
{
    let s = json_text(v) + rest;
    lemma_text_start(v);
    assert(s[0] == json_text(v)[0]);
    assert(skip_ws(s) == s);
    match v {
        JsonV::Null => {
            assert(s.take(4) =~= seq!['n', 'u', 'l', 'l']);
            assert(s.skip(4) =~= rest);
        },
        JsonV::Bool(b) => {
            if b {
                assert(s.take(4) =~= seq!['t', 'r', 'u', 'e']);
                assert(s.skip(4) =~= rest);
            } else {
                assert(s.take(5) =~= seq!['f', 'a', 'l', 's', 'e']);
                assert(s.skip(5) =~= rest);
            }
        },
        JsonV::Number(t) => {
            assert(is_num_char(t[0]));
            lemma_num_scan(t, rest);
            assert(s.take(t.len() as int) =~= t);
            assert(s.skip(t.len() as int) =~= rest);
        },
        JsonV::Str(x) => {
            assert(s.skip(1) =~= escaped(x) + seq!['"'] + rest);
            lemma_read_str(x, rest);
        },
        JsonV::Array(items) => {
            let body = s.skip(1);
            if items.len() == 0 {
                assert(items_text(items) =~= Seq::<char>::empty());
                assert(body =~= seq![']'] + rest);
                assert(skip_ws(body) == body);
                assert(body.skip(1) =~= rest);
                assert(items =~= Seq::<JsonV>::empty());
                assert(normalized_items(items) =~= Seq::<JsonV>::empty());
            } else {
                assert(body =~= items_text(items) + seq![']'] + rest);
                assert(json_readable(items[0]));
                lemma_text_start(items[0]);
                if items.len() >= 2 {
                    lemma_items_text_front(items);
                }
                assert(body[0] == json_text(items[0])[0]);
                assert(skip_ws(body) == body);
                assert(decreases_to!(v => items));
                lemma_read_elems(items, rest);
            }
        },
        JsonV::Object(m) => {
            let body = s.skip(1);
            if m.len() == 0 {
                assert(entries_text(m) =~= Seq::<char>::empty());
                assert(body =~= seq!['}'] + rest);
                assert(skip_ws(body) == body);
                assert(body.skip(1) =~= rest);
                assert(m =~= Seq::<(Seq<char>, JsonV)>::empty());
                assert(normalized_members(m) =~= Seq::<(Seq<char>, JsonV)>::empty());
                assert(object_of(normalized_members(m)) =~= Seq::<(Seq<char>, JsonV)>::empty());
            } else {
                assert(body =~= entries_text(m) + seq!['}'] + rest);
                if m.len() >= 2 {
                    lemma_entries_text_front(m);
                }
                assert(body[0] == '"');
                assert(skip_ws(body) == body);
                assert(decreases_to!(v => m));
                lemma_read_members(m, rest);
            }
        },
    }
}

#[verifier::rlimit(80)]
#[verifier::spinoff_prover]
proof fn lemma_read_elems(items: Seq<JsonV>, rest: Seq<char>)
    requires
        items.len() >= 1,
        forall|i: int| 0 <= i < items.len() ==> json_readable(#[trigger] items[i]),
    ensures
        read_elems(items_text(items) + seq![']'] + rest) == Some((normalized_items(items), rest)),
    decreases items, 1int,
{
    let s = items_text(items) + seq![']'] + rest;
    let v = items[0];
    assert(json_readable(v));
    lemma_text_start(v);
    assert(decreases_to!(items => items[0]));
    let q = items.skip(1);
    let r = if items.len() == 1 {
        seq![']'] + rest
    } else {
        seq![','] + items_text(q) + seq![']'] + rest
    };
    if items.len() == 1 {
        assert(items_text(items) == json_text(v));
    } else {
        lemma_items_text_front(items);
    }
    assert(s =~= json_text(v) + r);
    lemma_read_value(v, r);
    assert(skip_ws(r) == r);
    lemma_elems_step(s, normalized(v), r);
    if items.len() == 1 {
        assert(r.skip(1) =~= rest);
        assert(items.subrange(1, items.len() as int) =~= Seq::<JsonV>::empty());
        assert(seq![normalized(v)] + Seq::<JsonV>::empty() =~= seq![normalized(v)]);
    } else {
        assert(r.skip(1) =~= items_text(q) + seq![']'] + rest);
        assert(forall|i: int| 0 <= i < q.len() ==> q[i] == items[i + 1]);
        assert(q == items.subrange(1, items.len() as int));
        assert(decreases_to!(items => items.subrange(1, items.len() as int)));
        lemma_read_elems(q, rest);
        assert(normalized_items(items) == seq![normalized(v)] + normalized_items(q));
    }
}

#[verifier::spinoff_prover]
proof fn lemma_members_step(s: Seq<char>, k: Seq<char>, v: JsonV, r1: Seq<char>, r: Seq<char>)
    requires
        s.len() > 0,
        s[0] == '"',
        read_str_body(s.skip(1)) == Some((k, r1)),
        r1.len() > 0,
        r1[0] == ':',
        r1.len() <= s.len(),
        read_value(r1.skip(1)) == Some((v, r)),
        r.len() > 0,
        r.len() < s.len(),
        r[0] == '}' || r[0] == ',',
    ensures
        read_members(s) == (if r[0] == '}' {
            Some((seq![(k, v)], r.skip(1)))
        } else {
            match read_members(r.skip(1)) {
                Some((ms, r3)) => Some((seq![(k, v)] + ms, r3)),
                None => None,
            }
        }),
{
    assert(skip_ws(s) == s);
    assert(skip_ws(r1) == r1);
    assert(skip_ws(r) == r);
}

#[verifier::spinoff_prover]
proof fn lemma_member_split(k: Seq<char>, v: JsonV, r: Seq<char>)
    ensures
        (member_text((k, v)) + r).len() > 0,
        (member_text((k, v)) + r)[0] == '"',
        (member_text((k, v)) + r).skip(1) == escaped(k) + seq!['"'] + (seq![':'] + json_text(v) + r),
        (seq![':'] + json_text(v) + r).skip(1) == json_text(v) + r,
        (seq![':'] + json_text(v) + r).len() < (member_text((k, v)) + r).len(),
{
    assert((member_text((k, v)) + r).skip(1) =~= escaped(k) + seq!['"'] + (seq![':'] + json_text(v) + r));
    assert((seq![':'] + json_text(v) + r).skip(1) =~= json_text(v) + r);
}

#[verifier::spinoff_prover]
proof fn lemma_entries_tail(m: Seq<(Seq<char>, JsonV)>, rest: Seq<char>)
    requires
        m.len() >= 1,
    ensures
        entries_text(m) + seq!['}'] + rest == member_text(m[0]) + (if m.len() == 1 {
            seq!['}'] + rest
        } else {
            seq![','] + entries_text(m.skip(1)) + seq!['}'] + rest
        }),
{
    if m.len() == 1 {
        assert(entries_text(m) == member_text(m[0]));
        assert(entries_text(m) + seq!['}'] + rest =~= member_text(m[0]) + (seq!['}'] + rest));
    } else {
        lemma_entries_text_front(m);
        assert(entries_text(m) + seq!['}'] + rest =~= member_text(m[0]) + (seq![','] + entries_text(m.skip(1))
            + seq!['}'] + rest));
    }
}

#[verifier::rlimit(80)]
#[verifier::spinoff_prover]
proof fn lemma_read_members(m: Seq<(Seq<char>, JsonV)>, rest: Seq<char>)
    requires
        m.len() >= 1,
        forall|i: int| 0 <= i < m.len() ==> json_readable(#[trigger] m[i].1),
    ensures
        read_members(entries_text(m) + seq!['}'] + rest) == Some((normalized_members(m), rest)),
    decreases m, 1int,
{
    let k = m[0].0;
    let v = m[0].1;
    assert(m[0] == (k, v));
    assert(json_readable(v));
    lemma_text_start(v);
    assert(decreases_to!(m => m[0]));
    assert(decreases_to!(m[0] => m[0].1));
    let q = m.skip(1);
    let r = if m.len() == 1 {
        seq!['}'] + rest
    } else {
        seq![','] + entries_text(q) + seq!['}'] + rest
    };
    lemma_entries_tail(m, rest);
    let s = member_text((k, v)) + r;
    let r1 = seq![':'] + json_text(v) + r;
    lemma_member_split(k, v, r);
    lemma_read_str(k, r1);
    lemma_read_value(v, r);
    assert(r.len() > 0 && (r[0] == '}' || r[0] == ','));
    lemma_members_step(s, k, normalized(v), r1, r);
    if m.len() == 1 {
        assert(r.skip(1) =~= rest);
        assert(m.subrange(1, m.len() as int) =~= Seq::<(Seq<char>, JsonV)>::empty());
        assert(seq![(k, normalized(v))] + Seq::<(Seq<char>, JsonV)>::empty() =~= seq![(k, normalized(v))]);
    } else {
        assert(r.skip(1) =~= entries_text(q) + seq!['}'] + rest);
        assert(forall|i: int| 0 <= i < q.len() ==> q[i] == m[i + 1]);
        assert(q == m.subrange(1, m.len() as int));
        assert(decreases_to!(m => m.subrange(1, m.len() as int)));
        lemma_read_members(q, rest);
        assert(normalized_members(m) == seq![(k, normalized(v))] + normalized_members(q));
    }
}

/// A text without a line break.
pub open spec fn one_line(s: Seq<char>) -> bool {
    forall|j: int| 0 <= j < s.len() ==> s[j] != '\n'
}

#[verifier::spinoff_prover]
proof fn lemma_one_line_concat(a: Seq<char>, b: Seq<char>)
    requires
        one_line(a),
        one_line(b),
    ensures
        one_line(a + b),
{
    assert forall|j: int| 0 <= j < (a + b).len() implies (a + b)[j] != '\n' by {
        if j < a.len() {
            assert((a + b)[j] == a[j]);
        } else {
            assert((a + b)[j] == b[j - a.len()]);
        }
    }
}

#[verifier::spinoff_prover]
proof fn lemma_escaped_one_line(x: Seq<char>)
    ensures
        one_line(escaped(x)),
    decreases x.len(),
{
    if x.len() > 0 {
        lemma_escaped_one_line(x.drop_last());
        let c = x.last();
        let e = escape_char(c);
        if (c as u32) < 0x20 && c != '\n' && c != '\r' && c != '\t' && c != '\x08' && c != '\x0C' {
            lemma_hex_digit((c as u32 / 16) as nat);
            lemma_hex_digit((c as u32 % 16) as nat);
        }
        assert(one_line(e));
        lemma_one_line_concat(escaped(x.drop_last()), e);
    }
}

#[verifier::spinoff_prover]
proof fn lemma_quoted_one_line(x: Seq<char>)
    ensures
        one_line(quoted(x)),
{
    lemma_escaped_one_line(x);
    lemma_one_line_concat(seq!['"'], escaped(x));
    lemma_one_line_concat(seq!['"'] + escaped(x), seq!['"']);
}

#[verifier::spinoff_prover]
proof fn lemma_text_one_line(v: JsonV)
    requires
        json_readable(v),
    ensures
        one_line(json_text(v)),
    decreases v, 0int,
{
    match v {
        JsonV::Number(t) => {
            assert forall|j: int| 0 <= j < t.len() implies t[j] != '\n' by {
                assert(is_num_char(t[j]));
            }
        },
        JsonV::Str(x) => {
            lemma_quoted_one_line(x);
        },
        JsonV::Array(items) => {
            assert(decreases_to!(v => items));
            lemma_items_one_line(items);
            lemma_one_line_concat(seq!['['], items_text(items));
            lemma_one_line_concat(seq!['['] + items_text(items), seq![']']);
        },
        JsonV::Object(m) => {
            assert(decreases_to!(v => m));
            lemma_entries_one_line(m);
            lemma_one_line_concat(seq!['{'], entries_text(m));
            lemma_one_line_concat(seq!['{'] + entries_text(m), seq!['}']);
        },
        _ => {},
    }
}

#[verifier::spinoff_prover]
proof fn lemma_items_one_line(items: Seq<JsonV>)
    requires
        forall|i: int| 0 <= i < items.len() ==> json_readable(#[trigger] items[i]),
    ensures
        one_line(items_text(items)),
    decreases items, 1int,
{
    let n = items.len();
    if n == 1 {
        assert(decreases_to!(items => items[0]));
        lemma_text_one_line(items[0]);
    } else if n >= 2 {
        let p = items.subrange(0, n - 1);
        assert(forall|i: int| 0 <= i < p.len() ==> p[i] == items[i]);
        assert(decreases_to!(items => p));
        assert(decreases_to!(items => items[n - 1]));
        lemma_items_one_line(p);
        lemma_text_one_line(items[n - 1]);
        lemma_one_line_concat(items_text(p), seq![',']);
        lemma_one_line_concat(items_text(p) + seq![','], json_text(items[n - 1]));
    }
}

#[verifier::spinoff_prover]
proof fn lemma_member_one_line(e: (Seq<char>, JsonV))
    requires
        json_readable(e.1),
    ensures
        one_line(member_text(e)),
    decreases e, 0int,
{
    assert(decreases_to!(e => e.1));
    lemma_quoted_one_line(e.0);
    lemma_text_one_line(e.1);
    lemma_one_line_concat(quoted(e.0), seq![':']);
    lemma_one_line_concat(quoted(e.0) + seq![':'], json_text(e.1));
}

#[verifier::spinoff_prover]
proof fn lemma_entries_one_line(m: Seq<(Seq<char>, JsonV)>)
    requires
        forall|i: int| 0 <= i < m.len() ==> json_readable(#[trigger] m[i].1),
    ensures
        one_line(entries_text(m)),
    decreases m, 1int,
{
    let n = m.len();
    if n == 1 {
        assert(decreases_to!(m => m[0]));
        lemma_member_one_line(m[0]);
        assert(entries_text(m) == member_text(m[0]));
    } else if n >= 2 {
        let p = m.subrange(0, n - 1);
        assert(forall|i: int| 0 <= i < p.len() ==> p[i] == m[i]);
        assert(decreases_to!(m => p));
        assert(decreases_to!(m => m[n - 1]));
        lemma_entries_one_line(p);
        lemma_member_one_line(m[n - 1]);
        assert(entries_text(m) =~= entries_text(p) + seq![','] + member_text(m[n - 1]));
        lemma_one_line_concat(entries_text(p), seq![',']);
        lemma_one_line_concat(entries_text(p) + seq![','], member_text(m[n - 1]));
    }
}

/// A text made of whitespace only.
pub open spec fn all_ws(w: Seq<char>) -> bool {
    forall|j: int| 0 <= j < w.len() ==> is_ws(#[trigger] w[j])
}

#[verifier::spinoff_prover]
proof fn lemma_skip_ws_prefix(w: Seq<char>, x: Seq<char>)
    requires
        all_ws(w),
        x.len() == 0 || !is_ws(x[0]),
    ensures
        skip_ws(w + x) == x,
    decreases w.len(),
{
    if w.len() == 0 {
        assert(w + x =~= x);
    } else {
        assert(is_ws(w[0]));
        assert((w + x)[0] == w[0]);
        assert((w + x).skip(1) =~= w.skip(1) + x);
        assert(all_ws(w.skip(1))) by {
            assert forall|j: int| 0 <= j < w.skip(1).len() implies is_ws(#[trigger] w.skip(1)[j]) by {
                assert(w.skip(1)[j] == w[j + 1]);
            }
        }
        lemma_skip_ws_prefix(w.skip(1), x);
    }
}

#[verifier::spinoff_prover]
proof fn lemma_skip_ws_len(s: Seq<char>)
    ensures
        skip_ws(s).len() <= s.len(),
    decreases s.len(),
{
    if s.len() > 0 && is_ws(s[0]) {
        lemma_skip_ws_len(s.skip(1));
    }
}

#[verifier::spinoff_prover]
proof fn lemma_indent_ws(ind: Seq<char>)
    requires
        all_ws(ind),
    ensures
        all_ws(seq!['\n'] + ind),
        all_ws(ind + seq![' ', ' ']),
        all_ws(seq![' ']),
{
    let a = seq!['\n'] + ind;
    let b = ind + seq![' ', ' '];
    assert forall|j: int| 0 <= j < a.len() implies is_ws(#[trigger] a[j]) by {
        if j > 0 {
            assert(a[j] == ind[j - 1]);
        }
    }
    assert forall|j: int| 0 <= j < b.len() implies is_ws(#[trigger] b[j]) by {
        if j < ind.len() {
            assert(b[j] == ind[j]);
        }
    }
}

#[verifier::spinoff_prover]
proof fn lemma_read_value_ws(w: Seq<char>, x: Seq<char>)
    requires
        all_ws(w),
        x.len() > 0,
        !is_ws(x[0]),
    ensures
        read_value(w + x) == read_value(x),
{
    lemma_skip_ws_prefix(w, x);
    assert(skip_ws(x) == x);
}

#[verifier::spinoff_prover]
proof fn lemma_value_array_step(s: Seq<char>, items: Seq<JsonV>, rest: Seq<char>)
    requires
        s.len() > 0,
        s[0] == '[',
        skip_ws(s.skip(1)).len() > 0,
        skip_ws(s.skip(1))[0] != ']',
        read_elems(s.skip(1)) == Some((items, rest)),
    ensures
        read_value(s) == Some((JsonV::Array(items), rest)),
{
    assert(skip_ws(s) == s);
}

#[verifier::spinoff_prover]
proof fn lemma_value_object_step(s: Seq<char>, ms: Seq<(Seq<char>, JsonV)>, rest: Seq<char>)
    requires
        s.len() > 0,
        s[0] == '{',
        skip_ws(s.skip(1)).len() > 0,
        skip_ws(s.skip(1))[0] != '}',
        read_members(s.skip(1)) == Some((ms, rest)),
    ensures
        read_value(s) == Some((JsonV::Object(object_of(ms)), rest)),
{
    assert(skip_ws(s) == s);
}

#[verifier::spinoff_prover]
proof fn lemma_elems_step(s: Seq<char>, v: JsonV, r: Seq<char>)
    requires
        read_value(s) == Some((v, r)),
        skip_ws(r).len() > 0,
        skip_ws(r).len() < s.len(),
        skip_ws(r)[0] == ']' || skip_ws(r)[0] == ',',
    ensures
        read_elems(s) == (if skip_ws(r)[0] == ']' {
            Some((seq![v], skip_ws(r).skip(1)))
        } else {
            match read_elems(skip_ws(r).skip(1)) {
                Some((vs, r2)) => Some((seq![v] + vs, r2)),
                None => None,
            }
        }),
{
}

#[verifier::spinoff_prover]
proof fn lemma_members_step_ws(s: Seq<char>, k: Seq<char>, v: JsonV, r1: Seq<char>, r: Seq<char>)
    requires
        skip_ws(s).len() > 0,
        skip_ws(s).len() <= s.len(),
        skip_ws(s)[0] == '"',
        read_str_body(skip_ws(s).skip(1)) == Some((k, r1)),
        skip_ws(r1).len() > 0,
        skip_ws(r1).len() <= s.len(),
        skip_ws(r1)[0] == ':',
        read_value(skip_ws(r1).skip(1)) == Some((v, r)),
        skip_ws(r).len() > 0,
        skip_ws(r).len() < s.len(),
        skip_ws(r)[0] == '}' || skip_ws(r)[0] == ',',
    ensures
        read_members(s) == (if skip_ws(r)[0] == '}' {
            Some((seq![(k, v)], skip_ws(r).skip(1)))
        } else {
            match read_members(skip_ws(r).skip(1)) {
                Some((ms, r3)) => Some((seq![(k, v)] + ms, r3)),
                None => None,
            }
        }),
{
}

/// One element of a pretty array at indentation `ind`, with the line break before it.
pub open spec fn pretty_elem(v: JsonV, ind: Seq<char>) -> Seq<char> {
    seq!['\n'] + ind + pretty_text(v, ind)
}

/// One member of a pretty object at indentation `ind`, with the line break before it.
pub open spec fn pretty_member(e: (Seq<char>, JsonV), ind: Seq<char>) -> Seq<char> {
    seq!['\n'] + ind + quoted(e.0) + seq![':', ' '] + pretty_text(e.1, ind)
}

#[verifier::rlimit(60)]
#[verifier::spinoff_prover]
proof fn lemma_pretty_items_front(items: Seq<JsonV>, ind: Seq<char>)
    requires
        items.len() >= 1,
    ensures
        pretty_items(items, ind) == pretty_elem(items[0], ind) + (if items.len() == 1 {
            Seq::<char>::empty()
        } else {
            seq![','] + pretty_items(items.skip(1), ind)
        }),
    decreases items.len(),
{
    let n = items.len();
    let p = items.subrange(0, n - 1);
    if n == 1 {
        assert(p.len() == 0);
        assert(pretty_items(p, ind) =~= Seq::<char>::empty());
        assert(pretty_items(items, ind) =~= pretty_elem(items[0], ind) + Seq::<char>::empty());
    } else {
        let q = items.skip(1);
        assert(q.subrange(0, q.len() - 1) =~= p.skip(1));
        assert(q[q.len() - 1] == items[n - 1]);
        lemma_pretty_items_front(p, ind);
        assert(p[0] == items[0]);
        if n == 2 {
            assert(p.skip(1).len() == 0);
            assert(pretty_items(p.skip(1), ind) =~= Seq::<char>::empty());
            assert(pretty_items(q, ind) =~= pretty_elem(items[1], ind));
            assert(pretty_items(items, ind) =~= pretty_items(p, ind) + seq![',', '\n'] + ind + pretty_text(items[1], ind));
            assert(pretty_items(items, ind) =~= pretty_elem(items[0], ind) + (seq![','] + pretty_items(q, ind)));
        } else {
            assert(pretty_items(q, ind) =~= pretty_items(p.skip(1), ind) + seq![',', '\n'] + ind + pretty_text(items[n - 1], ind));
            assert(pretty_items(items, ind) =~= pretty_items(p, ind) + seq![',', '\n'] + ind + pretty_text(items[n - 1], ind));
            assert(pretty_items(items, ind) =~= pretty_elem(items[0], ind) + (seq![','] + pretty_items(q, ind)));
        }
    }
}

#[verifier::rlimit(60)]
#[verifier::spinoff_prover]
proof fn lemma_pretty_entries_front(m: Seq<(Seq<char>, JsonV)>, ind: Seq<char>)
    requires
        m.len() >= 1,
    ensures
        pretty_entries(m, ind) == pretty_member(m[0], ind) + (if m.len() == 1 {
            Seq::<char>::empty()
        } else {
            seq![','] + pretty_entries(m.skip(1), ind)
        }),
    decreases m.len(),
{
    let n = m.len();
    let p = m.subrange(0, n - 1);
    if n == 1 {
        assert(p.len() == 0);
        assert(pretty_entries(p, ind) =~= Seq::<char>::empty());
        assert(pretty_entries(m, ind) =~= pretty_member(m[0], ind) + Seq::<char>::empty());
    } else {
        let q = m.skip(1);
        assert(q.subrange(0, q.len() - 1) =~= p.skip(1));
        assert(q[q.len() - 1] == m[n - 1]);
        lemma_pretty_entries_front(p, ind);
        assert(p[0] == m[0]);
        let last = quoted(m[n - 1].0) + seq![':', ' '] + pretty_text(m[n - 1].1, ind);
        if n == 2 {
            assert(p.skip(1).len() == 0);
            assert(pretty_entries(p.skip(1), ind) =~= Seq::<char>::empty());
            assert(pretty_entries(q, ind) =~= pretty_member(m[1], ind));
            assert(pretty_entries(m, ind) =~= pretty_entries(p, ind) + seq![',', '\n'] + ind + last);
            assert(pretty_entries(m, ind) =~= pretty_member(m[0], ind) + (seq![','] + pretty_entries(q, ind)));
        } else {
            assert(pretty_entries(q, ind) =~= pretty_entries(p.skip(1), ind) + seq![',', '\n'] + ind + last);
            assert(pretty_entries(m, ind) =~= pretty_entries(p, ind) + seq![',', '\n'] + ind + last);
            assert(pretty_entries(m, ind) =~= pretty_member(m[0], ind) + (seq![','] + pretty_entries(q, ind)));
        }
    }
}

#[verifier::spinoff_prover]
proof fn lemma_pretty_start(v: JsonV, ind: Seq<char>)
    requires
        json_readable(v),
    ensures
        pretty_text(v, ind).len() > 0,
        !is_ws(pretty_text(v, ind)[0]),
        pretty_text(v, ind)[0] != ']',
        pretty_text(v, ind)[0] != '}',
        pretty_text(v, ind)[0] != ',',
{
    lemma_text_start(v);
}

#[verifier::spinoff_prover]
proof fn lemma_quoted_parts(k: Seq<char>)
    ensures
        quoted(k).len() > 0,
        quoted(k)[0] == '"',
        quoted(k).skip(1) == escaped(k) + seq!['"'],
{
    assert(quoted(k).skip(1) =~= escaped(k) + seq!['"']);
}

#[verifier::rlimit(100)]
#[verifier::spinoff_prover]
proof fn lemma_pretty_member_head(k: Seq<char>, v: JsonV, ind: Seq<char>, r: Seq<char>)
    requires
        pretty_text(v, ind).len() > 0,
        !is_ws(pretty_text(v, ind)[0]),
        all_ws(ind),
    ensures
        ({
            let s = pretty_member((k, v), ind) + r;
            let r1 = seq![':', ' '] + pretty_text(v, ind) + r;
            &&& skip_ws(s).len() > 0
            &&& skip_ws(s).len() <= s.len()
            &&& skip_ws(s)[0] == '"'
            &&& read_str_body(skip_ws(s).skip(1)) == Some((k, r1))
            &&& skip_ws(r1).len() > 0
            &&& skip_ws(r1).len() <= s.len()
            &&& skip_ws(r1)[0] == ':'
            &&& read_value(skip_ws(r1).skip(1)) == read_value(pretty_text(v, ind) + r)
            &&& r.len() < s.len()
        }),
{
    let p = pretty_text(v, ind);
    let q = quoted(k);
    let s = pretty_member((k, v), ind) + r;
    let r1 = seq![':', ' '] + p + r;
    lemma_indent_ws(ind);
    lemma_quoted_parts(k);
    let w = seq!['\n'] + ind;
    let t = q + r1;
    assert(s =~= w + t);
    assert(t[0] == '"');
    lemma_skip_ws_prefix(w, t);
    assert(t.skip(1) =~= q.skip(1) + r1);
    assert(q.skip(1) + r1 =~= escaped(k) + seq!['"'] + r1);
    lemma_read_str(k, r1);
    assert(r1[0] == ':');
    assert(skip_ws(r1) == r1);
    assert(r1.skip(1) =~= seq![' '] + (p + r));
    lemma_read_value_ws(seq![' '], p + r);
}

#[verifier::spinoff_prover]
proof fn lemma_pretty_elem_head(v: JsonV, ind: Seq<char>, r: Seq<char>)
    requires
        json_readable(v),
        all_ws(ind),
    ensures
        read_value(pretty_elem(v, ind) + r) == read_value(pretty_text(v, ind) + r),
        r.len() < (pretty_elem(v, ind) + r).len(),
{
    lemma_pretty_start(v, ind);
    lemma_indent_ws(ind);
    assert(pretty_elem(v, ind) + r =~= (seq!['\n'] + ind) + (pretty_text(v, ind) + r));
    lemma_read_value_ws(seq!['\n'] + ind, pretty_text(v, ind) + r);
}

#[verifier::spinoff_prover]
proof fn lemma_pretty_open(c: char, first: Seq<char>, body: Seq<char>, ind2: Seq<char>)
    requires
        all_ws(ind2),
        first.len() > 0,
        !is_ws(first[0]),
    ensures
        skip_ws((seq![c] + (seq!['\n'] + ind2 + first + body)).skip(1)) == first + body,
        (seq![c] + (seq!['\n'] + ind2 + first + body))[0] == c,
{
    lemma_indent_ws(ind2);
    let x = first + body;
    assert((seq![c] + (seq!['\n'] + ind2 + first + body)).skip(1) =~= (seq!['\n'] + ind2) + x);
    lemma_skip_ws_prefix(seq!['\n'] + ind2, x);
}

#[verifier::spinoff_prover]
proof fn lemma_pretty_read_value(v: JsonV, ind: Seq<char>, rest: Seq<char>)
    requires
        json_readable(v),
        all_ws(ind),
        rest.len() == 0 || !is_num_char(rest[0]),
    ensures
        read_value(pretty_text(v, ind) + rest) == Some((normalized(v), rest)),
    decreases v, 0int,
{
    match v {
        JsonV::Array(items) => {
            if items.len() == 0 {
                assert(pretty_text(v, ind) =~= json_text(v));
                lemma_read_value(v, rest);
            } else {
                assert(decreases_to!(v => items));
                lemma_pretty_read_array(items, ind, rest);
            }
        },
        JsonV::Object(m) => {
            if m.len() == 0 {
                assert(pretty_text(v, ind) =~= json_text(v));
                lemma_read_value(v, rest);
            } else {
                assert(decreases_to!(v => m));
                lemma_pretty_read_object(m, ind, rest);
            }
        },
        _ => {
            assert(pretty_text(v, ind) == json_text(v));
            lemma_read_value(v, rest);
        },
    }
}

#[verifier::rlimit(100)]
#[verifier::spinoff_prover]
proof fn lemma_pretty_read_array(items: Seq<JsonV>, ind: Seq<char>, rest: Seq<char>)
    requires
        items.len() >= 1,
        forall|i: int| 0 <= i < items.len() ==> json_readable(#[trigger] items[i]),
        all_ws(ind),
    ensures
        read_value(pretty_text(JsonV::Array(items), ind) + rest) == Some((JsonV::Array(normalized_items(items)), rest)),
    decreases items, 2int,
{
    let ind2 = ind + seq![' ', ' '];
    lemma_indent_ws(ind);
    let close = seq!['\n'] + ind + seq![']'] + rest;
    let s = pretty_text(JsonV::Array(items), ind) + rest;
    assert(json_readable(items[0]));
    lemma_pretty_start(items[0], ind2);
    lemma_pretty_items_front(items, ind2);
    let tail = (if items.len() == 1 {
        Seq::<char>::empty()
    } else {
        seq![','] + pretty_items(items.skip(1), ind2)
    }) + close;
    assert(s =~= seq!['['] + (seq!['\n'] + ind2 + pretty_text(items[0], ind2) + tail));
    assert(s.skip(1) =~= pretty_items(items, ind2) + close);
    lemma_pretty_open('[', pretty_text(items[0], ind2), tail, ind2);
    lemma_pretty_read_elems(items, ind2, ind, rest);
    lemma_value_array_step(s, normalized_items(items), rest);
}

#[verifier::rlimit(100)]
#[verifier::spinoff_prover]
proof fn lemma_pretty_object_shape(m: Seq<(Seq<char>, JsonV)>, ind: Seq<char>, rest: Seq<char>)
    requires
        m.len() >= 1,
        all_ws(ind),
    ensures
        ({
            let s = pretty_text(JsonV::Object(m), ind) + rest;
            let close = seq!['\n'] + ind + seq!['}'] + rest;
            &&& s.len() > 0
            &&& s[0] == '{'
            &&& s.skip(1) == pretty_entries(m, ind + seq![' ', ' ']) + close
            &&& skip_ws(s.skip(1)).len() > 0
            &&& skip_ws(s.skip(1))[0] == '"'
        }),
{
    let ind2 = ind + seq![' ', ' '];
    lemma_indent_ws(ind);
    let close = seq!['\n'] + ind + seq!['}'] + rest;
    let s = pretty_text(JsonV::Object(m), ind) + rest;
    lemma_pretty_entries_front(m, ind2);
    let first = quoted(m[0].0);
    let tail = seq![':', ' '] + pretty_text(m[0].1, ind2) + (if m.len() == 1 {
        Seq::<char>::empty()
    } else {
        seq![','] + pretty_entries(m.skip(1), ind2)
    }) + close;
    assert(first[0] == '"');
    assert(s =~= seq!['{'] + (seq!['\n'] + ind2 + first + tail));
    assert(s.skip(1) =~= pretty_entries(m, ind2) + close);
    lemma_pretty_open('{', first, tail, ind2);
}

#[verifier::spinoff_prover]
proof fn lemma_pretty_read_object(m: Seq<(Seq<char>, JsonV)>, ind: Seq<char>, rest: Seq<char>)
    requires
        m.len() >= 1,
        forall|i: int| 0 <= i < m.len() ==> json_readable(#[trigger] m[i].1),
        all_ws(ind),
    ensures
        read_value(pretty_text(JsonV::Object(m), ind) + rest) == Some((JsonV::Object(object_of(normalized_members(m))), rest)),
    decreases m, 2int,
{
    let s = pretty_text(JsonV::Object(m), ind) + rest;
    lemma_indent_ws(ind);
    lemma_pretty_object_shape(m, ind, rest);
    lemma_pretty_read_members(m, ind + seq![' ', ' '], ind, rest);
    lemma_value_object_step(s, normalized_members(m), rest);
}

#[verifier::rlimit(80)]
#[verifier::spinoff_prover]
proof fn lemma_pretty_read_elems(items: Seq<JsonV>, ind: Seq<char>, ind0: Seq<char>, rest: Seq<char>)
    requires
        items.len() >= 1,
        forall|i: int| 0 <= i < items.len() ==> json_readable(#[trigger] items[i]),
        all_ws(ind),
        all_ws(ind0),
    ensures
        read_elems(pretty_items(items, ind) + (seq!['\n'] + ind0 + seq![']'] + rest)) == Some((normalized_items(items), rest)),
    decreases items, 1int,
{
    let close = seq!['\n'] + ind0 + seq![']'] + rest;
    let s = pretty_items(items, ind) + close;
    let v = items[0];
    assert(json_readable(v));
    lemma_indent_ws(ind0);
    assert(decreases_to!(items => items[0]));
    let q = items.skip(1);
    let r = if items.len() == 1 {
        close
    } else {
        seq![','] + pretty_items(q, ind) + close
    };
    lemma_pretty_items_front(items, ind);
    assert(s =~= pretty_elem(v, ind) + r);
    lemma_pretty_elem_head(v, ind, r);
    lemma_pretty_read_value(v, ind, r);
    lemma_skip_ws_len(r);
    if items.len() == 1 {
        assert(close =~= (seq!['\n'] + ind0) + (seq![']'] + rest));
        lemma_skip_ws_prefix(seq!['\n'] + ind0, seq![']'] + rest);
        lemma_elems_step(s, normalized(v), r);
        assert((seq![']'] + rest).skip(1) =~= rest);
        assert(items.subrange(1, items.len() as int) =~= Seq::<JsonV>::empty());
        assert(seq![normalized(v)] + Seq::<JsonV>::empty() =~= seq![normalized(v)]);
    } else {
        assert(skip_ws(r) == r);
        lemma_elems_step(s, normalized(v), r);
        assert(r.skip(1) =~= pretty_items(q, ind) + close);
        assert(forall|i: int| 0 <= i < q.len() ==> q[i] == items[i + 1]);
        assert(q == items.subrange(1, items.len() as int));
        assert(decreases_to!(items => items.subrange(1, items.len() as int)));
        lemma_pretty_read_elems(q, ind, ind0, rest);
        assert(normalized_items(items) == seq![normalized(v)] + normalized_items(q));
    }
}

#[verifier::rlimit(80)]
#[verifier::spinoff_prover]
proof fn lemma_pretty_read_members(m: Seq<(Seq<char>, JsonV)>, ind: Seq<char>, ind0: Seq<char>, rest: Seq<char>)
    requires
        m.len() >= 1,
        forall|i: int| 0 <= i < m.len() ==> json_readable(#[trigger] m[i].1),
        all_ws(ind),
        all_ws(ind0),
    ensures
        read_members(pretty_entries(m, ind) + (seq!['\n'] + ind0 + seq!['}'] + rest)) == Some((normalized_members(m), rest)),
    decreases m, 1int,
{
    let close = seq!['\n'] + ind0 + seq!['}'] + rest;
    let s = pretty_entries(m, ind) + close;
    let k = m[0].0;
    let v = m[0].1;
    assert(m[0] == (k, v));
    assert(json_readable(v));
    lemma_indent_ws(ind0);
    assert(decreases_to!(m => m[0]));
    assert(decreases_to!(m[0] => m[0].1));
    let q = m.skip(1);
    let r = if m.len() == 1 {
        close
    } else {
        seq![','] + pretty_entries(q, ind) + close
    };
    lemma_pretty_entries_front(m, ind);
    let tl = if m.len() == 1 {
        Seq::<char>::empty()
    } else {
        seq![','] + pretty_entries(q, ind)
    };
    assert(pretty_entries(m, ind) == pretty_member(m[0], ind) + tl);
    assert(tl + close =~= r);
    assert(s =~= pretty_member((k, v), ind) + r);
    let r1 = seq![':', ' '] + pretty_text(v, ind) + r;
    lemma_pretty_start(v, ind);
    lemma_pretty_member_head(k, v, ind, r);
    lemma_pretty_read_value(v, ind, r);
    lemma_skip_ws_len(r);
    if m.len() == 1 {
        assert(close =~= (seq!['\n'] + ind0) + (seq!['}'] + rest));
        lemma_skip_ws_prefix(seq!['\n'] + ind0, seq!['}'] + rest);
        lemma_members_step_ws(s, k, normalized(v), r1, r);
        assert((seq!['}'] + rest).skip(1) =~= rest);
        assert(m.subrange(1, m.len() as int) =~= Seq::<(Seq<char>, JsonV)>::empty());
        assert(seq![(k, normalized(v))] + Seq::<(Seq<char>, JsonV)>::empty() =~= seq![(k, normalized(v))]);
    } else {
        assert(skip_ws(r) == r);
        lemma_members_step_ws(s, k, normalized(v), r1, r);
        assert(r.skip(1) =~= pretty_entries(q, ind) + close);
        assert(forall|i: int| 0 <= i < q.len() ==> q[i] == m[i + 1]);
        assert(q == m.subrange(1, m.len() as int));
        assert(decreases_to!(m => m.subrange(1, m.len() as int)));
        lemma_pretty_read_members(q, ind, ind0, rest);
        assert(normalized_members(m) == seq![(k, normalized(v))] + normalized_members(q));
    }
}

#[verifier::spinoff_prover]
proof fn lemma_wf_normalized(v: JsonV)
    requires
        json_wf(v),
    ensures
        json_readable(v),
        normalized(v) == v,
    decreases v, 0int,
{
    match v {
        JsonV::Array(items) => {
            assert(decreases_to!(v => items));
            lemma_wf_normalized_items(items);
        },
        JsonV::Object(m) => {
            assert(decreases_to!(v => m));
            lemma_wf_normalized_members(m);
            lemma_object_of_sorted(m);
        },
        _ => {},
    }
}

#[verifier::spinoff_prover]
proof fn lemma_wf_normalized_items(items: Seq<JsonV>)
    requires
        forall|i: int| 0 <= i < items.len() ==> json_wf(#[trigger] items[i]),
    ensures
        forall|i: int| 0 <= i < items.len() ==> json_readable(#[trigger] items[i]),
        normalized_items(items) == items,
    decreases items, 1int,
{
    if items.len() > 0 {
        let q = items.subrange(1, items.len() as int);
        assert(forall|i: int| 0 <= i < q.len() ==> q[i] == items[i + 1]);
        assert(decreases_to!(items => items[0]));
        assert(decreases_to!(items => q));
        lemma_wf_normalized(items[0]);
        lemma_wf_normalized_items(q);
        assert forall|i: int| 0 <= i < items.len() implies json_readable(#[trigger] items[i]) by {
            if i > 0 {
                assert(items[i] == q[i - 1]);
            }
        }
        assert(seq![items[0]] + q =~= items);
    }
}

#[verifier::spinoff_prover]
proof fn lemma_wf_normalized_members(m: Seq<(Seq<char>, JsonV)>)
    requires
        forall|i: int| 0 <= i < m.len() ==> json_wf(#[trigger] m[i].1),
    ensures
        forall|i: int| 0 <= i < m.len() ==> json_readable(#[trigger] m[i].1),
        normalized_members(m) == m,
    decreases m, 1int,
{
    if m.len() > 0 {
        let q = m.subrange(1, m.len() as int);
        assert(forall|i: int| 0 <= i < q.len() ==> q[i] == m[i + 1]);
        assert(decreases_to!(m => m[0]));
        assert(decreases_to!(m[0] => m[0].1));
        assert(decreases_to!(m => q));
        lemma_wf_normalized(m[0].1);
        lemma_wf_normalized_members(q);
        assert forall|i: int| 0 <= i < m.len() implies json_readable(#[trigger] m[i].1) by {
            if i > 0 {
                assert(m[i] == q[i - 1]);
            }
        }
        assert(seq![(m[0].0, m[0].1)] + q =~= m);
    }
}

/// JSON output reads back as the items it was written from: when the items' numbers are
/// number literals, both the pretty-printed JSON (`json`) and the compact JSON (`jsonc`) read
/// back as the array of those items up to the order of object members (each object read into
/// a map ordered by key, see [`normalized`]); items whose object keys are already distinct and
/// ascending ([`json_wf`]) read back exactly. The compact JSON is a single line.
pub proof fn lemma_json_output_reads_back(items: Seq<JsonV>, color: bool)
    requires
        forall|i: int| 0 <= i < items.len() ==> json_readable(#[trigger] items[i]),
    ensures
        format_spec(items, OutputFormat::Json, color) == Ok::<Seq<char>, Seq<char>>(pretty_text(JsonV::Array(items), Seq::empty())),
        read_json(pretty_text(JsonV::Array(items), Seq::empty())) == Some(JsonV::Array(normalized_items(items))),
        format_spec(items, OutputFormat::JsonCompact, color) == Ok::<Seq<char>, Seq<char>>(json_text(JsonV::Array(items))),
        read_json(json_text(JsonV::Array(items))) == Some(JsonV::Array(normalized_items(items))),
        one_line(json_text(JsonV::Array(items))),
        (forall|i: int| 0 <= i < items.len() ==> json_wf(#[trigger] items[i])) ==> normalized_items(items) == items,
{
    let v = JsonV::Array(items);
    assert(json_readable(v));
    lemma_read_value(v, Seq::empty());
    assert(json_text(v) + Seq::<char>::empty() =~= json_text(v));
    lemma_text_one_line(v);
    assert(all_ws(Seq::<char>::empty()));
    lemma_pretty_read_value(v, Seq::empty(), Seq::empty());
    assert(pretty_text(v, Seq::empty()) + Seq::<char>::empty() =~= pretty_text(v, Seq::empty()));
    if forall|i: int| 0 <= i < items.len() ==> json_wf(#[trigger] items[i]) {
        lemma_wf_normalized_items(items);
    }
}

} // verus!
