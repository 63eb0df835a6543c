//! The JSON data model that extraction runs over.

use vstd::prelude::*;
use crate::text::{push_char, push_str};

verus! {

/// A JSON value. Numbers hold their decimal text exactly as `serde_json` renders them;
/// object entries hold distinct keys, in ascending order as a parsed document keeps them, or
/// in the order asked for after a projection onto chosen fields.
pub enum Json {
    Null,
    Bool(bool),
    Number(String),
    Str(String),
    Array(Vec<Json>),
    Object(Vec<(String, Json)>),
}

/// The mathematical form of a [`Json`] value.
pub enum JsonV {
    Null,
    Bool(bool),
    Number(Seq<char>),
    Str(Seq<char>),
    Array(Seq<JsonV>),
    Object(Seq<(Seq<char>, JsonV)>),
}

impl View for Json {
    type V = JsonV;

    open spec fn view(&self) -> JsonV
        decreases self, 0int,
    {
        match self {
            Json::Null => JsonV::Null,
            Json::Bool(b) => JsonV::Bool(*b),
            Json::Number(t) => JsonV::Number(t@),
            Json::Str(s) => JsonV::Str(s@),
            Json::Array(a) => JsonV::Array(Seq::new(a@.len(), |i: int| if 0 <= i < a@.len() { a@[i].view() } else { JsonV::Null })),
            Json::Object(m) => JsonV::Object(entry_views(m@)),
        }
    }
}

} // verus!

verus! {

/// Lexicographic order on character sequences by code point (the order of `String` keys).
pub open spec fn key_lt(a: Seq<char>, b: Seq<char>) -> bool
    decreases a.len(),
{
    if a.len() == 0 {
        b.len() > 0
    } else if b.len() == 0 {
        false
    } else if a[0] != b[0] {
        (a[0] as u32) < (b[0] as u32)
    } else {
        key_lt(a.skip(1), b.skip(1))
    }
}

/// The value stored under `k` in a list of object entries.
pub open spec fn entries_get(m: Seq<(Seq<char>, JsonV)>, k: Seq<char>) -> Option<JsonV>
    decreases m.len(),
{
    if m.len() == 0 {
        None
    } else if m[0].0 == k {
        Some(m[0].1)
    } else {
        entries_get(m.skip(1), k)
    }
}

/// Inserting `k => v` into ascending object entries: an entry with the same key is replaced,
/// otherwise the entry goes before the first greater key.
pub open spec fn entries_insert(m: Seq<(Seq<char>, JsonV)>, k: Seq<char>, v: JsonV) -> Seq<(Seq<char>, JsonV)>
    decreases m.len(),
{
    if m.len() == 0 {
        seq![(k, v)]
    } else if m[0].0 == k {
        seq![(k, v)] + m.skip(1)
    } else if key_lt(k, m[0].0) {
        seq![(k, v)] + m
    } else {
        seq![m[0]] + entries_insert(m.skip(1), k, v)
    }
}

/// `Value::get(key)`: the member `key` of an object, nothing for other values.
pub open spec fn member(v: JsonV, k: Seq<char>) -> Option<JsonV> {
    match v {
        JsonV::Object(m) => entries_get(m, k),
        _ => None,
    }
}

/// The hexadecimal digit (lower case) of a value below sixteen.
pub open spec fn hex_lower(d: nat) -> char {
    if d < 10 {
        ((d + ('0' as int)) as u32) as char
    } else {
        ((d - 10 + ('a' as int)) as u32) as char
    }
}

/// How one character of a string is written inside a JSON string literal.
pub open spec fn escape_char(c: char) -> Seq<char> {
    if c == '"' {
        seq!['\\', '"']
    } else if c == '\\' {
        seq!['\\', '\\']
    } else if c == '\n' {
        seq!['\\', 'n']
    } else if c == '\r' {
        seq!['\\', 'r']
    } else if c == '\t' {
        seq!['\\', 't']
    } else if c == '\x08' {
        seq!['\\', 'b']
    } else if c == '\x0C' {
        seq!['\\', 'f']
    } else if (c as u32) < 0x20 {
        seq!['\\', 'u', '0', '0', hex_lower((c as u32 / 16) as nat), hex_lower((c as u32 % 16) as nat)]
    } else {
        seq![c]
    }
}

/// The characters of a JSON string literal's body.
pub open spec fn escaped(s: Seq<char>) -> Seq<char>
    decreases s.len(),
{
    if s.len() == 0 {
        Seq::empty()
    } else {
        escaped(s.drop_last()) + escape_char(s.last())
    }
}

/// A JSON string literal.
pub open spec fn quoted(s: Seq<char>) -> Seq<char> {
    seq!['"'] + escaped(s) + seq!['"']
}

/// Compact JSON text of a value, as `serde_json` writes it (`Value::to_string`).
pub open spec fn json_text(v: JsonV) -> Seq<char>
    decreases v, 0int,
{
    match v {
        JsonV::Null => seq!['n', 'u', 'l', 'l'],
        JsonV::Bool(b) => if b { seq!['t', 'r', 'u', 'e'] } else { seq!['f', 'a', 'l', 's', 'e'] },
        JsonV::Number(t) => t,
        JsonV::Str(s) => quoted(s),
        JsonV::Array(items) => seq!['['] + items_text(items) + seq![']'],
        JsonV::Object(entries) => seq!['{'] + entries_text(entries) + seq!['}'],
    }
}

/// The comma-separated texts of array items.
pub open spec fn items_text(items: Seq<JsonV>) -> Seq<char>
    decreases items, 1int,
{
    if items.len() == 0 {
        Seq::empty()
    } else if items.len() == 1 {
        json_text(items[0])
    } else {
        items_text(items.subrange(0, items.len() - 1)) + seq![','] + json_text(items[items.len() - 1])
    }
}

/// The comma-separated `"key":value` texts of object entries.
pub open spec fn entries_text(entries: Seq<(Seq<char>, JsonV)>) -> Seq<char>
    decreases entries, 1int,
{
    if entries.len() == 0 {
        Seq::empty()
    } else if entries.len() == 1 {
        quoted(entries[0].0) + seq![':'] + json_text(entries[0].1)
    } else {
        entries_text(entries.subrange(0, entries.len() - 1)) + seq![','] + quoted(
            entries[entries.len() - 1].0,
        ) + seq![':'] + json_text(entries[entries.len() - 1].1)
    }
}

/// Pretty JSON text of a value at indentation `ind`, as `serde_json` writes it
/// (`to_string_pretty`): a non-empty array or object puts each element on a line of its own,
/// indented two spaces further, with `": "` after each key.
pub open spec fn pretty_text(v: JsonV, ind: Seq<char>) -> Seq<char>
    decreases v, 0int,
{
    match v {
        JsonV::Array(items) => if items.len() == 0 {
            seq!['[', ']']
        } else {
            seq!['['] + pretty_items(items, ind + seq![' ', ' ']) + seq!['\n'] + ind + seq![']']
        },
        JsonV::Object(m) => if m.len() == 0 {
            seq!['{', '}']
        } else {
            seq!['{'] + pretty_entries(m, ind + seq![' ', ' ']) + seq!['\n'] + ind + seq!['}']
        },
        _ => json_text(v),
    }
}

/// The separator before an element of a pretty array or object: a line break, after a
/// comma unless the element is the first.
pub open spec fn pretty_sep(first: bool) -> Seq<char> {
    if first {
        seq!['\n']
    } else {
        seq![',', '\n']
    }
}

/// The elements of a pretty array, each on a line of its own at indentation `ind`.
pub open spec fn pretty_items(items: Seq<JsonV>, ind: Seq<char>) -> Seq<char>
    decreases items, 1int,
{
    if items.len() == 0 {
        Seq::empty()
    } else {
        let p = items.subrange(0, items.len() - 1);
        pretty_items(p, ind) + pretty_sep(p.len() == 0) + ind + pretty_text(items[items.len() - 1], ind)
    }
}

/// The members of a pretty object, each on a line of its own at indentation `ind`.
pub open spec fn pretty_entries(m: Seq<(Seq<char>, JsonV)>, ind: Seq<char>) -> Seq<char>
    decreases m, 1int,
{
    if m.len() == 0 {
        Seq::empty()
    } else {
        let p = m.subrange(0, m.len() - 1);
        pretty_entries(p, ind) + pretty_sep(p.len() == 0) + ind + quoted(m[m.len() - 1].0) + seq![':', ' ']
            + pretty_text(m[m.len() - 1].1, ind)
    }
}

/// The plain text of a value (strings unquoted, null empty, arrays and objects as compact JSON).
pub open spec fn plain_text(v: JsonV) -> Seq<char> {
    match v {
        JsonV::Str(s) => s,
        JsonV::Number(t) => t,
        JsonV::Bool(b) => if b { seq!['t', 'r', 'u', 'e'] } else { seq!['f', 'a', 'l', 's', 'e'] },
        JsonV::Null => Seq::empty(),
        _ => json_text(v),
    }
}

} // verus!

verus! {

/// Whether `a` sorts before `b` as object keys.
pub fn key_less(a: &[char], b: &[char]) -> (r: bool)
    ensures
        r == key_lt(a@, b@),
{
    let mut i: usize = 0;
    assert(a@.skip(0) =~= a@);
    assert(b@.skip(0) =~= b@);
    while i < a.len() && i < b.len() && a[i] == b[i]
        invariant
            i <= a.len(),
            i <= b.len(),
            key_lt(a@, b@) == key_lt(a@.skip(i as int), b@.skip(i as int)),
        decreases a.len() - i,
    {
        assert(a@.skip(i as int).skip(1) == a@.skip(i + 1));
        assert(b@.skip(i as int).skip(1) == b@.skip(i + 1));
        i = i + 1;
    }
    if i == a.len() {
        i < b.len()
    } else if i == b.len() {
        false
    } else {
        (a[i] as u32) < (b[i] as u32)
    }
}

impl Json {
    /// A copy of the value.
    pub fn deep_clone(&self) -> (r: Json)
        ensures
            r@ == self@,
        decreases self,
    {
        match self {
            Json::Null => Json::Null,
            Json::Bool(b) => Json::Bool(*b),
            Json::Number(t) => Json::Number(t.clone()),
            Json::Str(s) => Json::Str(s.clone()),
            Json::Array(a) => {
                let mut out: Vec<Json> = Vec::new();
                for i in 0..a.len()
                    invariant
                        *self == Json::Array(*a),
                        out@.len() == i,
                        forall|j: int| 0 <= j < i ==> (#[trigger] out@[j])@ == a@[j]@,
                {
                    assert(decreases_to!(*self => self->Array_0));
                    assert(decreases_to!(self->Array_0 => self->Array_0@));
                    assert(decreases_to!(self->Array_0@ => self->Array_0@[i as int]));
                    out.push(a[i].deep_clone());
                }
                proof {
                    lemma_array_view(out);
                    lemma_array_view(*a);
                    assert(item_views(out@) =~= item_views(a@));
                }
                Json::Array(out)
            },
            Json::Object(m) => {
                let mut out: Vec<(String, Json)> = Vec::new();
                for i in 0..m.len()
                    invariant
                        *self == Json::Object(*m),
                        out@.len() == i,
                        forall|j: int|
                            0 <= j < i ==> (#[trigger] out@[j]).0@ == m@[j].0@ && out@[j].1@ == m@[j].1@,
                {
                    assert(decreases_to!(*self => self->Object_0));
                    assert(decreases_to!(self->Object_0 => self->Object_0@));
                    assert(decreases_to!(self->Object_0@ => self->Object_0@[i as int]));
                    assert(decreases_to!(self->Object_0@[i as int] => self->Object_0@[i as int].1));
                    out.push((m[i].0.clone(), m[i].1.deep_clone()));
                }
                proof {
                    lemma_object_view(out);
                    lemma_object_view(*m);
                    lemma_entry_views(out@);
                    lemma_entry_views(m@);
                    assert(entry_views(out@) =~= entry_views(m@));
                }
                Json::Object(out)
            },
        }
    }

    /// Whether the value is `null`.
    pub fn is_null(&self) -> (r: bool)
        ensures
            r == (self@ == JsonV::Null),
    {
        match self {
            Json::Null => true,
            _ => false,
        }
    }

    /// `Value::get(key)`: the member `key` of an object.
    pub fn get(&self, key: &str) -> (r: Option<&Json>)
        ensures
            match r {
                Some(x) => member(self@, key@) == Some(x@),
                None => member(self@, key@) is None,
            },
    {
        match self {
            Json::Object(m) => {
                let k = crate::text::chars_of(key);
                let ghost mv = entry_views(m@);
                proof {
                    lemma_object_view(*m);
                    lemma_entry_views(m@);
                }
                assert(mv.skip(0) =~= mv);
                for i in 0..m.len()
                    invariant
                        mv.len() == m@.len(),
                        forall|j: int| 0 <= j < mv.len() ==> #[trigger] mv[j] == (m@[j].0@, m@[j].1@),
                        k@ == key@,
                        self@ == JsonV::Object(mv),
                        entries_get(mv, key@) == entries_get(mv.skip(i as int), key@),
                {
                    let mk = crate::text::chars_of(m[i].0.as_str());
                    assert(mv.skip(i as int)[0] == mv[i as int]);
                    assert(mv.skip(i as int).skip(1) == mv.skip(i + 1));
                    if crate::text::chars_eq(&mk, &k) {
                        return Some(&m[i].1);
                    }
                }
                assert(mv.skip(m.len() as int).len() == 0);
                None
            },
            _ => None,
        }
    }
}

/// Whether object entries hold the key `key`.
pub fn entries_has(m: &Vec<(String, Json)>, key: &str) -> (r: bool)
    ensures
        r == (entries_get(entry_views(m@), key@) is Some),
{
    let k = crate::text::chars_of(key);
    let ghost mv = entry_views(m@);
    proof {
        lemma_entry_views(m@);
    }
    assert(mv.skip(0) =~= mv);
    for i in 0..m.len()
        invariant
            mv == entry_views(m@),
            mv.len() == m@.len(),
            forall|j: int| 0 <= j < mv.len() ==> #[trigger] mv[j] == (m@[j].0@, m@[j].1@),
            k@ == key@,
            entries_get(mv, key@) == entries_get(mv.skip(i as int), key@),
    {
        let mk = crate::text::chars_of(m[i].0.as_str());
        assert(mv.skip(i as int)[0] == mv[i as int]);
        assert(mv.skip(i as int).skip(1) == mv.skip(i + 1));
        if crate::text::chars_eq(&mk, &k) {
            return true;
        }
    }
    assert(mv.skip(m.len() as int).len() == 0);
    false
}

/// Appends an entry at the end of object entries.
pub fn entries_push(m: &mut Vec<(String, Json)>, k: String, v: Json)
    ensures
        entry_views(final(m)@) == entry_views(old(m)@).push((k@, v@)),
{
    let ghost before = m@;
    m.push((k, v));
    assert(m@.subrange(0, m@.len() - 1) =~= before);
}

/// `Map::insert` on ascending object entries.
pub fn entries_put(m: &mut Vec<(String, Json)>, k: String, v: Json)
    ensures
        entry_views(final(m)@) == entries_insert(entry_views(old(m)@), k@, v@),
{
    let kc = crate::text::chars_of(k.as_str());
    let ghost before = entry_views(m@);
    proof {
        lemma_entry_views(m@);
    }
    let mut i: usize = 0;
    assert(before.skip(0) =~= before);
    assert(before.take(0) =~= Seq::<(Seq<char>, JsonV)>::empty());
    while i < m.len()
        invariant
            i <= m.len(),
            m@ == old(m)@,
            before == entry_views(m@),
            before.len() == m@.len(),
            forall|j: int| 0 <= j < m@.len() ==> #[trigger] before[j] == (m@[j].0@, m@[j].1@),
            kc@ == k@,
            entries_insert(before, k@, v@) == before.take(i as int) + entries_insert(before.skip(i as int), k@, v@),
        decreases m.len() - i,
    {
        let mk = crate::text::chars_of(m[i].0.as_str());
        let ghost rest = before.skip(i as int);
        assert(rest[0] == before[i as int]);
        assert(rest.skip(1) == before.skip(i + 1));
        if crate::text::chars_eq(&mk, &kc) {
            let ghost b2 = before;
            m.set(i, (k, v));
            proof {
                lemma_entry_views(m@);
            }
            assert(entry_views(m@) =~= b2.take(i as int) + (seq![(k@, v@)] + rest.skip(1)));
            return;
        }
        if key_less(&kc, &mk) {
            m.insert(i, (k, v));
            proof {
                lemma_entry_views(m@);
            }
            assert(entry_views(m@) =~= before.take(i as int) + (seq![(k@, v@)] + rest));
            return;
        }
        assert(before.take(i + 1) == before.take(i as int) + seq![before[i as int]]);
        i = i + 1;
    }
    assert(before.skip(i as int).len() == 0);
    m.push((k, v));
    proof {
        lemma_entry_views(m@);
    }
    assert(entry_views(m@) =~= before.take(i as int) + seq![(k@, v@)]);
}

/// The mathematical form of array items.
pub open spec fn item_views(a: Seq<Json>) -> Seq<JsonV> {
    Seq::new(a.len(), |i: int| a[i]@)
}

/// The view of an array is the views of its items.
pub proof fn lemma_array_view(a: Vec<Json>)
    ensures
        Json::Array(a)@ == JsonV::Array(item_views(a@)),
{
    if let JsonV::Array(x) = Json::Array(a)@ {
        assert(x =~= item_views(a@));
    }
}

/// The entry views of a sequence of entries, one by one.
pub proof fn lemma_entry_views(m: Seq<(String, Json)>)
    ensures
        #[trigger] entry_views(m).len() == m.len(),
        forall|i: int| 0 <= i < m.len() ==> #[trigger] entry_views(m)[i] == (m[i].0@, m[i].1@),
    decreases m.len(),
{
    if m.len() > 0 {
        let p = m.subrange(0, m.len() - 1);
        lemma_entry_views(p);
        assert(entry_views(m) == entry_views(p).push((m[m.len() - 1].0@, m[m.len() - 1].1@)));
        assert forall|i: int| 0 <= i < m.len() implies #[trigger] entry_views(m)[i] == (m[i].0@, m[i].1@) by {
            if i < m.len() - 1 {
                assert(p[i] == m[i]);
            }
        }
    }
}

/// The view of an object is the views of its entries.
pub proof fn lemma_object_view(m: Vec<(String, Json)>)
    ensures
        Json::Object(m)@ == JsonV::Object(entry_views(m@)),
{
}

/// The mathematical form of object entries.
pub open spec fn entry_views(m: Seq<(String, Json)>) -> Seq<(Seq<char>, JsonV)>
    decreases m, 1int,
{
    if m.len() == 0 {
        Seq::empty()
    } else {
        entry_views(m.subrange(0, m.len() - 1)).push((m[m.len() - 1].0@, m[m.len() - 1].1.view()))
    }
}

} // verus!

verus! {

fn hex_digit(d: u32) -> (c: char)
    requires
        d < 16,
    ensures
        c == hex_lower(d as nat),
{
    if d < 10 {
        ((d + 48) as u8) as char
    } else {
        ((d - 10 + 97) as u8) as char
    }
}

fn push_escaped_char(out: &mut String, c: char)
    ensures
        final(out)@ == old(out)@ + escape_char(c),
{
    let ghost start = out@;
    if c == '"' {
        push_char(out, '\\');
        push_char(out, '"');
    } else if c == '\\' {
        push_char(out, '\\');
        push_char(out, '\\');
    } else if c == '\n' {
        push_char(out, '\\');
        push_char(out, 'n');
    } else if c == '\r' {
        push_char(out, '\\');
        push_char(out, 'r');
    } else if c == '\t' {
        push_char(out, '\\');
        push_char(out, 't');
    } else if c == '\x08' {
        push_char(out, '\\');
        push_char(out, 'b');
    } else if c == '\x0C' {
        push_char(out, '\\');
        push_char(out, 'f');
    } else if (c as u32) < 0x20 {
        push_char(out, '\\');
        push_char(out, 'u');
        push_char(out, '0');
        push_char(out, '0');
        push_char(out, hex_digit((c as u32) / 16));
        push_char(out, hex_digit((c as u32) % 16));
    } else {
        push_char(out, c);
    }
    assert(out@ =~= start + escape_char(c));
}

/// Appends the JSON string literal of `s`.
pub fn push_quoted(out: &mut String, s: &str)
    ensures
        final(out)@ == old(out)@ + quoted(s@),
{
    let cs = crate::text::chars_of(s);
    let ghost start = out@;
    push_char(out, '"');
    for i in 0..cs.len()
        invariant
            out@ == start + seq!['"'] + escaped(cs@.take(i as int)),
    {
        let ghost before = out@;
        push_escaped_char(out, cs[i]);
        assert(cs@.take(i + 1).drop_last() == cs@.take(i as int));
        assert(escaped(cs@.take(i + 1)) == escaped(cs@.take(i as int)) + escape_char(cs@[i as int]));
        assert(out@ =~= start + seq!['"'] + escaped(cs@.take(i + 1)));
    }
    assert(cs@.take(cs.len() as int) == cs@);
    push_char(out, '"');
    assert(out@ =~= start + quoted(s@));
}

/// Appends the compact JSON text of `v` (`serde_json::to_string`).
pub fn push_json(out: &mut String, v: &Json)
    ensures
        final(out)@ == old(out)@ + json_text(v@),
    decreases v,
{
    let ghost start = out@;
    match v {
        Json::Null => {
            push_str(out, "null");
            assert(out@ =~= start + json_text(v@)) by {
                reveal_strlit("null");
            }
        },
        Json::Bool(b) => {
            if *b {
                push_str(out, "true");
                assert(out@ =~= start + json_text(v@)) by {
                    reveal_strlit("true");
                }
            } else {
                push_str(out, "false");
                assert(out@ =~= start + json_text(v@)) by {
                    reveal_strlit("false");
                }
            }
        },
        Json::Number(t) => {
            push_str(out, t.as_str());
        },
        Json::Str(s) => {
            push_quoted(out, s.as_str());
        },
        Json::Array(a) => {
            proof {
                lemma_array_view(*a);
            }
            let ghost items = item_views(a@);
            push_char(out, '[');
            for i in 0..a.len()
                invariant
                    *v == Json::Array(*a),
                    items == item_views(a@),
                    out@ == start + seq!['['] + items_text(items.take(i as int)),
            {
                assert(decreases_to!(*v => v->Array_0));
                assert(decreases_to!(v->Array_0 => v->Array_0@));
                assert(decreases_to!(v->Array_0@ => v->Array_0@[i as int]));
                if i > 0 {
                    push_char(out, ',');
                }
                push_json(out, &a[i]);
                let ghost t = items.take(i + 1);
                assert(t.subrange(0, t.len() - 1) == items.take(i as int));
                assert(t[t.len() - 1] == a@[i as int]@);
                if i == 0 {
                    assert(items.take(0).len() == 0);
                }
                assert(out@ =~= start + seq!['['] + items_text(items.take(i + 1)));
            }
            assert(items.take(a.len() as int) == items);
            push_char(out, ']');
        },
        Json::Object(m) => {
            proof {
                lemma_object_view(*m);
                lemma_entry_views(m@);
            }
            let ghost entries = entry_views(m@);
            push_char(out, '{');
            for i in 0..m.len()
                invariant
                    *v == Json::Object(*m),
                    entries == entry_views(m@),
                    entries.len() == m@.len(),
                    forall|j: int| 0 <= j < m@.len() ==> #[trigger] entries[j] == (m@[j].0@, m@[j].1@),
                    out@ == start + seq!['{'] + entries_text(entries.take(i as int)),
            {
                assert(decreases_to!(*v => v->Object_0));
                assert(decreases_to!(v->Object_0 => v->Object_0@));
                assert(decreases_to!(v->Object_0@ => v->Object_0@[i as int]));
                assert(decreases_to!(v->Object_0@[i as int] => v->Object_0@[i as int].1));
                if i > 0 {
                    push_char(out, ',');
                }
                push_quoted(out, m[i].0.as_str());
                push_char(out, ':');
                push_json(out, &m[i].1);
                let ghost t = entries.take(i + 1);
                assert(t.subrange(0, t.len() - 1) == entries.take(i as int));
                assert(t[t.len() - 1] == entries[i as int]);
                if i == 0 {
                    assert(entries.take(0).len() == 0);
                }
                assert(out@ =~= start + seq!['{'] + entries_text(entries.take(i + 1)));
            }
            assert(entries.take(m.len() as int) == entries);
            push_char(out, '}');
        },
    }
}

/// `json_to_plain`: the plain text of a value.
pub fn to_plain(v: &Json) -> (r: String)
    ensures
        r@ == plain_text(v@),
{
    match v {
        Json::Str(s) => s.clone(),
        Json::Number(t) => t.clone(),
        Json::Bool(b) => {
            if *b {
                let r = String::from_str("true");
                proof {
                    reveal_strlit("true");
                }
                assert(r@ =~= plain_text(v@));
                r
            } else {
                let r = String::from_str("false");
                proof {
                    reveal_strlit("false");
                }
                assert(r@ =~= plain_text(v@));
                r
            }
        },
        Json::Null => String::new(),
        _ => {
            let mut out = String::new();
            push_json(&mut out, v);
            assert(out@ =~= plain_text(v@));
            out
        },
    }
}

} // verus!

verus! {

/// Pushing onto a list of values pushes its view.
pub proof fn lemma_item_views_push(v: Seq<Json>, x: Json)
    ensures
        item_views(v.push(x)) == item_views(v).push(x@),
{
    assert(item_views(v.push(x)) =~= item_views(v).push(x@));
}

} // verus!

verus! {

/// Appends the compact JSON text of an array of values.
pub fn push_json_array(out: &mut String, a: &Vec<Json>)
    ensures
        final(out)@ == old(out)@ + json_text(JsonV::Array(item_views(a@))),
{
    let ghost start = out@;
    let ghost items = item_views(a@);
    push_char(out, '[');
    for i in 0..a.len()
        invariant
            items == item_views(a@),
            out@ == start + seq!['['] + items_text(items.take(i as int)),
    {
        if i > 0 {
            push_char(out, ',');
        }
        push_json(out, &a[i]);
        let ghost t = items.take(i + 1);
        assert(t.subrange(0, t.len() - 1) == items.take(i as int));
        assert(t[t.len() - 1] == a@[i as int]@);
        if i == 0 {
            assert(items.take(0).len() == 0);
        }
        assert(out@ =~= start + seq!['['] + items_text(items.take(i + 1)));
    }
    assert(items.take(a.len() as int) == items);
    push_char(out, ']');
}

} // verus!

verus! {

/// Appends the pretty JSON text of `v` at indentation `ind` (`serde_json::to_string_pretty`).
pub fn push_pretty(out: &mut String, v: &Json, ind: &String)
    ensures
        final(out)@ == old(out)@ + pretty_text(v@, ind@),
    decreases v,
{
    let ghost start = out@;
    match v {
        Json::Array(a) => {
            proof {
                lemma_array_view(*a);
            }
            let ghost items = item_views(a@);
            if a.len() == 0 {
                push_str(out, "[]");
                assert(out@ =~= start + pretty_text(v@, ind@)) by {
                    reveal_strlit("[]");
                }
                return;
            }
            let mut inner = ind.clone();
            push_str(&mut inner, "  ");
            proof {
                reveal_strlit("  ");
            }
            assert(inner@ =~= ind@ + seq![' ', ' ']);
            push_char(out, '[');
            for i in 0..a.len()
                invariant
                    *v == Json::Array(*a),
                    items == item_views(a@),
                    inner@ == ind@ + seq![' ', ' '],
                    out@ == start + seq!['['] + pretty_items(items.take(i as int), inner@),
            {
                assert(decreases_to!(*v => v->Array_0));
                assert(decreases_to!(v->Array_0 => v->Array_0@));
                assert(decreases_to!(v->Array_0@ => v->Array_0@[i as int]));
                if i > 0 {
                    push_char(out, ',');
                }
                push_char(out, '\n');
                push_str(out, inner.as_str());
                push_pretty(out, &a[i], &inner);
                let ghost t = items.take(i + 1);
                assert(t.subrange(0, t.len() - 1) == items.take(i as int));
                assert(t[t.len() - 1] == a@[i as int]@);
                assert(out@ =~= start + seq!['['] + pretty_items(items.take(i + 1), inner@));
            }
            assert(items.take(a.len() as int) == items);
            push_char(out, '\n');
            push_str(out, ind.as_str());
            push_char(out, ']');
            assert(out@ =~= start + pretty_text(v@, ind@));
        },
        Json::Object(m) => {
            proof {
                lemma_object_view(*m);
                lemma_entry_views(m@);
            }
            let ghost entries = entry_views(m@);
            if m.len() == 0 {
                push_str(out, "{}");
                assert(out@ =~= start + pretty_text(v@, ind@)) by {
                    reveal_strlit("{}");
                }
                return;
            }
            let mut inner = ind.clone();
            push_str(&mut inner, "  ");
            proof {
                reveal_strlit("  ");
            }
            assert(inner@ =~= ind@ + seq![' ', ' ']);
            push_char(out, '{');
            for i in 0..m.len()
                invariant
                    *v == Json::Object(*m),
                    entries == entry_views(m@),
                    entries.len() == m@.len(),
                    forall|j: int| 0 <= j < m@.len() ==> #[trigger] entries[j] == (m@[j].0@, m@[j].1@),
                    inner@ == ind@ + seq![' ', ' '],
                    out@ == start + seq!['{'] + pretty_entries(entries.take(i as int), inner@),
            {
                assert(decreases_to!(*v => v->Object_0));
                assert(decreases_to!(v->Object_0 => v->Object_0@));
                assert(decreases_to!(v->Object_0@ => v->Object_0@[i as int]));
                assert(decreases_to!(v->Object_0@[i as int] => v->Object_0@[i as int].1));
                if i > 0 {
                    push_char(out, ',');
                }
                push_char(out, '\n');
                push_str(out, inner.as_str());
                push_quoted(out, m[i].0.as_str());
                push_char(out, ':');
                push_char(out, ' ');
                push_pretty(out, &m[i].1, &inner);
                let ghost t = entries.take(i + 1);
                assert(t.subrange(0, t.len() - 1) == entries.take(i as int));
                assert(t[t.len() - 1] == entries[i as int]);
                assert(out@ =~= start + seq!['{'] + pretty_entries(entries.take(i + 1), inner@));
            }
            assert(entries.take(m.len() as int) == entries);
            push_char(out, '\n');
            push_str(out, ind.as_str());
            push_char(out, '}');
            assert(out@ =~= start + pretty_text(v@, ind@));
        },
        _ => {
            push_json(out, v);
        },
    }
}

} // verus!
