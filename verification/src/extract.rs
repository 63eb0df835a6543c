//! Turning fetched documents into items: fields from JSON paths, templates, regex patterns,
//! inline datasets and ID lists.

use vstd::prelude::*;
use crate::adapter::{Command, FieldDef, SourceFormat, str_views};
use crate::json::{
    Json, JsonV, member, plain_text, entries_get, entries_insert, entries_put, entry_views, item_views,
    lemma_array_view, lemma_object_view, lemma_entry_views, lemma_item_views_push, to_plain,
};
use crate::num::{nat_text, u64_text};
use crate::params::{param_get, lookup_param};
use crate::path::{resolve_spec, resolve_json, opt_view};
use crate::text::{chars_of, string_of, str_eq, push_chars, slice_chars};
use crate::transform::{transform_spec, apply_transform_value};

verus! {

/// The paths a field tries, in order: `json_path`, then `alt_paths`.
pub open spec fn field_paths(def: FieldDef) -> Seq<Seq<char>> {
    match def.json_path {
        Some(p) => seq![p@] + str_views(def.alt_paths@),
        None => str_views(def.alt_paths@),
    }
}

/// The first path that yields a non-null value; `@index` yields the item's index.
pub open spec fn first_path_value(element: JsonV, paths: Seq<Seq<char>>, index: nat) -> Option<JsonV>
    decreases paths.len(),
{
    if paths.len() == 0 {
        None
    } else if paths[0] == "@index"@ {
        Some(JsonV::Number(nat_text(index)))
    } else {
        match resolve_spec(element, paths[0]) {
            Some(v) => if v != JsonV::Null { Some(v) } else { first_path_value(element, paths.skip(1), index) },
            None => first_path_value(element, paths.skip(1), index),
        }
    }
}

/// `extract_field_json`: the transformed first value found, else the transformed default, else null.
pub open spec fn field_json_spec(element: JsonV, def: FieldDef, index: nat) -> JsonV {
    match first_path_value(element, field_paths(def), index) {
        Some(v) => transform_spec(v, def.transform),
        None => match def.default {
            Some(d) => transform_spec(JsonV::Str(d@), def.transform),
            None => JsonV::Null,
        },
    }
}

/// `extract_field_json`.
pub fn extract_field_json(element: &Json, def: &FieldDef, index: usize) -> (r: Json)
    ensures
        r@ == field_json_spec(element@, *def, index as nat),
{
    let ghost fp = field_paths(*def);
    let ghost off: int = if def.json_path is Some { 1 } else { 0 };
    let mut paths: Vec<&str> = Vec::new();
    match &def.json_path {
        Some(p) => paths.push(p.as_str()),
        None => {},
    }
    for i in 0..def.alt_paths.len()
        invariant
            fp == field_paths(*def),
            off == (if def.json_path is Some { 1int } else { 0int }),
            fp.len() == off + def.alt_paths@.len(),
            paths@.len() == i + off,
            forall|j: int| 0 <= j < paths@.len() ==> paths@[j]@ == fp[j],
    {
        assert(fp[i + off] == def.alt_paths@[i as int]@);
        paths.push(def.alt_paths[i].as_str());
    }
    let mut k: usize = 0;
    assert(fp.skip(0) == fp);
    while k < paths.len()
        invariant
            k <= paths@.len(),
            paths@.len() == fp.len(),
            fp == field_paths(*def),
            forall|j: int| 0 <= j < fp.len() ==> paths@[j]@ == fp[j],
            first_path_value(element@, fp, index as nat) == first_path_value(element@, fp.skip(k as int), index as nat),
        decreases paths.len() - k,
    {
        let ghost rest = fp.skip(k as int);
        assert(rest[0] == fp[k as int]);
        assert(rest.skip(1) == fp.skip(k + 1));
        if str_eq(paths[k], "@index") {
            let t = string_of(&u64_text(index as u64));
            return apply_transform_value(Json::Number(t), def.transform);
        }
        match resolve_json(element, paths[k]) {
            Some(v) => {
                if !v.is_null() {
                    return apply_transform_value(v, def.transform);
                }
            },
            None => {},
        }
        k = k + 1;
    }
    match &def.default {
        Some(d) => apply_transform_value(Json::Str(d.clone()), def.transform),
        None => Json::Null,
    }
}

} // verus!

verus! {

/// Characters allowed in a template placeholder name: ASCII letters and digits, `_`, `-`.
pub open spec fn is_name_char(c: char) -> bool {
    ('A' <= c && c <= 'Z') || ('a' <= c && c <= 'z') || ('0' <= c && c <= '9') || c == '_' || c == '-'
}

/// The length of the leading run of name characters of `s`.
pub open spec fn name_run(s: Seq<char>) -> nat
    decreases s.len(),
{
    if s.len() > 0 && is_name_char(s[0]) {
        1 + name_run(s.skip(1))
    } else {
        0
    }
}

/// The length of the placeholder `{name}` at the start of `s` (the matches of
/// `\{([A-Za-z0-9_-]+)\}`), if one starts there.
pub open spec fn placeholder_len(s: Seq<char>) -> Option<nat> {
    let n = name_run(s.skip(1));
    if s.len() > 0 && s[0] == '{' && n >= 1 && n + 1 < s.len() && s[n + 1int] == '}' {
        Some(n + 2)
    } else {
        None
    }
}

/// What a placeholder `{key}` stands for: an extracted field, else a member of the item
/// (null counts as missing for both), else a parameter, else nothing.
pub open spec fn placeholder_value(
    key: Seq<char>,
    element: JsonV,
    obj: Seq<(Seq<char>, JsonV)>,
    params: Seq<(String, String)>,
) -> Seq<char> {
    match entries_get(obj, key) {
        Some(v) if v != JsonV::Null => plain_text(v),
        _ => match member(element, key) {
            Some(v) if v != JsonV::Null => plain_text(v),
            _ => match param_get(params, key) {
                Some(p) => p,
                None => Seq::empty(),
            },
        },
    }
}

/// `render_template`: every placeholder replaced by its value, scanning left to right.
pub open spec fn render_spec(
    tpl: Seq<char>,
    element: JsonV,
    obj: Seq<(Seq<char>, JsonV)>,
    params: Seq<(String, String)>,
) -> Seq<char>
    decreases tpl.len(),
{
    if tpl.len() == 0 {
        Seq::empty()
    } else {
        match placeholder_len(tpl) {
            Some(n) => if 2 <= n <= tpl.len() {
                placeholder_value(tpl.subrange(1, n - 1), element, obj, params) + render_spec(
                    tpl.skip(n as int),
                    element,
                    obj,
                    params,
                )
            } else {
                Seq::empty()
            },
            None => seq![tpl[0]] + render_spec(tpl.skip(1), element, obj, params),
        }
    }
}

fn char_is_name(c: char) -> (r: bool)
    ensures
        r == is_name_char(c),
{
    ('A' <= c && c <= 'Z') || ('a' <= c && c <= 'z') || ('0' <= c && c <= '9') || c == '_' || c == '-'
}

proof fn lemma_name_run(s: Seq<char>, k: int)
    requires
        0 <= k <= s.len(),
        forall|j: int| 0 <= j < k ==> is_name_char(#[trigger] s[j]),
        k == s.len() || !is_name_char(s[k]),
    ensures
        name_run(s) == k,
    decreases k,
{
    if k > 0 {
        lemma_name_run(s.skip(1), k - 1);
    }
}

/// The length of the placeholder starting at `t[i]`, if one does.
fn placeholder_at(t: &[char], i: usize) -> (r: Option<usize>)
    requires
        i < t.len(),
    ensures
        match placeholder_len(t@.skip(i as int)) {
            Some(n) => r == Some(n as usize) && 2 <= n && i + n <= t.len(),
            None => r is None,
        },
{
    let ghost s = t@.skip(i as int);
    assert(s[0] == t@[i as int]);
    if t[i] != '{' {
        return None;
    }
    let mut j = i + 1;
    while j < t.len() && char_is_name(t[j])
        invariant
            i < j <= t.len(),
            forall|m: int| i < m < j ==> is_name_char(#[trigger] t@[m]),
        decreases t.len() - j,
    {
        j = j + 1;
    }
    proof {
        let u = s.skip(1);
        assert(u =~= t@.skip(i + 1));
        assert forall|m: int| 0 <= m < j - i - 1 implies is_name_char(#[trigger] u[m]) by {
            assert(u[m] == t@[i + 1 + m]);
        }
        if j < t.len() {
            assert(u[j - i - 1] == t@[j as int]);
        }
        lemma_name_run(u, j - i - 1);
    }
    let n = j - i - 1;
    if n >= 1 && j < t.len() && t[j] == '}' {
        assert(s[n + 1] == t@[j as int]);
        Some(n + 2)
    } else {
        proof {
            if n >= 1 && n + 1 < s.len() {
                assert(s[n + 1] == t@[j as int]);
            }
        }
        None
    }
}

fn placeholder_text(
    key: &str,
    element: &Json,
    obj: &Vec<(String, Json)>,
    params: &Vec<(String, String)>,
) -> (r: Vec<char>)
    ensures
        r@ == placeholder_value(key@, element@, entry_views(obj@), params@),
{
    proof {
        lemma_object_view(*obj);
    }
    let o = Json::Object(clone_entries(obj));
    match o.get(key) {
        Some(v) => {
            if !v.is_null() {
                return chars_of(to_plain(v).as_str());
            }
        },
        None => {},
    }
    match element.get(key) {
        Some(v) => {
            if !v.is_null() {
                return chars_of(to_plain(v).as_str());
            }
        },
        None => {},
    }
    match lookup_param(params, key) {
        Some(p) => chars_of(p.as_str()),
        None => Vec::new(),
    }
}

/// A copy of object entries.
pub fn clone_entries(m: &Vec<(String, Json)>) -> (r: Vec<(String, Json)>)
    ensures
        entry_views(r@) == entry_views(m@),
{
    let mut out: Vec<(String, Json)> = Vec::new();
    for i in 0..m.len()
        invariant
            out@.len() == i,
            forall|j: int| 0 <= j < i ==> (#[trigger] out@[j]).0@ == m@[j].0@ && out@[j].1@ == m@[j].1@,
    {
        out.push((m[i].0.clone(), m[i].1.deep_clone()));
    }
    proof {
        lemma_entry_views(out@);
        lemma_entry_views(m@);
    }
    assert(entry_views(out@) =~= entry_views(m@));
    out
}

/// `render_template`.
pub fn render_template(
    tpl: &str,
    element: &Json,
    obj: &Vec<(String, Json)>,
    params: &Vec<(String, String)>,
) -> (r: String)
    ensures
        r@ == render_spec(tpl@, element@, entry_views(obj@), params@),
{
    let t = chars_of(tpl);
    let ghost ov = entry_views(obj@);
    let mut out: Vec<char> = Vec::new();
    let mut i: usize = 0;
    assert(t@.skip(0) == t@);
    while i < t.len()
        invariant
            i <= t.len(),
            t@ == tpl@,
            ov == entry_views(obj@),
            out@ + render_spec(t@.skip(i as int), element@, ov, params@) == render_spec(t@, element@, ov, params@),
        decreases t.len() - i,
    {
        let ghost s = t@.skip(i as int);
        match placeholder_at(&t, i) {
            Some(n) => {
                let key = slice_chars(&t, i + 1, i + n - 1);
                assert(key@ =~= s.subrange(1, n - 1));
                let v = placeholder_text(string_of(&key).as_str(), element, obj, params);
                let ghost before = out@;
                for k in 0..v.len()
                    invariant
                        out@ == before + v@.take(k as int),
                {
                    out.push(v[k]);
                    assert(v@.take(k + 1) == v@.take(k as int).push(v@[k as int]));
                }
                assert(v@.take(v.len() as int) == v@);
                assert(s.skip(n as int) =~= t@.skip(i + n));
                assert(before + (v@ + render_spec(s.skip(n as int), element@, ov, params@)) =~= out@ + render_spec(t@.skip(i + n), element@, ov, params@));
                i = i + n;
            },
            None => {
                let ghost before = out@;
                assert(s[0] == t@[i as int]);
                out.push(t[i]);
                assert(s.skip(1) =~= t@.skip(i + 1));
                assert(before + (seq![s[0]] + render_spec(s.skip(1), element@, ov, params@)) =~= out@ + render_spec(t@.skip(i + 1), element@, ov, params@));
                i = i + 1;
            },
        }
    }
    assert(t@.skip(i as int).len() == 0);
    assert(out@ + Seq::<char>::empty() =~= out@);
    string_of(&out)
}

} // verus!

verus! {

/// A field built only from its template (no path to read).
pub open spec fn template_only(def: FieldDef) -> bool {
    def.template is Some && def.json_path is None && def.alt_paths@.len() == 0
}

/// The entries after the path fields, in field order.
pub open spec fn first_pass(element: JsonV, fields: Seq<(String, FieldDef)>, index: nat) -> Seq<(Seq<char>, JsonV)>
    decreases fields.len(),
{
    if fields.len() == 0 {
        Seq::empty()
    } else {
        let m = first_pass(element, fields.drop_last(), index);
        let f = fields.last();
        if template_only(f.1) {
            m
        } else {
            entries_insert(m, f.0@, field_json_spec(element, f.1, index))
        }
    }
}

/// The entries after the template fields, each rendered over the entries so far.
pub open spec fn second_pass(
    m0: Seq<(Seq<char>, JsonV)>,
    element: JsonV,
    fields: Seq<(String, FieldDef)>,
    params: Seq<(String, String)>,
) -> Seq<(Seq<char>, JsonV)>
    decreases fields.len(),
{
    if fields.len() == 0 {
        m0
    } else {
        let m = second_pass(m0, element, fields.drop_last(), params);
        let f = fields.last();
        match f.1.template {
            Some(tpl) => entries_insert(m, f.0@, JsonV::Str(render_spec(tpl@, element, m, params))),
            None => m,
        }
    }
}

/// `extract_object`: the item built from one element.
pub open spec fn object_spec(
    element: JsonV,
    fields: Seq<(String, FieldDef)>,
    params: Seq<(String, String)>,
    index: nat,
) -> JsonV {
    JsonV::Object(second_pass(first_pass(element, fields, index), element, fields, params))
}

/// `extract_object`.
pub fn extract_object(
    element: &Json,
    fields: &Vec<(String, FieldDef)>,
    params: &Vec<(String, String)>,
    index: usize,
) -> (r: Json)
    ensures
        r@ == object_spec(element@, fields@, params@, index as nat),
{
    let mut obj: Vec<(String, Json)> = Vec::new();
    proof {
        lemma_entry_views(obj@);
    }
    assert(entry_views(obj@) =~= Seq::<(Seq<char>, JsonV)>::empty());
    for i in 0..fields.len()
        invariant
            entry_views(obj@) == first_pass(element@, fields@.take(i as int), index as nat),
    {
        let ghost t = fields@.take(i + 1);
        assert(t.drop_last() == fields@.take(i as int));
        assert(t.last() == fields@[i as int]);
        let def = &fields[i].1;
        let skip = def.template.is_some() && def.json_path.is_none() && def.alt_paths.len() == 0;
        if !skip {
            let v = extract_field_json(element, def, index);
            entries_put(&mut obj, fields[i].0.clone(), v);
        }
    }
    assert(fields@.take(fields.len() as int) == fields@);
    let ghost m0 = entry_views(obj@);
    for i in 0..fields.len()
        invariant
            m0 == first_pass(element@, fields@, index as nat),
            entry_views(obj@) == second_pass(m0, element@, fields@.take(i as int), params@),
    {
        let ghost t = fields@.take(i + 1);
        assert(t.drop_last() == fields@.take(i as int));
        assert(t.last() == fields@[i as int]);
        match &fields[i].1.template {
            Some(tpl) => {
                let rendered = render_template(tpl.as_str(), element, &obj, params);
                entries_put(&mut obj, fields[i].0.clone(), Json::Str(rendered));
            },
            None => {},
        }
    }
    assert(fields@.take(fields.len() as int) == fields@);
    proof {
        lemma_object_view(obj);
    }
    Json::Object(obj)
}

/// A non-empty object whose values are all null or empty strings.
pub open spec fn blank_spec(v: JsonV) -> bool {
    match v {
        JsonV::Object(m) => m.len() > 0 && forall|i: int|
            0 <= i < m.len() ==> (#[trigger] m[i]).1 == JsonV::Null || m[i].1 == JsonV::Str(Seq::empty()),
        _ => false,
    }
}

/// `is_blank_item`.
pub fn is_blank_item(v: &Json) -> (r: bool)
    ensures
        r == blank_spec(v@),
{
    match v {
        Json::Object(m) => {
            proof {
                lemma_object_view(*m);
                lemma_entry_views(m@);
            }
            if m.len() == 0 {
                return false;
            }
            for i in 0..m.len()
                invariant
                    v@ == JsonV::Object(entry_views(m@)),
                    entry_views(m@).len() == m@.len(),
                    forall|j: int| 0 <= j < m@.len() ==> #[trigger] entry_views(m@)[j] == (m@[j].0@, m@[j].1@),
                    forall|j: int| 0 <= j < i ==> (#[trigger] entry_views(m@)[j]).1 == JsonV::Null || entry_views(m@)[j].1 == JsonV::Str(Seq::empty()),
            {
                let blank = match &m[i].1 {
                    Json::Null => true,
                    Json::Str(s) => {
                        let e = s.as_str().is_empty();
                        proof {
                            if e {
                                assert(s@ =~= Seq::<char>::empty());
                            }
                        }
                        e
                    },
                    _ => false,
                };
                assert(entry_views(m@)[i as int] == (m@[i as int].0@, m@[i as int].1@));
                if !blank {
                    return false;
                }
            }
            true
        },
        _ => false,
    }
}

} // verus!

verus! {

/// The elements a JSON document is split into: `$` or `.` keep the document whole, another
/// selector's array is split into its items, any other value it finds is one element and a
/// selector that finds nothing gives none; without a selector a top-level array is split.
pub open spec fn selected_elements(root: JsonV, selector: Option<Seq<char>>) -> Seq<JsonV> {
    match selector {
        Some(sel) => if sel == seq!['$'] || sel == seq!['.'] {
            seq![root]
        } else {
            match resolve_spec(root, sel) {
                Some(JsonV::Array(a)) => a,
                Some(o) => seq![o],
                None => Seq::empty(),
            }
        },
        None => match root {
            JsonV::Array(a) => a,
            _ => seq![root],
        },
    }
}

/// The view of an optional string.
pub open spec fn opt_str(o: Option<String>) -> Option<Seq<char>> {
    match o {
        Some(s) => Some(s@),
        None => None,
    }
}

/// The items built from the elements, the element's position being its index; blank items are
/// left out.
pub open spec fn json_items(
    elements: Seq<JsonV>,
    fields: Seq<(String, FieldDef)>,
    params: Seq<(String, String)>,
) -> Seq<JsonV>
    decreases elements.len(),
{
    if elements.len() == 0 {
        Seq::empty()
    } else {
        let r = json_items(elements.drop_last(), fields, params);
        let item = object_spec(elements.last(), fields, params, (elements.len() - 1) as nat);
        if blank_spec(item) {
            r
        } else {
            r.push(item)
        }
    }
}

/// `extract_json_value`: the items of a JSON document.
pub open spec fn extract_json_spec(root: JsonV, cmd: Command, params: Seq<(String, String)>) -> Seq<JsonV> {
    json_items(selected_elements(root, opt_str(cmd.selector)), cmd.fields@, params)
}

fn elements_of(root: &Json, selector: &Option<String>) -> (r: Vec<Json>)
    ensures
        item_views(r@) == selected_elements(root@, opt_str(*selector)),
{
    match selector {
        Some(sel) => {
            let sc = chars_of(sel.as_str());
            let whole = sc.len() == 1 && (sc[0] == '$' || sc[0] == '.');
            proof {
                if sc@.len() == 1 {
                    if sc@[0] == '$' {
                        assert(sc@ =~= seq!['$']);
                    } else if sc@[0] == '.' {
                        assert(sc@ =~= seq!['.']);
                    }
                }
            }
            if whole {
                let mut v: Vec<Json> = Vec::new();
                v.push(root.deep_clone());
                assert(item_views(v@) =~= seq![root@]);
                v
            } else {
                match resolve_json(root, sel.as_str()) {
                    Some(Json::Array(a)) => {
                        proof {
                            lemma_array_view(a);
                        }
                        a
                    },
                    Some(o) => {
                        let mut v: Vec<Json> = Vec::new();
                        proof {
                            if let JsonV::Array(_) = o@ {
                                assert(o is Array);
                            }
                        }
                        let ghost ov = o@;
                        v.push(o);
                        assert(item_views(v@) =~= seq![ov]);
                        v
                    },
                    None => {
                        let v: Vec<Json> = Vec::new();
                        assert(item_views(v@) =~= Seq::<JsonV>::empty());
                        v
                    },
                }
            }
        },
        None => match root {
            Json::Array(a) => {
                proof {
                    lemma_array_view(*a);
                }
                let mut v: Vec<Json> = Vec::new();
                for i in 0..a.len()
                    invariant
                        item_views(v@) == item_views(a@).take(i as int),
                {
                    let ghost before = v@;
                    let x = a[i].deep_clone();
                    v.push(x);
                    proof {
                        lemma_item_views_push(before, x);
                    }
                    assert(item_views(a@).take(i + 1) =~= item_views(a@).take(i as int).push(a@[i as int]@));
                }
                assert(item_views(a@).take(a.len() as int) == item_views(a@));
                v
            },
            _ => {
                let mut v: Vec<Json> = Vec::new();
                v.push(root.deep_clone());
                assert(item_views(v@) =~= seq![root@]);
                v
            },
        },
    }
}

/// `extract_json_value`.
pub fn extract_json_value(root: &Json, cmd: &Command, params: &Vec<(String, String)>) -> (r: Vec<Json>)
    ensures
        item_views(r@) == extract_json_spec(root@, *cmd, params@),
{
    let elements = elements_of(root, &cmd.selector);
    let ghost ev = item_views(elements@);
    let mut items: Vec<Json> = Vec::new();
    for index in 0..elements.len()
        invariant
            ev == item_views(elements@),
            item_views(items@) == json_items(ev.take(index as int), cmd.fields@, params@),
    {
        let ghost t = ev.take(index + 1);
        assert(t.drop_last() == ev.take(index as int));
        assert(t.last() == elements@[index as int]@);
        let item = extract_object(&elements[index], &cmd.fields, params, index);
        if !is_blank_item(&item) {
            let ghost before = item_views(items@);
            let ghost iv = item@;
            items.push(item);
            assert(item_views(items@) =~= before.push(iv));
        }
    }
    assert(ev.take(elements.len() as int) == ev);
    items
}

/// The text of one ID: numbers and strings as they are, other values as compact JSON.
pub open spec fn id_text(v: JsonV) -> Seq<char> {
    match v {
        JsonV::Number(t) => t,
        JsonV::Str(s) => s,
        _ => crate::json::json_text(v),
    }
}

/// The values an ID list is read from: the selector's array items (another value it finds is
/// one ID, nothing found gives none), else the items of a top-level array, else the document.
pub open spec fn id_values(root: JsonV, selector: Option<Seq<char>>) -> Seq<JsonV> {
    match selector {
        Some(sel) => match resolve_spec(root, sel) {
            Some(JsonV::Array(a)) => a,
            Some(o) => seq![o],
            None => Seq::empty(),
        },
        None => match root {
            JsonV::Array(a) => a,
            _ => seq![root],
        },
    }
}

/// `extract_id_list`: the IDs of a `fetch_each` command's first response.
pub fn extract_id_list(root: &Json, cmd: &Command) -> (r: Vec<String>)
    ensures
        str_views(r@) == id_values(root@, opt_str(cmd.selector)).map_values(|v: JsonV| id_text(v)),
{
    let values: Vec<Json> = match &cmd.selector {
        Some(sel) => match resolve_json(root, sel.as_str()) {
            Some(Json::Array(a)) => {
                proof {
                    lemma_array_view(a);
                }
                a
            },
            Some(o) => {
                let ghost ov = o@;
                proof {
                    if let JsonV::Array(_) = o@ {
                        assert(o is Array);
                    }
                }
                let mut v: Vec<Json> = Vec::new();
                v.push(o);
                assert(item_views(v@) =~= seq![ov]);
                v
            },
            None => {
                let v: Vec<Json> = Vec::new();
                assert(item_views(v@) =~= Seq::<JsonV>::empty());
                v
            },
        },
        None => {
            let none: Option<String> = None;
            elements_of(root, &none)
        },
    };
    let ghost vv = item_views(values@);
    assert(vv == id_values(root@, opt_str(cmd.selector)));
    let mut out: Vec<String> = Vec::new();
    for i in 0..values.len()
        invariant
            vv == item_views(values@),
            str_views(out@) == vv.take(i as int).map_values(|v: JsonV| id_text(v)),
    {
        let t = match &values[i] {
            Json::Number(t) => t.clone(),
            Json::Str(s) => s.clone(),
            other => {
                let mut s = String::new();
                crate::json::push_json(&mut s, other);
                assert(s@ =~= crate::json::json_text(other@));
                s
            },
        };
        let ghost before = out@;
        let ghost tv = t@;
        out.push(t);
        proof {
            crate::adapter::lemma_str_views_push(before, t);
        }
        assert(vv.take(i + 1).map_values(|v: JsonV| id_text(v)) =~= vv.take(i as int).map_values(|v: JsonV| id_text(v)).push(id_text(vv[i as int])));
    }
    assert(vv.take(values.len() as int) == vv);
    out
}

} // verus!

verus! {

/// ASCII lower-casing of one character.
pub open spec fn ascii_lower(c: char) -> char {
    if 'A' <= c && c <= 'Z' {
        ((c as u32) + 32) as char
    } else {
        c
    }
}

/// `str::eq_ignore_ascii_case`.
pub open spec fn eq_ignore_ascii_case(a: Seq<char>, b: Seq<char>) -> bool {
    a.len() == b.len() && forall|i: int| 0 <= i < a.len() ==> ascii_lower(a[i]) == ascii_lower(b[i])
}

/// `str::eq_ignore_ascii_case`.
pub fn chars_eq_ignore_ascii_case(a: &[char], b: &[char]) -> (r: bool)
    ensures
        r == eq_ignore_ascii_case(a@, b@),
{
    if a.len() != b.len() {
        return false;
    }
    for i in 0..a.len()
        invariant
            a.len() == b.len(),
            forall|j: int| 0 <= j < i ==> ascii_lower(a@[j]) == ascii_lower(b@[j]),
    {
        let x = if 'A' <= a[i] && a[i] <= 'Z' { ((a[i] as u32) + 32) as u8 as char } else { a[i] };
        let y = if 'A' <= b[i] && b[i] <= 'Z' { ((b[i] as u32) + 32) as u8 as char } else { b[i] };
        assert(x == ascii_lower(a@[i as int]));
        assert(y == ascii_lower(b@[i as int]));
        if x != y {
            return false;
        }
    }
    true
}

/// The items of a static command's inline data: an array's items, another value as one item,
/// none without data.
pub open spec fn data_items(data: Option<Json>) -> Seq<JsonV> {
    match data {
        Some(d) => match d@ {
            JsonV::Array(a) => a,
            other => seq![other],
        },
        None => Seq::empty(),
    }
}

/// An object keeps only the listed columns that it has; other values are unchanged.
pub open spec fn project_columns(v: JsonV, cols: Seq<Seq<char>>) -> JsonV {
    match v {
        JsonV::Object(m) => JsonV::Object(columns_of(m, cols)),
        _ => v,
    }
}

/// The entries of `m` named by `cols`, inserted in column order.
pub open spec fn columns_of(m: Seq<(Seq<char>, JsonV)>, cols: Seq<Seq<char>>) -> Seq<(Seq<char>, JsonV)>
    decreases cols.len(),
{
    if cols.len() == 0 {
        Seq::empty()
    } else {
        let r = columns_of(m, cols.drop_last());
        match entries_get(m, cols.last()) {
            Some(x) => entries_insert(r, cols.last(), x),
            None => r,
        }
    }
}

/// The items of a static command before filtering: built from `fields` when there are any,
/// else projected on `columns` when there are any, else as they are.
pub open spec fn static_items(items: Seq<JsonV>, cmd: Command, params: Seq<(String, String)>) -> Seq<JsonV> {
    if cmd.fields@.len() > 0 {
        Seq::new(items.len(), |i: int| object_spec(items[i], cmd.fields@, params, i as nat))
    } else if cmd.columns@.len() > 0 {
        items.map_values(|v: JsonV| project_columns(v, str_views(cmd.columns@)))
    } else {
        items
    }
}

/// The names of a command's parameters.
pub open spec fn param_def_names(cmd: Command) -> Seq<Seq<char>> {
    Seq::new(cmd.params@.len(), |i: int| cmd.params@[i].0@)
}

/// A parameter filters static items when it is not `limit`, its value is not `all` (in any
/// ASCII case), and the command defines it.
pub open spec fn filters_items(p: (String, String), cmd: Command) -> bool {
    p.0@ != "limit"@ && !eq_ignore_ascii_case(p.1@, "all"@) && param_def_names(cmd).contains(p.0@)
}

/// An item passes a filtering parameter when it lacks that member or the member's plain text
/// equals the value.
pub open spec fn passes(item: JsonV, p: (String, String)) -> bool {
    match member(item, p.0@) {
        Some(v) => plain_text(v) == p.1@,
        None => true,
    }
}

/// An item passes every filtering parameter.
pub open spec fn passes_all(item: JsonV, params: Seq<(String, String)>, cmd: Command) -> bool {
    forall|i: int| 0 <= i < params.len() && filters_items(#[trigger] params[i], cmd) ==> passes(item, params[i])
}

/// `extract_static`: the inline items, built or projected, that pass every filtering parameter.
pub open spec fn extract_static_spec(cmd: Command, params: Seq<(String, String)>) -> Seq<JsonV> {
    static_items(data_items(cmd.data), cmd, params).filter(|v: JsonV| passes_all(v, params, cmd))
}

fn project_item(v: &Json, cols: &Vec<String>) -> (r: Json)
    ensures
        r@ == project_columns(v@, str_views(cols@)),
{
    match v {
        Json::Object(m) => {
            proof {
                lemma_object_view(*m);
            }
            let mut out: Vec<(String, Json)> = Vec::new();
            assert(entry_views(out@) =~= Seq::<(Seq<char>, JsonV)>::empty());
            for i in 0..cols.len()
                invariant
                    v@ == JsonV::Object(entry_views(m@)),
                    entry_views(out@) == columns_of(entry_views(m@), str_views(cols@).take(i as int)),
            {
                let ghost t = str_views(cols@).take(i + 1);
                assert(t.drop_last() == str_views(cols@).take(i as int));
                assert(t.last() == cols@[i as int]@);
                match v.get(cols[i].as_str()) {
                    Some(x) => {
                        entries_put(&mut out, cols[i].clone(), x.deep_clone());
                    },
                    None => {},
                }
            }
            assert(str_views(cols@).take(cols.len() as int) == str_views(cols@));
            proof {
                lemma_object_view(out);
            }
            Json::Object(out)
        },
        _ => v.deep_clone(),
    }
}

fn has_param_def(cmd: &Command, key: &str) -> (r: bool)
    ensures
        r == param_def_names(*cmd).contains(key@),
{
    for i in 0..cmd.params.len()
        invariant
            forall|j: int| 0 <= j < i ==> cmd.params@[j].0@ != key@,
    {
        if str_eq(cmd.params[i].0.as_str(), key) {
            assert(param_def_names(*cmd)[i as int] == key@);
            return true;
        }
    }
    assert forall|j: int| 0 <= j < param_def_names(*cmd).len() implies param_def_names(*cmd)[j] != key@ by {
        assert(param_def_names(*cmd)[j] == cmd.params@[j].0@);
    }
    false
}

fn is_filtering(p: &(String, String), cmd: &Command) -> (r: bool)
    ensures
        r == filters_items(*p, *cmd),
{
    proof {
        reveal_strlit("limit");
        reveal_strlit("all");
    }
    let k = chars_of(p.0.as_str());
    let v = chars_of(p.1.as_str());
    let limit = chars_of("limit");
    let all = chars_of("all");
    !crate::text::chars_eq(&k, &limit) && !chars_eq_ignore_ascii_case(&v, &all) && has_param_def(cmd, p.0.as_str())
}

fn item_passes(item: &Json, p: &(String, String)) -> (r: bool)
    ensures
        r == passes(item@, *p),
{
    match item.get(p.0.as_str()) {
        Some(v) => str_eq(to_plain(v).as_str(), p.1.as_str()),
        None => true,
    }
}

/// `extract_static`.
pub fn extract_static(cmd: &Command, params: &Vec<(String, String)>) -> (r: Vec<Json>)
    ensures
        item_views(r@) == extract_static_spec(*cmd, params@),
{
    let data: Vec<Json> = match &cmd.data {
        Some(d) => {
            let c = d.deep_clone();
            match c {
                Json::Array(a) => {
                    proof {
                        lemma_array_view(a);
                    }
                    a
                },
                other => {
                    let ghost ov = other@;
                    proof {
                        if let JsonV::Array(_) = other@ {
                            assert(other is Array);
                        }
                    }
                    let mut v: Vec<Json> = Vec::new();
                    v.push(other);
                    assert(item_views(v@) =~= seq![ov]);
                    v
                },
            }
        },
        None => {
            let v: Vec<Json> = Vec::new();
            assert(item_views(v@) =~= Seq::<JsonV>::empty());
            v
        },
    };
    let ghost dv = item_views(data@);
    assert(dv == data_items(cmd.data));
    let mut items: Vec<Json> = Vec::new();
    for i in 0..data.len()
        invariant
            dv == item_views(data@),
            item_views(items@) == static_items(dv, *cmd, params@).take(i as int),
            static_items(dv, *cmd, params@).len() == dv.len(),
    {
        let x = if cmd.fields.len() > 0 {
            extract_object(&data[i], &cmd.fields, params, i)
        } else if cmd.columns.len() > 0 {
            project_item(&data[i], &cmd.columns)
        } else {
            data[i].deep_clone()
        };
        let ghost before = items@;
        proof {
            lemma_item_views_push(before, x);
        }
        items.push(x);
        assert(static_items(dv, *cmd, params@).take(i + 1) =~= static_items(dv, *cmd, params@).take(i as int).push(
            static_items(dv, *cmd, params@)[i as int],
        ));
    }
    let ghost sv = static_items(dv, *cmd, params@);
    assert(sv.take(data.len() as int) == sv);
    let mut out: Vec<Json> = Vec::new();
    for i in 0..items.len()
        invariant
            item_views(items@) == sv,
            item_views(out@) == sv.take(i as int).filter(|v: JsonV| passes_all(v, params@, *cmd)),
    {
        let mut keep = true;
        let mut k: usize = 0;
        while k < params.len()
            invariant
                k <= params.len(),
                i < items.len(),
                item_views(items@) == sv,
                item_views(out@) == sv.take(i as int).filter(|v: JsonV| passes_all(v, params@, *cmd)),
                keep == forall|j: int| 0 <= j < k && filters_items(#[trigger] params@[j], *cmd) ==> passes(items@[i as int]@, params@[j]),
            decreases params.len() - k,
        {
            if is_filtering(&params[k], cmd) && !item_passes(&items[i], &params[k]) {
                keep = false;
            }
            k = k + 1;
        }
        assert(items@[i as int]@ == sv[i as int]);
        let ghost before = out@;
        assert(sv.take(i + 1).drop_last() == sv.take(i as int));
        if keep {
            let x = items[i].deep_clone();
            proof {
                lemma_item_views_push(before, x);
            }
            out.push(x);
        }
        assert(item_views(out@) == sv.take(i + 1).filter(|v: JsonV| passes_all(v, params@, *cmd))) by {
            reveal_with_fuel(Seq::<_>::filter, 1);
            assert(sv.take(i + 1).last() == sv[i as int]);
        }
    }
    assert(sv.take(items.len() as int) == sv);
    out
}

} // verus!

verus! {

proof fn lemma_json_items_not_blank(elements: Seq<JsonV>, fields: Seq<(String, FieldDef)>, params: Seq<(String, String)>)
    ensures
        json_items(elements, fields, params).len() <= elements.len(),
        forall|k: int|
            0 <= k < json_items(elements, fields, params).len() ==> !blank_spec(#[trigger] json_items(elements, fields, params)[k]),
    decreases elements.len(),
{
    if elements.len() > 0 {
        lemma_json_items_not_blank(elements.drop_last(), fields, params);
        let r = json_items(elements.drop_last(), fields, params);
        let j = json_items(elements, fields, params);
        assert forall|k: int| 0 <= k < j.len() implies !blank_spec(#[trigger] j[k]) by {
            if k < r.len() {
                assert(j[k] == r[k]);
            }
        }
    }
}

/// A JSON document never gives more items than it has elements, and never an item whose
/// fields are all null or empty.
pub proof fn lemma_no_blank_items(root: JsonV, cmd: Command, params: Seq<(String, String)>)
    ensures
        extract_json_spec(root, cmd, params).len() <= selected_elements(root, opt_str(cmd.selector)).len(),
        forall|k: int|
            0 <= k < extract_json_spec(root, cmd, params).len() ==> !blank_spec(#[trigger] extract_json_spec(root, cmd, params)[k]),
{
    lemma_json_items_not_blank(selected_elements(root, opt_str(cmd.selector)), cmd.fields@, params);
}

} // verus!

verus! {

/// What one path of a field gives for an element: the item's index for `@index`, else the
/// value the path leads to, if any.
pub open spec fn path_gives(element: JsonV, path: Seq<char>, index: nat) -> Option<JsonV> {
    if path == "@index"@ {
        Some(JsonV::Number(nat_text(index)))
    } else {
        resolve_spec(element, path)
    }
}

/// A value that is there and not null.
pub open spec fn present(o: Option<JsonV>) -> bool {
    match o {
        Some(v) => v != JsonV::Null,
        None => false,
    }
}

proof fn lemma_first_path_value_law(element: JsonV, paths: Seq<Seq<char>>, index: nat)
    ensures
        (exists|k: int| 0 <= k < paths.len() && present(#[trigger] path_gives(element, paths[k], index)))
            ==> exists|j: int| 0 <= j < paths.len() && present(#[trigger] path_gives(element, paths[j], index))
                && first_path_value(element, paths, index) == path_gives(element, paths[j], index)
                && forall|i: int| 0 <= i < j ==> !present(#[trigger] path_gives(element, paths[i], index)),
        (forall|k: int| 0 <= k < paths.len() ==> !present(#[trigger] path_gives(element, paths[k], index)))
            ==> first_path_value(element, paths, index) is None,
    decreases paths.len(),
{
    if paths.len() > 0 {
        let q = paths.skip(1);
        lemma_first_path_value_law(element, q, index);
        assert forall|i: int| 0 <= i < q.len() implies #[trigger] q[i] == paths[i + 1] by {}
        if present(path_gives(element, paths[0], index)) {
            assert(first_path_value(element, paths, index) == path_gives(element, paths[0], index));
        } else {
            assert(first_path_value(element, paths, index) == first_path_value(element, q, index));
            if exists|k: int| 0 <= k < paths.len() && present(#[trigger] path_gives(element, paths[k], index)) {
                let k = choose|k: int| 0 <= k < paths.len() && present(#[trigger] path_gives(element, paths[k], index));
                assert(k > 0);
                assert(present(path_gives(element, q[k - 1], index)));
                let j = choose|j: int| 0 <= j < q.len() && present(#[trigger] path_gives(element, q[j], index))
                    && first_path_value(element, q, index) == path_gives(element, q[j], index)
                    && forall|i: int| 0 <= i < j ==> !present(#[trigger] path_gives(element, q[i], index));
                assert(paths[j + 1] == q[j]);
                assert forall|i: int| 0 <= i < j + 1 implies !present(#[trigger] path_gives(element, paths[i], index)) by {
                    if i > 0 {
                        assert(paths[i] == q[i - 1]);
                    }
                }
            }
            if forall|k: int| 0 <= k < paths.len() ==> !present(#[trigger] path_gives(element, paths[k], index)) {
                assert forall|k: int| 0 <= k < q.len() implies !present(#[trigger] path_gives(element, q[k], index)) by {
                    assert(q[k] == paths[k + 1]);
                }
            }
        }
    }
}

/// A JSON field falls through null: its paths (`json_path`, then `alt_paths`) are tried in
/// order, and a path that gives null or nothing passes to the next. When some path gives a
/// non-null value, the field is the first such value (transformed), so a field without a
/// transform is not null; when none does, the field is its default (transformed), and null
/// when it has none.
pub proof fn lemma_field_falls_through_null(element: JsonV, def: FieldDef, index: nat)
    ensures
        ({
            let paths = field_paths(def);
            &&& (exists|k: int| 0 <= k < paths.len() && present(#[trigger] path_gives(element, paths[k], index)))
                ==> exists|j: int| 0 <= j < paths.len() && present(#[trigger] path_gives(element, paths[j], index))
                    && field_json_spec(element, def, index) == transform_spec(path_gives(element, paths[j], index)->0, def.transform)
                    && forall|i: int| 0 <= i < j ==> !present(#[trigger] path_gives(element, paths[i], index))
            &&& (exists|k: int| 0 <= k < paths.len() && present(#[trigger] path_gives(element, paths[k], index)))
                && def.transform is None ==> field_json_spec(element, def, index) != JsonV::Null
            &&& (forall|k: int| 0 <= k < paths.len() ==> !present(#[trigger] path_gives(element, paths[k], index)))
                ==> field_json_spec(element, def, index) == match def.default {
                    Some(d) => transform_spec(JsonV::Str(d@), def.transform),
                    None => JsonV::Null,
                }
        }),
{
    lemma_first_path_value_law(element, field_paths(def), index);
}

} // verus!
