//! The records a command produced, and the operations that reshape them.

use vstd::prelude::*;
use crate::json::{Json, JsonV, entries_get, entries_has, entries_push, entry_views, item_views, member, plain_text, to_plain, lemma_object_view, lemma_item_views_push};
use crate::text::{chars_of, chars_eq};
use crate::adapter::str_views;
use crate::output::{OutputFormat, format_result, format_spec, text_result, vec_views};

verus! {

/// Result of executing an adapter command.
pub struct PipelineResult {
    /// Adapter name.
    pub adapter: String,
    /// Command name.
    pub command: String,
    /// Extracted items.
    pub items: Vec<Json>,
    /// Number of items.
    pub count: usize,
}

/// The fields `fields` of an object's entries, in the order asked for: each field the object
/// has, at its first occurrence in `fields`, with the object's value for it.
pub open spec fn project_entries(m: Seq<(Seq<char>, JsonV)>, fields: Seq<Seq<char>>) -> Seq<(Seq<char>, JsonV)>
    decreases fields.len(),
{
    if fields.len() == 0 {
        Seq::empty()
    } else {
        let p = project_entries(m, fields.drop_last());
        match entries_get(m, fields.last()) {
            Some(v) => if entries_get(p, fields.last()) is Some {
                p
            } else {
                p.push((fields.last(), v))
            },
            None => p,
        }
    }
}

/// An object keeps only `fields`; other values stay as they are.
pub open spec fn project_item(v: JsonV, fields: Seq<Seq<char>>) -> JsonV {
    match v {
        JsonV::Object(m) => JsonV::Object(project_entries(m, fields)),
        _ => v,
    }
}

/// The text an item is told apart by in `unique_by`: the plain text of its member `field`,
/// empty when it has none.
pub open spec fn unique_key(v: JsonV, field: Seq<char>) -> Seq<char> {
    match member(v, field) {
        Some(x) => plain_text(x),
        None => Seq::empty(),
    }
}

/// The keys of all items.
pub open spec fn unique_keys(items: Seq<JsonV>, field: Seq<char>) -> Seq<Seq<char>> {
    Seq::new(items.len(), |i: int| unique_key(items[i], field))
}

/// The items whose key no earlier item has, in order.
pub open spec fn unique_spec(items: Seq<JsonV>, field: Seq<char>) -> Seq<JsonV>
    decreases items.len(),
{
    if items.len() == 0 {
        Seq::empty()
    } else {
        let p = unique_spec(items.drop_last(), field);
        if unique_keys(items.drop_last(), field).contains(unique_key(items.last(), field)) {
            p
        } else {
            p.push(items.last())
        }
    }
}

fn key_of(item: &Json, field: &str) -> (r: Vec<char>)
    ensures
        r@ == unique_key(item@, field@),
{
    match item.get(field) {
        Some(v) => chars_of(to_plain(v).as_str()),
        None => Vec::new(),
    }
}

fn clone_items(v: &Vec<Json>, from: usize, to: usize) -> (r: Vec<Json>)
    requires
        from <= to <= v.len(),
    ensures
        item_views(r@) == item_views(v@).subrange(from as int, to as int),
{
    let mut out: Vec<Json> = Vec::new();
    let mut i = from;
    while i < to
        invariant
            from <= i <= to <= v.len(),
            item_views(out@) == item_views(v@).subrange(from as int, i as int),
        decreases to - i,
    {
        let ghost before = out@;
        let x = v[i].deep_clone();
        let ghost xx = x;
        out.push(x);
        proof {
            lemma_item_views_push(before, xx);
        }
        assert(item_views(out@) =~= item_views(v@).subrange(from as int, i + 1));
        i = i + 1;
    }
    out
}

impl PipelineResult {
    /// `count` is the number of items.
    pub open spec fn wf(&self) -> bool {
        self.count == self.items.len()
    }

    /// Format the items in `fmt` (see [`format_result`]).
    pub fn format(&self, fmt: OutputFormat, color: bool) -> (r: Result<String, String>)
        ensures
            text_result(r) == format_spec(item_views(self.items@), fmt, color),
    {
        format_result(&self.items, fmt, color)
    }

    /// Keep only the requested fields of each object item.
    pub fn project_fields(&mut self, fields: &Vec<String>)
        ensures
            final(self).adapter == old(self).adapter,
            final(self).command == old(self).command,
            item_views(final(self).items@) == item_views(old(self).items@).map_values(
                |v: JsonV| project_item(v, str_views(fields@)),
            ),
            forall|i: int| 0 <= i < old(self).items.len() ==> match #[trigger] old(self).items@[i]@ {
                JsonV::Object(m) => final(self).items@[i]@ matches JsonV::Object(r) && projected_in_order(m, str_views(fields@), r),
                _ => final(self).items@[i]@ == old(self).items@[i]@,
            },
            final(self).count == old(self).count,
    {
        let ghost iv = item_views(self.items@);
        let ghost fv = str_views(fields@);
        let mut next: Vec<Json> = Vec::new();
        for i in 0..self.items.len()
            invariant
                iv == item_views(self.items@),
                fv == str_views(fields@),
                item_views(next@) == iv.take(i as int).map_values(|v: JsonV| project_item(v, fv)),
        {
            let ghost before = next@;
            let item = &self.items[i];
            let x = match item {
                Json::Object(m) => {
                    let mut e: Vec<(String, Json)> = Vec::new();
                    let ghost mv = entry_views(m@);
                    proof {
                        lemma_object_view(*m);
                    }
                    assert(entry_views(e@) =~= project_entries(mv, fv.take(0)));
                    for k in 0..fields.len()
                        invariant
                            fv == str_views(fields@),
                            item@ == JsonV::Object(mv),
                            entry_views(e@) == project_entries(mv, fv.take(k as int)),
                    {
                        assert(fv.take(k + 1).drop_last() == fv.take(k as int));
                        assert(fv.take(k + 1).last() == fields@[k as int]@);
                        match item.get(fields[k].as_str()) {
                            Some(v) => {
                                if !entries_has(&e, fields[k].as_str()) {
                                    entries_push(&mut e, fields[k].clone(), v.deep_clone());
                                }
                            },
                            None => {},
                        }
                    }
                    assert(fv.take(fields.len() as int) == fv);
                    Json::Object(e)
                },
                other => other.deep_clone(),
            };
            proof {
                lemma_object_view_of(x);
            }
            let ghost xx = x;
            next.push(x);
            proof {
                lemma_item_views_push(before, xx);
            }
            assert(item_views(next@) =~= iv.take(i + 1).map_values(|v: JsonV| project_item(v, fv)));
        }
        assert(iv.take(self.items.len() as int) == iv);
        assert forall|i: int| 0 <= i < iv.len() implies match #[trigger] iv[i] {
            JsonV::Object(m) => project_item(iv[i], fv) matches JsonV::Object(r) && projected_in_order(m, fv, r),
            _ => project_item(iv[i], fv) == iv[i],
        } by {
            if let JsonV::Object(m) = iv[i] {
                lemma_project_entries(m, fv);
            }
        }
        self.items = next;
        assert forall|i: int| 0 <= i < iv.len() implies #[trigger] self.items@[i]@ == project_item(iv[i], fv) by {
            assert(item_views(self.items@)[i] == self.items@[i]@);
            assert(iv[i] == old(self).items@[i]@);
        }
    }

    /// Drop the first `n` items.
    pub fn skip(&mut self, n: usize)
        ensures
            final(self).adapter == old(self).adapter,
            final(self).command == old(self).command,
            item_views(final(self).items@) == item_views(old(self).items@).skip(
                if n < old(self).items.len() { n as int } else { old(self).items.len() as int },
            ),
            final(self).wf(),
    {
        let len = self.items.len();
        let k = if n < len { n } else { len };
        self.items = clone_items(&self.items, k, len);
        self.count = self.items.len();
    }

    /// Keep at most `n` items.
    pub fn truncate(&mut self, n: usize)
        ensures
            final(self).adapter == old(self).adapter,
            final(self).command == old(self).command,
            item_views(final(self).items@) == item_views(old(self).items@).take(
                if n < old(self).items.len() { n as int } else { old(self).items.len() as int },
            ),
            final(self).wf(),
    {
        let len = self.items.len();
        let k = if n < len { n } else { len };
        self.items = clone_items(&self.items, 0, k);
        self.count = self.items.len();
    }

    /// Keep the first item of each value of `field`.
    pub fn unique_by(&mut self, field: &str)
        ensures
            final(self).adapter == old(self).adapter,
            final(self).command == old(self).command,
            item_views(final(self).items@) == unique_spec(item_views(old(self).items@), field@),
            final(self).wf(),
    {
        let ghost iv = item_views(self.items@);
        let mut keys: Vec<Vec<char>> = Vec::new();
        for i in 0..self.items.len()
            invariant
                iv == item_views(self.items@),
                keys.len() == i,
                forall|j: int| 0 <= j < i ==> (#[trigger] keys@[j])@ == unique_key(iv[j], field@),
        {
            keys.push(key_of(&self.items[i], field));
        }
        let mut kept: Vec<Json> = Vec::new();
        for i in 0..self.items.len()
            invariant
                iv == item_views(self.items@),
                keys.len() == self.items.len(),
                forall|j: int| 0 <= j < keys.len() ==> (#[trigger] keys@[j])@ == unique_key(iv[j], field@),
                item_views(kept@) == unique_spec(iv.take(i as int), field@),
        {
            let mut seen = false;
            let mut j: usize = 0;
            while j < i
                invariant
                    j <= i < keys.len(),
                    seen <==> exists|t: int| 0 <= t < j && keys@[t]@ == keys@[i as int]@,
                decreases i - j,
            {
                if chars_eq(&keys[j], &keys[i]) {
                    seen = true;
                }
                j = j + 1;
            }
            let ghost t = iv.take(i + 1);
            assert(t.drop_last() == iv.take(i as int));
            assert(t.last() == iv[i as int]);
            let ghost uk = unique_keys(iv.take(i as int), field@);
            assert(seen <==> uk.contains(unique_key(iv[i as int], field@))) by {
                if seen {
                    let w = choose|w: int| 0 <= w < i && keys@[w]@ == keys@[i as int]@;
                    assert(uk[w] == unique_key(iv[i as int], field@));
                }
                if uk.contains(unique_key(iv[i as int], field@)) {
                    let w = choose|w: int| 0 <= w < uk.len() && uk[w] == unique_key(iv[i as int], field@);
                    assert(keys@[w]@ == keys@[i as int]@);
                }
            }
            if !seen {
                let ghost before = kept@;
                let x = self.items[i].deep_clone();
                let ghost xx = x;
                kept.push(x);
                proof {
                    lemma_item_views_push(before, xx);
                }
            }
        }
        assert(iv.take(self.items.len() as int) == iv);
        self.items = kept;
        self.count = self.items.len();
    }
}

proof fn lemma_object_view_of(x: Json)
    ensures
        x matches Json::Object(m) ==> x@ == JsonV::Object(entry_views(m@)),
{
}

} // verus!

verus! {

/// `unique_by` keeps one item per key: the kept items have pairwise distinct keys, each is an
/// item of the input, every key of the input is kept, and the first item of each key is the
/// one kept.
#[verifier::rlimit(60)]
#[verifier::spinoff_prover]
pub proof fn lemma_unique_by(items: Seq<JsonV>, field: Seq<char>)
    ensures
        forall|a: int, b: int|
            0 <= a < b < unique_spec(items, field).len() ==> unique_key(#[trigger] unique_spec(items, field)[a], field)
                != unique_key(#[trigger] unique_spec(items, field)[b], field),
        forall|k: int| 0 <= k < unique_spec(items, field).len() ==> items.contains(#[trigger] unique_spec(items, field)[k]),
        forall|j: int|
            0 <= j < items.len() ==> unique_keys(unique_spec(items, field), field).contains(
                unique_key(#[trigger] items[j], field),
            ),
        forall|j: int|
            0 <= j < items.len() && !unique_keys(items.take(j), field).contains(unique_key(items[j], field))
                ==> unique_spec(items, field).contains(#[trigger] items[j]),
    decreases items.len(),
{
    if items.len() > 0 {
        let p = items.drop_last();
        let u = unique_spec(items, field);
        let pu = unique_spec(p, field);
        let last = items.last();
        let lk = unique_key(last, field);
        lemma_unique_by(p, field);
        assert forall|k: int| 0 <= k < pu.len() implies items.contains(#[trigger] pu[k]) by {
            let w = choose|w: int| 0 <= w < p.len() && p[w] == pu[k];
            assert(items[w] == pu[k]);
        }
        if unique_keys(p, field).contains(lk) {
            assert(u == pu);
            assert forall|j: int| 0 <= j < items.len() implies unique_keys(u, field).contains(
                unique_key(#[trigger] items[j], field),
            ) by {
                if j < p.len() {
                    assert(p[j] == items[j]);
                } else {
                    let w = choose|w: int| 0 <= w < p.len() && unique_keys(p, field)[w] == lk;
                    assert(p[w] == items[w]);
                    assert(unique_keys(u, field).contains(unique_key(p[w], field)));
                }
            }
            assert forall|j: int|
                0 <= j < items.len() && !unique_keys(items.take(j), field).contains(unique_key(items[j], field))
                    implies u.contains(#[trigger] items[j]) by {
                if j < p.len() {
                    assert(p[j] == items[j]);
                    assert(items.take(j) == p.take(j));
                } else {
                    assert(items.take(j) == p);
                    assert(unique_keys(items.take(j), field) == unique_keys(p, field));
                }
            }
        } else {
            assert(u == pu.push(last));
            assert forall|a: int, b: int|
                0 <= a < b < u.len() implies unique_key(#[trigger] u[a], field) != unique_key(#[trigger] u[b], field) by {
                if b == u.len() - 1 {
                    assert(u[b] == last);
                    assert(u[a] == pu[a]);
                    let w = choose|w: int| 0 <= w < p.len() && p[w] == pu[a];
                    assert(unique_keys(p, field)[w] == unique_key(pu[a], field));
                } else {
                    assert(u[a] == pu[a]);
                    assert(u[b] == pu[b]);
                }
            }
            assert forall|k: int| 0 <= k < u.len() implies items.contains(#[trigger] u[k]) by {
                if k == u.len() - 1 {
                    assert(items[items.len() - 1] == u[k]);
                } else {
                    assert(u[k] == pu[k]);
                }
            }
            assert forall|j: int| 0 <= j < items.len() implies unique_keys(u, field).contains(
                unique_key(#[trigger] items[j], field),
            ) by {
                if j < p.len() {
                    assert(p[j] == items[j]);
                    let w = choose|w: int| 0 <= w < pu.len() && unique_keys(pu, field)[w] == unique_key(p[j], field);
                    assert(unique_keys(u, field)[w] == unique_keys(pu, field)[w]);
                } else {
                    assert(unique_keys(u, field)[u.len() - 1] == lk);
                }
            }
            assert forall|j: int|
                0 <= j < items.len() && !unique_keys(items.take(j), field).contains(unique_key(items[j], field))
                    implies u.contains(#[trigger] items[j]) by {
                if j < p.len() {
                    assert(p[j] == items[j]);
                    assert(items.take(j) == p.take(j));
                    let w = choose|w: int| 0 <= w < pu.len() && pu[w] == p[j];
                    assert(u[w] == pu[w]);
                } else {
                    assert(u[u.len() - 1] == items[j]);
                }
            }
        }
    }
}

} // verus!

verus! {

/// The JSON output of a result reads back as its items: when the items' numbers are number
/// literals, the pretty (`json`) and compact (`jsonc`) texts `format` gives both read back as
/// the array of the items up to the order of object members
/// ([`crate::reader::normalized`]), exactly when each object's keys are distinct and
/// ascending ([`crate::reader::json_wf`]); the compact one is a single line.
pub proof fn lemma_result_json_reads_back(r: PipelineResult, color: bool)
    requires
        forall|i: int| 0 <= i < r.items.len() ==> crate::reader::json_readable(#[trigger] r.items@[i]@),
    ensures
        format_spec(item_views(r.items@), OutputFormat::Json, color) matches Ok(t)
            && crate::reader::read_json(t) == Some(JsonV::Array(crate::reader::normalized_items(item_views(r.items@)))),
        format_spec(item_views(r.items@), OutputFormat::JsonCompact, color) matches Ok(t)
            && crate::reader::read_json(t) == Some(JsonV::Array(crate::reader::normalized_items(item_views(r.items@))))
            && crate::reader::one_line(t),
        (forall|i: int| 0 <= i < r.items.len() ==> crate::reader::json_wf(#[trigger] r.items@[i]@))
            ==> crate::reader::normalized_items(item_views(r.items@)) == item_views(r.items@),
{
    let iv = item_views(r.items@);
    assert forall|i: int| 0 <= i < iv.len() implies crate::reader::json_readable(#[trigger] iv[i]) by {
        assert(iv[i] == r.items@[i]@);
    }
    crate::reader::lemma_json_output_reads_back(iv, color);
    if forall|i: int| 0 <= i < r.items.len() ==> crate::reader::json_wf(#[trigger] r.items@[i]@) {
        assert forall|i: int| 0 <= i < iv.len() implies crate::reader::json_wf(#[trigger] iv[i]) by {
            assert(iv[i] == r.items@[i]@);
        }
    }
}

/// What a projection of the object entries `m` onto `fields` must be: every entry is a
/// requested field with the value the object has for it; no key comes twice; every requested
/// field the object has is there; and an entry comes before another only when its field is
/// asked for before the other's first mention.
pub open spec fn projected_in_order(m: Seq<(Seq<char>, JsonV)>, fields: Seq<Seq<char>>, r: Seq<(Seq<char>, JsonV)>) -> bool {
    &&& forall|i: int| 0 <= i < r.len() ==> fields.contains((#[trigger] r[i]).0) && entries_get(m, r[i].0) == Some(r[i].1)
    &&& forall|i: int, j: int| 0 <= i < j < r.len() ==> (#[trigger] r[i]).0 != (#[trigger] r[j]).0
    &&& forall|a: int| 0 <= a < fields.len() && entries_get(m, #[trigger] fields[a]) is Some ==> entries_get(r, fields[a]) is Some
    &&& forall|i: int, j: int| 0 <= i < j < r.len() ==> exists|a: int|
        0 <= a < fields.len() && #[trigger] fields[a] == (#[trigger] r[i]).0 && forall|b: int| 0 <= b <= a ==> fields[b] != (#[trigger] r[j]).0
}

proof fn lemma_get_index(p: Seq<(Seq<char>, JsonV)>, i: int)
    requires
        0 <= i < p.len(),
    ensures
        entries_get(p, p[i].0) is Some,
    decreases i,
{
    if i > 0 && p[0].0 != p[i].0 {
        assert(p.skip(1)[i - 1] == p[i]);
        lemma_get_index(p.skip(1), i - 1);
    }
}

proof fn lemma_get_push(p: Seq<(Seq<char>, JsonV)>, k: Seq<char>, v: JsonV, f: Seq<char>)
    ensures
        entries_get(p.push((k, v)), f) == (if entries_get(p, f) is Some {
            entries_get(p, f)
        } else if f == k {
            Some(v)
        } else {
            None
        }),
    decreases p.len(),
{
    let q = p.push((k, v));
    if p.len() == 0 {
        assert(q.skip(1) =~= Seq::<(Seq<char>, JsonV)>::empty());
        assert(entries_get(q.skip(1), f) is None);
        assert(entries_get(p, f) is None);
        assert(q[0] == (k, v));
    } else {
        assert(q[0] == p[0]);
        assert(q.skip(1) =~= p.skip(1).push((k, v)));
        lemma_get_push(p.skip(1), k, v, f);
        if p[0].0 != f {
            assert(entries_get(q, f) == entries_get(q.skip(1), f));
            assert(entries_get(p, f) == entries_get(p.skip(1), f));
        }
    }
}

/// Projecting an object onto fields keeps the requested fields it has, once each, with its
/// values, in the order they are asked for.
pub proof fn lemma_project_entries(m: Seq<(Seq<char>, JsonV)>, fields: Seq<Seq<char>>)
    ensures
        projected_in_order(m, fields, project_entries(m, fields)),
    decreases fields.len(),
{
    if fields.len() > 0 {
        let pf = fields.drop_last();
        lemma_project_entries(m, pf);
        let p = project_entries(m, pf);
        let f = fields.last();
        let r = project_entries(m, fields);
        assert forall|a: int| 0 <= a < pf.len() implies fields[a] == #[trigger] pf[a] by {}
        match entries_get(m, f) {
            Some(v) => {
                if entries_get(p, f) is Some {
                    assert(r == p);
                    assert forall|i: int| 0 <= i < r.len() implies fields.contains((#[trigger] r[i]).0) by {
                        let z = choose|z: int| 0 <= z < pf.len() && pf[z] == p[i].0;
                        assert(fields[z] == pf[z]);
                    }
                    assert forall|a: int| 0 <= a < fields.len() && entries_get(m, #[trigger] fields[a]) is Some implies entries_get(r, fields[a]) is Some by {
                        if a < pf.len() {
                            assert(pf[a] == fields[a]);
                        }
                    }
                    assert forall|i: int, j: int| 0 <= i < j < r.len() implies exists|a: int|
                        0 <= a < fields.len() && #[trigger] fields[a] == (#[trigger] r[i]).0 && forall|b: int| 0 <= b <= a ==> fields[b] != (#[trigger] r[j]).0 by {
                        let a = choose|a: int| 0 <= a < pf.len() && #[trigger] pf[a] == p[i].0 && forall|b: int| 0 <= b <= a ==> pf[b] != p[j].0;
                        assert(fields[a] == pf[a]);
                        assert forall|b: int| 0 <= b <= a implies fields[b] != r[j].0 by {
                            assert(fields[b] == pf[b]);
                        }
                    }
                } else {
                    assert(r == p.push((f, v)));
                    let n = p.len() as int;
                    assert(r[n] == (f, v));
                    assert forall|i: int| 0 <= i < n implies p[i].0 != f by {
                        lemma_get_index(p, i);
                    }
                    assert forall|b: int| 0 <= b < pf.len() implies pf[b] != f by {
                        if pf[b] == f {
                            assert(entries_get(m, pf[b]) is Some);
                        }
                    }
                    assert forall|i: int| 0 <= i < r.len() implies fields.contains((#[trigger] r[i]).0) && entries_get(m, r[i].0) == Some(r[i].1) by {
                        if i == n {
                            assert(fields[fields.len() - 1] == f);
                        } else {
                            assert(r[i] == p[i]);
                            let z = choose|z: int| 0 <= z < pf.len() && pf[z] == p[i].0;
                            assert(fields[z] == pf[z]);
                        }
                    }
                    assert forall|i: int, j: int| 0 <= i < j < r.len() implies (#[trigger] r[i]).0 != (#[trigger] r[j]).0 by {
                        assert(r[i] == p[i]);
                        if j < n {
                            assert(r[j] == p[j]);
                        }
                    }
                    assert forall|a: int| 0 <= a < fields.len() && entries_get(m, #[trigger] fields[a]) is Some implies entries_get(r, fields[a]) is Some by {
                        lemma_get_push(p, f, v, fields[a]);
                        if a < pf.len() {
                            assert(pf[a] == fields[a]);
                        }
                    }
                    assert forall|i: int, j: int| 0 <= i < j < r.len() implies exists|a: int|
                        0 <= a < fields.len() && #[trigger] fields[a] == (#[trigger] r[i]).0 && forall|b: int| 0 <= b <= a ==> fields[b] != (#[trigger] r[j]).0 by {
                        assert(r[i] == p[i]);
                        if j < n {
                            assert(r[j] == p[j]);
                            let a = choose|a: int| 0 <= a < pf.len() && #[trigger] pf[a] == p[i].0 && forall|b: int| 0 <= b <= a ==> pf[b] != p[j].0;
                            assert(fields[a] == pf[a]);
                            assert forall|b: int| 0 <= b <= a implies fields[b] != r[j].0 by {
                                assert(fields[b] == pf[b]);
                            }
                        } else {
                            let z = choose|z: int| 0 <= z < pf.len() && pf[z] == p[i].0;
                            assert(fields[z] == pf[z]);
                            assert forall|b: int| 0 <= b <= z implies fields[b] != r[j].0 by {
                                assert(fields[b] == pf[b]);
                            }
                        }
                    }
                }
            },
            None => {
                assert(r == p);
                assert forall|i: int| 0 <= i < r.len() implies fields.contains((#[trigger] r[i]).0) by {
                    let z = choose|z: int| 0 <= z < pf.len() && pf[z] == p[i].0;
                    assert(fields[z] == pf[z]);
                }
                assert forall|a: int| 0 <= a < fields.len() && entries_get(m, #[trigger] fields[a]) is Some implies entries_get(r, fields[a]) is Some by {
                    if a < pf.len() {
                        assert(pf[a] == fields[a]);
                    }
                }
                assert forall|i: int, j: int| 0 <= i < j < r.len() implies exists|a: int|
                    0 <= a < fields.len() && #[trigger] fields[a] == (#[trigger] r[i]).0 && forall|b: int| 0 <= b <= a ==> fields[b] != (#[trigger] r[j]).0 by {
                    let a = choose|a: int| 0 <= a < pf.len() && #[trigger] pf[a] == p[i].0 && forall|b: int| 0 <= b <= a ==> pf[b] != p[j].0;
                    assert(fields[a] == pf[a]);
                    assert forall|b: int| 0 <= b <= a implies fields[b] != r[j].0 by {
                        assert(fields[b] == pf[b]);
                    }
                }
            },
        }
    }
}

} // verus!
