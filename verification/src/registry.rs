//! The adapters available to a run: built-in ones and the user's, by name or alias.

use vstd::prelude::*;
use crate::adapter::{Adapter, str_views, contains_str, lemma_str_views_push};
use crate::help::{order_by_name, name_order};
use crate::suggest::{suggest, suggest_spec};
use crate::text::{chars_of, str_eq, push_str, to_lowercase, lowercase, contains, contains_seq};

verus! {

/// The adapters by name (each name once, in the order they were first added) and the text
/// each was read from.
pub struct Registry {
    adapters: Vec<Adapter>,
    sources: Vec<(String, String)>,
}

/// The names of a list of adapters.
pub open spec fn adapter_names(v: Seq<Adapter>) -> Seq<Seq<char>> {
    Seq::new(v.len(), |i: int| v[i].name@)
}

/// The first adapter named `name`, else the first that has it as name or alias.
pub open spec fn find_index(v: Seq<Adapter>, name: Seq<char>) -> Option<nat> {
    if exists|i: int| 0 <= i < v.len() && (#[trigger] v[i]).name@ == name {
        Some((choose|i: int| 0 <= i < v.len() && (#[trigger] v[i]).name@ == name && forall|j: int| 0 <= j < i ==> (#[trigger] v[j]).name@ != name) as nat)
    } else if exists|i: int| 0 <= i < v.len() && str_views((#[trigger] v[i]).aliases@).contains(name) {
        Some(
            (choose|i: int|
                0 <= i < v.len() && str_views((#[trigger] v[i]).aliases@).contains(name) && forall|j: int|
                    0 <= j < i ==> !str_views((#[trigger] v[j]).aliases@).contains(name)) as nat,
        )
    } else {
        None
    }
}

/// Why an adapter could not be given.
pub enum RegistryError {
    /// No adapter has this name or alias; `hint` suggests close names.
    NotFound { name: String, hint: String },
    /// The adapter was added without its source text.
    NoSource(String),
}

impl RegistryError {
    /// The text the error is reported with.
    pub fn message(&self) -> (r: String)
        ensures
            r@ == match self {
                RegistryError::NotFound { name, hint } => "adapter `"@ + name@ + "` not found"@ + hint@,
                RegistryError::NoSource(n) => "no YAML source for adapter `"@ + n@ + "`"@,
            },
    {
        let mut out = String::new();
        match self {
            RegistryError::NotFound { name, hint } => {
                push_str(&mut out, "adapter `");
                push_str(&mut out, name.as_str());
                push_str(&mut out, "` not found");
                push_str(&mut out, hint.as_str());
            },
            RegistryError::NoSource(n) => {
                push_str(&mut out, "no YAML source for adapter `");
                push_str(&mut out, n.as_str());
                push_str(&mut out, "`");
            },
        }
        assert(out@ =~= match self {
            RegistryError::NotFound { name, hint } => "adapter `"@ + name@ + "` not found"@ + hint@,
            RegistryError::NoSource(n) => "no YAML source for adapter `"@ + n@ + "`"@,
        });
        out
    }
}

impl Registry {
    /// Each adapter name occurs once; so does each source name. Every registry keeps this.
    #[verifier::type_invariant]
    pub closed spec fn wf(&self) -> bool {
        &&& forall|i: int, j: int|
            0 <= i < j < self.adapters@.len() ==> (#[trigger] self.adapters@[i]).name@ != (#[trigger] self.adapters@[j]).name@
        &&& forall|i: int, j: int|
            0 <= i < j < self.sources@.len() ==> (#[trigger] self.sources@[i]).0@ != (#[trigger] self.sources@[j]).0@
    }

    /// The adapters, in the order they were first added.
    pub closed spec fn entries(&self) -> Seq<Adapter> {
        self.adapters@
    }

    /// The source text recorded under a name.
    pub closed spec fn source_of(&self, name: Seq<char>) -> Option<Seq<char>> {
        if exists|i: int| 0 <= i < self.sources@.len() && (#[trigger] self.sources@[i]).0@ == name {
            Some(self.sources@[choose|i: int| 0 <= i < self.sources@.len() && (#[trigger] self.sources@[i]).0@ == name].1@)
        } else {
            None
        }
    }

    /// An empty registry.
    pub fn new() -> (r: Registry)
        ensures
            r.wf(),
            r.entries().len() == 0,
            forall|n: Seq<char>| r.source_of(n) is None,
    {
        Registry { adapters: Vec::new(), sources: Vec::new() }
    }

    /// Adds an adapter read from `source`; one of the same name is replaced in place (a user's
    /// adapter overrides a built-in one).
    pub fn insert(&mut self, adapter: Adapter, source: String)
        ensures
            final(self).wf(),
            ({
                let v = old(self).entries();
                let n = adapter.name@;
                if exists|i: int| 0 <= i < v.len() && (#[trigger] v[i]).name@ == n {
                    exists|i: int|
                        0 <= i < v.len() && (#[trigger] v[i]).name@ == n && final(self).entries() == v.update(i, adapter)
                } else {
                    final(self).entries() == v.push(adapter)
                }
            }),
            final(self).source_of(adapter.name@) == Some(source@),
            forall|n: Seq<char>| n != adapter.name@ ==> #[trigger] final(self).source_of(n) == old(self).source_of(n),
    {
        proof {
            use_type_invariant(&*self);
        }
        let ghost n = adapter.name@;
        let ghost v = self.adapters@;
        let mut i: usize = 0;
        while i < self.adapters.len() && !str_eq(self.adapters[i].name.as_str(), adapter.name.as_str())
            invariant
                i <= self.adapters.len(),
                v == self.adapters@,
                n == adapter.name@,
                forall|j: int| 0 <= j < i ==> (#[trigger] v[j]).name@ != n,
            decreases self.adapters.len() - i,
        {
            i = i + 1;
        }
        let name_copy = adapter.name.clone();
        let mut ads: Vec<Adapter> = Vec::new();
        std::mem::swap(&mut ads, &mut self.adapters);
        if i < ads.len() {
            ads.set(i, adapter);
        } else {
            ads.push(adapter);
        }
        assert forall|a: int, b: int| 0 <= a < b < ads@.len() implies (#[trigger] ads@[a]).name@ != (#[trigger] ads@[b]).name@ by {
            if a != i as int && b != i as int {
                assert(ads@[a] == v[a] && ads@[b] == v[b]);
            } else if a == i as int {
                assert(ads@[b] == v[b]);
            } else {
                assert(ads@[a] == v[a]);
            }
        }
        self.adapters = ads;
        let ghost sv = self.sources@;
        let mut k: usize = 0;
        while k < self.sources.len() && !str_eq(self.sources[k].0.as_str(), name_copy.as_str())
            invariant
                k <= self.sources.len(),
                sv == self.sources@,
                name_copy@ == n,
                forall|j: int| 0 <= j < k ==> (#[trigger] sv[j]).0@ != n,
            decreases self.sources.len() - k,
        {
            k = k + 1;
        }
        let mut srcs: Vec<(String, String)> = Vec::new();
        std::mem::swap(&mut srcs, &mut self.sources);
        if k < srcs.len() {
            srcs.set(k, (name_copy, source));
        } else {
            srcs.push((name_copy, source));
        }
        assert forall|a: int, b: int| 0 <= a < b < srcs@.len() implies (#[trigger] srcs@[a]).0@ != (#[trigger] srcs@[b]).0@ by {
            if a != k as int && b != k as int {
                assert(srcs@[a] == sv[a] && srcs@[b] == sv[b]);
            } else if a == k as int {
                assert(srcs@[b] == sv[b]);
            } else {
                assert(srcs@[a] == sv[a]);
            }
        }
        self.sources = srcs;
        let ghost k2 = k as int;
        assert(self.sources@[k2].0@ == n);
        assert forall|m: Seq<char>| m != n implies #[trigger] self.source_of(m) == old(self).source_of(m) by {
            if exists|j: int| 0 <= j < sv.len() && (#[trigger] sv[j]).0@ == m {
                let w = choose|j: int| 0 <= j < sv.len() && (#[trigger] sv[j]).0@ == m;
                assert(self.sources@[w] == sv[w]);
                let w2 = choose|j: int| 0 <= j < self.sources@.len() && (#[trigger] self.sources@[j]).0@ == m;
                assert(w2 == w) by {
                    if w2 != w {
                        assert(self.sources@[w2] == sv[w2]);
                    }
                }
            }
            if exists|j: int| 0 <= j < self.sources@.len() && (#[trigger] self.sources@[j]).0@ == m {
                let w2 = choose|j: int| 0 <= j < self.sources@.len() && (#[trigger] self.sources@[j]).0@ == m;
                assert(self.sources@[w2] == sv[w2]);
            }
        }
        let ghost w = choose|j: int| 0 <= j < self.sources@.len() && (#[trigger] self.sources@[j]).0@ == n;
        assert(w == k2) by {
            if w != k2 {
                assert(self.sources@[w] == sv[w]);
            }
        }
    }

    /// Number of loaded adapters.
    pub fn len(&self) -> (r: usize)
        ensures
            r == self.entries().len(),
    {
        self.adapters.len()
    }

    /// Whether the registry is empty.
    pub fn is_empty(&self) -> (r: bool)
        ensures
            r == (self.entries().len() == 0),
    {
        self.adapters.len() == 0
    }
}

} // verus!

verus! {

/// The adapters in name order.
pub open spec fn listed(v: Seq<Adapter>) -> Seq<Adapter> {
    let order = name_order(adapter_names(v), v.len() as int);
    Seq::new(order.len(), |k: int| v[order[k]])
}

/// Whether an adapter matches a lower-cased query: its name, description, an alias or a tag
/// holds it, compared in lower case.
pub open spec fn matches_query(a: Adapter, q: Seq<char>) -> bool {
    ||| contains_seq(lowercase(a.name@), q)
    ||| contains_seq(lowercase(a.description@), q)
    ||| exists|i: int| 0 <= i < a.aliases@.len() && contains_seq(lowercase((#[trigger] a.aliases@[i])@), q)
    ||| exists|i: int| 0 <= i < a.tags@.len() && contains_seq(lowercase((#[trigger] a.tags@[i])@), q)
}

/// The adapters that match, in order.
pub open spec fn filter_matching(v: Seq<Adapter>, q: Seq<char>) -> Seq<Adapter>
    decreases v.len(),
{
    if v.len() == 0 {
        Seq::empty()
    } else {
        let p = filter_matching(v.drop_last(), q);
        if matches_query(v.last(), q) {
            p.push(v.last())
        } else {
            p
        }
    }
}

/// The adapters of a list of references.
pub open spec fn derefs(v: Seq<&Adapter>) -> Seq<Adapter> {
    Seq::new(v.len(), |i: int| *v[i])
}

fn lower_contains(s: &String, q: &Vec<char>) -> (r: bool)
    ensures
        r == contains_seq(lowercase(s@), q@),
{
    contains(&chars_of(to_lowercase(s.as_str()).as_str()), q)
}

fn any_lower_contains(v: &Vec<String>, q: &Vec<char>) -> (r: bool)
    ensures
        r == exists|i: int| 0 <= i < v@.len() && contains_seq(lowercase((#[trigger] v@[i])@), q@),
{
    for i in 0..v.len()
        invariant
            forall|j: int| 0 <= j < i ==> !contains_seq(lowercase((#[trigger] v@[j])@), q@),
    {
        if lower_contains(&v[i], q) {
            return true;
        }
    }
    false
}

fn matches_of(a: &Adapter, q: &Vec<char>) -> (r: bool)
    ensures
        r == matches_query(*a, q@),
{
    lower_contains(&a.name, q) || lower_contains(&a.description, q) || any_lower_contains(&a.aliases, q)
        || any_lower_contains(&a.tags, q)
}

impl Registry {
    fn names(&self) -> (r: Vec<String>)
        ensures
            str_views(r@) == adapter_names(self.entries()),
    {
        let mut out: Vec<String> = Vec::new();
        for i in 0..self.adapters.len()
            invariant
                out.len() == i,
                forall|j: int| 0 <= j < i ==> (#[trigger] out@[j])@ == self.adapters@[j].name@,
        {
            out.push(self.adapters[i].name.clone());
        }
        assert(str_views(out@) =~= adapter_names(self.entries()));
        out
    }

    /// All adapters, in name order.
    pub fn list(&self) -> (r: Vec<&Adapter>)
        ensures
            derefs(r@) == listed(self.entries()),
    {
        let names = self.names();
        let order = order_by_name(&names);
        assert(str_views(names@).len() == adapter_names(self.entries()).len());
        let ghost ov = Seq::new(order@.len(), |j: int| order@[j] as int);
        let mut out: Vec<&Adapter> = Vec::new();
        for k in 0..order.len()
            invariant
                ov == Seq::new(order@.len(), |j: int| order@[j] as int),
                ov == name_order(adapter_names(self.entries()), self.entries().len() as int),
                order@.len() == self.adapters@.len(),
                forall|j: int| 0 <= j < order@.len() ==> (#[trigger] order@[j]) < self.adapters@.len(),
                out.len() == k,
                forall|j: int| 0 <= j < k ==> *(#[trigger] out@[j]) == self.adapters@[order@[j] as int],
        {
            out.push(&self.adapters[order[k]]);
        }
        assert(derefs(out@) =~= listed(self.entries()));
        out
    }

    /// The adapters, in name order, whose name, description, alias or tag holds the query in
    /// lower case.
    pub fn search(&self, query: &str) -> (r: Vec<&Adapter>)
        ensures
            derefs(r@) == filter_matching(listed(self.entries()), lowercase(query@)),
    {
        let q = chars_of(to_lowercase(query).as_str());
        let all = self.list();
        let ghost lv = derefs(all@);
        let mut out: Vec<&Adapter> = Vec::new();
        for k in 0..all.len()
            invariant
                lv == derefs(all@),
                derefs(out@) == filter_matching(lv.take(k as int), q@),
        {
            let ghost t = lv.take(k + 1);
            assert(t.drop_last() == lv.take(k as int));
            assert(t.last() == *all@[k as int]);
            if matches_of(all[k], &q) {
                let ghost before = out@;
                out.push(all[k]);
                assert(derefs(out@) =~= derefs(before).push(*all@[k as int]));
            }
        }
        assert(lv.take(all.len() as int) == lv);
        out
    }

    /// An adapter by name, else by alias (see [`find_index`]); refused with close names.
    pub fn find(&self, name: &str) -> (r: Result<&Adapter, RegistryError>)
        ensures
            match find_index(self.entries(), name@) {
                Some(i) => r matches Ok(a) && i < self.entries().len() && *a == self.entries()[i as int],
                None => r matches Err(RegistryError::NotFound { name: n, hint }) && n@ == name@ && hint@
                    == suggest_spec(name@, adapter_names(listed(self.entries()))),
            },
    {
        let ghost v = self.adapters@;
        for i in 0..self.adapters.len()
            invariant
                v == self.adapters@,
                forall|j: int| 0 <= j < i ==> (#[trigger] v[j]).name@ != name@,
        {
            if str_eq(self.adapters[i].name.as_str(), name) {
                let ghost w = choose|w: int| 0 <= w < v.len() && (#[trigger] v[w]).name@ == name@ && forall|j: int| 0 <= j < w ==> (#[trigger] v[j]).name@ != name@;
                assert(w == i) by {
                    if w < i {
                    }
                    if w > i {
                        assert(v[i as int].name@ == name@);
                    }
                }
                return Ok(&self.adapters[i]);
            }
        }
        for i in 0..self.adapters.len()
            invariant
                v == self.adapters@,
                forall|j: int| 0 <= j < v.len() ==> (#[trigger] v[j]).name@ != name@,
                forall|j: int| 0 <= j < i ==> !str_views((#[trigger] v[j]).aliases@).contains(name@),
        {
            if contains_str(&self.adapters[i].aliases, name) {
                let ghost w = choose|w: int|
                    0 <= w < v.len() && str_views((#[trigger] v[w]).aliases@).contains(name@) && forall|j: int|
                        0 <= j < w ==> !str_views((#[trigger] v[j]).aliases@).contains(name@);
                assert(w == i) by {
                    if w > i {
                        assert(str_views(v[i as int].aliases@).contains(name@));
                    }
                }
                return Ok(&self.adapters[i]);
            }
        }
        let listed_refs = self.list();
        let mut names: Vec<String> = Vec::new();
        for k in 0..listed_refs.len()
            invariant
                names.len() == k,
                forall|j: int| 0 <= j < k ==> (#[trigger] names@[j])@ == listed_refs@[j].name@,
        {
            names.push(listed_refs[k].name.clone());
        }
        assert(str_views(names@) =~= adapter_names(listed(self.entries())));
        let hint = suggest(name, &names);
        Err(RegistryError::NotFound { name: String::from_str(name), hint })
    }

    fn source_named(&self, name: &str) -> (r: Option<&String>)
        ensures
            match self.source_of(name@) {
                Some(s) => r matches Some(x) && x@ == s,
                None => r is None,
            },
    {
        proof {
            use_type_invariant(self);
        }
        let ghost sv = self.sources@;
        for k in 0..self.sources.len()
            invariant
                sv == self.sources@,
                self.wf(),
                forall|j: int| 0 <= j < k ==> (#[trigger] sv[j]).0@ != name@,
        {
            if str_eq(self.sources[k].0.as_str(), name) {
                proof {
                    assert(sv[k as int].0@ == name@);
                    let w = choose|j: int| 0 <= j < sv.len() && (#[trigger] sv[j]).0@ == name@;
                    assert(w == k) by {
                        if w < k {
                            assert(self.sources@[w].0@ != self.sources@[k as int].0@);
                        }
                        if w > k {
                            assert(self.sources@[k as int].0@ != self.sources@[w].0@);
                        }
                    }
                }
                return Some(&self.sources[k].1);
            }
        }
        None
    }

    /// The text an adapter was read from: the one recorded under its canonical name, else
    /// under the name asked for.
    pub fn source_yaml(&self, name: &str) -> (r: Result<&String, RegistryError>)
        ensures
            match find_index(self.entries(), name@) {
                Some(i) => {
                    let canon = self.entries()[i as int].name@;
                    match self.source_of(canon) {
                        Some(s) => r matches Ok(x) && x@ == s,
                        None => match self.source_of(name@) {
                            Some(s) => r matches Ok(x) && x@ == s,
                            None => r matches Err(RegistryError::NoSource(n)) && n@ == canon,
                        },
                    }
                },
                None => r matches Err(RegistryError::NotFound { name: n, hint }) && n@ == name@ && hint@
                    == suggest_spec(name@, adapter_names(listed(self.entries()))),
            },
    {
        let a = match self.find(name) {
            Err(e) => {
                return Err(e);
            },
            Ok(a) => a,
        };
        match self.source_named(a.name.as_str()) {
            Some(s) => Ok(s),
            None => match self.source_named(name) {
                Some(s) => Ok(s),
                None => Err(RegistryError::NoSource(a.name.clone())),
            },
        }
    }
}

} // verus!

verus! {

/// No two adapters share a name.
pub open spec fn distinct_adapter_names(v: Seq<Adapter>) -> bool {
    forall|i: int, j: int| 0 <= i < j < v.len() ==> (#[trigger] v[i]).name@ != (#[trigger] v[j]).name@
}

/// A well-formed registry holds each name once.
pub proof fn lemma_registry_names(r: &Registry)
    requires
        r.wf(),
    ensures
        distinct_adapter_names(r.entries()),
{
}

/// The list holds every adapter once, in name order.
pub proof fn lemma_listed(v: Seq<Adapter>)
    requires
        distinct_adapter_names(v),
    ensures
        listed(v).len() == v.len(),
        forall|j: int| 0 <= j < v.len() ==> listed(v).contains(#[trigger] v[j]),
        forall|a: int, b: int| 0 <= a < b < listed(v).len() ==> (#[trigger] listed(v)[a]).name@ != (#[trigger] listed(v)[b]).name@,
        forall|k: int| 0 <= k < listed(v).len() - 1 ==> !crate::json::key_lt(#[trigger] listed(v)[k + 1].name@, listed(v)[k].name@),
{
    let names = adapter_names(v);
    let n = v.len() as int;
    crate::help::lemma_name_order(names, n);
    let o = name_order(names, n);
    let l = listed(v);
    assert forall|j: int| 0 <= j < v.len() implies l.contains(#[trigger] v[j]) by {
        assert(o.contains(j));
        let w = choose|w: int| 0 <= w < o.len() && o[w] == j;
        assert(l[w] == v[j]);
    }
    assert forall|a: int, b: int| 0 <= a < b < l.len() implies (#[trigger] l[a]).name@ != (#[trigger] l[b]).name@ by {
        assert(o[a] != o[b]);
        assert(0 <= o[a] < n && 0 <= o[b] < n);
        if o[a] < o[b] {
            assert(v[o[a]].name@ != v[o[b]].name@);
        } else {
            assert(v[o[b]].name@ != v[o[a]].name@);
        }
    }
    assert forall|k: int| 0 <= k < l.len() - 1 implies !crate::json::key_lt(#[trigger] l[k + 1].name@, l[k].name@) by {
        assert(crate::help::adjacent_ordered(names, o, k));
        assert(0 <= o[k] < n && 0 <= o[k + 1] < n);
        assert(names[o[k]] == v[o[k]].name@);
        assert(names[o[k + 1]] == v[o[k + 1]].name@);
    }
}

/// An added adapter is what its name finds afterwards (a user's adapter overrides a built-in
/// one of the same name).
pub proof fn lemma_added_is_found(v: Seq<Adapter>, a: Adapter, after: Seq<Adapter>)
    requires
        distinct_adapter_names(v),
        if exists|i: int| 0 <= i < v.len() && (#[trigger] v[i]).name@ == a.name@ {
            exists|i: int| 0 <= i < v.len() && (#[trigger] v[i]).name@ == a.name@ && after == v.update(i, a)
        } else {
            after == v.push(a)
        },
    ensures
        find_index(after, a.name@) matches Some(k) && k < after.len() && after[k as int] == a,
{
    let n = a.name@;
    if exists|i: int| 0 <= i < v.len() && (#[trigger] v[i]).name@ == n {
        let i = choose|i: int| 0 <= i < v.len() && (#[trigger] v[i]).name@ == n && after == v.update(i, a);
        assert(after[i].name@ == n);
        let k = choose|k: int| 0 <= k < after.len() && (#[trigger] after[k]).name@ == n && forall|j: int| 0 <= j < k ==> (#[trigger] after[j]).name@ != n;
        assert(k == i) by {
            if k < i {
                assert(after[i].name@ != n);
            }
            if k > i {
                assert(v[k].name@ == n);
                assert(v[i].name@ != v[k].name@);
            }
        }
    } else {
        let i = v.len() as int;
        assert(after[i] == a);
        let k = choose|k: int| 0 <= k < after.len() && (#[trigger] after[k]).name@ == n && forall|j: int| 0 <= j < k ==> (#[trigger] after[j]).name@ != n;
        assert(k == i) by {
            if k < i {
                assert(v[k].name@ == n);
            }
            if k > i {
                assert(after[i].name@ != n);
            }
        }
    }
}

/// What inserting `a` into the adapters `v` gives: it replaces the adapter of its name in
/// place, else it is appended (see [`Registry::insert`]).
pub open spec fn inserted(v: Seq<Adapter>, a: Adapter, after: Seq<Adapter>) -> bool {
    if exists|i: int| 0 <= i < v.len() && (#[trigger] v[i]).name@ == a.name@ {
        exists|i: int| 0 <= i < v.len() && (#[trigger] v[i]).name@ == a.name@ && after == v.update(i, a)
    } else {
        after == v.push(a)
    }
}

/// Adding an adapter of another name leaves what a name finds as it was: so the adapter last
/// added under a name is what the name finds, whatever is added after it (a user's adapter,
/// added after the built-in ones, overrides a built-in one of the same name).
pub proof fn lemma_other_insert_keeps_found(v: Seq<Adapter>, b: Adapter, after: Seq<Adapter>, n: Seq<char>, k: nat)
    requires
        distinct_adapter_names(v),
        inserted(v, b, after),
        b.name@ != n,
        k < v.len(),
        v[k as int].name@ == n,
    ensures
        find_index(after, n) matches Some(k2) && k2 < after.len() && after[k2 as int] == v[k as int],
{
    let k = k as int;
    assert forall|j: int| 0 <= j < after.len() && j != k implies (#[trigger] after[j]).name@ != n by {
        if j < v.len() {
            if after[j] != v[j] {
                assert(after[j] == b);
            } else {
                assert(v[j].name@ != v[k].name@);
            }
        } else {
            assert(after[j] == b);
        }
    }
    if exists|i: int| 0 <= i < v.len() && (#[trigger] v[i]).name@ == b.name@ {
        let i = choose|i: int| 0 <= i < v.len() && (#[trigger] v[i]).name@ == b.name@ && after == v.update(i, b);
        assert(i != k);
        assert(after[k] == v[k]);
    } else {
        assert(after[k] == v[k]);
    }
    assert(after[k].name@ == n);
    let k2 = choose|x: int| 0 <= x < after.len() && (#[trigger] after[x]).name@ == n && forall|j: int| 0 <= j < x ==> (#[trigger] after[j]).name@ != n;
    assert(k2 == k);
}

/// Whether an adapter's name, description, an alias or a tag holds `q` once lower-cased.
pub open spec fn fields_hold(a: Adapter, q: Seq<char>) -> bool {
    ||| contains_seq(lowercase(a.name@), q)
    ||| contains_seq(lowercase(a.description@), q)
    ||| exists|i: int| 0 <= i < a.aliases@.len() && contains_seq(lowercase((#[trigger] a.aliases@[i])@), q)
    ||| exists|i: int| 0 <= i < a.tags@.len() && contains_seq(lowercase((#[trigger] a.tags@[i])@), q)
}

proof fn lemma_filter_members(v: Seq<Adapter>, q: Seq<char>)
    ensures
        forall|j: int| 0 <= j < v.len() && fields_hold(#[trigger] v[j], q) ==> filter_matching(v, q).contains(v[j]),
        forall|k: int| 0 <= k < filter_matching(v, q).len() ==> v.contains(#[trigger] filter_matching(v, q)[k])
            && fields_hold(filter_matching(v, q)[k], q),
    decreases v.len(),
{
    if v.len() > 0 {
        let d = v.drop_last();
        lemma_filter_members(d, q);
        let p = filter_matching(d, q);
        let r = filter_matching(v, q);
        assert forall|j: int| 0 <= j < v.len() && fields_hold(#[trigger] v[j], q) implies r.contains(v[j]) by {
            if j < v.len() - 1 {
                assert(d[j] == v[j]);
                let w = choose|w: int| 0 <= w < p.len() && p[w] == d[j];
                assert(r[w] == p[w]);
            } else {
                assert(r[r.len() - 1] == v.last());
            }
        }
        assert forall|k: int| 0 <= k < r.len() implies v.contains(#[trigger] r[k]) && fields_hold(r[k], q) by {
            if k < p.len() {
                assert(r[k] == p[k]);
                let w = choose|w: int| 0 <= w < d.len() && d[w] == p[k];
                assert(v[w] == d[w]);
            } else {
                assert(r[k] == v.last());
                assert(v[v.len() - 1] == v.last());
            }
        }
    }
}

/// Searching finds by name, description, alias and tag: every adapter of the registry whose
/// name, description, an alias or a tag holds the query (both lower-cased) is in the result,
/// and every adapter in the result is one of the registry's that does.
pub proof fn lemma_search_finds(v: Seq<Adapter>, query: Seq<char>)
    requires
        distinct_adapter_names(v),
    ensures
        forall|j: int| 0 <= j < v.len() && fields_hold(#[trigger] v[j], lowercase(query))
            ==> filter_matching(listed(v), lowercase(query)).contains(v[j]),
        forall|k: int| 0 <= k < filter_matching(listed(v), lowercase(query)).len()
            ==> v.contains(#[trigger] filter_matching(listed(v), lowercase(query))[k])
                && fields_hold(filter_matching(listed(v), lowercase(query))[k], lowercase(query)),
{
    let q = lowercase(query);
    let l = listed(v);
    lemma_listed(v);
    lemma_filter_members(l, q);
    assert forall|j: int| 0 <= j < v.len() && fields_hold(#[trigger] v[j], q) implies filter_matching(l, q).contains(v[j]) by {
        assert(l.contains(v[j]));
        let w = choose|w: int| 0 <= w < l.len() && l[w] == v[j];
        assert(fields_hold(l[w], q));
    }
    assert forall|k: int| 0 <= k < filter_matching(l, q).len() implies v.contains(#[trigger] filter_matching(l, q)[k]) by {
        let x = filter_matching(l, q)[k];
        assert(l.contains(x));
        let w = choose|w: int| 0 <= w < l.len() && l[w] == x;
        let o = crate::help::name_order(adapter_names(v), v.len() as int);
        assert(l[w] == v[o[w]]);
        crate::help::lemma_name_order(adapter_names(v), v.len() as int);
        assert(0 <= o[w] < v.len());
    }
}

} // verus!
