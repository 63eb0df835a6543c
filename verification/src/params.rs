//! Parameter maps: names bound to text values, each name once.

use vstd::prelude::*;
use crate::text::str_eq;

verus! {

/// The value bound to `k`.
pub open spec fn param_get(ps: Seq<(String, String)>, k: Seq<char>) -> Option<Seq<char>>
    decreases ps.len(),
{
    if ps.len() == 0 {
        None
    } else if ps[0].0@ == k {
        Some(ps[0].1@)
    } else {
        param_get(ps.skip(1), k)
    }
}

proof fn lemma_param_get_at(ps: Seq<(String, String)>, k: Seq<char>, i: int)
    requires
        0 <= i <= ps.len(),
        forall|j: int| 0 <= j < i ==> ps[j].0@ != k,
        i == ps.len() || ps[i].0@ == k,
    ensures
        param_get(ps, k) == (if i == ps.len() { None } else { Some(ps[i].1@) }),
    decreases i,
{
    if i > 0 {
        lemma_param_get_at(ps.skip(1), k, i - 1);
    }
}

/// The value bound to `k`.
pub fn lookup_param<'a>(ps: &'a Vec<(String, String)>, k: &str) -> (r: Option<&'a String>)
    ensures
        match param_get(ps@, k@) {
            Some(v) => r matches Some(x) && x@ == v,
            None => r is None,
        },
{
    let mut i: usize = 0;
    while i < ps.len() && !str_eq(ps[i].0.as_str(), k)
        invariant
            i <= ps.len(),
            forall|j: int| 0 <= j < i ==> ps@[j].0@ != k@,
        decreases ps.len() - i,
    {
        i = i + 1;
    }
    proof {
        lemma_param_get_at(ps@, k@, i as int);
    }
    if i < ps.len() {
        Some(&ps[i].1)
    } else {
        None
    }
}

} // verus!

verus! {

/// Binding `k` to `v`: an existing binding of `k` is replaced in place, else it is added last.
pub open spec fn param_put(ps: Seq<(Seq<char>, Seq<char>)>, k: Seq<char>, v: Seq<char>) -> Seq<(Seq<char>, Seq<char>)> {
    if exists|i: int| 0 <= i < ps.len() && ps[i].0 == k {
        let i = choose|i: int| 0 <= i < ps.len() && ps[i].0 == k;
        ps.update(i, (k, v))
    } else {
        ps.push((k, v))
    }
}

/// The views of a parameter map.
pub open spec fn pair_views(ps: Seq<(String, String)>) -> Seq<(Seq<char>, Seq<char>)> {
    Seq::new(ps.len(), |i: int| (ps[i].0@, ps[i].1@))
}

/// Names in a list of pairs are distinct.
pub open spec fn distinct_keys(ps: Seq<(Seq<char>, Seq<char>)>) -> bool {
    forall|i: int, j: int| 0 <= i < j < ps.len() ==> ps[i].0 != ps[j].0
}

/// `HashMap::insert` on a parameter map.
pub fn put_param(ps: &mut Vec<(String, String)>, k: String, v: String)
    requires
        distinct_keys(pair_views(old(ps)@)),
    ensures
        pair_views(final(ps)@) == param_put(pair_views(old(ps)@), k@, v@),
        distinct_keys(pair_views(final(ps)@)),
{
    let ghost pv = pair_views(ps@);
    let mut i: usize = 0;
    while i < ps.len() && !str_eq(ps[i].0.as_str(), k.as_str())
        invariant
            i <= ps.len(),
            ps@ == old(ps)@,
            pv == pair_views(ps@),
            forall|j: int| 0 <= j < i ==> ps@[j].0@ != k@,
        decreases ps.len() - i,
    {
        i = i + 1;
    }
    if i < ps.len() {
        assert(pv[i as int].0 == k@);
        let ghost c = choose|j: int| 0 <= j < pv.len() && pv[j].0 == k@;
        assert(c == i) by {
            if c != i {
                assert(pv[c].0 == pv[i as int].0);
            }
        }
        ps.set(i, (k, v));
        assert(pair_views(ps@) =~= pv.update(i as int, (pv[i as int].0, v@)));
    } else {
        assert(!(exists|j: int| 0 <= j < pv.len() && pv[j].0 == k@));
        let ghost kv = k@;
        let ghost vv = v@;
        ps.push((k, v));
        assert(pair_views(ps@) =~= pv.push((kv, vv)));
    }
}

/// The parameter map of a list of pairs, later pairs winning.
pub open spec fn params_from(m0: Seq<(Seq<char>, Seq<char>)>, given: Seq<(Seq<char>, Seq<char>)>) -> Seq<(Seq<char>, Seq<char>)>
    decreases given.len(),
{
    if given.len() == 0 {
        m0
    } else {
        let m = params_from(m0, given.drop_last());
        param_put(m, given.last().0, given.last().1)
    }
}

/// The value bound to `k` in a list of pairs.
pub open spec fn pair_get(ps: Seq<(Seq<char>, Seq<char>)>, k: Seq<char>) -> Option<Seq<char>> {
    if exists|i: int| 0 <= i < ps.len() && ps[i].0 == k {
        let i = choose|i: int| 0 <= i < ps.len() && ps[i].0 == k;
        Some(ps[i].1)
    } else {
        None
    }
}

/// Binds each pair into the map in order.
pub fn put_all(ps: &mut Vec<(String, String)>, given: &Vec<(String, String)>)
    requires
        distinct_keys(pair_views(old(ps)@)),
    ensures
        pair_views(final(ps)@) == params_from(pair_views(old(ps)@), pair_views(given@)),
        distinct_keys(pair_views(final(ps)@)),
{
    let ghost m0 = pair_views(ps@);
    let ghost gv = pair_views(given@);
    for i in 0..given.len()
        invariant
            gv == pair_views(given@),
            distinct_keys(pair_views(ps@)),
            pair_views(ps@) == params_from(m0, gv.take(i as int)),
    {
        let ghost t = gv.take(i + 1);
        assert(t.drop_last() == gv.take(i as int));
        assert(t.last() == (given@[i as int].0@, given@[i as int].1@));
        put_param(ps, given[i].0.clone(), given[i].1.clone());
    }
    assert(gv.take(given.len() as int) == gv);
}

} // verus!

verus! {

/// The value bound to `k` in a map with distinct names.
pub fn get_pair<'a>(ps: &'a Vec<(String, String)>, k: &str) -> (r: Option<&'a String>)
    requires
        distinct_keys(pair_views(ps@)),
    ensures
        match pair_get(pair_views(ps@), k@) {
            Some(v) => r matches Some(x) && x@ == v,
            None => r is None,
        },
{
    let ghost pv = pair_views(ps@);
    let mut i: usize = 0;
    while i < ps.len() && !str_eq(ps[i].0.as_str(), k)
        invariant
            i <= ps.len(),
            pv == pair_views(ps@),
            forall|j: int| 0 <= j < i ==> ps@[j].0@ != k@,
        decreases ps.len() - i,
    {
        i = i + 1;
    }
    if i < ps.len() {
        assert(pv[i as int].0 == k@);
        let ghost c = choose|j: int| 0 <= j < pv.len() && pv[j].0 == k@;
        assert(c == i) by {
            if c != i {
                assert(pv[c].0 == pv[i as int].0);
            }
        }
        Some(&ps[i].1)
    } else {
        assert(!(exists|j: int| 0 <= j < pv.len() && pv[j].0 == k@));
        None
    }
}

} // verus!
