//! "Did you mean" hints: edit distance and ranking of close names.

use vstd::prelude::*;
use vstd::utf8::encode_utf8;
use crate::adapter::str_views;
use crate::text::{chars_of, contains, contains_seq, lowercase, to_lowercase, push_str, string_of};

verus! {

/// The smallest of three numbers.
pub open spec fn min3(x: nat, y: nat, z: nat) -> nat {
    let m = if x < y { x } else { y };
    if m < z { m } else { z }
}

/// The Levenshtein distance: the fewest single-character insertions, deletions and
/// substitutions that turn `a` into `b`.
pub open spec fn lev(a: Seq<char>, b: Seq<char>) -> nat
    decreases a.len() + b.len(),
{
    if a.len() == 0 {
        b.len()
    } else if b.len() == 0 {
        a.len()
    } else {
        min3(
            lev(a.drop_last(), b) + 1,
            lev(a, b.drop_last()) + 1,
            lev(a.drop_last(), b.drop_last()) + if a.last() == b.last() { 0nat } else { 1nat },
        )
    }
}

/// The distance is at most the length of the longer text.
pub proof fn lemma_lev_bound(a: Seq<char>, b: Seq<char>)
    ensures
        lev(a, b) <= if a.len() > b.len() { a.len() } else { b.len() },
    decreases a.len() + b.len(),
{
    if a.len() > 0 && b.len() > 0 {
        lemma_lev_bound(a.drop_last(), b.drop_last());
    }
}

fn inc_sat(x: usize) -> (r: usize)
    ensures
        r == if x == usize::MAX { x as int } else { x + 1 },
{
    if x == usize::MAX {
        x
    } else {
        x + 1
    }
}

/// `levenshtein`.
pub fn levenshtein(a: &[char], b: &[char]) -> (r: usize)
    ensures
        r == lev(a@, b@),
{
    let mut prev: Vec<usize> = Vec::new();
    for j in 0..b.len()
        invariant
            prev@.len() == j,
            forall|k: int| 0 <= k < j ==> prev@[k] == lev(a@.take(0), b@.take(k)),
    {
        assert(a@.take(0).len() == 0);
        prev.push(j);
    }
    assert(a@.take(0).len() == 0);
    prev.push(b.len());
    for i in 0..a.len()
        invariant
            prev@.len() == b.len() + 1,
            forall|k: int| 0 <= k <= b.len() ==> prev@[k] == lev(a@.take(i as int), b@.take(k)),
    {
        let mut cur: Vec<usize> = Vec::new();
        proof {
            assert(b@.take(0).len() == 0);
        }
        cur.push(i + 1);
        for j in 0..b.len()
            invariant
                i < a.len(),
                prev@.len() == b.len() + 1,
                forall|k: int| 0 <= k <= b.len() ==> prev@[k] == lev(a@.take(i as int), b@.take(k)),
                cur@.len() == j + 1,
                forall|k: int| 0 <= k <= j ==> cur@[k] == lev(a@.take(i + 1), b@.take(k)),
        {
            let ghost x = a@.take(i + 1);
            let ghost y = b@.take(j + 1);
            assert(x.drop_last() == a@.take(i as int));
            assert(y.drop_last() == b@.take(j as int));
            assert(x.last() == a@[i as int]);
            assert(y.last() == b@[j as int]);
            proof {
                lemma_lev_bound(x, y);
            }
            let cost: usize = if a[i] == b[j] { 0 } else { 1 };
            let del = inc_sat(prev[j + 1]);
            let ins = inc_sat(cur[j]);
            let sub = if cost == 0 { prev[j] } else { inc_sat(prev[j]) };
            let m1 = if del < ins { del } else { ins };
            let m = if m1 < sub { m1 } else { sub };
            cur.push(m);
        }
        prev = cur;
    }
    assert(a@.take(a.len() as int) == a@);
    assert(b@.take(b.len() as int) == b@);
    prev[b.len()]
}

/// A candidate name with its distance to the lower-cased needle.
pub open spec fn candidate(n: Seq<char>, name: Seq<char>) -> (Seq<char>, nat) {
    (name, lev(n, lowercase(name)))
}

/// A name is offered when it is within distance 3, or when the needle has at least three UTF-8
/// bytes and the lower-cased name contains it.
pub open spec fn offered(n: Seq<char>, name: Seq<char>) -> bool {
    lev(n, lowercase(name)) <= 3 || ((encode_utf8(n).len() as usize) >= 3 && contains_seq(lowercase(name), n))
}

/// The offered names with their distances, in the given order.
pub open spec fn scored(n: Seq<char>, names: Seq<Seq<char>>) -> Seq<(Seq<char>, nat)>
    decreases names.len(),
{
    if names.len() == 0 {
        Seq::empty()
    } else {
        let r = scored(n, names.drop_last());
        if offered(n, names.last()) {
            r.push(candidate(n, names.last()))
        } else {
            r
        }
    }
}

/// The names at distance `d`, in order.
pub open spec fn at_distance(sc: Seq<(Seq<char>, nat)>, d: nat) -> Seq<Seq<char>> {
    sc.filter(|e: (Seq<char>, nat)| e.1 == d).map_values(|e: (Seq<char>, nat)| e.0)
}

/// The names at distance `d` or less: nearer first, ties in the given order (a stable sort).
pub open spec fn ranked(sc: Seq<(Seq<char>, nat)>, d: nat) -> Seq<Seq<char>>
    decreases d,
{
    if d == 0 {
        at_distance(sc, 0)
    } else {
        ranked(sc, (d - 1) as nat) + at_distance(sc, d)
    }
}

/// The largest distance among the candidates.
pub open spec fn max_dist(sc: Seq<(Seq<char>, nat)>) -> nat
    decreases sc.len(),
{
    if sc.len() == 0 {
        0
    } else {
        let m = max_dist(sc.drop_last());
        if sc.last().1 > m {
            sc.last().1
        } else {
            m
        }
    }
}

/// Names joined with `, `.
pub open spec fn join_names(v: Seq<Seq<char>>) -> Seq<char>
    decreases v.len(),
{
    if v.len() == 0 {
        Seq::empty()
    } else if v.len() == 1 {
        v[0]
    } else {
        join_names(v.drop_last()) + ", "@ + v.last()
    }
}

/// `suggest`: at most five offered names, nearest first, as `. did you mean: a, b?`; empty when
/// none is offered.
pub open spec fn suggest_spec(needle: Seq<char>, names: Seq<Seq<char>>) -> Seq<char> {
    let n = lowercase(needle);
    let sc = scored(n, names);
    let all = ranked(sc, max_dist(sc));
    let top = if all.len() > 5 { all.take(5) } else { all };
    if top.len() == 0 {
        Seq::empty()
    } else {
        ". did you mean: "@ + join_names(top) + "?"@
    }
}

proof fn lemma_max_dist(sc: Seq<(Seq<char>, nat)>)
    ensures
        forall|i: int| 0 <= i < sc.len() ==> (#[trigger] sc[i]).1 <= max_dist(sc),
    decreases sc.len(),
{
    if sc.len() > 0 {
        lemma_max_dist(sc.drop_last());
        assert forall|i: int| 0 <= i < sc.len() implies (#[trigger] sc[i]).1 <= max_dist(sc) by {
            if i < sc.len() - 1 {
                assert(sc.drop_last()[i] == sc[i]);
            }
        }
    }
}

/// `suggest`.
pub fn suggest(needle: &str, available: &Vec<String>) -> (r: String)
    ensures
        r@ == suggest_spec(needle@, str_views(available@)),
{
    let n = to_lowercase(needle);
    let nc = chars_of(n.as_str());
    let nbytes = n.as_str().len();
    let ghost names = str_views(available@);
    let mut sc_names: Vec<String> = Vec::new();
    let mut sc_dist: Vec<usize> = Vec::new();
    for i in 0..available.len()
        invariant
            names == str_views(available@),
            nc@ == lowercase(needle@),
            nbytes == encode_utf8(nc@).len() as usize,
            sc_names@.len() == sc_dist@.len(),
            scored(nc@, names.take(i as int)) == Seq::new(sc_names@.len(), |k: int| (sc_names@[k]@, sc_dist@[k] as nat)),
    {
        let ghost t = names.take(i + 1);
        assert(t.drop_last() == names.take(i as int));
        assert(t.last() == available@[i as int]@);
        let h = to_lowercase(available[i].as_str());
        let hc = chars_of(h.as_str());
        let d = levenshtein(&nc, &hc);
        if d <= 3 || (nbytes >= 3 && contains(&hc, &nc)) {
            let ghost before = scored(nc@, names.take(i as int));
            sc_names.push(available[i].clone());
            sc_dist.push(d);
            assert(Seq::new(sc_names@.len(), |k: int| (sc_names@[k]@, sc_dist@[k] as nat)) =~= before.push(
                candidate(nc@, available@[i as int]@),
            ));
        }
    }
    assert(names.take(available.len() as int) == names);
    let ghost sc = scored(nc@, names);
    let mut maxd: usize = 0;
    for k in 0..sc_dist.len()
        invariant
            forall|j: int| 0 <= j < k ==> sc_dist@[j] <= maxd,
            maxd == 0 || exists|j: int| 0 <= j < k && sc_dist@[j] == maxd,
    {
        if sc_dist[k] > maxd {
            maxd = sc_dist[k];
        }
    }
    proof {
        lemma_max_dist_value(sc, maxd as nat, sc_dist@);
    }
    let mut all: Vec<String> = Vec::new();
    let mut d: usize = 0;
    loop
        invariant_except_break
            d <= maxd,
            sc == Seq::new(sc_names@.len(), |k: int| (sc_names@[k]@, sc_dist@[k] as nat)),
            sc_names@.len() == sc_dist@.len(),
            d == 0 ==> str_views(all@) == Seq::<Seq<char>>::empty(),
            d > 0 ==> str_views(all@) == ranked(sc, (d - 1) as nat),
        ensures
            str_views(all@) == ranked(sc, maxd as nat),
        decreases maxd - d,
    {
        let ghost before = str_views(all@);
        for k in 0..sc_names.len()
            invariant
                sc == Seq::new(sc_names@.len(), |k: int| (sc_names@[k]@, sc_dist@[k] as nat)),
                sc_names@.len() == sc_dist@.len(),
                str_views(all@) == before + at_distance(sc.take(k as int), d as nat),
        {
            let ghost t = sc.take(k + 1);
            assert(t.drop_last() == sc.take(k as int));
            assert(t.last() == sc[k as int]);
            let ghost pre = all@;
            if sc_dist[k] == d {
                let x = sc_names[k].clone();
                proof {
                    crate::adapter::lemma_str_views_push(pre, x);
                }
                all.push(x);
            }
            assert(t =~= sc.take(k as int).push(sc[k as int]));
            proof {
                lemma_at_distance_push(sc.take(k as int), sc[k as int], d as nat);
            }
        }
        assert(sc.take(sc_names.len() as int) == sc);
        if d == 0 {
            assert(str_views(all@) =~= ranked(sc, 0));
        }
        if d == maxd {
            break;
        }
        d = d + 1;
    }
    let top_len = if all.len() > 5 { 5 } else { all.len() };
    let ghost top = if str_views(all@).len() > 5 { str_views(all@).take(5) } else { str_views(all@) };
    let mut out = String::new();
    if top_len == 0 {
        return out;
    }
    push_str(&mut out, ". did you mean: ");
    let ghost start = out@;
    for k in 0..top_len
        invariant
            top_len <= all@.len(),
            top.len() == top_len,
            forall|j: int| 0 <= j < top_len ==> top[j] == all@[j]@,
            out@ == start + join_names(top.take(k as int)),
    {
        let ghost t = top.take(k + 1);
        assert(t.drop_last() == top.take(k as int));
        if k > 0 {
            push_str(&mut out, ", ");
        }
        push_str(&mut out, all[k].as_str());
        proof {
            if k == 0 {
                assert(t.len() == 1);
            }
        }
        assert(out@ =~= start + join_names(t));
    }
    assert(top.take(top_len as int) == top);
    push_str(&mut out, "?");
    out
}

proof fn lemma_at_distance_push(s: Seq<(Seq<char>, nat)>, x: (Seq<char>, nat), d: nat)
    ensures
        at_distance(s.push(x), d) == if x.1 == d { at_distance(s, d).push(x.0) } else { at_distance(s, d) },
{
    reveal_with_fuel(Seq::<_>::filter, 1);
    assert(s.push(x).drop_last() =~= s);
    let p = |e: (Seq<char>, nat)| e.1 == d;
    if x.1 == d {
        assert(s.push(x).filter(p) == s.filter(p).push(x));
        assert(s.filter(p).push(x).map_values(|e: (Seq<char>, nat)| e.0) =~= s.filter(p).map_values(|e: (Seq<char>, nat)| e.0).push(x.0));
    } else {
        assert(s.push(x).filter(p) == s.filter(p));
    }
}

proof fn lemma_max_dist_value(sc: Seq<(Seq<char>, nat)>, m: nat, ds: Seq<usize>)
    requires
        sc.len() == ds.len(),
        forall|j: int| 0 <= j < sc.len() ==> (#[trigger] sc[j]).1 == ds[j],
        forall|j: int| 0 <= j < ds.len() ==> ds[j] <= m,
        m == 0 || exists|j: int| 0 <= j < ds.len() && ds[j] == m,
    ensures
        max_dist(sc) == m,
    decreases sc.len(),
{
    lemma_max_dist(sc);
    if sc.len() > 0 {
        let p = sc.drop_last();
        let m2 = max_dist(p);
        lemma_max_dist(p);
        lemma_max_dist_attained(p);
        if m > 0 {
            let j = choose|j: int| 0 <= j < ds.len() && ds[j] == m;
            assert(sc[j].1 == m);
        }
    }
}

proof fn lemma_max_dist_attained(sc: Seq<(Seq<char>, nat)>)
    ensures
        max_dist(sc) == 0 || exists|j: int| 0 <= j < sc.len() && sc[j].1 == max_dist(sc),
    decreases sc.len(),
{
    if sc.len() > 0 {
        lemma_max_dist_attained(sc.drop_last());
        if max_dist(sc) != sc.last().1 && max_dist(sc) != 0 {
            let j = choose|j: int| 0 <= j < sc.drop_last().len() && sc.drop_last()[j].1 == max_dist(sc.drop_last());
            assert(sc[j] == sc.drop_last()[j]);
        }
    }
}

proof fn lemma_scored_nonempty(n: Seq<char>, names: Seq<Seq<char>>, i: int)
    requires
        0 <= i < names.len(),
        offered(n, names[i]),
    ensures
        scored(n, names).len() > 0,
    decreases names.len(),
{
    if i < names.len() - 1 {
        lemma_scored_nonempty(n, names.drop_last(), i);
    }
}

proof fn lemma_at_distance_nonempty(sc: Seq<(Seq<char>, nat)>, d: nat, j: int)
    requires
        0 <= j < sc.len(),
        sc[j].1 == d,
    ensures
        at_distance(sc, d).len() > 0,
    decreases sc.len(),
{
    let p = sc.drop_last();
    assert(sc == p.push(sc.last()));
    lemma_at_distance_push(p, sc.last(), d);
    if j < sc.len() - 1 {
        assert(p[j] == sc[j]);
        lemma_at_distance_nonempty(p, d, j);
    }
}

/// A name close to the one asked for (within three edits, or containing it, ignoring case) is
/// always suggested: the hint is not empty.
pub proof fn lemma_close_name_suggested(needle: Seq<char>, names: Seq<Seq<char>>, i: int)
    requires
        0 <= i < names.len(),
        offered(lowercase(needle), names[i]),
    ensures
        suggest_spec(needle, names).len() > 0,
{
    let n = lowercase(needle);
    let sc = scored(n, names);
    lemma_scored_nonempty(n, names, i);
    let m = max_dist(sc);
    lemma_max_dist(sc);
    lemma_max_dist_attained(sc);
    let j = if m == 0 {
        0
    } else {
        choose|j: int| 0 <= j < sc.len() && sc[j].1 == m
    };
    assert(sc[j].1 == m);
    lemma_at_distance_nonempty(sc, m, j);
    assert(ranked(sc, m).len() > 0);
    reveal_strlit("?");
}

} // verus!
