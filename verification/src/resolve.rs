//! Resolving the parameters of a command: defaults, given values, required names, choices.

use vstd::prelude::*;
use crate::adapter::{ParamDef, str_views, contains_str};
use crate::json::{plain_text, to_plain};
use crate::params::{param_put, pair_views, params_from, pair_get, distinct_keys, put_param, put_all, get_pair};

verus! {

/// Why the parameters of a command were refused.
pub enum ParamError {
    /// A required parameter has no value.
    Missing(String),
    /// A parameter's value is not one of its choices.
    NotAllowed { name: String, choices: Vec<String> },
}

/// The mathematical form of a [`ParamError`].
pub enum ParamErrorV {
    Missing(Seq<char>),
    NotAllowed(Seq<char>, Seq<Seq<char>>),
}

impl View for ParamError {
    type V = ParamErrorV;

    open spec fn view(&self) -> ParamErrorV {
        match self {
            ParamError::Missing(n) => ParamErrorV::Missing(n@),
            ParamError::NotAllowed { name, choices } => ParamErrorV::NotAllowed(name@, str_views(choices@)),
        }
    }
}

/// The defaults of the definitions, as plain text, in definition order.
pub open spec fn defaults_of(defs: Seq<(String, ParamDef)>) -> Seq<(Seq<char>, Seq<char>)>
    decreases defs.len(),
{
    if defs.len() == 0 {
        Seq::empty()
    } else {
        let m = defaults_of(defs.drop_last());
        match defs.last().1.default {
            Some(d) => param_put(m, defs.last().0@, plain_text(d@)),
            None => m,
        }
    }
}

/// What is wrong with one definition's value in `m`, if anything.
pub open spec fn def_problem(name: Seq<char>, def: ParamDef, m: Seq<(Seq<char>, Seq<char>)>) -> Option<ParamErrorV> {
    if def.required && pair_get(m, name) is None {
        Some(ParamErrorV::Missing(name))
    } else if def.choices@.len() > 0 {
        match pair_get(m, name) {
            Some(v) => if !str_views(def.choices@).contains(v) {
                Some(ParamErrorV::NotAllowed(name, str_views(def.choices@)))
            } else {
                None
            },
            None => None,
        }
    } else {
        None
    }
}

/// The first definition, in order, whose value is wrong.
pub open spec fn first_problem(defs: Seq<(String, ParamDef)>, m: Seq<(Seq<char>, Seq<char>)>) -> Option<ParamErrorV>
    decreases defs.len(),
{
    if defs.len() == 0 {
        None
    } else {
        match def_problem(defs[0].0@, defs[0].1, m) {
            Some(e) => Some(e),
            None => first_problem(defs.skip(1), m),
        }
    }
}

/// `resolve_params`: defaults, overridden by the given values (later ones winning); refused when
/// a required parameter has no value or a value is not among its parameter's choices.
pub open spec fn resolve_params_spec(defs: Seq<(String, ParamDef)>, given: Seq<(Seq<char>, Seq<char>)>) -> Result<
    Seq<(Seq<char>, Seq<char>)>,
    ParamErrorV,
> {
    let m = params_from(defaults_of(defs), given);
    match first_problem(defs, m) {
        Some(e) => Err(e),
        None => Ok(m),
    }
}

proof fn lemma_first_problem(defs: Seq<(String, ParamDef)>, m: Seq<(Seq<char>, Seq<char>)>, i: int)
    requires
        0 <= i <= defs.len(),
        forall|j: int| 0 <= j < i ==> def_problem(#[trigger] defs[j].0@, defs[j].1, m) is None,
    ensures
        first_problem(defs, m) == first_problem(defs.skip(i), m),
    decreases i,
{
    if i > 0 {
        assert(def_problem(defs[0].0@, defs[0].1, m) is None);
        assert forall|j: int| 0 <= j < i - 1 implies def_problem(#[trigger] defs.skip(1)[j].0@, defs.skip(1)[j].1, m) is None by {
            assert(defs.skip(1)[j] == defs[j + 1]);
        }
        lemma_first_problem(defs.skip(1), m, i - 1);
        assert(defs.skip(1).skip(i - 1) == defs.skip(i));
    } else {
        assert(defs.skip(0) == defs);
    }
}

/// `resolve_params`.
pub fn resolve_params(defs: &Vec<(String, ParamDef)>, given: &Vec<(String, String)>) -> (r: Result<
    Vec<(String, String)>,
    ParamError,
>)
    ensures
        match r {
            Ok(m) => resolve_params_spec(defs@, pair_views(given@)) == Ok::<Seq<(Seq<char>, Seq<char>)>, ParamErrorV>(pair_views(m@))
                && distinct_keys(pair_views(m@)),
            Err(e) => resolve_params_spec(defs@, pair_views(given@)) == Err::<Seq<(Seq<char>, Seq<char>)>, ParamErrorV>(e@),
        },
{
    let mut map: Vec<(String, String)> = Vec::new();
    assert(pair_views(map@) =~= Seq::<(Seq<char>, Seq<char>)>::empty());
    for i in 0..defs.len()
        invariant
            distinct_keys(pair_views(map@)),
            pair_views(map@) == defaults_of(defs@.take(i as int)),
    {
        let ghost t = defs@.take(i + 1);
        assert(t.drop_last() == defs@.take(i as int));
        assert(t.last() == defs@[i as int]);
        match &defs[i].1.default {
            Some(d) => {
                put_param(&mut map, defs[i].0.clone(), to_plain(d));
            },
            None => {},
        }
    }
    assert(defs@.take(defs.len() as int) == defs@);
    put_all(&mut map, given);
    let ghost m = pair_views(map@);
    assert(defs@.skip(0) == defs@);
    for i in 0..defs.len()
        invariant
            m == pair_views(map@),
            m == params_from(defaults_of(defs@), pair_views(given@)),
            distinct_keys(m),
            forall|j: int| 0 <= j < i ==> def_problem(#[trigger] defs@[j].0@, defs@[j].1, m) is None,
    {
        let name = &defs[i].0;
        let def = &defs[i].1;
        let found = get_pair(&map, name.as_str());
        if def.required && found.is_none() {
            proof {
                lemma_first_problem(defs@, m, i as int);
                assert(defs@.skip(i as int)[0] == defs@[i as int]);
            }
            return Err(ParamError::Missing(name.clone()));
        }
        if def.choices.len() > 0 {
            match found {
                Some(val) => {
                    if !contains_str(&def.choices, val.as_str()) {
                        proof {
                            lemma_first_problem(defs@, m, i as int);
                            assert(defs@.skip(i as int)[0] == defs@[i as int]);
                        }
                        let mut cs: Vec<String> = Vec::new();
                        for k in 0..def.choices.len()
                            invariant
                                cs@.len() == k,
                                forall|j: int| 0 <= j < k ==> (#[trigger] cs@[j])@ == def.choices@[j]@,
                        {
                            cs.push(def.choices[k].clone());
                        }
                        assert(str_views(cs@) =~= str_views(def.choices@));
                        return Err(ParamError::NotAllowed { name: name.clone(), choices: cs });
                    }
                },
                None => {},
            }
        }
        assert(def_problem(defs@[i as int].0@, defs@[i as int].1, m) is None);
    }
    proof {
        lemma_first_problem(defs@, m, defs@.len() as int);
    }
    Ok(map)
}

} // verus!

verus! {

/// The value the last pair naming `n` gives it.
pub open spec fn last_binding(given: Seq<(Seq<char>, Seq<char>)>, n: Seq<char>) -> Option<Seq<char>>
    decreases given.len(),
{
    if given.len() == 0 {
        None
    } else if given.last().0 == n {
        Some(given.last().1)
    } else {
        last_binding(given.drop_last(), n)
    }
}

/// The default (as plain text) of the last definition named `n` that has one.
pub open spec fn last_default(defs: Seq<(String, ParamDef)>, n: Seq<char>) -> Option<Seq<char>>
    decreases defs.len(),
{
    if defs.len() == 0 {
        None
    } else if defs.last().0@ == n && defs.last().1.default is Some {
        Some(plain_text(defs.last().1.default->0@))
    } else {
        last_default(defs.drop_last(), n)
    }
}

proof fn lemma_put_get(m: Seq<(Seq<char>, Seq<char>)>, k: Seq<char>, v: Seq<char>, n: Seq<char>)
    requires
        distinct_keys(m),
    ensures
        distinct_keys(param_put(m, k, v)),
        pair_get(param_put(m, k, v), n) == (if n == k { Some(v) } else { pair_get(m, n) }),
{
    let r = param_put(m, k, v);
    if exists|i: int| 0 <= i < m.len() && m[i].0 == k {
        let i = choose|i: int| 0 <= i < m.len() && m[i].0 == k;
        assert(r == m.update(i, (k, v)));
        assert forall|a: int, b: int| 0 <= a < b < r.len() implies r[a].0 != r[b].0 by {
            assert(m[a].0 != m[b].0);
        }
        if exists|j: int| 0 <= j < r.len() && r[j].0 == n {
            let j = choose|j: int| 0 <= j < r.len() && r[j].0 == n;
            if n == k {
                assert(j == i) by {
                    if j != i {
                        assert(m[j].0 == m[i].0);
                    }
                }
            } else {
                assert(m[j].0 == n);
                let j2 = choose|j2: int| 0 <= j2 < m.len() && m[j2].0 == n;
                assert(j2 == j) by {
                    if j2 != j {
                        assert(m[j2].0 == m[j].0);
                    }
                }
            }
        } else {
            if n != k && exists|j: int| 0 <= j < m.len() && m[j].0 == n {
                let j = choose|j: int| 0 <= j < m.len() && m[j].0 == n;
                assert(r[j].0 == n);
            }
            assert(n != k) by {
                if n == k {
                    assert(r[i].0 == n);
                }
            }
        }
    } else {
        assert(r == m.push((k, v)));
        assert forall|a: int, b: int| 0 <= a < b < r.len() implies r[a].0 != r[b].0 by {
            if b == m.len() {
                assert(r[a] == m[a]);
            } else {
                assert(m[a].0 != m[b].0);
            }
        }
        if exists|j: int| 0 <= j < r.len() && r[j].0 == n {
            let j = choose|j: int| 0 <= j < r.len() && r[j].0 == n;
            if n == k {
                assert(j == m.len()) by {
                    if j < m.len() {
                        assert(m[j].0 == k);
                    }
                }
            } else {
                assert(j < m.len());
                assert(m[j].0 == n);
                let j2 = choose|j2: int| 0 <= j2 < m.len() && m[j2].0 == n;
                assert(j2 == j) by {
                    if j2 != j {
                        assert(m[j2].0 == m[j].0);
                    }
                }
            }
        } else {
            assert(r[m.len() as int].0 == k);
            if exists|j: int| 0 <= j < m.len() && m[j].0 == n {
                let j = choose|j: int| 0 <= j < m.len() && m[j].0 == n;
                assert(r[j].0 == n);
            }
        }
    }
}

proof fn lemma_params_from_get(m0: Seq<(Seq<char>, Seq<char>)>, given: Seq<(Seq<char>, Seq<char>)>, n: Seq<char>)
    requires
        distinct_keys(m0),
    ensures
        distinct_keys(params_from(m0, given)),
        pair_get(params_from(m0, given), n) == match last_binding(given, n) {
            Some(v) => Some(v),
            None => pair_get(m0, n),
        },
    decreases given.len(),
{
    if given.len() > 0 {
        lemma_params_from_get(m0, given.drop_last(), n);
        lemma_put_get(params_from(m0, given.drop_last()), given.last().0, given.last().1, n);
    }
}

proof fn lemma_defaults_get(defs: Seq<(String, ParamDef)>, n: Seq<char>)
    ensures
        distinct_keys(defaults_of(defs)),
        pair_get(defaults_of(defs), n) == last_default(defs, n),
    decreases defs.len(),
{
    if defs.len() > 0 {
        lemma_defaults_get(defs.drop_last(), n);
        match defs.last().1.default {
            Some(d) => {
                lemma_put_get(defaults_of(defs.drop_last()), defs.last().0@, plain_text(d@), n);
            },
            None => {},
        }
    }
}

/// The value a resolved parameter has: the last value given for it, else its default; the
/// names are distinct.
pub proof fn lemma_resolved_value(defs: Seq<(String, ParamDef)>, given: Seq<(Seq<char>, Seq<char>)>, n: Seq<char>)
    requires
        resolve_params_spec(defs, given) is Ok,
    ensures
        distinct_keys(resolve_params_spec(defs, given)->Ok_0),
        pair_get(resolve_params_spec(defs, given)->Ok_0, n) == match last_binding(given, n) {
            Some(v) => Some(v),
            None => last_default(defs, n),
        },
{
    lemma_defaults_get(defs, n);
    lemma_params_from_get(defaults_of(defs), given, n);
}

} // verus!

verus! {

proof fn lemma_no_problem(defs: Seq<(String, ParamDef)>, m: Seq<(Seq<char>, Seq<char>)>)
    requires
        first_problem(defs, m) is None,
    ensures
        forall|i: int| 0 <= i < defs.len() ==> def_problem(#[trigger] defs[i].0@, defs[i].1, m) is None,
    decreases defs.len(),
{
    if defs.len() > 0 {
        lemma_no_problem(defs.skip(1), m);
        assert forall|i: int| 0 <= i < defs.len() implies def_problem(#[trigger] defs[i].0@, defs[i].1, m) is None by {
            if i > 0 {
                assert(defs.skip(1)[i - 1] == defs[i]);
            }
        }
    }
}

/// Accepted parameters satisfy every definition: each required one has a value, and each
/// value of a parameter with choices is one of them.
pub proof fn lemma_resolved_valid(defs: Seq<(String, ParamDef)>, given: Seq<(Seq<char>, Seq<char>)>)
    requires
        resolve_params_spec(defs, given) is Ok,
    ensures
        forall|i: int|
            0 <= i < defs.len() && (#[trigger] defs[i]).1.required ==> pair_get(
                resolve_params_spec(defs, given)->Ok_0,
                defs[i].0@,
            ) is Some,
        forall|i: int|
            0 <= i < defs.len() && (#[trigger] defs[i]).1.choices@.len() > 0 && pair_get(
                resolve_params_spec(defs, given)->Ok_0,
                defs[i].0@,
            ) is Some ==> str_views(defs[i].1.choices@).contains(
                pair_get(resolve_params_spec(defs, given)->Ok_0, defs[i].0@)->0,
            ),
{
    let m = params_from(defaults_of(defs), given);
    lemma_no_problem(defs, m);
    assert forall|i: int| 0 <= i < defs.len() && (#[trigger] defs[i]).1.required implies pair_get(m, defs[i].0@) is Some by {
        assert(def_problem(defs[i].0@, defs[i].1, m) is None);
    }
    assert forall|i: int|
        0 <= i < defs.len() && (#[trigger] defs[i]).1.choices@.len() > 0 && pair_get(m, defs[i].0@) is Some implies str_views(
        defs[i].1.choices@,
    ).contains(pair_get(m, defs[i].0@)->0) by {
        assert(def_problem(defs[i].0@, defs[i].1, m) is None);
    }
}

} // verus!

verus! {

/// The value a command line gives a parameter: the last value given for it, else its default.
pub open spec fn value_for(defs: Seq<(String, ParamDef)>, given: Seq<(Seq<char>, Seq<char>)>, n: Seq<char>) -> Option<Seq<char>> {
    match last_binding(given, n) {
        Some(v) => Some(v),
        None => last_default(defs, n),
    }
}

proof fn lemma_all_fine(defs: Seq<(String, ParamDef)>, m: Seq<(Seq<char>, Seq<char>)>)
    requires
        forall|i: int| 0 <= i < defs.len() ==> def_problem(#[trigger] defs[i].0@, defs[i].1, m) is None,
    ensures
        first_problem(defs, m) is None,
    decreases defs.len(),
{
    if defs.len() > 0 {
        assert(def_problem(defs[0].0@, defs[0].1, m) is None);
        assert forall|i: int| 0 <= i < defs.skip(1).len() implies def_problem(#[trigger] defs.skip(1)[i].0@, defs.skip(1)[i].1, m) is None by {
            assert(defs.skip(1)[i] == defs[i + 1]);
        }
        lemma_all_fine(defs.skip(1), m);
    }
}

/// Parameters are refused only for a reason: when every required parameter has a value (given
/// or default) and every value of a parameter with choices is one of its choices, whichever
/// one it is, the parameters are accepted, each with the value given last, else its default.
pub proof fn lemma_resolve_complete(defs: Seq<(String, ParamDef)>, given: Seq<(Seq<char>, Seq<char>)>)
    requires
        forall|i: int| 0 <= i < defs.len() && (#[trigger] defs[i]).1.required ==> value_for(defs, given, defs[i].0@) is Some,
        forall|i: int|
            0 <= i < defs.len() && (#[trigger] defs[i]).1.choices@.len() > 0 && value_for(defs, given, defs[i].0@) is Some
                ==> str_views(defs[i].1.choices@).contains(value_for(defs, given, defs[i].0@)->0),
    ensures
        resolve_params_spec(defs, given) is Ok,
        forall|n: Seq<char>| #[trigger] pair_get(resolve_params_spec(defs, given)->Ok_0, n) == value_for(defs, given, n),
{
    let m = params_from(defaults_of(defs), given);
    assert forall|n: Seq<char>| #[trigger] pair_get(m, n) == value_for(defs, given, n) by {
        lemma_defaults_get(defs, n);
        lemma_params_from_get(defaults_of(defs), given, n);
    }
    assert forall|i: int| 0 <= i < defs.len() implies def_problem(#[trigger] defs[i].0@, defs[i].1, m) is None by {
        assert(pair_get(m, defs[i].0@) == value_for(defs, given, defs[i].0@));
    }
    lemma_all_fine(defs, m);
}

} // verus!
