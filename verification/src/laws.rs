//! Laws of the resolver, stated and proved over the mathematical model.

use vstd::prelude::*;

use crate::chase::chase_at;
use crate::chase::lemma_resolves_to_unique;
use crate::chase::resolvable;
use crate::chase::resolves_to;
use crate::env::EnvModel;
use crate::eval::entries_eval;
use crate::eval::eval_spec;
use crate::eval::insert_all;
use crate::eval::items_eval;
use crate::eval::resolved;
use crate::value::is_atom;
use crate::value::ValueModel;

verus! {

/// With no bindings at all, the chase never moves.
proof fn lemma_chase_empty(v: ValueModel, n: nat)
    ensures
        chase_at(Map::empty(), v, n) == v,
    decreases n,
{
    if n > 0 {
        lemma_chase_empty(v, (n - 1) as nat);
    }
}

/// Law: an atom evaluated in the empty environment is returned unchanged,
/// and the environment stays empty.
pub proof fn lemma_atom_identity_in_empty_env(v: ValueModel)
    requires
        is_atom(v),
    ensures
        eval_spec(Map::empty(), v) == Some((Map::<ValueModel, ValueModel>::empty(), v)),
{
    let e: EnvModel = Map::empty();
    lemma_chase_empty(v, 0);
    assert(!e.dom().contains(chase_at(e, v, 0)));
    assert(resolvable(e, v));
    assert(chase_at(e, v, 0) == v);
    assert(resolves_to(e, v, v));
    assert(resolves_to(e, v, resolved(e, v)));
    lemma_resolves_to_unique(e, v, resolved(e, v), v);
}

/// Two values have the same structural shape: sequences match sequences
/// element by element, mappings match mappings with identical keys in
/// identical order, and an atom leaf may be replaced by anything.
pub open spec fn same_shape(a: ValueModel, b: ValueModel) -> bool
    decreases a,
{
    match a {
        ValueModel::Sequence(xs) => match b {
            ValueModel::Sequence(ys) => ys.len() == xs.len() && forall|i: int|
                0 <= i < xs.len() ==> same_shape(xs[i], ys[i]),
            _ => false,
        },
        ValueModel::Mapping(ps) => match b {
            ValueModel::Mapping(qs) => qs.len() == ps.len() && forall|i: int|
                0 <= i < ps.len() ==> qs[i].0 == ps[i].0 && same_shape(ps[i].1, qs[i].1),
            _ => false,
        },
        _ => true,
    }
}

/// Law: the evaluated form of a value has the same structural shape as
/// the value itself; only atom leaves are substituted.
pub proof fn lemma_shape_preservation(e0: EnvModel, v: ValueModel, e1: EnvModel, r: ValueModel)
    requires
        eval_spec(e0, v) == Some((e1, r)),
    ensures
        same_shape(v, r),
    decreases v,
{
    match v {
        ValueModel::Sequence(items) => {
            lemma_items_shape(e0, items);
        },
        ValueModel::Mapping(pairs) => {
            lemma_entries_shape(e0, pairs);
        },
        _ => {},
    }
}

/// Element lists evaluate pointwise to same-shaped elements.
proof fn lemma_items_shape(e0: EnvModel, items: Seq<ValueModel>)
    ensures
        match items_eval(e0, items) {
            Some(p) => p.1.len() == items.len() && forall|i: int|
                0 <= i < items.len() ==> same_shape(items[i], p.1[i]),
            None => true,
        },
    decreases items,
{
    if items.len() > 0 {
        lemma_items_shape(e0, items.drop_last());
        match items_eval(e0, items.drop_last()) {
            Some(p) => match eval_spec(p.0, items.last()) {
                Some(q) => {
                    lemma_shape_preservation(p.0, items.last(), q.0, q.1);
                    assert forall|i: int| 0 <= i < items.len()
                        implies same_shape(items[i], p.1.push(q.1)[i]) by {
                        if i < items.len() - 1 {
                            assert(items.drop_last()[i] == items[i]);
                            assert(p.1.push(q.1)[i] == p.1[i]);
                        } else {
                            assert(p.1.push(q.1)[i] == q.1);
                        }
                    }
                },
                None => {},
            },
            None => {},
        }
    }
}

/// Entry lists evaluate pointwise: keys verbatim, values same-shaped.
proof fn lemma_entries_shape(e0: EnvModel, pairs: Seq<(ValueModel, ValueModel)>)
    ensures
        match entries_eval(e0, pairs) {
            Some(p) => p.1.len() == pairs.len() && forall|i: int|
                0 <= i < pairs.len() ==> p.1[i].0 == pairs[i].0
                    && same_shape(pairs[i].1, p.1[i].1),
            None => true,
        },
    decreases pairs,
{
    if pairs.len() > 0 {
        lemma_entries_shape(e0, pairs.drop_last());
        match entries_eval(e0, pairs.drop_last()) {
            Some(p) => match eval_spec(p.0, pairs.last().1) {
                Some(q) => {
                    lemma_shape_preservation(p.0, pairs.last().1, q.0, q.1);
                    let rp = p.1.push((pairs.last().0, q.1));
                    assert forall|i: int| 0 <= i < pairs.len()
                        implies rp[i].0 == pairs[i].0 && same_shape(pairs[i].1, rp[i].1) by {
                        if i < pairs.len() - 1 {
                            assert(pairs.drop_last()[i] == pairs[i]);
                            assert(rp[i] == p.1[i]);
                        } else {
                            assert(rp[i] == (pairs.last().0, q.1));
                        }
                    }
                },
                None => {},
            },
            None => {},
        }
    }
}

/// The atoms a value puts through chain resolution: its own leaf if it is
/// an atom, else the atoms of its elements or of its entry values.  Keys
/// of mappings are copied verbatim and are not dereferenced.
pub open spec fn eval_atoms(v: ValueModel) -> Set<ValueModel>
    decreases v,
{
    match v {
        ValueModel::Sequence(items) => atoms_in_items(items),
        ValueModel::Mapping(pairs) => atoms_in_entries(pairs),
        _ => Set::empty().insert(v),
    }
}

/// The atoms dereferenced anywhere in an element list.
pub open spec fn atoms_in_items(items: Seq<ValueModel>) -> Set<ValueModel>
    decreases items,
{
    if items.len() == 0 {
        Set::empty()
    } else {
        atoms_in_items(items.drop_last()).union(eval_atoms(items.last()))
    }
}

/// The atoms dereferenced anywhere in the values of an entry list.
pub open spec fn atoms_in_entries(pairs: Seq<(ValueModel, ValueModel)>) -> Set<ValueModel>
    decreases pairs,
{
    if pairs.len() == 0 {
        Set::empty()
    } else {
        atoms_in_entries(pairs.drop_last()).union(eval_atoms(pairs.last().1))
    }
}

/// The keys that evaluating a value can bind: the keys of every mapping
/// node in evaluated position.
pub open spec fn binding_keys(v: ValueModel) -> Set<ValueModel>
    decreases v,
{
    match v {
        ValueModel::Sequence(items) => keys_in_items(items),
        ValueModel::Mapping(pairs) => keys_in_entries(pairs),
        _ => Set::empty(),
    }
}

/// The keys that evaluating an element list can bind.
pub open spec fn keys_in_items(items: Seq<ValueModel>) -> Set<ValueModel>
    decreases items,
{
    if items.len() == 0 {
        Set::empty()
    } else {
        keys_in_items(items.drop_last()).union(binding_keys(items.last()))
    }
}

/// The keys that evaluating an entry list can bind: the entries' own keys
/// and whatever their values can bind.
pub open spec fn keys_in_entries(pairs: Seq<(ValueModel, ValueModel)>) -> Set<ValueModel>
    decreases pairs,
{
    if pairs.len() == 0 {
        Set::empty()
    } else {
        keys_in_entries(pairs.drop_last()).union(binding_keys(pairs.last().1)).insert(
            pairs.last().0,
        )
    }
}

/// Merging pairs binds exactly the pairs' keys on top of what was bound.
proof fn lemma_insert_all_dom(e: EnvModel, ps: Seq<(ValueModel, ValueModel)>)
    ensures
        forall|x: ValueModel| insert_all(e, ps).dom().contains(x) <==> e.dom().contains(x)
            || exists|i: int| 0 <= i < ps.len() && ps[i].0 == x,
    decreases ps.len(),
{
    if ps.len() > 0 {
        lemma_insert_all_dom(e, ps.drop_last());
        assert forall|x: ValueModel| insert_all(e, ps).dom().contains(x) implies e
            .dom()
            .contains(x) || exists|i: int| 0 <= i < ps.len() && ps[i].0 == x by {
            if x == ps.last().0 {
                assert(ps[ps.len() - 1].0 == x);
            } else {
                if !e.dom().contains(x) {
                    let i = choose|i: int| 0 <= i < ps.drop_last().len()
                        && ps.drop_last()[i].0 == x;
                    assert(ps[i].0 == x);
                }
            }
        }
        assert forall|x: ValueModel|
            e.dom().contains(x) || exists|i: int| 0 <= i < ps.len() && ps[i].0 == x
            implies insert_all(e, ps).dom().contains(x) by {
            if !e.dom().contains(x) {
                let i = choose|i: int| 0 <= i < ps.len() && ps[i].0 == x;
                if i < ps.len() - 1 {
                    assert(ps.drop_last()[i].0 == x);
                }
            }
        }
    }
}

/// Each element's atoms and keys are among those of its element list.
proof fn lemma_items_member(items: Seq<ValueModel>, i: int)
    requires
        0 <= i < items.len(),
    ensures
        eval_atoms(items[i]).subset_of(atoms_in_items(items)),
        binding_keys(items[i]).subset_of(keys_in_items(items)),
    decreases items,
{
    if i < items.len() - 1 {
        lemma_items_member(items.drop_last(), i);
    }
}

/// Each entry's key, and its value's atoms and keys, are among those of
/// its entry list.
proof fn lemma_entries_member(pairs: Seq<(ValueModel, ValueModel)>, i: int)
    requires
        0 <= i < pairs.len(),
    ensures
        eval_atoms(pairs[i].1).subset_of(atoms_in_entries(pairs)),
        binding_keys(pairs[i].1).subset_of(keys_in_entries(pairs)),
        keys_in_entries(pairs).contains(pairs[i].0),
    decreases pairs,
{
    if i < pairs.len() - 1 {
        lemma_entries_member(pairs.drop_last(), i);
    }
}

/// Law: evaluation never removes a binding, and every binding it adds is
/// keyed by a mapping key of the evaluated value.
pub proof fn lemma_environment_growth(e0: EnvModel, v: ValueModel, e1: EnvModel, r: ValueModel)
    requires
        eval_spec(e0, v) == Some((e1, r)),
    ensures
        e0.dom().subset_of(e1.dom()),
        e1.dom().subset_of(e0.dom().union(binding_keys(v))),
    decreases v,
{
    match v {
        ValueModel::Sequence(items) => {
            lemma_items_growth(e0, items);
        },
        ValueModel::Mapping(pairs) => {
            lemma_entries_growth(e0, pairs);
            match entries_eval(e0, pairs) {
                Some(p) => {
                    lemma_insert_all_dom(p.0, p.1);
                    lemma_entries_shape(e0, pairs);
                    assert forall|x: ValueModel| e1.dom().contains(x)
                        implies e0.dom().union(binding_keys(v)).contains(x) by {
                        if !p.0.dom().contains(x) {
                            let i = choose|i: int| 0 <= i < p.1.len() && p.1[i].0 == x;
                            lemma_entries_member(pairs, i);
                            assert(pairs[i].0 == x);
                        }
                    }
                },
                None => {},
            }
        },
        _ => {},
    }
}

/// Environment growth across an element list.
proof fn lemma_items_growth(e0: EnvModel, items: Seq<ValueModel>)
    ensures
        match items_eval(e0, items) {
            Some(p) => e0.dom().subset_of(p.0.dom()) && p.0.dom().subset_of(
                e0.dom().union(keys_in_items(items)),
            ),
            None => true,
        },
    decreases items,
{
    if items.len() > 0 {
        lemma_items_growth(e0, items.drop_last());
        match items_eval(e0, items.drop_last()) {
            Some(p) => match eval_spec(p.0, items.last()) {
                Some(q) => {
                    lemma_environment_growth(p.0, items.last(), q.0, q.1);
                },
                None => {},
            },
            None => {},
        }
    }
}

/// Environment growth across an entry list.
proof fn lemma_entries_growth(e0: EnvModel, pairs: Seq<(ValueModel, ValueModel)>)
    ensures
        match entries_eval(e0, pairs) {
            Some(p) => e0.dom().subset_of(p.0.dom()) && p.0.dom().subset_of(
                e0.dom().union(keys_in_entries(pairs)),
            ),
            None => true,
        },
    decreases pairs,
{
    if pairs.len() > 0 {
        lemma_entries_growth(e0, pairs.drop_last());
        match entries_eval(e0, pairs.drop_last()) {
            Some(p) => match eval_spec(p.0, pairs.last().1) {
                Some(q) => {
                    lemma_environment_growth(p.0, pairs.last().1, q.0, q.1);
                },
                None => {},
            },
            None => {},
        }
    }
}

/// Law: evaluating a value whose dereferenced atoms are bound neither in
/// the starting environment nor by any mapping key inside the value is a
/// no-op: evaluation succeeds and returns the value unchanged.
pub proof fn lemma_identity_without_relevant_keys(e0: EnvModel, v: ValueModel)
    requires
        eval_atoms(v).disjoint(e0.dom()),
        eval_atoms(v).disjoint(binding_keys(v)),
    ensures
        match eval_spec(e0, v) {
            Some(p) => p.1 == v,
            None => false,
        },
{
    lemma_identity_rec(e0.dom().union(binding_keys(v)), e0, v);
}

/// Identity under a ceiling set `d` that contains every key that can
/// ever be bound while the value is evaluated, and no atom of the value.
proof fn lemma_identity_rec(d: Set<ValueModel>, e: EnvModel, v: ValueModel)
    requires
        e.dom().subset_of(d),
        binding_keys(v).subset_of(d),
        eval_atoms(v).disjoint(d),
    ensures
        match eval_spec(e, v) {
            Some(p) => p.1 == v,
            None => false,
        },
    decreases v,
{
    match v {
        ValueModel::Sequence(items) => {
            lemma_items_identity(d, e, items);
            match items_eval(e, items) {
                Some(p) => {
                    assert(p.1 =~= items);
                },
                None => {},
            }
        },
        ValueModel::Mapping(pairs) => {
            lemma_entries_identity(d, e, pairs);
            match entries_eval(e, pairs) {
                Some(p) => {
                    assert(p.1 =~= pairs);
                },
                None => {},
            }
        },
        _ => {
            assert(eval_atoms(v).contains(v));
            assert(!e.dom().contains(v));
            assert(chase_at(e, v, 0) == v);
            assert(resolvable(e, v));
            assert(resolves_to(e, v, v));
            assert(resolves_to(e, v, resolved(e, v)));
            lemma_resolves_to_unique(e, v, resolved(e, v), v);
        },
    }
}

/// Identity across an element list under a ceiling set.
proof fn lemma_items_identity(d: Set<ValueModel>, e: EnvModel, items: Seq<ValueModel>)
    requires
        e.dom().subset_of(d),
        keys_in_items(items).subset_of(d),
        atoms_in_items(items).disjoint(d),
    ensures
        match items_eval(e, items) {
            Some(p) => p.1.len() == items.len() && forall|i: int|
                0 <= i < items.len() ==> p.1[i] == items[i],
            None => false,
        },
    decreases items,
{
    if items.len() > 0 {
        lemma_items_identity(d, e, items.drop_last());
        match items_eval(e, items.drop_last()) {
            Some(p) => {
                lemma_items_growth(e, items.drop_last());
                lemma_items_member(items, items.len() - 1);
                lemma_identity_rec(d, p.0, items.last());
                match eval_spec(p.0, items.last()) {
                    Some(q) => {
                        assert forall|i: int| 0 <= i < items.len()
                            implies p.1.push(q.1)[i] == items[i] by {
                            if i < items.len() - 1 {
                                assert(items.drop_last()[i] == items[i]);
                                assert(p.1.push(q.1)[i] == p.1[i]);
                            } else {
                                assert(p.1.push(q.1)[i] == q.1);
                            }
                        }
                    },
                    None => {},
                }
            },
            None => {},
        }
    }
}

/// Identity across an entry list under a ceiling set.
proof fn lemma_entries_identity(
    d: Set<ValueModel>,
    e: EnvModel,
    pairs: Seq<(ValueModel, ValueModel)>,
)
    requires
        e.dom().subset_of(d),
        keys_in_entries(pairs).subset_of(d),
        atoms_in_entries(pairs).disjoint(d),
    ensures
        match entries_eval(e, pairs) {
            Some(p) => p.1.len() == pairs.len() && forall|i: int|
                0 <= i < pairs.len() ==> p.1[i] == pairs[i],
            None => false,
        },
    decreases pairs,
{
    if pairs.len() > 0 {
        lemma_entries_identity(d, e, pairs.drop_last());
        match entries_eval(e, pairs.drop_last()) {
            Some(p) => {
                lemma_entries_growth(e, pairs.drop_last());
                lemma_entries_member(pairs, pairs.len() - 1);
                lemma_identity_rec(d, p.0, pairs.last().1);
                match eval_spec(p.0, pairs.last().1) {
                    Some(q) => {
                        let rp = p.1.push((pairs.last().0, q.1));
                        assert forall|i: int| 0 <= i < pairs.len()
                            implies rp[i] == pairs[i] by {
                            if i < pairs.len() - 1 {
                                assert(pairs.drop_last()[i] == pairs[i]);
                                assert(rp[i] == p.1[i]);
                            } else {
                                assert(rp[i] == (pairs.last().0, q.1));
                                assert((pairs.last().0, pairs.last().1) == pairs.last());
                            }
                        }
                    },
                    None => {},
                }
            },
            None => {},
        }
    }
}

} // verus!

