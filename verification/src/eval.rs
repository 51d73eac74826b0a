//! The resolver: evaluate a value against an accumulating environment.

use vstd::prelude::*;

use crate::chase::chase_at;
use crate::chase::lemma_resolves_to_unique;
use crate::chase::resolvable;
use crate::chase::resolve;
use crate::chase::resolves_to;
use crate::env::Env;
use crate::env::EnvModel;
use crate::value::lemma_pairs_model;
use crate::value::lemma_seq_model;
use crate::value::pairs_model;
use crate::value::seq_model;
use crate::value::value_model;
use crate::value::Value;
use crate::value::ValueModel;

verus! {

/// The one failure of evaluation.
#[derive(Clone, Copy, Debug, PartialEq, Eq)]
pub enum EvalError {
    /// A chain of bindings loops back on itself, so following it would
    /// never reach an unbound value.
    CyclicReference,
}

/// The value an atom dereferences to.  Meaningful only when the atom is
/// resolvable; chain resolution reaches exactly one unbound value.
pub open spec fn resolved(e: EnvModel, v: ValueModel) -> ValueModel {
    choose|r: ValueModel| resolves_to(e, v, r)
}

/// Insert the given pairs into a binding table, in order, later pairs
/// overwriting earlier ones with the same key.
pub open spec fn insert_all(e: EnvModel, ps: Seq<(ValueModel, ValueModel)>) -> EnvModel
    decreases ps.len(),
{
    if ps.len() == 0 {
        e
    } else {
        insert_all(e, ps.drop_last()).insert(ps.last().0, ps.last().1)
    }
}

/// What evaluating `v` in environment `e0` produces: the final
/// environment and the evaluated value, or `None` when evaluation runs
/// into a cyclic binding chain.
///
/// An atom is dereferenced through the environment, which is left
/// untouched.  A sequence evaluates its elements left to right against
/// the threaded environment.  A mapping first evaluates every entry value
/// (keys are copied verbatim) and only then merges all of its resolved
/// entries into the environment, so sibling entries never see each
/// other's new bindings.
pub open spec fn eval_spec(e0: EnvModel, v: ValueModel) -> Option<(EnvModel, ValueModel)>
    decreases v,
{
    match v {
        ValueModel::Sequence(items) => match items_eval(e0, items) {
            Some(p) => Some((p.0, ValueModel::Sequence(p.1))),
            None => None,
        },
        ValueModel::Mapping(pairs) => match entries_eval(e0, pairs) {
            Some(p) => Some((insert_all(p.0, p.1), ValueModel::Mapping(p.1))),
            None => None,
        },
        _ => if resolvable(e0, v) {
            Some((e0, resolved(e0, v)))
        } else {
            None
        },
    }
}

/// Evaluate the elements of a sequence left to right, threading the
/// environment through; a cyclic chain in any element fails the whole
/// sequence.
pub open spec fn items_eval(e0: EnvModel, items: Seq<ValueModel>) -> Option<
    (EnvModel, Seq<ValueModel>),
>
    decreases items,
{
    if items.len() == 0 {
        Some((e0, Seq::empty()))
    } else {
        match items_eval(e0, items.drop_last()) {
            Some(p) => match eval_spec(p.0, items.last()) {
                Some(q) => Some((q.0, p.1.push(q.1))),
                None => None,
            },
            None => None,
        }
    }
}

/// Evaluate the entry values of one mapping left to right, threading the
/// environment through and copying keys verbatim; nothing is merged yet.
pub open spec fn entries_eval(e0: EnvModel, pairs: Seq<(ValueModel, ValueModel)>) -> Option<
    (EnvModel, Seq<(ValueModel, ValueModel)>),
>
    decreases pairs,
{
    if pairs.len() == 0 {
        Some((e0, Seq::empty()))
    } else {
        match entries_eval(e0, pairs.drop_last()) {
            Some(p) => match eval_spec(p.0, pairs.last().1) {
                Some(q) => Some((q.0, p.1.push((pairs.last().0, q.1)))),
                None => None,
            },
            None => None,
        }
    }
}

/// A failing prefix fails every longer prefix of the same sequence.
proof fn lemma_items_fail_extend(e0: EnvModel, items: Seq<ValueModel>, k: int)
    requires
        0 <= k <= items.len(),
        items_eval(e0, items.take(k)) is None,
    ensures
        items_eval(e0, items) is None,
    decreases items.len() - k,
{
    if k == items.len() {
        assert(items.take(k) =~= items);
    } else {
        assert(items.take(k + 1).drop_last() =~= items.take(k));
        lemma_items_fail_extend(e0, items, k + 1);
    }
}

/// A failing prefix fails every longer prefix of the same entry list.
proof fn lemma_entries_fail_extend(e0: EnvModel, pairs: Seq<(ValueModel, ValueModel)>, k: int)
    requires
        0 <= k <= pairs.len(),
        entries_eval(e0, pairs.take(k)) is None,
    ensures
        entries_eval(e0, pairs) is None,
    decreases pairs.len() - k,
{
    if k == pairs.len() {
        assert(pairs.take(k) =~= pairs);
    } else {
        assert(pairs.take(k + 1).drop_last() =~= pairs.take(k));
        lemma_entries_fail_extend(e0, pairs, k + 1);
    }
}

/// Evaluate `v` against `env`, extending `env` in place.
///
/// Atoms are dereferenced through the environment until a value with no
/// binding is reached.  Sequences evaluate their elements in order, each
/// seeing the bindings added by its predecessors.  A mapping evaluates
/// all of its entry values against the environment as it stood when the
/// mapping was reached, then merges its resolved entries into the
/// environment and returns the resolved mapping.  A cyclic binding chain
/// is reported as [`EvalError::CyclicReference`].
#[verifier::loop_isolation(false)]
pub fn eval(env: &mut Env, v: &Value) -> (res: Result<Value, EvalError>)
    ensures
        match res {
            Ok(r) => eval_spec(old(env)@, v@) == Some((final(env)@, r@)),
            Err(err) => eval_spec(old(env)@, v@) is None
                && err == EvalError::CyclicReference,
        },
        old(env)@.dom().subset_of(final(env)@.dom()),
    decreases v,
{
    match v {
        Value::Sequence(items) => {
            let ghost e0 = env@;
            proof {
                lemma_seq_model(items@);
            }
            let mut out: Vec<Value> = Vec::new();
            let mut i: usize = 0;
            while i < items.len()
                invariant
                    i <= items@.len(),
                    out@.len() == i as int,
                    items_eval(e0, seq_model(items@).take(i as int))
                        == Some((env@, seq_model(out@))),
                    e0.dom().subset_of(env@.dom()),
                decreases items@.len() - i,
            {
                let ghost old_out = out@;
                match eval(env, &items[i]) {
                    Ok(r) => {
                        out.push(r);
                        i = i + 1;
                        proof {
                            let t = seq_model(items@).take(i as int);
                            assert(t.drop_last() =~= seq_model(items@).take(i as int - 1));
                            assert(t.last() == value_model(items@[i as int - 1]));
                            assert(out@.drop_last() =~= old_out);
                            assert(seq_model(out@) =~= seq_model(old_out).push(out@.last()@));
                        }
                    },
                    Err(err) => {
                        proof {
                            let t = seq_model(items@).take(i as int + 1);
                            assert(t.drop_last() =~= seq_model(items@).take(i as int));
                            assert(t.last() == value_model(items@[i as int]));
                            lemma_items_fail_extend(e0, seq_model(items@), i as int + 1);
                        }
                        return Err(err);
                    },
                }
            }
            proof {
                assert(seq_model(items@).take(items@.len() as int) =~= seq_model(items@));
            }
            Ok(Value::Sequence(out))
        },
        Value::Mapping(pairs) => {
            let ghost e0 = env@;
            proof {
                lemma_pairs_model(pairs@);
            }
            let mut out: Vec<(Value, Value)> = Vec::new();
            let mut i: usize = 0;
            while i < pairs.len()
                invariant
                    i <= pairs@.len(),
                    out@.len() == i as int,
                    entries_eval(e0, pairs_model(pairs@).take(i as int))
                        == Some((env@, pairs_model(out@))),
                    e0.dom().subset_of(env@.dom()),
                decreases pairs@.len() - i,
            {
                let ghost old_out = out@;
                let k = pairs[i].0.clone();
                match eval(env, &pairs[i].1) {
                    Ok(r) => {
                        out.push((k, r));
                        i = i + 1;
                        proof {
                            let t = pairs_model(pairs@).take(i as int);
                            assert(t.drop_last() =~= pairs_model(pairs@).take(i as int - 1));
                            assert(t.last() == (value_model(pairs@[i as int - 1].0),
                                value_model(pairs@[i as int - 1].1)));
                            assert(out@.drop_last() =~= old_out);
                            assert(pairs_model(out@) =~= pairs_model(old_out).push(
                                (out@.last().0@, out@.last().1@)));
                        }
                    },
                    Err(err) => {
                        proof {
                            let t = pairs_model(pairs@).take(i as int + 1);
                            assert(t.drop_last() =~= pairs_model(pairs@).take(i as int));
                            assert(t.last() == (value_model(pairs@[i as int].0),
                                value_model(pairs@[i as int].1)));
                            lemma_entries_fail_extend(e0, pairs_model(pairs@), i as int + 1);
                        }
                        return Err(err);
                    },
                }
            }
            let ghost em = env@;
            proof {
                lemma_pairs_model(out@);
                assert(pairs_model(pairs@).take(pairs@.len() as int) =~= pairs_model(pairs@));
            }
            let mut j: usize = 0;
            while j < out.len()
                invariant
                    j <= out@.len(),
                    env@ == insert_all(em, pairs_model(out@).take(j as int)),
                    e0.dom().subset_of(env@.dom()),
                decreases out@.len() - j,
            {
                let k2 = out[j].0.clone();
                let v2 = out[j].1.clone();
                env.insert(k2, v2);
                j = j + 1;
                proof {
                    let t = pairs_model(out@).take(j as int);
                    assert(t.drop_last() =~= pairs_model(out@).take(j as int - 1));
                    assert(t.last() == (value_model(out@[j as int - 1].0),
                        value_model(out@[j as int - 1].1)));
                }
            }
            proof {
                assert(pairs_model(out@).take(out@.len() as int) =~= pairs_model(out@));
            }
            Ok(Value::Mapping(out))
        },
        _ => {
            match resolve(env, v) {
                Some(r) => {
                    proof {
                        assert(resolvable(env@, v@)) by {
                            let n = choose|n: nat| chase_at(env@, v@, n) == r@;
                            assert(!env@.dom().contains(chase_at(env@, v@, n)));
                        }
                        assert(resolves_to(env@, v@, resolved(env@, v@))) by {
                            let n = choose|n: nat| !env@.dom().contains(chase_at(env@, v@, n));
                            assert(resolves_to(env@, v@, chase_at(env@, v@, n)));
                        }
                        lemma_resolves_to_unique(env@, v@, resolved(env@, v@), r@);
                    }
                    Ok(r)
                },
                None => Err(EvalError::CyclicReference),
            }
        },
    }
}

} // verus!
