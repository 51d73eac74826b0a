//! Chain resolution: repeatedly substitute a value by its binding until
//! no binding exists, detecting chains that loop back on themselves.

use vstd::assert_by_contradiction;
use vstd::prelude::*;

use crate::env::Env;
use crate::env::EnvModel;
use crate::value::Value;
use crate::value::ValueModel;

verus! {

/// One resolution step: a bound value is replaced by its binding, an
/// unbound one stays put.
pub open spec fn chase_step(e: EnvModel, v: ValueModel) -> ValueModel {
    if e.dom().contains(v) {
        e[v]
    } else {
        v
    }
}

/// The value reached after `n` resolution steps from `v`.
pub open spec fn chase_at(e: EnvModel, v: ValueModel, n: nat) -> ValueModel
    decreases n,
{
    if n == 0 {
        v
    } else {
        chase_step(e, chase_at(e, v, (n - 1) as nat))
    }
}

/// `v` dereferences to `r`: some number of steps reaches `r`, and `r`
/// itself has no binding.
pub open spec fn resolves_to(e: EnvModel, v: ValueModel, r: ValueModel) -> bool {
    &&& !e.dom().contains(r)
    &&& exists|n: nat| chase_at(e, v, n) == r
}

/// The chain starting at `v` reaches an unbound value at all.  When this
/// fails, the chain is cyclic: following it would never end.
pub open spec fn resolvable(e: EnvModel, v: ValueModel) -> bool {
    exists|n: nat| !e.dom().contains(chase_at(e, v, n))
}

/// Once the chase reaches an unbound value it stays there.
proof fn lemma_chase_stuck(e: EnvModel, v: ValueModel, n: nat, m: nat)
    requires
        !e.dom().contains(chase_at(e, v, n)),
        n <= m,
    ensures
        chase_at(e, v, m) == chase_at(e, v, n),
    decreases m,
{
    if n < m {
        lemma_chase_stuck(e, v, n, (m - 1) as nat);
    }
}

/// A value dereferences to at most one result.
pub proof fn lemma_resolves_to_unique(e: EnvModel, v: ValueModel, r1: ValueModel, r2: ValueModel)
    requires
        resolves_to(e, v, r1),
        resolves_to(e, v, r2),
    ensures
        r1 == r2,
{
    let n1 = choose|n: nat| chase_at(e, v, n) == r1;
    let n2 = choose|n: nat| chase_at(e, v, n) == r2;
    if n1 <= n2 {
        lemma_chase_stuck(e, v, n1, n2);
    } else {
        lemma_chase_stuck(e, v, n2, n1);
    }
}

/// Chains that meet once run together from there on.
proof fn lemma_chase_periodic(e: EnvModel, v: ValueModel, i: nat, j: nat, t: nat)
    requires
        chase_at(e, v, i) == chase_at(e, v, j),
    ensures
        chase_at(e, v, i + t) == chase_at(e, v, j + t),
    decreases t,
{
    if t > 0 {
        lemma_chase_periodic(e, v, i, j, (t - 1) as nat);
    }
}

/// A chain that revisits a value while every value seen so far is bound
/// stays among bound values forever.
proof fn lemma_chase_trapped(e: EnvModel, v: ValueModel, i: nat, j: nat, n: nat)
    requires
        i < j,
        chase_at(e, v, i) == chase_at(e, v, j),
        forall|k: nat| k < j ==> e.dom().contains(chase_at(e, v, k)),
    ensures
        e.dom().contains(chase_at(e, v, n)),
    decreases n,
{
    if n >= j {
        let t = (n - j) as nat;
        lemma_chase_periodic(e, v, i, j, t);
        lemma_chase_trapped(e, v, i, j, i + t);
    }
}

/// Pigeonhole: a chain whose first `bound + 1` values are all bound in a
/// table of at most `bound` keys must revisit one of them.
proof fn lemma_chase_revisits(e: EnvModel, v: ValueModel, bound: nat)
    requires
        e.dom().finite(),
        e.dom().len() <= bound,
        forall|k: nat| k <= bound ==> e.dom().contains(chase_at(e, v, k)),
    ensures
        exists|i: nat, j: nat| i < j <= bound && chase_at(e, v, i) == chase_at(e, v, j),
{
    let points = Seq::new(bound + 1, |k: int| chase_at(e, v, k as nat));
    assert_by_contradiction!(
        exists|i: nat, j: nat| i < j <= bound && chase_at(e, v, i) == chase_at(e, v, j),
        {
            assert forall|p: int, q: int|
                0 <= p < points.len() && 0 <= q < points.len() && p != q
                implies points[p] != points[q] by {
                if points[p] == points[q] {
                    if p < q {
                        assert((p as nat) < (q as nat) && (q as nat) <= bound
                            && chase_at(e, v, p as nat) == chase_at(e, v, q as nat));
                    } else {
                        assert((q as nat) < (p as nat) && (p as nat) <= bound
                            && chase_at(e, v, q as nat) == chase_at(e, v, p as nat));
                    }
                }
            }
            assert(points.no_duplicates());
            points.unique_seq_to_set();
            assert forall|a: ValueModel| points.to_set().contains(a)
                implies e.dom().contains(a) by {
                let p = choose|p: int| 0 <= p < points.len() && points[p] == a;
                assert(e.dom().contains(chase_at(e, v, p as nat)));
            }
            vstd::set_lib::lemma_len_subset(points.to_set(), e.dom());
        }
    );
}

/// Follow `start`'s chain of bindings until a value with no binding is
/// reached, returning that value; report a cyclic chain as `None`.  At
/// most `env.len()` successful lookups can happen before a value repeats,
/// so the walk is bounded.
pub fn resolve(env: &Env, start: &Value) -> (res: Option<Value>)
    ensures
        match res {
            Some(r) => resolves_to(env@, start@, r@),
            None => !resolvable(env@, start@),
        },
{
    let mut budget: usize = env.len();
    let ghost bound = budget as nat;
    let ghost mut steps: nat = 0;
    let mut cur: &Value = start;
    loop
        invariant
            cur@ == chase_at(env@, start@, steps),
            forall|k: nat| k < steps ==> env@.dom().contains(chase_at(env@, start@, k)),
            steps + budget == bound,
            env@.dom().finite(),
            env@.dom().len() <= bound,
        decreases budget,
    {
        match env.lookup(cur) {
            Some(next) => {
                if budget == 0 {
                    proof {
                        assert forall|k: nat| k <= bound
                            implies env@.dom().contains(chase_at(env@, start@, k)) by {
                            if k == bound {
                                assert(env@.dom().contains(cur@));
                            }
                        }
                        lemma_chase_revisits(env@, start@, bound);
                        let (i, j) = choose|i: nat, j: nat| i < j <= bound
                            && chase_at(env@, start@, i) == chase_at(env@, start@, j);
                        assert forall|n: nat|
                            env@.dom().contains(chase_at(env@, start@, n)) by {
                            lemma_chase_trapped(env@, start@, i, j, n);
                        }
                    }
                    return None;
                }
                proof {
                    assert(chase_at(env@, start@, steps + 1) == next@);
                    steps = steps + 1;
                }
                budget = budget - 1;
                cur = next;
            }
            None => {
                proof {
                    assert(chase_at(env@, start@, steps) == cur@);
                }
                return Some(cur.clone());
            }
        }
    }
}

} // verus!
