//! The environment: one flat, mutable table of bindings.

use vstd::prelude::*;

use crate::value::value_eq;
use crate::value::Value;
use crate::value::ValueModel;

verus! {

/// The model of an environment: a mathematical map from values to values.
pub type EnvModel = Map<ValueModel, ValueModel>;

/// The binding table built up by an entry list where later entries win.
pub open spec fn map_of(s: Seq<(Value, Value)>) -> Map<ValueModel, ValueModel>
    decreases s.len(),
{
    if s.len() == 0 {
        Map::empty()
    } else {
        map_of(s.drop_last()).insert(s.last().0@, s.last().1@)
    }
}

/// The accumulating symbol table of one evaluation: a single flat mapping
/// from values (compared structurally) to values.  It is extended in
/// place as mappings are evaluated and is never rolled back.
pub struct Env {
    entries: Vec<(Value, Value)>,
}

impl View for Env {
    type V = Map<ValueModel, ValueModel>;

    closed spec fn view(&self) -> Map<ValueModel, ValueModel> {
        map_of(self.entries@)
    }
}

/// The key set of an entry list is finite and no larger than the list.
proof fn lemma_map_of_dom(s: Seq<(Value, Value)>)
    ensures
        map_of(s).dom().finite(),
        map_of(s).dom().len() <= s.len(),
    decreases s.len(),
{
    if s.len() > 0 {
        lemma_map_of_dom(s.drop_last());
        assert(map_of(s).dom() =~= map_of(s.drop_last()).dom().insert(s.last().0@));
    }
}

/// A key's binding is the one of its last matching entry.
proof fn lemma_map_of_last_match(s: Seq<(Value, Value)>, i: int, k: ValueModel)
    requires
        0 <= i < s.len(),
        s[i].0@ == k,
        forall|j: int| i < j < s.len() ==> s[j].0@ != k,
    ensures
        map_of(s).dom().contains(k),
        map_of(s)[k] == s[i].1@,
    decreases s.len(),
{
    if i < s.len() - 1 {
        lemma_map_of_last_match(s.drop_last(), i, k);
    }
}

/// A key with no matching entry is unbound.
proof fn lemma_map_of_no_match(s: Seq<(Value, Value)>, k: ValueModel)
    requires
        forall|j: int| 0 <= j < s.len() ==> s[j].0@ != k,
    ensures
        !map_of(s).dom().contains(k),
    decreases s.len(),
{
    if s.len() > 0 {
        lemma_map_of_no_match(s.drop_last(), k);
    }
}

impl Env {
    /// An environment with no bindings.
    pub fn new() -> (res: Env)
        ensures
            res@ == Map::<ValueModel, ValueModel>::empty(),
    {
        let res = Env { entries: Vec::new() };
        proof {
            assert(res@ =~= Map::<ValueModel, ValueModel>::empty());
        }
        res
    }

    /// Bind `key` to `val`, overwriting any existing binding for `key`.
    pub fn insert(&mut self, key: Value, val: Value)
        ensures
            final(self)@ == old(self)@.insert(key@, val@),
    {
        let ghost before = self.entries@;
        let ghost k = key@;
        let ghost v = val@;
        self.entries.push((key, val));
        proof {
            assert(self.entries@.drop_last() =~= before);
            assert(self.entries@.last().0@ == k);
            assert(self.entries@.last().1@ == v);
        }
    }

    /// The number of entries, an upper bound on the number of bound keys.
    pub fn len(&self) -> (n: usize)
        ensures
            self@.dom().finite(),
            self@.dom().len() <= n,
    {
        proof {
            lemma_map_of_dom(self.entries@);
        }
        self.entries.len()
    }

    /// Look `key` up; the most recently inserted binding wins.
    #[verifier::loop_isolation(false)]
    pub fn lookup<'a>(&'a self, key: &Value) -> (res: Option<&'a Value>)
        ensures
            match res {
                Some(v) => self@.dom().contains(key@) && v@ == self@[key@],
                None => !self@.dom().contains(key@),
            },
    {
        let mut i: usize = self.entries.len();
        while i > 0
            invariant
                i <= self.entries@.len(),
                forall|j: int| i <= j < self.entries@.len() ==> self.entries@[j].0@ != key@,
            decreases i,
        {
            i = i - 1;
            if value_eq(&self.entries[i].0, key) {
                proof {
                    lemma_map_of_last_match(self.entries@, i as int, key@);
                }
                return Some(&self.entries[i].1);
            }
        }
        proof {
            lemma_map_of_no_match(self.entries@, key@);
        }
        None
    }
}

} // verus!
