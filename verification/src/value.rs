//! The document value type and its mathematical model.

use vstd::prelude::*;

verus! {

/// A structured document value: an atom (null, boolean, number, or text),
/// an ordered sequence of values, or an ordered mapping of key/value
/// pairs.  Atoms are the only values that act as lookup keys during
/// resolution; sequences and mappings give the document its shape.
#[derive(Debug, PartialEq, Eq)]
pub enum Value {
    Null,
    Bool(bool),
    Number(i64),
    Text(String),
    Sequence(Vec<Value>),
    Mapping(Vec<(Value, Value)>),
}

/// The mathematical counterpart of [`Value`]: the same tree with
/// unbounded integers and ghost sequences in place of machine integers
/// and vectors.  All contracts of this crate are stated over this type.
#[verifier::ext_equal]
pub enum ValueModel {
    Null,
    Bool(bool),
    Number(int),
    Text(Seq<char>),
    Sequence(Seq<ValueModel>),
    Mapping(Seq<(ValueModel, ValueModel)>),
}

/// A value is an atom when it is neither a sequence nor a mapping.
pub open spec fn is_atom(v: ValueModel) -> bool {
    !(v is Sequence) && !(v is Mapping)
}

/// The model of a single value.
pub open spec fn value_model(v: Value) -> ValueModel
    decreases v,
{
    match v {
        Value::Null => ValueModel::Null,
        Value::Bool(b) => ValueModel::Bool(b),
        Value::Number(n) => ValueModel::Number(n as int),
        Value::Text(s) => ValueModel::Text(s@),
        Value::Sequence(items) => ValueModel::Sequence(seq_model(items@)),
        Value::Mapping(pairs) => ValueModel::Mapping(pairs_model(pairs@)),
    }
}

/// The models of the elements of a sequence, in order.
pub open spec fn seq_model(s: Seq<Value>) -> Seq<ValueModel>
    decreases s,
{
    if s.len() == 0 {
        Seq::empty()
    } else {
        seq_model(s.drop_last()).push(value_model(s.last()))
    }
}

/// The models of the entries of a mapping, in order.
pub open spec fn pairs_model(s: Seq<(Value, Value)>) -> Seq<(ValueModel, ValueModel)>
    decreases s,
{
    if s.len() == 0 {
        Seq::empty()
    } else {
        pairs_model(s.drop_last()).push(
            (value_model(s.last().0), value_model(s.last().1)),
        )
    }
}

impl View for Value {
    type V = ValueModel;

    open spec fn view(&self) -> ValueModel {
        value_model(*self)
    }
}

/// `seq_model` maps the elements one by one.
pub proof fn lemma_seq_model(s: Seq<Value>)
    ensures
        seq_model(s).len() == s.len(),
        forall|i: int| 0 <= i < s.len() ==> seq_model(s)[i] == value_model(s[i]),
    decreases s.len(),
{
    if s.len() > 0 {
        lemma_seq_model(s.drop_last());
    }
}

/// `pairs_model` maps the entries one by one.
pub proof fn lemma_pairs_model(s: Seq<(Value, Value)>)
    ensures
        pairs_model(s).len() == s.len(),
        forall|i: int| 0 <= i < s.len() ==> pairs_model(s)[i]
            == (value_model(s[i].0), value_model(s[i].1)),
    decreases s.len(),
{
    if s.len() > 0 {
        lemma_pairs_model(s.drop_last());
    }
}

impl Clone for Value {
    /// A clone has the same model as the original.
    #[verifier::loop_isolation(false)]
    fn clone(&self) -> (res: Self)
        ensures
            res@ == self@,
        decreases self,
    {
        match self {
            Value::Null => Value::Null,
            Value::Bool(b) => Value::Bool(*b),
            Value::Number(n) => Value::Number(*n),
            Value::Text(s) => Value::Text(s.clone()),
            Value::Sequence(items) => {
                let mut out: Vec<Value> = Vec::new();
                let mut i: usize = 0;
                while i < items.len()
                    invariant
                        i <= items@.len(),
                        out@.len() == i as int,
                        forall|j: int| 0 <= j < i ==> out@[j]@ == items@[j]@,
                    decreases items@.len() - i,
                {
                    out.push(items[i].clone());
                    i = i + 1;
                }
                proof {
                    lemma_seq_model(items@);
                    lemma_seq_model(out@);
                    assert(seq_model(out@) =~= seq_model(items@));
                }
                Value::Sequence(out)
            }
            Value::Mapping(pairs) => {
                let mut out: Vec<(Value, Value)> = Vec::new();
                let mut i: usize = 0;
                while i < pairs.len()
                    invariant
                        i <= pairs@.len(),
                        out@.len() == i as int,
                        forall|j: int| 0 <= j < i ==> out@[j].0@ == pairs@[j].0@
                            && out@[j].1@ == pairs@[j].1@,
                    decreases pairs@.len() - i,
                {
                    let k = pairs[i].0.clone();
                    let v = pairs[i].1.clone();
                    out.push((k, v));
                    i = i + 1;
                }
                proof {
                    lemma_pairs_model(pairs@);
                    lemma_pairs_model(out@);
                    assert(pairs_model(out@) =~= pairs_model(pairs@));
                }
                Value::Mapping(out)
            }
        }
    }
}

/// Structural equality of two values, decided by walking both trees.
#[verifier::loop_isolation(false)]
pub fn value_eq(a: &Value, b: &Value) -> (res: bool)
    ensures
        res == (a@ == b@),
    decreases a,
{
    match (a, b) {
        (Value::Null, Value::Null) => true,
        (Value::Bool(x), Value::Bool(y)) => *x == *y,
        (Value::Number(x), Value::Number(y)) => *x == *y,
        (Value::Text(x), Value::Text(y)) => *x == *y,
        (Value::Sequence(xs), Value::Sequence(ys)) => {
            proof {
                lemma_seq_model(xs@);
                lemma_seq_model(ys@);
            }
            if xs.len() != ys.len() {
                return false;
            }
            let mut i: usize = 0;
            while i < xs.len()
                invariant
                    i <= xs@.len(),
                    forall|j: int| 0 <= j < i ==> value_model(xs@[j]) == value_model(ys@[j]),
                decreases xs@.len() - i,
            {
                if !value_eq(&xs[i], &ys[i]) {
                    assert(seq_model(xs@)[i as int] != seq_model(ys@)[i as int]);
                    return false;
                }
                i = i + 1;
            }
            proof {
                assert(seq_model(xs@) =~= seq_model(ys@));
            }
            true
        }
        (Value::Mapping(xs), Value::Mapping(ys)) => {
            proof {
                lemma_pairs_model(xs@);
                lemma_pairs_model(ys@);
            }
            if xs.len() != ys.len() {
                return false;
            }
            let mut i: usize = 0;
            while i < xs.len()
                invariant
                    i <= xs@.len(),
                    forall|j: int| 0 <= j < i ==> value_model(xs@[j].0) == value_model(ys@[j].0)
                        && value_model(xs@[j].1) == value_model(ys@[j].1),
                decreases xs@.len() - i,
            {
                if !value_eq(&xs[i].0, &ys[i].0) {
                    assert(pairs_model(xs@)[i as int] != pairs_model(ys@)[i as int]);
                    return false;
                }
                if !value_eq(&xs[i].1, &ys[i].1) {
                    assert(pairs_model(xs@)[i as int] != pairs_model(ys@)[i as int]);
                    return false;
                }
                i = i + 1;
            }
            proof {
                assert(pairs_model(xs@) =~= pairs_model(ys@));
            }
            true
        }
        _ => false,
    }
}

} // verus!
