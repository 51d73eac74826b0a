//! Tests of the resolver against concrete documents.

use refsolve::eval;
use refsolve::Env;
use refsolve::EvalError;
use refsolve::Value;

fn text(s: &str) -> Value {
    Value::Text(s.to_string())
}

#[test]
fn atoms() {
    assert_eq!(eval(&mut Env::new(), &Value::Null), Ok(Value::Null));
    assert_eq!(eval(&mut Env::new(), &Value::Bool(true)), Ok(Value::Bool(true)));
    assert_eq!(eval(&mut Env::new(), &Value::Number(3)), Ok(Value::Number(3)));
    assert_eq!(eval(&mut Env::new(), &text("foo")), Ok(text("foo")));
}

#[test]
fn invariance_in_empty_env() {
    assert_eq!(
        eval(&mut Env::new(), &Value::Sequence(vec![text("foo")])),
        Ok(Value::Sequence(vec![text("foo")]))
    );
}

#[test]
fn reading_from_environment() {
    let mut env = Env::new();
    env.insert(text("foo"), text("bar"));
    assert_eq!(
        eval(&mut env, &Value::Sequence(vec![text("foo")])),
        Ok(Value::Sequence(vec![text("bar")]))
    );
}

#[test]
fn reading_from_previous_statements() {
    let program = Value::Mapping(vec![
        (text("foo"), text("bar")),
        (text("bar"), text("baz")),
    ]);

    assert_eq!(
        eval(
            &mut Env::new(),
            &Value::Sequence(vec![program.clone(), text("foo")])
        ),
        Ok(Value::Sequence(vec![program, text("baz")]))
    );
}

#[test]
fn merging_programs() {
    let program1 = Value::Mapping(vec![(text("foo"), text("bar"))]);
    let program2 = Value::Mapping(vec![(text("bar"), text("baz"))]);

    assert_eq!(
        eval(
            &mut Env::new(),
            &Value::Sequence(vec![program1.clone(), program2.clone(), text("foo")])
        ),
        Ok(Value::Sequence(vec![program1, program2, text("baz")]))
    );
}

#[test]
fn no_self_reference_leak() {
    // Within one mapping, siblings never see each other's new bindings:
    // both values come out unchanged.
    let program = Value::Mapping(vec![(text("a"), text("b")), (text("b"), text("a"))]);
    let mut env = Env::new();
    assert_eq!(eval(&mut env, &program), Ok(program));

    // Afterwards the environment holds a -> b and b -> a, a genuine cycle.
    assert_eq!(eval(&mut env, &text("a")), Err(EvalError::CyclicReference));
}

#[test]
fn direct_cycle_is_reported() {
    let mut env = Env::new();
    env.insert(text("a"), text("a"));
    assert_eq!(eval(&mut env, &text("a")), Err(EvalError::CyclicReference));
    // A value that never touches the cycle still evaluates.
    assert_eq!(eval(&mut env, &text("b")), Ok(text("b")));
}

#[test]
fn cycle_inside_a_sequence_is_reported() {
    let mut env = Env::new();
    env.insert(text("x"), text("y"));
    env.insert(text("y"), text("x"));
    let doc = Value::Sequence(vec![text("ok"), text("x")]);
    assert_eq!(eval(&mut env, &doc), Err(EvalError::CyclicReference));
}

#[test]
fn shape_is_preserved() {
    let mut env = Env::new();
    env.insert(text("x"), text("y"));
    let doc = Value::Sequence(vec![
        Value::Sequence(vec![text("x")]),
        Value::Mapping(vec![(text("k"), text("x"))]),
        text("x"),
    ]);
    let expected = Value::Sequence(vec![
        Value::Sequence(vec![text("y")]),
        Value::Mapping(vec![(text("k"), text("y"))]),
        text("y"),
    ]);
    assert_eq!(eval(&mut env, &doc), Ok(expected));
}

#[test]
fn idempotence_with_irrelevant_bindings() {
    let mut env = Env::new();
    env.insert(text("q"), text("r"));
    let doc = Value::Sequence(vec![
        text("foo"),
        Value::Mapping(vec![(text("a"), text("b"))]),
        Value::Number(5),
    ]);
    assert_eq!(eval(&mut env, &doc), Ok(doc.clone()));
}

#[test]
fn mapping_overwrites_existing_binding() {
    let mut env = Env::new();
    env.insert(text("foo"), text("bar"));
    let program = Value::Mapping(vec![(text("foo"), text("baz"))]);
    assert_eq!(eval(&mut env, &program), Ok(program));
    assert_eq!(eval(&mut env, &text("foo")), Ok(text("baz")));
}

#[test]
fn non_text_atoms_as_keys() {
    let mut env = Env::new();
    env.insert(Value::Number(1), text("one"));
    env.insert(Value::Bool(true), Value::Null);
    assert_eq!(eval(&mut env, &Value::Number(1)), Ok(text("one")));
    assert_eq!(eval(&mut env, &Value::Bool(true)), Ok(Value::Null));
    assert_eq!(eval(&mut env, &Value::Number(2)), Ok(Value::Number(2)));
}

#[test]
fn binding_to_structured_value() {
    // Chain resolution stops at the first value with no binding, even a
    // sequence or mapping handed back as a bound value.
    let mut env = Env::new();
    env.insert(
        text("foo"),
        Value::Sequence(vec![Value::Number(1), Value::Number(2)]),
    );
    assert_eq!(
        eval(&mut env, &text("foo")),
        Ok(Value::Sequence(vec![Value::Number(1), Value::Number(2)]))
    );
}

#[test]
fn mapping_stores_resolved_values() {
    let mut env = Env::new();
    env.insert(text("foo"), text("bar"));
    let program = Value::Mapping(vec![(text("x"), text("foo"))]);
    assert_eq!(
        eval(&mut env, &program),
        Ok(Value::Mapping(vec![(text("x"), text("bar"))]))
    );
    // The binding merged into the environment is the resolved one.
    assert_eq!(eval(&mut env, &text("x")), Ok(text("bar")));
}

#[test]
fn transitive_chain_through_numbers() {
    let mut env = Env::new();
    env.insert(Value::Number(1), Value::Number(2));
    env.insert(Value::Number(2), Value::Number(3));
    assert_eq!(eval(&mut env, &Value::Number(1)), Ok(Value::Number(3)));
}
