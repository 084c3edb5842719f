use petal::observe::{ContextKey, Observations};
use petal::program::TermId;
use petal::value::Value;

#[test]
fn recording_is_off_until_enabled() {
    let mut o = Observations::new();
    o.record(TermId(1), Value::Int(1));
    assert!(o.is_empty());
    o.enable();
    o.record(TermId(1), Value::Int(1));
    o.record(TermId(2), Value::Int(2));
    o.record(TermId(1), Value::Int(3));
    assert_eq!(o.len(), 2);
    assert_eq!(o.get(TermId(1)), Some(Value::Int(3)));
    assert_eq!(o.iter(), vec![(TermId(1), Value::Int(3)), (TermId(2), Value::Int(2))]);
    o.disable();
    o.record(TermId(3), Value::Nil);
    assert_eq!(o.get(TermId(3)), None);
}

#[test]
fn moving_to_another_context_clears() {
    let mut o = Observations::new();
    o.enable();
    o.enter_context(ContextKey(1));
    o.record(TermId(1), Value::Bool(true));
    o.enter_context(ContextKey(1));
    assert_eq!(o.len(), 1);
    o.enter_context(ContextKey(2));
    assert!(o.is_empty());
    assert_eq!(o.context(), Some(ContextKey(2)));
    o.record(TermId(1), Value::Bool(true));
    o.start_run(ContextKey(2));
    assert!(o.is_empty());
    o.clear();
    assert_eq!(o.context(), None);
}
