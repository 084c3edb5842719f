use petal::program::{ProgramId, StateKey};
use petal::stack::{PathPart, RuntimeStateKey, Stack, StackKey, StackStatus, StateTouches};
use petal::value::Value;

fn key(base: u64, path: &[PathPart]) -> RuntimeStateKey {
    RuntimeStateKey::new(StateKey(base), path.to_vec())
}

fn stack() -> Stack {
    Stack::new(StackKey(0), ProgramId(0))
}

#[test]
fn retained_touches_survive_the_sweep() {
    let (a, b) = (key(1, &[PathPart::Call(7)]), key(2, &[PathPart::Key(9)]));
    let mut s = stack();
    s.state.insert(a.clone(), Value::Int(1));
    s.state.insert(b.clone(), Value::Int(2));

    // Run 1: the section executes and touches both slots.
    s.start_run_tracking();
    let cap = s.begin_touch_capture();
    s.touch_state(&a);
    s.touch_state(&b);
    s.touch_state(&a);
    let touches = s.end_touch_capture(cap);
    assert_eq!(
        touches.iter().into_iter().cloned().collect::<Vec<_>>(),
        vec![a.clone(), b.clone()]
    );
    assert_eq!(s.sweep_untouched_state(), 0);

    // Run 2: the section is skipped and retains what it touched.
    s.start_run_tracking();
    s.retain_touches(&touches);
    assert_eq!(s.sweep_untouched_state(), 0);
    assert_eq!(s.state.len(), 2);

    // Run 3: skipped without retaining, so both slots go.
    s.start_run_tracking();
    assert_eq!(s.sweep_untouched_state(), 2);
}

#[test]
fn an_enclosing_capture_sees_nested_and_retained_touches() {
    let (outer, inner, skipped) = (key(1, &[]), key(2, &[]), key(3, &[]));
    let mut s = stack();
    s.start_run_tracking();

    let parent = s.begin_touch_capture();
    s.touch_state(&outer);
    let child = s.begin_touch_capture();
    s.touch_state(&inner);
    let child_touches = s.end_touch_capture(child);
    s.retain_touches(&StateTouches(vec![skipped.clone()]));
    let parent_touches = s.end_touch_capture(parent);

    assert_eq!(
        child_touches.iter().into_iter().cloned().collect::<Vec<_>>(),
        vec![inner.clone()]
    );
    assert_eq!(
        parent_touches.iter().into_iter().cloned().collect::<Vec<_>>(),
        vec![outer, inner, skipped]
    );
}

#[test]
fn the_journal_is_empty_outside_captures() {
    let mut s = stack();
    s.start_run_tracking();
    for i in 0..100 {
        s.touch_state(&key(i, &[]));
    }
    assert!(s.touch_journal.is_empty());

    let cap = s.begin_touch_capture();
    s.touch_state(&key(1, &[]));
    let _ = s.end_touch_capture(cap);
    assert!(
        s.touch_journal.is_empty(),
        "the outermost capture clears it"
    );

    // A capture abandoned by an aborted run does not leak into the next.
    let _abandoned = s.begin_touch_capture();
    s.touch_state(&key(1, &[]));
    s.start_run_tracking();
    assert_eq!(s.open_touch_captures, 0);
    assert!(s.touch_journal.is_empty());
}

#[test]
fn keys_differ_by_base_or_path() {
    let a = key(1, &[PathPart::Call(7), PathPart::Index(0)]);
    assert_eq!(a.path_parts(), vec![PathPart::Call(7), PathPart::Index(0)]);
    assert!(petal::stack::same_key(&a, &a.clone()));
    assert!(!petal::stack::same_key(&a, &key(2, &[PathPart::Call(7), PathPart::Index(0)])));
    assert!(!petal::stack::same_key(&a, &key(1, &[PathPart::Call(7), PathPart::Index(1)])));
    assert!(!petal::stack::same_key(&a, &key(1, &[PathPart::Call(7)])));
}

#[test]
fn inserting_an_existing_key_replaces_its_value_in_place() {
    let mut s = stack();
    let a = key(1, &[]);
    let b = key(2, &[PathPart::Key(3)]);
    assert_eq!(s.state.insert(a.clone(), Value::Int(1)), None);
    assert_eq!(s.state.insert(b.clone(), Value::Int(2)), None);
    assert_eq!(s.state.insert(key(1, &[]), Value::Int(10)), Some(Value::Int(1)));
    assert_eq!(s.state.len(), 2);
    assert_eq!(s.state.get(&a), Some(Value::Int(10)));
    assert!(s.state.contains_key(&b));
    assert!(!s.state.contains_key(&key(2, &[])));
}

#[test]
fn the_sweep_keeps_only_touched_slots() {
    let mut s = stack();
    let (a, b, c) = (key(1, &[]), key(2, &[]), key(3, &[]));
    s.state.insert(a.clone(), Value::Int(1));
    s.state.insert(b.clone(), Value::Int(2));
    s.state.insert(c.clone(), Value::Int(3));
    s.start_run_tracking();
    s.touch_state(&c);
    s.touch_state(&a);
    s.touch_state(&key(9, &[]));
    assert_eq!(s.sweep_untouched_state(), 1);
    assert!(s.state.contains_key(&a));
    assert!(!s.state.contains_key(&b));
    assert_eq!(s.state.get(&c), Some(Value::Int(3)));
}

#[test]
fn reset_execution_keeps_state() {
    let mut s = stack();
    s.state.insert(key(1, &[]), Value::Int(1));
    s.status = StackStatus::Running;
    s.last_pop_result = Some(Value::Int(4));
    s.reset_execution();
    assert!(matches!(s.status, StackStatus::Ready));
    assert_eq!(s.last_pop_result, None);
    assert_eq!(s.state.len(), 1);
}
