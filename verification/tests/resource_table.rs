use petal::resource_table::{ResourceState, ResourceTable};
use petal::value::{PendingId, Value};

#[test]
fn one_key_one_resource() {
    let mut t = ResourceTable::new();
    let a = t.get_or_create_loading(10);
    let b = t.get_or_create_loading(10);
    let c = t.get_or_create_loading(11);
    assert_eq!(a, b);
    assert_eq!((a, c), (PendingId(0), PendingId(1)));
    assert_eq!(t.pending_for_key(11), Some(c));
    assert_eq!(t.pending_for_key(12), None);
    assert_eq!(t.value_for(a), None);
}

#[test]
fn resolving_and_rejecting_set_the_state() {
    let mut t = ResourceTable::new();
    t.resolve(1, Value::Int(5));
    t.reject(2, Value::Bool(false));
    let id = t.pending_for_key(1).unwrap();
    assert_eq!(t.value_for(id), Some(Value::Int(5)));
    assert_eq!(t.entry(t.pending_for_key(2).unwrap()).state, ResourceState::Errored(Value::Bool(false)));
    t.note_absorbed(id);
    assert_eq!(t.entry(id).absorbed_count, 1);
    assert_eq!(t.gc_roots(), vec![Value::Int(5), Value::Bool(false)]);
}
