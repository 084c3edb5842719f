use std::collections::HashMap;

use petal::run_deps::{fingerprint_binding, state_changed, RunDeps, RunReason};
use petal::value::{Heap, SymbolId, Value};

fn bindings(entries: &[(u32, Value)]) -> HashMap<SymbolId, Value> {
    entries.iter().map(|(s, v)| (SymbolId(*s), *v)).collect()
}

#[test]
fn fresh_record_always_needs_a_run() {
    let heap = Heap::new();
    let deps = RunDeps::default();
    assert_eq!(
        deps.run_needed(&HashMap::new(), &heap, 0),
        Some(RunReason::NoRecord)
    );
}

#[test]
#[allow(unused_mut)]
fn unchanged_read_bindings_need_no_run() {
    let mut heap = Heap::new();
    let b = bindings(&[(1, Value::Int(5)), (2, Value::Int(9))]);
    let mut deps = RunDeps::default();
    deps.begin_run(7);
    deps.note_binding_read(SymbolId(1));
    deps.finish_run(&b, &heap, 7, 0);
    assert_eq!(deps.run_needed(&b, &heap, 0), None);

    // An unread binding may change freely.
    let b2 = bindings(&[(1, Value::Int(5)), (2, Value::Int(10))]);
    assert_eq!(deps.run_needed(&b2, &heap, 0), None);

    // A read one may not.
    let b3 = bindings(&[(1, Value::Int(6)), (2, Value::Int(9))]);
    assert_eq!(
        deps.run_needed(&b3, &heap, 0),
        Some(RunReason::BindingChanged(SymbolId(1)))
    );
}

#[test]
fn equal_content_in_a_fresh_allocation_fingerprints_alike() {
    let mut heap = Heap::new();
    let s1 = heap.alloc_string("a".into());
    let l1 = heap.alloc_list(vec![Value::String(s1), Value::Int(1)]);
    let b1 = bindings(&[(1, Value::List(l1))]);
    let mut deps = RunDeps::default();
    deps.begin_run(0);
    deps.note_binding_read(SymbolId(1));
    deps.finish_run(&b1, &heap, 0, 0);

    let s2 = heap.alloc_string("a".into());
    let l2 = heap.alloc_list(vec![Value::String(s2), Value::Int(1)]);
    let b2 = bindings(&[(1, Value::List(l2))]);
    assert_eq!(deps.run_needed(&b2, &heap, 0), None);

    let l3 = heap.alloc_list(vec![Value::String(s2), Value::Int(2)]);
    let b3 = bindings(&[(1, Value::List(l3))]);
    assert!(deps.run_needed(&b3, &heap, 0).is_some());
}

#[test]
#[allow(unused_mut)]
fn a_read_of_an_absent_binding_notices_it_appearing() {
    let mut heap = Heap::new();
    let mut deps = RunDeps::default();
    deps.begin_run(0);
    deps.note_binding_read(SymbolId(3));
    deps.finish_run(&HashMap::new(), &heap, 0, 0);
    assert_eq!(deps.run_needed(&HashMap::new(), &heap, 0), None);
    let b = bindings(&[(3, Value::Nil)]);
    assert_eq!(
        deps.run_needed(&b, &heap, 0),
        Some(RunReason::BindingChanged(SymbolId(3)))
    );
}

#[test]
fn the_other_flags_each_force_a_run() {
    let heap = Heap::new();
    let b = HashMap::new();

    let mut deps = RunDeps::default();
    deps.begin_run(1);
    deps.finish_run(&b, &heap, 2, 0);
    assert_eq!(deps.run_needed(&b, &heap, 0), Some(RunReason::RngConsumed));

    let mut deps = RunDeps::default();
    deps.begin_run(1);
    deps.note_state_unsettled();
    deps.finish_run(&b, &heap, 1, 0);
    assert_eq!(
        deps.run_needed(&b, &heap, 0),
        Some(RunReason::StateUnsettled)
    );

    let mut deps = RunDeps::default();
    deps.begin_run(1);
    deps.finish_run(&b, &heap, 1, 4);
    assert_eq!(
        deps.run_needed(&b, &heap, 5),
        Some(RunReason::ResourcesChanged)
    );

    let mut deps = RunDeps::default();
    deps.begin_run(1);
    deps.finish_run(&b, &heap, 1, 0);
    deps.force();
    assert_eq!(deps.run_needed(&b, &heap, 0), Some(RunReason::Forced));
    deps.begin_run(1);
    deps.finish_run(&b, &heap, 1, 0);
    assert_eq!(deps.run_needed(&b, &heap, 0), None);
}

#[test]
fn host_data_changes_matter_only_to_a_run_that_read_them() {
    let heap = Heap::new();
    let b = HashMap::new();
    let mut deps = RunDeps::default();
    deps.begin_run(0);
    deps.finish_run(&b, &heap, 0, 0);
    deps.note_host_data_changed();
    assert_eq!(
        deps.run_needed(&b, &heap, 0),
        None,
        "did not read host data"
    );

    deps.begin_run(0);
    deps.note_host_read();
    deps.finish_run(&b, &heap, 0, 0);
    assert_eq!(deps.run_needed(&b, &heap, 0), None);
    deps.note_host_data_changed();
    assert_eq!(
        deps.run_needed(&b, &heap, 0),
        Some(RunReason::HostDataChanged)
    );
}

#[test]
fn repeated_reads_are_listed_once_and_counted_each_time() {
    let mut deps = RunDeps::default();
    deps.begin_run(0);
    deps.note_binding_read(SymbolId(4));
    deps.note_binding_read(SymbolId(2));
    deps.note_binding_read(SymbolId(4));
    deps.note_emit();
    deps.note_effect();
    deps.note_resource_read();
    let heap = Heap::new();
    deps.finish_run(&HashMap::new(), &heap, 0, 0);
    assert_eq!(deps.bindings_read(), vec![SymbolId(4), SymbolId(2)]);
    let a = deps.activity();
    assert_eq!(
        (a.binding_reads, a.emits, a.effects, a.resource_reads, a.host_reads),
        (3, 1, 1, 1, 0)
    );
    assert!(deps.is_valid());
    assert!(!deps.rng_consumed());
    assert!(!deps.host_read());
}

#[test]
fn pending_values_are_unfingerprintable_and_state_writes_compare_content() {
    let mut heap = Heap::new();
    let p = Value::Pending(petal::value::PendingId(0));
    assert_eq!(fingerprint_binding(Some(&p), &heap), u64::MAX);
    assert_ne!(fingerprint_binding(None, &heap), u64::MAX);
    let s1 = heap.alloc_string("x".into());
    let s2 = heap.alloc_string("x".into());
    assert!(!state_changed(Some(Value::String(s1)), Value::String(s2), &heap));
    assert!(state_changed(None, Value::Nil, &heap));
    assert!(state_changed(Some(Value::Int(1)), Value::Int(2), &heap));

    let mut deps = RunDeps::default();
    deps.begin_run(0);
    deps.note_state_write(Some(Value::String(s1)), Value::String(s2), false, &heap);
    assert!(!deps.state_unsettled());
    deps.note_state_write(Some(Value::Int(1)), Value::Int(1), true, &heap);
    assert!(deps.state_unsettled());
}
