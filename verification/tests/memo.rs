use petal::memo::{container_args_fingerprint, content_equal, holds_local_cell, is_container, FastHasher, MemoStats, ARG_COMPARE_BUDGET};
use petal::run_deps::fingerprint_binding;
use petal::value::{Heap, Value};

#[test]
fn comparison_gives_up_past_the_budget() {
    let mut heap = Heap::new();
    let big: Vec<Value> = (0..300).map(Value::Int).collect();
    let a = Value::List(heap.alloc_list(big.clone()));
    let b = Value::List(heap.alloc_list(big));
    assert!(!content_equal(&a, &b, &heap, 256));
    // Same id short-circuits regardless of size.
    assert!(content_equal(&a, &a, &heap, 256));
}

#[test]
fn lists_and_strings_compare_by_content() {
    let mut heap = Heap::new();
    let s1 = heap.alloc_string("hi".into());
    let s2 = heap.alloc_string("hi".into());
    let s3 = heap.alloc_string("ho".into());
    let l1 = heap.alloc_list(vec![Value::String(s1), Value::Bool(true)]);
    let l2 = heap.alloc_list(vec![Value::String(s2), Value::Bool(true)]);
    let l3 = heap.alloc_list(vec![Value::String(s3), Value::Bool(true)]);
    assert!(content_equal(&Value::List(l1), &Value::List(l2), &heap, ARG_COMPARE_BUDGET));
    assert!(!content_equal(&Value::List(l1), &Value::List(l3), &heap, ARG_COMPARE_BUDGET));
    assert!(!content_equal(&Value::Int(1), &Value::Bool(true), &heap, ARG_COMPARE_BUDGET));
    // A pending resource equals nothing, not even itself.
    let p = Value::Pending(petal::value::PendingId(1));
    assert!(!content_equal(&p, &p, &heap, ARG_COMPARE_BUDGET));
    // No budget, no answer but "different".
    assert!(!content_equal(&Value::Nil, &Value::Nil, &heap, 0));
    assert!(is_container(&Value::List(l1)));
    assert!(!is_container(&Value::Int(3)));
}

#[test]
fn fast_hasher_mixes_words_and_bytes() {
    let mut h = FastHasher::new();
    h.write_u64(1);
    let expected = (0u64.rotate_left(5) ^ 1).wrapping_mul(0x517c_c1b7_2722_0a95);
    assert_eq!(h.finish(), expected);
    let mut a = FastHasher::new();
    a.write(&[1, 0, 0, 0, 0, 0, 0, 0, 2]);
    let mut b = FastHasher::new();
    b.write_u64(1);
    b.write_u8(2);
    assert_eq!(a.finish(), b.finish());
    assert_eq!(MemoStats::new().hits, 0);
}

#[test]
fn container_fingerprint_folds_only_containers() {
    let mut heap = Heap::new();
    let a = Value::List(heap.alloc_list(vec![Value::Int(1), Value::Int(2)]));
    let b = Value::List(heap.alloc_list(vec![Value::Int(1), Value::Int(2)]));
    let c = Value::List(heap.alloc_list(vec![Value::Int(3)]));
    assert_eq!(container_args_fingerprint(&[Value::Int(5), Value::Bool(true)], &heap), 0);
    assert_eq!(container_args_fingerprint(&[], &heap), 0);
    let fa = fingerprint_binding(Some(&a), &heap);
    let fc = fingerprint_binding(Some(&c), &heap);
    assert_eq!(container_args_fingerprint(&[Value::Int(5), a], &heap), fa);
    assert_eq!(
        container_args_fingerprint(&[a, Value::Nil, c], &heap),
        fa.rotate_left(7) ^ fc
    );
    // Equal content, different heap ids: the same fingerprint.
    assert_eq!(
        container_args_fingerprint(&[a], &heap),
        container_args_fingerprint(&[b], &heap)
    );
}

#[test]
fn maps_compare_by_class_and_entries_and_cells_by_identity() {
    let mut heap = Heap::new();
    let one = Value::Int(1);
    let two = Value::Int(2);
    let a = heap.alloc_map(None, vec![("x".into(), one), ("y".into(), two)]);
    // Same entries in another order: each key is looked up.
    let b = heap.alloc_map(None, vec![("y".into(), two), ("x".into(), one)]);
    let c = heap.alloc_map(None, vec![("x".into(), one), ("y".into(), one)]);
    let d = heap.alloc_map(Some("Point".into()), vec![("x".into(), one), ("y".into(), two)]);
    let e = heap.alloc_map(None, vec![("x".into(), one)]);
    let ra = Value::Record(a);
    assert!(content_equal(&ra, &Value::Record(b), &heap, ARG_COMPARE_BUDGET));
    assert!(!content_equal(&ra, &Value::Record(c), &heap, ARG_COMPARE_BUDGET));
    assert!(!content_equal(&ra, &Value::Record(d), &heap, ARG_COMPARE_BUDGET));
    assert!(!content_equal(&ra, &Value::Record(e), &heap, ARG_COMPARE_BUDGET));
    assert!(content_equal(&ra, &ra, &heap, ARG_COMPARE_BUDGET));
    assert!(is_container(&ra));

    let c1 = heap.alloc_cell(Value::Int(5));
    let c2 = heap.alloc_cell(Value::Int(5));
    assert!(content_equal(&Value::Cell(c1), &Value::Cell(c1), &heap, ARG_COMPARE_BUDGET));
    assert!(!content_equal(&Value::Cell(c1), &Value::Cell(c2), &heap, ARG_COMPARE_BUDGET));
    assert!(!is_container(&Value::Cell(c1)));
}

#[test]
fn map_and_cell_fingerprints_follow_content() {
    let mut heap = Heap::new();
    let a = heap.alloc_map(None, vec![("x".into(), Value::Int(1))]);
    let b = heap.alloc_map(None, vec![("x".into(), Value::Int(1))]);
    let c = heap.alloc_map(None, vec![("x".into(), Value::Int(2))]);
    let fa = fingerprint_binding(Some(&Value::Record(a)), &heap);
    assert_eq!(fa, fingerprint_binding(Some(&Value::Record(b)), &heap));
    assert_ne!(fa, fingerprint_binding(Some(&Value::Record(c)), &heap));
    let c1 = heap.alloc_cell(Value::Int(7));
    let c2 = heap.alloc_cell(Value::Int(7));
    assert_eq!(
        fingerprint_binding(Some(&Value::Cell(c1)), &heap),
        fingerprint_binding(Some(&Value::Cell(c2)), &heap)
    );
    heap.cell_write(c2, Value::Int(8));
    assert_ne!(
        fingerprint_binding(Some(&Value::Cell(c1)), &heap),
        fingerprint_binding(Some(&Value::Cell(c2)), &heap)
    );
}

#[test]
fn a_local_cell_is_found_inside_lists_and_records() {
    let mut heap = Heap::new();
    let mine = heap.alloc_cell(Value::Int(0));
    let other = heap.alloc_cell(Value::Int(0));
    let inner = heap.alloc_list(vec![Value::Int(1), Value::Cell(mine)]);
    let rec = heap.alloc_map(None, vec![("items".into(), Value::List(inner))]);
    assert!(holds_local_cell(&Value::Record(rec), &heap, &[mine]));
    assert!(!holds_local_cell(&Value::Record(rec), &heap, &[other]));
    assert!(!holds_local_cell(&Value::Record(rec), &heap, &[]));
    assert!(!holds_local_cell(&Value::Int(3), &heap, &[mine]));
    assert!(holds_local_cell(&Value::Cell(mine), &heap, &[other, mine]));
}
