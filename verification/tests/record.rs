use petal::record::{FieldCache, Key, RecordMap, Shape};
use petal::value::Value;

#[test]
fn insert_keeps_order_and_position() {
    let mut m = RecordMap::default();
    m.insert("b", Value::Int(1));
    m.insert("a", Value::Int(2));
    m.insert("b", Value::Int(3));
    let keys: Vec<&str> = m.keys().iter().map(|k| k.as_str()).collect();
    assert_eq!(keys, ["b", "a"]);
    assert_eq!(m.get("b"), Some(&Value::Int(3)));
    assert_eq!(m.shift_remove("b"), Some(Value::Int(2 + 1)));
    assert_eq!(m.get("a"), Some(&Value::Int(2)));
    assert!(m.get("b").is_none());
}

#[test]
fn clones_share_a_shape_until_one_grows() {
    let mut a = RecordMap::default();
    a.insert("x", Value::Int(1));
    let mut b = a.clone();
    b.insert("x", Value::Int(2));
    assert_eq!(a.shape_id(), b.shape_id());
    b.insert("y", Value::Int(3));
    assert_ne!(a.shape_id(), b.shape_id());
    assert_eq!(a.len(), 1);
    assert_eq!(a.get("x"), Some(&Value::Int(1)));
}

#[test]
fn big_records_use_an_index() {
    let mut m = RecordMap::default();
    for i in 0..100 {
        m.insert(format!("k{i}"), Value::Int(i));
    }
    for i in 0..100 {
        assert_eq!(m.get(&format!("k{i}")), Some(&Value::Int(i)));
    }
    m.shift_remove("k3");
    assert_eq!(m.get("k4"), Some(&Value::Int(4)));
    assert_eq!(m.get_index_of("k4"), Some(3));
    for i in 5..95 {
        m.shift_remove(&format!("k{i}"));
    }
    assert_eq!(m.len(), 9);
    assert_eq!(m.get("k97"), Some(&Value::Int(97)));
}

#[test]
fn field_cache_hits_only_its_shape() {
    let shape = Shape::from_keys(vec![Key::new("a"), Key::new("b")]).unwrap();
    let r1 = RecordMap::from_shape(shape.clone(), vec![Value::Int(1), Value::Int(2)]);
    let r2 = RecordMap::from_shape(shape, vec![Value::Int(3), Value::Int(4)]);
    let cache = FieldCache::default();
    assert_eq!(cache.lookup(&r1), None);
    assert_eq!(cache.fill(&r1, "b"), Some(Value::Int(2)));
    assert_eq!(cache.lookup(&r2), Some(Value::Int(4)));
    let mut r3 = r2.clone();
    r3.shift_remove("a");
    assert_eq!(cache.lookup(&r3), None);
    assert!(Shape::from_keys(vec![Key::new("a"), Key::new("a")]).is_none());
}

#[test]
fn equality_ignores_order() {
    let a = RecordMap::from_pairs(&[("x", Value::Int(1)), ("y", Value::Int(2))]);
    let b = RecordMap::from_pairs(&[("y", Value::Int(2)), ("x", Value::Int(1))]);
    assert_eq!(a, b);
}

#[test]
fn unequal_values_or_sizes_compare_unequal() {
    let a = RecordMap::from_pairs(&[("x", Value::Int(1)), ("y", Value::Int(2))]);
    let b = RecordMap::from_pairs(&[("y", Value::Int(3)), ("x", Value::Int(1))]);
    let c = RecordMap::from_pairs(&[("x", Value::Int(1))]);
    assert_ne!(a, b);
    assert_ne!(a, c);
}

#[test]
fn entries_are_reachable_by_position_and_key() {
    let mut m = RecordMap::with_capacity(4);
    assert!(m.is_empty());
    assert!(m.first().is_none());
    m.insert("one", Value::Int(1));
    let (i, old) = m.insert_full("two", Value::Int(2));
    assert_eq!((i, old), (1, None));
    let (i, old) = m.insert_full("one", Value::Bool(true));
    assert_eq!((i, old), (0, Some(Value::Int(1))));
    assert!(m.contains_key("two"));
    assert!(!m.contains_key("three"));
    let (k, v) = m.last().unwrap();
    assert_eq!((k.as_str(), *v), ("two", Value::Int(2)));
    let (pos, k, v) = m.get_full("two").unwrap();
    assert_eq!((pos, k.as_str(), *v), (1, "two", Value::Int(2)));
    assert_eq!(m.values_slice(), &[Value::Bool(true), Value::Int(2)]);
    let pairs: Vec<(String, Value)> = m.iter().into_iter().map(|(k, v)| (k.as_str().to_string(), *v)).collect();
    assert_eq!(pairs, vec![("one".to_string(), Value::Bool(true)), ("two".to_string(), Value::Int(2))]);
    let (k, v) = m.shift_remove_entry("one").unwrap();
    assert_eq!((k.as_str(), v), ("one", Value::Bool(true)));
    assert!(m.capacity() >= m.len());
    m.clear();
    assert_eq!(m.len(), 0);
    assert!(m.payload_bytes() == 0);
}

#[test]
fn payload_counts_key_bytes_and_values() {
    let m = RecordMap::from_pairs(&[("ab", Value::Nil), ("é", Value::Nil)]);
    let per = std::mem::size_of::<Value>() as u64;
    assert_eq!(m.payload_bytes(), 2 + 2 + 2 * per);
}

#[test]
fn keys_compare_by_text_and_share_on_clone() {
    let k = Key::new("field");
    let c = k.clone();
    assert!(Key::ptr_eq(&k, &c));
    assert!(!Key::ptr_eq(&k, &Key::new("field")));
    assert_eq!(c.as_str(), "field");
}

#[test]
fn sort_keys_orders_fields_and_keeps_values() {
    let mut m = RecordMap::default();
    m.insert("pear", Value::Int(3));
    m.insert("apple", Value::Int(1));
    m.insert("Zed", Value::Int(9));
    m.insert("fig", Value::Int(2));
    let before = m.shape_id();
    m.sort_keys();
    let keys: Vec<&str> = m.keys().iter().map(|k| k.as_str()).collect();
    assert_eq!(keys, ["Zed", "apple", "fig", "pear"]);
    assert_eq!(m.get("pear"), Some(&Value::Int(3)));
    assert_eq!(m.get("apple"), Some(&Value::Int(1)));
    assert_eq!(m.get("Zed"), Some(&Value::Int(9)));
    assert_eq!(m.len(), 4);
    assert_ne!(m.shape_id(), before);
}

#[test]
fn sort_keys_on_an_empty_record_leaves_it_empty() {
    let mut m = RecordMap::default();
    m.sort_keys();
    assert!(m.is_empty());
}

#[test]
fn get_mut_changes_a_value_in_place() {
    let mut m = RecordMap::default();
    m.insert("a", Value::Int(1));
    m.insert("b", Value::Int(2));
    let id = m.shape_id();
    if let Some(v) = m.get_mut("b") {
        *v = Value::Int(20);
    }
    assert!(m.get_mut("missing").is_none());
    assert_eq!(m.get("b"), Some(&Value::Int(20)));
    assert_eq!(m.get("a"), Some(&Value::Int(1)));
    assert_eq!(m.shape_id(), id);
}
