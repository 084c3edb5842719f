use std::collections::HashMap;

use petal::native_fn::{
    EmitSite, InputClasses, NativeClass, NativeEffects, NativeFnId, NativeFnTable, PetalCxt,
    INPUT_CLOCK, INPUT_POINTER,
};
use petal::program::TermId;
use petal::resource_table::ResourceTable;
use petal::run_deps::RunDeps;
use petal::value::{Heap, PendingId, SymbolId, SymbolTable, Value};

#[test]
fn input_classes_union_and_contain() {
    let a = InputClasses(INPUT_POINTER);
    let b = InputClasses(INPUT_CLOCK);
    let both = a.union(b);
    assert!(both.contains(a));
    assert!(both.contains(b));
    assert!(!a.contains(b));
    assert!(InputClasses::default().is_empty());
    assert!(!both.is_empty());
}

#[test]
fn effect_rows_compose() {
    let p = NativeEffects::probe(InputClasses(INPUT_POINTER));
    assert!(p.probe && !p.emits && !p.effect);
    assert_eq!(p.pending, NativeClass::Strict);
    let r = NativeEffects::reads(InputClasses(INPUT_CLOCK)).with_emits().with_effect();
    assert!(!r.probe && r.emits && r.effect);
    assert_eq!(r.with_pending(NativeClass::AllowPending).pending, NativeClass::AllowPending);
    assert_eq!(NativeEffects::emits_row().pending, NativeClass::Effectful);
    assert!(NativeEffects::effect_row().effect);
    assert_eq!(NativeEffects::pure().reads, InputClasses(0));
}

#[test]
fn registration_assigns_ids_and_the_last_name_wins() {
    let mut t: NativeFnTable<&'static str> = NativeFnTable::new();
    let a = t.register("abs", "abs-impl", NativeEffects::pure());
    let b = t.register_boxed("print", "print-impl", NativeEffects::effect_row());
    assert_eq!((a, b), (NativeFnId(0), NativeFnId(1)));
    assert_eq!(t.count(), 2);
    assert_eq!(t.lookup_name("print"), Some(b));
    assert_eq!(t.lookup_name("nope"), None);
    let c = t.register("abs", "abs-2", NativeEffects::pure());
    assert_eq!(t.lookup_name("abs"), Some(c));
    assert_eq!(t.get_name(b), "print");
    assert!(t.is_boxed(b));
    assert_eq!(t.get_func(a), Some(&"abs-impl"));
    assert_eq!(t.get_func(b), None);
    t.set_class(a, NativeClass::Effectful);
    assert_eq!(t.get_class(a), NativeClass::Effectful);
    assert_eq!(t.effects(a).pending, NativeClass::Effectful);
    t.register_class_method("Rect", "inset", a);
    t.register_class_method("Rect", "inset", c);
    assert_eq!(t.lookup_class_method("Rect", "inset"), Some(c));
    assert_eq!(t.lookup_class_method("Rect", "grow"), None);
}

#[test]
fn a_context_reads_arguments_and_collects_results() {
    let mut heap = Heap::new();
    let s = heap.alloc_string("hi".to_string());
    let args = vec![Value::Int(7), Value::String(s), Value::Bool(true)];
    let mut output: Vec<String> = Vec::new();
    let mut symbols = SymbolTable::new();
    let mut bufs: HashMap<u32, Vec<Value>> = HashMap::new();
    let mut origins: HashMap<u32, Vec<EmitSite>> = HashMap::new();
    let chain = vec![TermId(4)];
    let bindings: HashMap<SymbolId, Value> = HashMap::new();
    let mut deps = RunDeps::new();
    let mut counters: HashMap<u32, u64> = HashMap::new();
    let mut seed = 0u64;
    let mut resources = ResourceTable::new();
    let mut log: Vec<(Option<TermId>, PendingId)> = Vec::new();
    let mut cx = PetalCxt::new(
        &args,
        &mut heap,
        &mut output,
        &mut symbols,
        &mut bufs,
        &mut origins,
        &chain,
        &bindings,
        &mut deps,
        &mut counters,
        &mut seed,
        &mut resources,
        &mut log,
    );
    assert_eq!(cx.arg_count(), 3);
    assert_eq!(cx.get_int(1), Ok(7));
    assert_eq!(cx.get_string(2), Ok("hi".to_string()));
    assert_eq!(cx.get_bool(3), Ok(true));
    assert_eq!(cx.get_int(2), Err("Expected int at arg 2, got string".to_string()));
    assert_eq!(cx.get_value(0), Err("Argument index 0 out of range (1..3)".to_string()));
    assert_eq!(cx.get_value(4), Err("Argument index 4 out of range (1..3)".to_string()));
    let sym = cx.intern_symbol("frame");
    assert_eq!(cx.binding(sym), Value::Nil);
    assert_eq!(cx.next_counter(sym), 0);
    assert_eq!(cx.next_counter(sym), 1);
    assert_eq!(cx.peek_counter(sym), 2);
    cx.set_counter(sym, 10);
    assert_eq!(cx.peek_counter(sym), 10);
    cx.push_output(sym, Value::Int(1));
    cx.push_str("hi");
    cx.push_int(3);
    cx.print("hello".to_string());
    assert_eq!(cx.take_result(1), Value::String(s));
    assert_eq!(bufs.get(&sym.0), Some(&vec![Value::Int(1)]));
    assert_eq!(output, vec!["hello".to_string()]);
}

#[test]
fn print_records_the_line_and_an_effect() {
    let mut heap = Heap::new();
    let args: Vec<Value> = Vec::new();
    let mut output: Vec<String> = vec!["earlier".to_string()];
    let mut symbols = SymbolTable::new();
    let mut bufs: HashMap<u32, Vec<Value>> = HashMap::new();
    let mut origins: HashMap<u32, Vec<EmitSite>> = HashMap::new();
    let chain: Vec<TermId> = Vec::new();
    let bindings: HashMap<SymbolId, Value> = HashMap::new();
    let mut deps = RunDeps::new();
    let mut counters: HashMap<u32, u64> = HashMap::new();
    let mut seed = 0u64;
    let mut resources = ResourceTable::new();
    let mut log: Vec<(Option<TermId>, PendingId)> = Vec::new();
    let mut cx = PetalCxt::new(
        &args,
        &mut heap,
        &mut output,
        &mut symbols,
        &mut bufs,
        &mut origins,
        &chain,
        &bindings,
        &mut deps,
        &mut counters,
        &mut seed,
        &mut resources,
        &mut log,
    );
    cx.print("hello".to_string());
    cx.print("world".to_string());
    let _ = cx.take_result(0);
    assert_eq!(output, vec!["earlier".to_string(), "hello".to_string(), "world".to_string()]);
    assert_eq!(deps.activity().effects, 2);
}
