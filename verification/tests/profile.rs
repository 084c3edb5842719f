use petal::isa::{Inst, Opcode};
use petal::profile::{commas, fn_slot, VmProfile};
use petal::program::FunctionId;

#[test]
fn disabled_profile_records_nothing() {
    let mut p = VmProfile::new();
    p.record_inst(&Inst::LoadNil { dst: 0 });
    p.record_native(3);
    p.record_call();
    assert_eq!(p.total_insts(), 0);
    assert_eq!(p.total_natives(), 0);
    assert_eq!(p.calls, 0);
}

#[test]
fn enabled_profile_counts_per_opcode_and_native() {
    let mut p = VmProfile::new();
    p.set_enabled(true);
    p.record_inst(&Inst::LoadNil { dst: 0 });
    p.record_inst(&Inst::LoadNil { dst: 1 });
    p.record_inst(&Inst::Jump { to: 0 });
    p.record_native(2);
    p.record_native(2);
    p.record_native(5);
    assert_eq!(p.total_insts(), 3);
    assert_eq!(
        p.opcodes_by_count(),
        vec![(Opcode::LoadNil, 2), (Opcode::Jump, 1)]
    );
    assert_eq!(p.natives_by_count(), vec![(2, 2), (5, 1)]);
}

#[test]
fn per_function_counts_and_native_time() {
    let mut p = VmProfile::new();
    p.set_enabled(true);
    p.record_inst_in(&Inst::LoadNil { dst: 0 }, None);
    p.record_inst_in(&Inst::LoadNil { dst: 0 }, Some(FunctionId(2)));
    p.record_inst_in(&Inst::LoadNil { dst: 0 }, Some(FunctionId(2)));
    p.record_native(7);
    p.record_native_time(7, Some(FunctionId(2)), 5_000);
    assert_eq!(p.total_insts(), 3);
    assert_eq!(p.functions_by_count(), vec![(3, 2, 5_000), (0, 1, 0)]);
    assert_eq!(p.natives_by_time(), vec![(7, 1, 5_000)]);
    assert_eq!(fn_slot(None), 0);
    assert_eq!(fn_slot(Some(FunctionId(2))), 3);
}

#[test]
fn enabling_clears_earlier_counts() {
    let mut p = VmProfile::new();
    p.set_enabled(true);
    p.record_call();
    p.set_enabled(true);
    assert_eq!(p.calls, 0);
}

#[test]
fn commas_groups_digits() {
    assert_eq!(commas(0), "0");
    assert_eq!(commas(999), "999");
    assert_eq!(commas(1_234_567), "1,234,567");
}

#[test]
fn garbage_collections_accumulate_and_reset_keeps_the_switch() {
    let mut p = VmProfile::new();
    p.set_enabled(true);
    p.record_gc(10);
    p.record_gc(5);
    assert_eq!((p.collections, p.gc_nanos), (2, 15));
    p.reset();
    assert!(p.enabled);
    assert_eq!((p.collections, p.gc_nanos), (0, 0));
    assert_eq!(commas(1000), "1,000");
}
