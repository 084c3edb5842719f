//! What the last run of a stack depended on, so a host can skip a frame whose
//! inputs have not changed.
//!
//! [`RunDeps`] records, per run, the things a run's result can depend on: the
//! host bindings it read (each with a content fingerprint of the value it
//! saw), whether it consulted host data outside the binding table, whether it
//! consumed randomness, whether it left `state` different from how it found
//! it, and the resource table's revision. [`RunDeps::run_needed`] compares
//! that record against the present: a run is needed if any read binding's
//! fingerprint differs, or any other flag says the previous run did not reach
//! a fixed point.

use std::collections::HashMap;
use std::hash::Hasher;
use vstd::prelude::*;
use vstd::std_specs::hash::DefaultHasherAdditionalSpecFns;
use vstd::string::StringSliceAdditionalSpecFns;
use vstd::utf8::encode_utf8;
use crate::memo::{content_equal, eq_spec};
use crate::value::{Heap, HeapView, SymbolId, Value, value_in};

verus! {

/// Why a run is needed.
#[derive(Debug, Clone, Copy, PartialEq, Eq, Structural)]
pub enum RunReason {
    /// No completed run has recorded its dependencies yet.
    NoRecord,
    /// The host asked for a run, or changed state from outside.
    Forced,
    /// A binding the last run read has a different value now.
    BindingChanged(SymbolId),
    /// The last run consulted host data outside the binding table and the
    /// host has since reported it changed.
    HostDataChanged,
    /// The last run wrote a different value into some `state` slot.
    StateUnsettled,
    /// The last run drew from the random stream.
    RngConsumed,
    /// A pending resource was created, resolved or rejected since the last run.
    ResourcesChanged,
}

/// A snapshot of [`RunDeps::activity`].
#[derive(Debug, Clone, Copy, PartialEq, Eq, Structural)]
pub struct Activity {
    pub binding_reads: u32,
    pub host_reads: u32,
    pub resource_reads: u32,
    pub emits: u32,
    pub effects: u32,
}

/// The dependency record of one stack's most recent run.
#[derive(Debug, Clone)]
pub struct RunDeps {
    /// Per-symbol "read this run" flags, indexed by `SymbolId.0`.
    read_flags: Vec<bool>,
    /// The symbols read this run, in first-read order.
    read_list: Vec<SymbolId>,
    /// Each binding read by the last completed run and its fingerprint.
    reads: Vec<(SymbolId, u64)>,
    host_read: bool,
    host_data_revision: u64,
    host_data_now: u64,
    rng_at_start: u64,
    rng_consumed: bool,
    state_unsettled: bool,
    resources_revision: u64,
    valid: bool,
    forced: bool,
    binding_reads: u32,
    host_reads: u32,
    resource_reads: u32,
    emits: u32,
    effects: u32,
}

/// The record as mathematical values.
pub struct RunDepsView {
    pub read_list: Seq<SymbolId>,
    pub reads: Seq<(SymbolId, u64)>,
    pub host_read: bool,
    pub host_data_revision: u64,
    pub host_data_now: u64,
    pub rng_at_start: u64,
    pub rng_consumed: bool,
    pub state_unsettled: bool,
    pub resources_revision: u64,
    pub valid: bool,
    pub forced: bool,
    pub activity: Activity,
}

/// `x + 1`, wrapping at `u32::MAX`.
pub open spec fn wrap_inc(x: u32) -> u32 {
    if x == u32::MAX { 0 } else { (x + 1) as u32 }
}

/// `x + 1`, wrapping at `u64::MAX`.
pub open spec fn wrap_inc64(x: u64) -> u64 {
    if x == u64::MAX { 0 } else { (x + 1) as u64 }
}

fn inc(x: u32) -> (r: u32)
    ensures
        r == wrap_inc(x),
{
    if x == u32::MAX { 0 } else { x + 1 }
}

impl View for RunDeps {
    type V = RunDepsView;

    closed spec fn view(&self) -> RunDepsView {
        RunDepsView {
            read_list: self.read_list@,
            reads: self.reads@,
            host_read: self.host_read,
            host_data_revision: self.host_data_revision,
            host_data_now: self.host_data_now,
            rng_at_start: self.rng_at_start,
            rng_consumed: self.rng_consumed,
            state_unsettled: self.state_unsettled,
            resources_revision: self.resources_revision,
            valid: self.valid,
            forced: self.forced,
            activity: Activity {
                binding_reads: self.binding_reads,
                host_reads: self.host_reads,
                resource_reads: self.resource_reads,
                emits: self.emits,
                effects: self.effects,
            },
        }
    }
}

// ── fingerprints ────────────────────────────────────────────────────

/// The `k` low bytes of `x`, least significant first.
pub open spec fn le_bytes(x: nat, k: nat) -> Seq<u8>
    decreases k,
{
    if k == 0 {
        Seq::empty()
    } else {
        seq![(x % 256) as u8] + le_bytes(x / 256, (k - 1) as nat)
    }
}


/// Prefix the bytes of an encoding result with `p`.
pub open spec fn prefixed(p: Seq<u8>, o: Option<(Seq<u8>, nat)>) -> Option<(Seq<u8>, nat)> {
    match o {
        None => None,
        Some(e) => Some((p + e.0, e.1)),
    }
}

/// The content encoding of `v` under a node budget, with the budget left:
/// a tag byte per value, then its payload (strings by their UTF-8 bytes and
/// a 0, lists and maps by their elements' encodings, a cell by its
/// content), never heap ids. `None` when the value cannot be fingerprinted:
/// a pending resource, or a structure past the budget.
pub open spec fn encode(h: HeapView, v: Value, budget: nat) -> Option<(Seq<u8>, nat)>
    decreases budget, 0nat, 0nat,
{
    if budget == 0 {
        None
    } else {
        let bud = (budget - 1) as nat;
        match v {
            Value::Nil => Some((seq![0u8], bud)),
            Value::Bool(b) => Some((seq![1u8, if b { 1u8 } else { 0u8 }], bud)),
            Value::Int(n) => Some((seq![2u8] + le_bytes(n as u64 as nat, 8), bud)),
            Value::String(id) => {
                let cs = h.strings[id.0 as int];
                Some((seq![4u8] + encode_utf8(cs) + seq![0u8], bud))
            },
            Value::List(id) => {
                let xs = h.lists[id.0 as int];
                prefixed(seq![5u8] + le_bytes(xs.len(), 8), encode_list(h, xs, 0, bud))
            },
            Value::Record(id) => {
                let es = h.maps[id.0 as int].entries;
                prefixed(seq![6u8] + le_bytes(es.len(), 8), encode_entries(h, es, 0, bud))
            },
            Value::Symbol(s) => Some((seq![11u8] + le_bytes(s.0 as nat, 4), bud)),
            Value::Cell(id) => prefixed(seq![15u8], encode(h, h.cells[id.0 as int], bud)),
            Value::Pending(_) => None,
        }
    }
}

/// The encodings of map entries `es[i..]`, each its key's UTF-8 bytes, a 0
/// and its value's encoding, concatenated, threading the budget.
pub open spec fn encode_entries(h: HeapView, es: Seq<(Seq<char>, Value)>, i: int, budget: nat) -> Option<
    (Seq<u8>, nat),
>
    decreases budget, 1nat, (es.len() - i) as nat,
{
    if i < 0 || i >= es.len() {
        Some((Seq::empty(), budget))
    } else {
        match encode(h, es[i].1, budget) {
            None => None,
            Some(e) => prefixed(
                encode_utf8(es[i].0) + seq![0u8] + e.0,
                encode_entries(h, es, i + 1, if e.1 < budget { e.1 } else { budget }),
            ),
        }
    }
}

/// The encodings of `xs[i..]`, concatenated, threading the budget.
pub open spec fn encode_list(h: HeapView, xs: Seq<Value>, i: int, budget: nat) -> Option<
    (Seq<u8>, nat),
>
    decreases budget, 1nat, (xs.len() - i) as nat,
{
    if i < 0 || i >= xs.len() {
        Some((Seq::empty(), budget))
    } else {
        match encode(h, xs[i], budget) {
            None => None,
            Some(e) => prefixed(
                e.0,
                encode_list(h, xs, i + 1, if e.1 < budget { e.1 } else { budget }),
            ),
        }
    }
}

/// Fingerprint budget: the number of heap nodes a binding may span before
/// it is treated as unfingerprintable.
pub const FINGERPRINT_BUDGET: usize = 4096;

/// A fingerprint that never matches a real one, for a value that could not
/// be fingerprinted: every check then reports "changed", the safe answer.
pub const UNFINGERPRINTABLE: u64 = 0xFFFF_FFFF_FFFF_FFFF;

/// The hash `std::collections::hash_map::DefaultHasher` gives a byte
/// sequence written to a fresh hasher in one piece.
pub open spec fn default_hash(bytes: Seq<u8>) -> u64 {
    std::collections::hash_map::DefaultHasher::spec_finish(seq![bytes])
}

/// `bytes` hashed with a fresh `DefaultHasher`, whose keys are fixed, so
/// equal bytes hash alike.
fn hash_bytes(bytes: &[u8]) -> (r: u64)
    ensures
        r == default_hash(bytes@),
{
    let mut h = std::collections::hash_map::DefaultHasher::new();
    h.write(bytes);
    proof {
        assert(h@ =~= seq![bytes@]);
    }
    h.finish()
}

/// A real fingerprint is never [`UNFINGERPRINTABLE`].
pub open spec fn avoid_max(x: u64) -> u64 {
    if x == UNFINGERPRINTABLE { (x - 1) as u64 } else { x }
}

/// The fingerprint of a binding's value, `None` (absent) included.
pub open spec fn fingerprint_spec(value: Option<Value>, h: HeapView) -> u64 {
    match value {
        None => avoid_max(default_hash(seq![0xFFu8])),
        Some(v) => match encode(h, v, FINGERPRINT_BUDGET as nat) {
            None => UNFINGERPRINTABLE,
            Some(e) => avoid_max(default_hash(e.0)),
        },
    }
}

fn push_le(out: &mut Vec<u8>, x: u64, k: usize)
    requires
        k <= 8,
    ensures
        final(out)@ == old(out)@ + le_bytes(x as nat, k as nat),
    decreases k,
{
    if k > 0 {
        out.push((x % 256) as u8);
        let ghost mid = out@;
        push_le(out, x / 256, k - 1);
        proof {
            assert(out@ =~= old(out)@ + le_bytes(x as nat, k as nat));
        }
    } else {
        proof {
            assert(out@ =~= old(out)@ + le_bytes(x as nat, k as nat));
        }
    }
}

/// Append the content encoding of `v` to `out`, spending `budget`. Returns
/// false when `v` cannot be fingerprinted.
#[verifier::rlimit(80)]
fn hash_content(v: &Value, heap: &Heap, out: &mut Vec<u8>, budget: &mut usize) -> (ok: bool)
    requires
        heap.wf(),
        value_in(*v, heap@),
    ensures
        ok == encode(heap@, *v, *old(budget) as nat) is Some,
        ok ==> final(out)@ == old(out)@ + encode(heap@, *v, *old(budget) as nat).unwrap().0,
        ok ==> *final(budget) as nat == encode(heap@, *v, *old(budget) as nat).unwrap().1,
        ok ==> *final(budget) <= *old(budget),
    decreases *old(budget), 0nat,
{
    if *budget == 0 {
        return false;
    }
    *budget = *budget - 1;
    let ghost h = heap@;
    match v {
        Value::Nil => {
            out.push(0u8);
            proof {
                assert(out@ =~= old(out)@ + seq![0u8]);
            }
            true
        },
        Value::Bool(b) => {
            out.push(1u8);
            out.push(if *b { 1u8 } else { 0u8 });
            proof {
                assert(out@ =~= old(out)@ + seq![1u8, if *b { 1u8 } else { 0u8 }]);
            }
            true
        },
        Value::Int(n) => {
            out.push(2u8);
            push_le(out, *n as u64, 8);
            proof {
                assert(out@ =~= old(out)@ + (seq![2u8] + le_bytes(*n as u64 as nat, 8)));
            }
            true
        },
        Value::String(id) => {
            let bytes = heap.get_string(*id).as_bytes();
            out.push(4u8);
            let ghost start = out@;
            let mut i: usize = 0;
            while i < bytes.len()
                invariant
                    i <= bytes.len(),
                    out@ == start + bytes@.take(i as int),
                decreases bytes.len() - i,
            {
                out.push(bytes[i]);
                proof {
                    assert(bytes@.take((i + 1) as int) =~= bytes@.take(i as int).push(bytes@[i as int]));
                }
                i = i + 1;
            }
            out.push(0u8);
            proof {
                assert(bytes@.take(bytes.len() as int) =~= bytes@);
                assert(out@ =~= old(out)@ + (seq![4u8] + encode_utf8(heap@.strings[id.0 as int]) + seq![0u8]));
            }
            true
        },
        Value::List(id) => {
            let xs = heap.get_list(*id);
            out.push(5u8);
            push_le(out, xs.len() as u64, 8);
            let ghost head = out@;
            let ghost b0 = *budget as nat;
            proof {
                assert(head =~= old(out)@ + (seq![5u8] + le_bytes(xs@.len(), 8)));
                assert(out@.subrange(head.len() as int, out@.len() as int) =~= Seq::<u8>::empty());
                assert(out@.subrange(0, head.len() as int) =~= head);
            }
            let mut i: usize = 0;
            while i < xs.len()
                invariant
                    i <= xs.len(),
                    heap.wf(),
                    h == heap@,
                    xs@ == h.lists[id.0 as int],
                    id.0 < h.lists.len(),
                    *budget <= b0,
                    b0 + 1 == *old(budget),
                    *v == Value::List(*id),
                    head =~= old(out)@ + (seq![5u8] + le_bytes(xs@.len(), 8)),
                    encode_list(h, xs@, 0, b0) == prefixed(
                        out@.subrange(head.len() as int, out@.len() as int),
                        encode_list(h, xs@, i as int, *budget as nat),
                    ),
                    head.len() <= out@.len(),
                    out@.subrange(0, head.len() as int) == head,
                decreases xs.len() - i,
            {
                proof {
                    assert(value_in(h.lists[id.0 as int][i as int], h));
                }
                let ghost before = out@;
                let ghost bud_before = *budget as nat;
                let ok = hash_content(&xs[i], heap, out, budget);
                if !ok {
                    proof {
                        assert(encode_list(h, xs@, i as int, bud_before) is None);
                        assert(encode_list(h, xs@, 0, b0) is None);
                        assert(*v == Value::List(*id));
                        assert(encode(h, Value::List(*id), b0 + 1) is None);
                    }
                    return false;
                }
                proof {
                    let e = encode(h, xs@[i as int], bud_before).unwrap();
                    assert(out@.subrange(head.len() as int, out@.len() as int) =~= before.subrange(
                        head.len() as int,
                        before.len() as int,
                    ) + e.0);
                    assert(out@.subrange(0, head.len() as int) =~= before.subrange(0, head.len() as int));
                }
                i = i + 1;
            }
            proof {
                let sub = out@.subrange(head.len() as int, out@.len() as int);
                assert(out@ =~= head + sub);
                assert(out@ =~= old(out)@ + (seq![5u8] + le_bytes(xs@.len(), 8)) + sub);
            }
            true
        },
        Value::Symbol(s) => {
            out.push(11u8);
            push_le(out, s.0 as u64, 4);
            proof {
                assert(out@ =~= old(out)@ + (seq![11u8] + le_bytes(s.0 as nat, 4)));
            }
            true
        },
        Value::Record(id) => {
            let es = heap.get_map(*id);
            let ghost ev = h.maps[id.0 as int].entries;
            out.push(6u8);
            push_le(out, es.len() as u64, 8);
            let ghost head = out@;
            let ghost b0 = *budget as nat;
            proof {
                assert(es@.len() == ev.len());
                assert(head =~= old(out)@ + (seq![6u8] + le_bytes(ev.len(), 8)));
                assert(out@.subrange(head.len() as int, out@.len() as int) =~= Seq::<u8>::empty());
                assert(out@.subrange(0, head.len() as int) =~= head);
            }
            let mut i: usize = 0;
            while i < es.len()
                invariant
                    i <= es.len(),
                    heap.wf(),
                    h == heap@,
                    es@.map_values(|x: (String, Value)| (x.0@, x.1)) == ev,
                    ev == h.maps[id.0 as int].entries,
                    id.0 < h.maps.len(),
                    *budget <= b0,
                    b0 + 1 == *old(budget),
                    *v == Value::Record(*id),
                    head =~= old(out)@ + (seq![6u8] + le_bytes(ev.len(), 8)),
                    encode_entries(h, ev, 0, b0) == prefixed(
                        out@.subrange(head.len() as int, out@.len() as int),
                        encode_entries(h, ev, i as int, *budget as nat),
                    ),
                    head.len() <= out@.len(),
                    out@.subrange(0, head.len() as int) == head,
                decreases es.len() - i,
            {
                proof {
                    assert(ev[i as int] == (es@[i as int].0@, es@[i as int].1));
                    assert(value_in(h.maps[id.0 as int].entries[i as int].1, h));
                }
                let ghost before = out@;
                let ghost bud_before = *budget as nat;
                let key = es[i].0.as_str().as_bytes();
                let mut j: usize = 0;
                while j < key.len()
                    invariant
                        j <= key.len(),
                        out@ == before + key@.take(j as int),
                    decreases key.len() - j,
                {
                    out.push(key[j]);
                    proof {
                        assert(key@.take((j + 1) as int) =~= key@.take(j as int).push(key@[j as int]));
                    }
                    j = j + 1;
                }
                out.push(0u8);
                let ghost mid = out@;
                proof {
                    assert(key@.take(key.len() as int) =~= key@);
                    assert(mid =~= before + (encode_utf8(ev[i as int].0) + seq![0u8]));
                }
                let ok = hash_content(&es[i].1, heap, out, budget);
                if !ok {
                    proof {
                        assert(encode_entries(h, ev, i as int, bud_before) is None);
                        assert(encode_entries(h, ev, 0, b0) is None);
                        assert(encode(h, Value::Record(*id), b0 + 1) is None);
                    }
                    return false;
                }
                proof {
                    let e = encode(h, ev[i as int].1, bud_before).unwrap();
                    assert(out@.subrange(head.len() as int, out@.len() as int) =~= before.subrange(
                        head.len() as int,
                        before.len() as int,
                    ) + (encode_utf8(ev[i as int].0) + seq![0u8] + e.0));
                    assert(out@.subrange(0, head.len() as int) =~= before.subrange(0, head.len() as int));
                }
                i = i + 1;
            }
            proof {
                let sub = out@.subrange(head.len() as int, out@.len() as int);
                assert(out@ =~= head + sub);
                assert(out@ =~= old(out)@ + (seq![6u8] + le_bytes(ev.len(), 8)) + sub);
            }
            true
        },
        Value::Cell(id) => {
            out.push(15u8);
            let ghost head = out@;
            let content = heap.cell_read(*id);
            proof {
                assert(value_in(h.cells[id.0 as int], h));
            }
            let ok = hash_content(&content, heap, out, budget);
            proof {
                if ok {
                    assert(out@ =~= old(out)@ + (seq![15u8] + encode(h, content, (*old(budget) - 1) as nat).unwrap().0));
                }
            }
            ok
        },
        Value::Pending(_) => false,
    }
}

/// Content fingerprint of a bound value, `None` (absent) included. Two
/// bindings with equal content fingerprint alike, whatever their heap ids.
pub fn fingerprint_binding(value: Option<&Value>, heap: &Heap) -> (fp: u64)
    requires
        heap.wf(),
        match value {
            Some(v) => value_in(*v, heap@),
            None => true,
        },
    ensures
        fp == fingerprint_spec(
            match value {
                Some(v) => Some(*v),
                None => None,
            },
            heap@,
        ),
{
    let mut bytes: Vec<u8> = Vec::new();
    match value {
        None => {
            bytes.push(0xFFu8);
            proof {
                assert(bytes@ =~= seq![0xFFu8]);
            }
        },
        Some(v) => {
            let mut budget: usize = FINGERPRINT_BUDGET;
            if !hash_content(v, heap, &mut bytes, &mut budget) {
                return UNFINGERPRINTABLE;
            }
            proof {
                assert(bytes@ =~= Seq::<u8>::empty() + bytes@);
            }
        },
    }
    let fp = hash_bytes(bytes.as_slice());
    if fp == UNFINGERPRINTABLE {
        fp - 1
    } else {
        fp
    }
}

// ── the record ──────────────────────────────────────────────────────

/// The value bound to `sym`, if any.
pub open spec fn lookup(m: Map<SymbolId, Value>, sym: SymbolId) -> Option<Value> {
    if m.contains_key(sym) { Some(m[sym]) } else { None }
}

/// Every bound value names objects that exist in `h`.
pub open spec fn bindings_in(m: Map<SymbolId, Value>, h: HeapView) -> bool {
    forall|k: SymbolId| m.contains_key(k) ==> value_in(#[trigger] m[k], h)
}

/// `(symbol, fingerprint of what it is bound to now)` for each read symbol.
pub open spec fn fingerprints(
    syms: Seq<SymbolId>,
    m: Map<SymbolId, Value>,
    h: HeapView,
) -> Seq<(SymbolId, u64)> {
    syms.map_values(|s: SymbolId| (s, fingerprint_spec(lookup(m, s), h)))
}

/// The first read whose binding fingerprints differently now, scanning
/// from index `i`.
pub open spec fn first_changed(
    reads: Seq<(SymbolId, u64)>,
    m: Map<SymbolId, Value>,
    h: HeapView,
    i: int,
) -> Option<SymbolId>
    decreases reads.len() - i,
{
    if i < 0 || i >= reads.len() {
        None
    } else if fingerprint_spec(lookup(m, reads[i].0), h) != reads[i].1 {
        Some(reads[i].0)
    } else {
        first_changed(reads, m, h, i + 1)
    }
}

/// Why a run is needed now, in the order the checks are made: no record,
/// a forced run, unsettled state, consumed randomness, changed resources,
/// changed host data that the last run read, then the first read binding
/// whose fingerprint moved. `None` when running again would reproduce the
/// last run.
pub open spec fn run_needed_spec(
    d: RunDepsView,
    m: Map<SymbolId, Value>,
    h: HeapView,
    resources_revision: u64,
) -> Option<RunReason> {
    if !d.valid {
        Some(RunReason::NoRecord)
    } else if d.forced {
        Some(RunReason::Forced)
    } else if d.state_unsettled {
        Some(RunReason::StateUnsettled)
    } else if d.rng_consumed {
        Some(RunReason::RngConsumed)
    } else if resources_revision != d.resources_revision {
        Some(RunReason::ResourcesChanged)
    } else if d.host_read && d.host_data_now != d.host_data_revision {
        Some(RunReason::HostDataChanged)
    } else {
        match first_changed(d.reads, m, h, 0) {
            Some(s) => Some(RunReason::BindingChanged(s)),
            None => None,
        }
    }
}

/// Node budget for one state-write comparison.
pub const STATE_COMPARE_BUDGET: usize = 256;

/// Whether a slot that held `old` (`None` for a new slot) is changed by
/// now holding `new`: by content, giving up (answering "changed") past the
/// node budget.
pub open spec fn state_changed_spec(old: Option<Value>, new: Value, h: HeapView) -> bool {
    match old {
        None => true,
        Some(o) => !eq_spec(h, o, new, STATE_COMPARE_BUDGET as nat).0,
    }
}

/// Whether a `state` slot that held `old` is changed by now holding `new`.
pub fn state_changed(old: Option<Value>, new: Value, heap: &Heap) -> (r: bool)
    requires
        heap.wf(),
        value_in(new, heap@),
        match old {
            Some(o) => value_in(o, heap@),
            None => true,
        },
    ensures
        r == state_changed_spec(old, new, heap@),
{
    match old {
        None => true,
        Some(o) => !content_equal(&o, &new, heap, STATE_COMPARE_BUDGET),
    }
}

/// The value `bindings` holds for `sym` (`HashMap::get`, copied). The key
/// is a `u32` newtype whose `Eq` and `Hash` are derived, so the lookup
/// finds exactly the entry inserted under an equal key.
#[verifier::external_body]
pub(crate) fn binding_of(bindings: &HashMap<SymbolId, Value>, sym: SymbolId) -> (r: Option<Value>)
    ensures
        r == lookup(bindings@, sym),
{
    bindings.get(&sym).copied()
}

impl RunDeps {
    proof fn lemma_wf_frame(a: &RunDeps, b: &RunDeps)
        requires
            a.wf(),
            a.read_flags@ == b.read_flags@,
            a.read_list@ == b.read_list@,
        ensures
            b.wf(),
    {
        assert forall|k: int|
            0 <= k < b.read_flags@.len() && #[trigger] b.read_flags@[k] implies exists|j: int|
            0 <= j < b.read_list@.len() && b.read_list@[j].0 == k by {
            assert(a.read_flags@[k]);
        }
    }

    /// Every field but the three vectors is the same in `a` and `b`.
    closed spec fn same_scalars(a: RunDeps, b: RunDeps) -> bool {
        &&& a.host_read == b.host_read
        &&& a.host_data_revision == b.host_data_revision
        &&& a.host_data_now == b.host_data_now
        &&& a.rng_at_start == b.rng_at_start
        &&& a.rng_consumed == b.rng_consumed
        &&& a.state_unsettled == b.state_unsettled
        &&& a.resources_revision == b.resources_revision
        &&& a.valid == b.valid
        &&& a.forced == b.forced
        &&& a.binding_reads == b.binding_reads
        &&& a.host_reads == b.host_reads
        &&& a.resource_reads == b.resource_reads
        &&& a.emits == b.emits
        &&& a.effects == b.effects
    }

    /// The bookkeeping invariant: `read_flags[k]` is set exactly for the
    /// symbols in `read_list`, which holds no symbol twice.
    pub closed spec fn wf(&self) -> bool {
        &&& forall|j: int|
            0 <= j < self.read_list@.len() ==> (#[trigger] self.read_list@[j]).0
                < self.read_flags@.len() && self.read_flags@[self.read_list@[j].0 as int]
        &&& forall|k: int|
            0 <= k < self.read_flags@.len() && #[trigger] self.read_flags@[k] ==> exists|j: int|
                0 <= j < self.read_list@.len() && self.read_list@[j].0 == k
        &&& self.read_list@.no_duplicates()
    }

    /// A fresh record: nothing read, no completed run.
    pub fn new() -> (d: RunDeps)
        ensures
            d.wf(),
            d@ == (RunDepsView {
                read_list: Seq::empty(),
                reads: Seq::empty(),
                host_read: false,
                host_data_revision: 0,
                host_data_now: 0,
                rng_at_start: 0,
                rng_consumed: false,
                state_unsettled: false,
                resources_revision: 0,
                valid: false,
                forced: false,
                activity: Activity {
                    binding_reads: 0,
                    host_reads: 0,
                    resource_reads: 0,
                    emits: 0,
                    effects: 0,
                },
            }),
    {
        let d = RunDeps {
            read_flags: Vec::new(),
            read_list: Vec::new(),
            reads: Vec::new(),
            host_read: false,
            host_data_revision: 0,
            host_data_now: 0,
            rng_at_start: 0,
            rng_consumed: false,
            state_unsettled: false,
            resources_revision: 0,
            valid: false,
            forced: false,
            binding_reads: 0,
            host_reads: 0,
            resource_reads: 0,
            emits: 0,
            effects: 0,
        };
        proof {
            assert(d@.read_list =~= Seq::<SymbolId>::empty());
            assert(d@.reads =~= Seq::<(SymbolId, u64)>::empty());
        }
        d
    }

    /// Record that the run in progress read binding `sym`. The symbol is
    /// listed once no matter how often it is read.
    pub fn note_binding_read(&mut self, sym: SymbolId)
        requires
            old(self).wf(),
        ensures
            final(self).wf(),
            final(self)@ == noted(old(self)@, sym),
    {
        self.binding_reads = inc(self.binding_reads);
        let i = sym.0 as usize;
        let ghost flags0 = self.read_flags@;
        while self.read_flags.len() <= i
            invariant
                flags0 == old(self).read_flags@,
                self.read_flags@.len() >= flags0.len(),
                self.read_flags@.subrange(0, flags0.len() as int) == flags0,
                forall|k: int| flags0.len() <= k < self.read_flags@.len() ==> !self.read_flags@[k],
                self.read_list@ == old(self).read_list@,
                self.reads@ == old(self).reads@,
                self.binding_reads == wrap_inc(old(self).binding_reads),
                RunDeps::same_scalars(*self, *old(self)) || self.binding_reads != old(self).binding_reads,
                self.host_read == old(self).host_read,
                self.host_data_revision == old(self).host_data_revision,
                self.host_data_now == old(self).host_data_now,
                self.rng_at_start == old(self).rng_at_start,
                self.rng_consumed == old(self).rng_consumed,
                self.state_unsettled == old(self).state_unsettled,
                self.resources_revision == old(self).resources_revision,
                self.valid == old(self).valid,
                self.forced == old(self).forced,
                self.host_reads == old(self).host_reads,
                self.resource_reads == old(self).resource_reads,
                self.emits == old(self).emits,
                self.effects == old(self).effects,
            decreases i + 1 - self.read_flags.len(),
        {
            let ghost before = self.read_flags@;
            self.read_flags.push(false);
            proof {
                assert(self.read_flags@.subrange(0, flags0.len() as int) =~= before.subrange(
                    0,
                    flags0.len() as int,
                ));
            }
        }
        proof {
            assert forall|k: int| 0 <= k < flags0.len() implies self.read_flags@[k] == flags0[k] by {
                assert(self.read_flags@.subrange(0, flags0.len() as int)[k] == self.read_flags@[k]);
            }
            assert forall|k: int|
                0 <= k < self.read_flags@.len() && #[trigger] self.read_flags@[k] implies exists|j: int|
                0 <= j < self.read_list@.len() && self.read_list@[j].0 == k by {
                assert(k < flags0.len());
                assert(flags0[k]);
            }
        }
        if !self.read_flags[i] {
            proof {
                if self.read_list@.contains(sym) {
                    let j = choose|j: int| 0 <= j < self.read_list@.len() && self.read_list@[j] == sym;
                    assert(self.read_flags@[self.read_list@[j].0 as int]);
                }
            }
            self.read_flags.set(i, true);
            let ghost before = self.read_list@;
            self.read_list.push(sym);
            proof {
                assert(!before.contains(sym));
                assert forall|k: int|
                    0 <= k < self.read_flags@.len() && #[trigger] self.read_flags@[k] implies exists|
                    j: int,
                | 0 <= j < self.read_list@.len() && self.read_list@[j].0 == k by {
                    if k == i as int {
                        assert(self.read_list@[before.len() as int].0 == k);
                    } else {
                        let j = choose|j: int| 0 <= j < before.len() && before[j].0 == k;
                        assert(self.read_list@[j].0 == k);
                    }
                }
                assert forall|j: int| 0 <= j < self.read_list@.len() implies (
                #[trigger] self.read_list@[j]).0 < self.read_flags@.len()
                    && self.read_flags@[self.read_list@[j].0 as int] by {
                    if j < before.len() {
                        assert(before[j].0 < self.read_flags@.len());
                    }
                }
                assert forall|a: int, b: int|
                    0 <= a < self.read_list@.len() && 0 <= b < self.read_list@.len() && a
                        != b implies self.read_list@[a] != self.read_list@[b] by {
                    if a == before.len() as int {
                        assert(!before.contains(sym));
                        assert(before[b] != sym);
                    } else if b == before.len() as int {
                        assert(before[a] != sym);
                    }
                }
            }
        } else {
            proof {
                let j = choose|j: int| 0 <= j < self.read_list@.len() && self.read_list@[j].0 == i;
                assert(self.read_list@[j] == sym);
            }
        }
    }

    /// Record that the run in progress consulted host data the binding
    /// table does not cover.
    pub fn note_host_read(&mut self)
        ensures
            old(self).wf() ==> final(self).wf(),
            final(self)@ == (RunDepsView {
                host_read: true,
                activity: Activity {
                    host_reads: wrap_inc(old(self)@.activity.host_reads),
                    ..old(self)@.activity
                },
                ..old(self)@
            }),
    {
        self.host_read = true;
        self.host_reads = inc(self.host_reads);
        proof {
            if old(self).wf() {
                RunDeps::lemma_wf_frame(old(self), self);
            }
        }
    }

    /// Record that a native consulted the resource table.
    pub fn note_resource_read(&mut self)
        ensures
            old(self).wf() ==> final(self).wf(),
            final(self)@ == (RunDepsView {
                activity: Activity {
                    resource_reads: wrap_inc(old(self)@.activity.resource_reads),
                    ..old(self)@.activity
                },
                ..old(self)@
            }),
    {
        self.resource_reads = inc(self.resource_reads);
        proof {
            if old(self).wf() {
                RunDeps::lemma_wf_frame(old(self), self);
            }
        }
    }

    /// Record that a native pushed a value into an output buffer.
    pub fn note_emit(&mut self)
        ensures
            old(self).wf() ==> final(self).wf(),
            final(self)@ == (RunDepsView {
                activity: Activity { emits: wrap_inc(old(self)@.activity.emits), ..old(self)@.activity },
                ..old(self)@
            }),
    {
        self.emits = inc(self.emits);
        proof {
            if old(self).wf() {
                RunDeps::lemma_wf_frame(old(self), self);
            }
        }
    }

    /// Record that a native did something a replay could not reproduce.
    pub fn note_effect(&mut self)
        ensures
            old(self).wf() ==> final(self).wf(),
            final(self)@ == (RunDepsView {
                activity: Activity {
                    effects: wrap_inc(old(self)@.activity.effects),
                    ..old(self)@.activity
                },
                ..old(self)@
            }),
    {
        self.effects = inc(self.effects);
        proof {
            if old(self).wf() {
                RunDeps::lemma_wf_frame(old(self), self);
            }
        }
    }

    /// The activity counters as a snapshot.
    pub fn activity(&self) -> (a: Activity)
        ensures
            a == self@.activity,
    {
        Activity {
            binding_reads: self.binding_reads,
            host_reads: self.host_reads,
            resource_reads: self.resource_reads,
            emits: self.emits,
            effects: self.effects,
        }
    }

    /// The host-data revision now.
    pub fn host_data_now(&self) -> (r: u64)
        ensures
            r == self@.host_data_now,
    {
        self.host_data_now
    }

    /// Record that a `state` slot changed value during the run in progress.
    pub fn note_state_unsettled(&mut self)
        ensures
            old(self).wf() ==> final(self).wf(),
            final(self)@ == (RunDepsView { state_unsettled: true, ..old(self)@ }),
    {
        self.state_unsettled = true;
        proof {
            if old(self).wf() {
                RunDeps::lemma_wf_frame(old(self), self);
            }
        }
    }

    /// Record a write that replaced `old` with `new` in a `state` slot, and
    /// mark the run unsettled if that changed the slot. `mutated` means an
    /// in-place producer already edited the slot's object.
    pub fn note_state_write(&mut self, previous: Option<Value>, new: Value, mutated: bool, heap: &Heap)
        requires
            heap.wf(),
            value_in(new, heap@),
            match previous {
                Some(o) => value_in(o, heap@),
                None => true,
            },
        ensures
            old(self).wf() ==> final(self).wf(),
            final(self)@ == (RunDepsView {
                state_unsettled: old(self)@.state_unsettled || mutated || state_changed_spec(
                    previous,
                    new,
                    heap@,
                ),
                ..old(self)@
            }),
    {
        if !self.state_unsettled && (mutated || state_changed(previous, new, heap)) {
            self.state_unsettled = true;
        }
        proof {
            if old(self).wf() {
                RunDeps::lemma_wf_frame(old(self), self);
            }
        }
    }

    /// Whether the run in progress (or the last run) has changed some state
    /// slot's value.
    pub fn state_unsettled(&self) -> (r: bool)
        ensures
            r == self@.state_unsettled,
    {
        self.state_unsettled
    }

    /// Whether the last run consulted host data outside the binding table.
    pub fn host_read(&self) -> (r: bool)
        ensures
            r == (self@.valid && self@.host_read),
    {
        self.valid && self.host_read
    }

    /// Whether the last run consumed randomness.
    pub fn rng_consumed(&self) -> (r: bool)
        ensures
            r == (self@.valid && self@.rng_consumed),
    {
        self.valid && self.rng_consumed
    }

    /// The bindings the last run read, in first-read order.
    pub fn bindings_read(&self) -> (syms: Vec<SymbolId>)
        ensures
            syms@ == self@.reads.map_values(|r: (SymbolId, u64)| r.0),
    {
        let mut out: Vec<SymbolId> = Vec::new();
        let mut i: usize = 0;
        while i < self.reads.len()
            invariant
                i <= self.reads.len(),
                out@ == self.reads@.take(i as int).map_values(|r: (SymbolId, u64)| r.0),
            decreases self.reads.len() - i,
        {
            out.push(self.reads[i].0);
            proof {
                assert(self.reads@.take((i + 1) as int).map_values(|r: (SymbolId, u64)| r.0)
                    =~= self.reads@.take(i as int).map_values(|r: (SymbolId, u64)| r.0).push(
                    self.reads@[i as int].0,
                ));
            }
            i = i + 1;
        }
        proof {
            assert(self.reads@.take(self.reads.len() as int) =~= self.reads@);
        }
        out
    }

    /// Whether a completed run has recorded its dependencies.
    pub fn is_valid(&self) -> (r: bool)
        ensures
            r == self@.valid,
    {
        self.valid
    }

    /// Ask for a run regardless of what changed.
    pub fn force(&mut self)
        ensures
            old(self).wf() ==> final(self).wf(),
            final(self)@ == (RunDepsView { forced: true, ..old(self)@ }),
    {
        self.forced = true;
        proof {
            if old(self).wf() {
                RunDeps::lemma_wf_frame(old(self), self);
            }
        }
    }

    /// The host's data behind `host_data`-style natives changed.
    pub fn note_host_data_changed(&mut self)
        ensures
            old(self).wf() ==> final(self).wf(),
            final(self)@ == (RunDepsView {
                host_data_now: wrap_inc64(old(self)@.host_data_now),
                ..old(self)@
            }),
    {
        self.host_data_now = if self.host_data_now == u64::MAX { 0 } else { self.host_data_now + 1 };
        proof {
            if old(self).wf() {
                RunDeps::lemma_wf_frame(old(self), self);
            }
        }
    }

    /// Start recording a run: clear the in-progress scratch and mark the
    /// record invalid until [`finish_run`](Self::finish_run).
    pub fn begin_run(&mut self, rng_state: u64)
        requires
            old(self).wf(),
        ensures
            final(self).wf(),
            final(self)@ == begun(old(self)@, rng_state),
    {
        let n = self.read_list.len();
        let mut i: usize = 0;
        while i < n
            invariant
                i <= n == self.read_list@.len(),
                self.read_flags@.len() == old(self).read_flags@.len(),
                self.read_list@ == old(self).read_list@,
                self.read_list@.no_duplicates(),
                self.reads@ == old(self).reads@,
                RunDeps::same_scalars(*self, *old(self)),
                forall|j: int|
                    0 <= j < self.read_list@.len() ==> (#[trigger] self.read_list@[j]).0
                        < self.read_flags@.len(),
                forall|j: int|
                    i <= j < self.read_list@.len() ==> self.read_flags@[(
                    #[trigger] self.read_list@[j]).0 as int],
                forall|k: int|
                    0 <= k < self.read_flags@.len() && #[trigger] self.read_flags@[k] ==> exists|j: int|
                        i <= j < self.read_list@.len() && self.read_list@[j].0 == k,
            decreases n - i,
        {
            let k = self.read_list[i].0 as usize;
            self.read_flags.set(k, false);
            proof {
                assert forall|j: int| i + 1 <= j < self.read_list@.len() implies self.read_flags@[(
                #[trigger] self.read_list@[j]).0 as int] by {
                    assert(self.read_list@[j] != self.read_list@[i as int]);
                    assert(self.read_list@[j].0 != self.read_list@[i as int].0);
                }
                assert forall|k2: int|
                    0 <= k2 < self.read_flags@.len() && #[trigger] self.read_flags@[k2] implies exists|
                    j: int,
                | i + 1 <= j < self.read_list@.len() && self.read_list@[j].0 == k2 by {
                    let j = choose|j: int|
                        i <= j < self.read_list@.len() && self.read_list@[j].0 == k2;
                    assert(j != i);
                }
            }
            i = i + 1;
        }
        self.read_list.clear();
        self.host_read = false;
        self.state_unsettled = false;
        self.rng_consumed = false;
        self.rng_at_start = rng_state;
        self.valid = false;
        self.forced = false;
        proof {
            assert(self.read_list@ =~= Seq::<SymbolId>::empty());
        }
    }

    /// Complete the record for a run: fingerprint each binding it read as
    /// bound now, note whether the RNG moved since the run began, and take
    /// the current resource and host-data revisions.
    pub fn finish_run(
        &mut self,
        bindings: &HashMap<SymbolId, Value>,
        heap: &Heap,
        rng_state: u64,
        resources_revision: u64,
    )
        requires
            old(self).wf(),
            heap.wf(),
            bindings_in(bindings@, heap@),
        ensures
            final(self).wf(),
            final(self)@ == finished(old(self)@, bindings@, heap@, rng_state, resources_revision),
    {
        self.reads.clear();
        let mut i: usize = 0;
        while i < self.read_list.len()
            invariant
                i <= self.read_list@.len(),
                self.read_list@ == old(self).read_list@,
                self.read_flags@ == old(self).read_flags@,
                self.reads@ == fingerprints(self.read_list@.take(i as int), bindings@, heap@),
                RunDeps::same_scalars(*self, *old(self)),
                old(self).wf(),
                heap.wf(),
                bindings_in(bindings@, heap@),
            decreases self.read_list.len() - i,
        {
            let sym = self.read_list[i];
            let bound = binding_of(bindings, sym);
            let fp = match &bound {
                Some(v) => fingerprint_binding(Some(v), heap),
                None => fingerprint_binding(None, heap),
            };
            self.reads.push((sym, fp));
            proof {
                assert(self.read_list@.take((i + 1) as int) =~= self.read_list@.take(i as int).push(
                    sym,
                ));
                assert(self.reads@ =~= fingerprints(
                    self.read_list@.take((i + 1) as int),
                    bindings@,
                    heap@,
                ));
            }
            i = i + 1;
        }
        proof {
            assert(self.read_list@.take(self.read_list@.len() as int) =~= self.read_list@);
        }
        self.rng_consumed = rng_state != self.rng_at_start;
        self.resources_revision = resources_revision;
        self.host_data_revision = self.host_data_now;
        self.valid = true;
        proof {
            RunDeps::lemma_wf_frame(old(self), self);
            assert(self.reads@ =~= fingerprints(old(self)@.read_list, bindings@, heap@));
        }
    }

    /// Whether a run is needed now, and why; `None` means the last run's
    /// inputs are all unchanged and it reached a fixed point.
    pub fn run_needed(
        &self,
        bindings: &HashMap<SymbolId, Value>,
        heap: &Heap,
        resources_revision: u64,
    ) -> (r: Option<RunReason>)
        requires
            heap.wf(),
            bindings_in(bindings@, heap@),
        ensures
            r == run_needed_spec(self@, bindings@, heap@, resources_revision),
    {
        if !self.valid {
            return Some(RunReason::NoRecord);
        }
        if self.forced {
            return Some(RunReason::Forced);
        }
        if self.state_unsettled {
            return Some(RunReason::StateUnsettled);
        }
        if self.rng_consumed {
            return Some(RunReason::RngConsumed);
        }
        if resources_revision != self.resources_revision {
            return Some(RunReason::ResourcesChanged);
        }
        if self.host_read && self.host_data_now != self.host_data_revision {
            return Some(RunReason::HostDataChanged);
        }
        let mut i: usize = 0;
        while i < self.reads.len()
            invariant
                i <= self.reads@.len(),
                heap.wf(),
                bindings_in(bindings@, heap@),
                self.valid && !self.forced && !self.state_unsettled && !self.rng_consumed,
                resources_revision == self.resources_revision,
                !(self.host_read && self.host_data_now != self.host_data_revision),
                first_changed(self.reads@, bindings@, heap@, 0) == first_changed(
                    self.reads@,
                    bindings@,
                    heap@,
                    i as int,
                ),
            decreases self.reads.len() - i,
        {
            let (sym, fp) = self.reads[i];
            let bound = binding_of(bindings, sym);
            let now = match &bound {
                Some(v) => fingerprint_binding(Some(v), heap),
                None => fingerprint_binding(None, heap),
            };
            if now != fp {
                return Some(RunReason::BindingChanged(sym));
            }
            i = i + 1;
        }
        None
    }
}

impl Default for RunDeps {
    /// A fresh record: nothing read, no completed run.
    fn default() -> (d: RunDeps)
        ensures
            d.wf(),
            !d@.valid,
            d@.read_list.len() == 0,
    {
        RunDeps::new()
    }
}

/// No read from `i` on has moved exactly when every one of them still has
/// the fingerprint it was recorded with.
proof fn lemma_first_changed_none(reads: Seq<(SymbolId, u64)>, m: Map<SymbolId, Value>, h: HeapView, i: int)
    requires
        0 <= i <= reads.len(),
    ensures
        first_changed(reads, m, h, i) is None <==> forall|j: int|
            i <= j < reads.len() ==> fingerprint_spec(lookup(m, #[trigger] reads[j].0), h) == reads[j].1,
    decreases reads.len() - i,
{
    if i < reads.len() {
        lemma_first_changed_none(reads, m, h, i + 1);
    }
}

/// Frame gating is exact: no run is needed exactly when the record is
/// complete, nothing forced a run, the last run left its state settled and
/// drew no random numbers, the resources have not moved, the host data it
/// consulted has not changed, and every binding it read still fingerprints
/// as it did.
pub proof fn law_run_needed_exactly_when_an_input_moved(
    d: RunDepsView,
    m: Map<SymbolId, Value>,
    h: HeapView,
    resources_revision: u64,
)
    ensures
        run_needed_spec(d, m, h, resources_revision) is None <==> {
            &&& d.valid
            &&& !d.forced
            &&& !d.state_unsettled
            &&& !d.rng_consumed
            &&& resources_revision == d.resources_revision
            &&& (d.host_read ==> d.host_data_now == d.host_data_revision)
            &&& forall|j: int|
                0 <= j < d.reads.len() ==> fingerprint_spec(lookup(m, #[trigger] d.reads[j].0), h) == d.reads[j].1
        },
{
    lemma_first_changed_none(d.reads, m, h, 0);
}

/// A completed run that left nothing unsettled (no forced run, no state
/// change, no randomness drawn) is not needed again while the bindings, the
/// heap and the resources stay as they were at its end.
pub proof fn law_settled_run_is_not_needed_again(
    d: RunDepsView,
    m: Map<SymbolId, Value>,
    h: HeapView,
    rng_state: u64,
    resources_revision: u64,
)
    requires
        !d.forced,
        !d.state_unsettled,
        rng_state == d.rng_at_start,
    ensures
        run_needed_spec(
            RunDepsView {
                reads: fingerprints(d.read_list, m, h),
                rng_consumed: rng_state != d.rng_at_start,
                resources_revision,
                host_data_revision: d.host_data_now,
                valid: true,
                ..d
            },
            m,
            h,
            resources_revision,
        ) is None,
{
    let reads = fingerprints(d.read_list, m, h);
    lemma_first_changed_none(reads, m, h, 0);
    assert forall|j: int| 0 <= j < reads.len() implies fingerprint_spec(lookup(m, #[trigger] reads[j].0), h)
        == reads[j].1 by {
        assert(reads[j] == (d.read_list[j], fingerprint_spec(lookup(m, d.read_list[j]), h)));
    }
}

/// The record after `begin_run(rng)`.
pub open spec fn begun(d: RunDepsView, rng: u64) -> RunDepsView {
    RunDepsView {
        read_list: Seq::empty(),
        host_read: false,
        state_unsettled: false,
        rng_consumed: false,
        rng_at_start: rng,
        valid: false,
        forced: false,
        ..d
    }
}

/// The record after `note_binding_read(sym)`.
pub open spec fn noted(d: RunDepsView, sym: SymbolId) -> RunDepsView {
    RunDepsView {
        read_list: if d.read_list.contains(sym) { d.read_list } else { d.read_list.push(sym) },
        activity: Activity { binding_reads: wrap_inc(d.activity.binding_reads), ..d.activity },
        ..d
    }
}

/// The record after noting each of `syms` in turn.
pub open spec fn noted_all(d: RunDepsView, syms: Seq<SymbolId>) -> RunDepsView
    decreases syms.len(),
{
    if syms.len() == 0 {
        d
    } else {
        noted(noted_all(d, syms.drop_last()), syms.last())
    }
}

/// The record after `finish_run(m, h, rng, resources_revision)`.
pub open spec fn finished(d: RunDepsView, m: Map<SymbolId, Value>, h: HeapView, rng: u64, resources_revision: u64) -> RunDepsView {
    RunDepsView {
        reads: fingerprints(d.read_list, m, h),
        rng_consumed: rng != d.rng_at_start,
        resources_revision,
        host_data_revision: d.host_data_now,
        valid: true,
        ..d
    }
}

/// Each symbol of `syms` once, at its first occurrence, in order.
pub open spec fn first_reads(syms: Seq<SymbolId>) -> Seq<SymbolId>
    decreases syms.len(),
{
    if syms.len() == 0 {
        Seq::empty()
    } else if first_reads(syms.drop_last()).contains(syms.last()) {
        first_reads(syms.drop_last())
    } else {
        first_reads(syms.drop_last()).push(syms.last())
    }
}

/// What noting reads does to a fresh record: the list is `first_reads`, the
/// counter moves on by one per read (wrapping), nothing else changes.
proof fn lemma_noted_all(d: RunDepsView, syms: Seq<SymbolId>)
    requires
        d.read_list.len() == 0,
    ensures
        noted_all(d, syms).read_list == first_reads(syms),
        noted_all(d, syms).activity.binding_reads == (d.activity.binding_reads + syms.len()) % 0x1_0000_0000,
        noted_all(d, syms) == (RunDepsView {
            read_list: noted_all(d, syms).read_list,
            activity: Activity { binding_reads: noted_all(d, syms).activity.binding_reads, ..d.activity },
            ..d
        }),
    decreases syms.len(),
{
    if syms.len() > 0 {
        lemma_noted_all(d, syms.drop_last());
        let a = d.activity.binding_reads as int;
        let k = syms.len() - 1;
        vstd::arithmetic::div_mod::lemma_add_mod_noop(a + k, 1, 0x1_0000_0000);
        vstd::arithmetic::div_mod::lemma_small_mod(1nat, 0x1_0000_0000nat);
    } else {
        vstd::arithmetic::div_mod::lemma_small_mod(d.activity.binding_reads as nat, 0x1_0000_0000nat);
    }
}

/// [`first_reads`] lists exactly the symbols of `syms`, none twice.
pub proof fn lemma_first_reads(syms: Seq<SymbolId>)
    ensures
        forall|x: SymbolId| #[trigger] first_reads(syms).contains(x) <==> syms.contains(x),
        first_reads(syms).no_duplicates(),
    decreases syms.len(),
{
    if syms.len() > 0 {
        let p = syms.drop_last();
        let l = syms.last();
        lemma_first_reads(p);
        let f = first_reads(p);
        assert forall|x: SymbolId| #[trigger] syms.contains(x) <==> (p.contains(x) || x == l) by {
            if syms.contains(x) {
                let i = choose|i: int| 0 <= i < syms.len() && syms[i] == x;
                if i < syms.len() - 1 {
                    assert(p[i] == x);
                }
            }
            if p.contains(x) {
                let i = choose|i: int| 0 <= i < p.len() && p[i] == x;
                assert(syms[i] == x);
            }
            if x == l {
                assert(syms[syms.len() - 1] == x);
            }
        }
        if !f.contains(l) {
            let g = f.push(l);
            assert forall|x: SymbolId| #[trigger] g.contains(x) <==> (f.contains(x) || x == l) by {
                if g.contains(x) {
                    let i = choose|i: int| 0 <= i < g.len() && g[i] == x;
                    if i < f.len() {
                        assert(f[i] == x);
                    }
                }
                if f.contains(x) {
                    let i = choose|i: int| 0 <= i < f.len() && f[i] == x;
                    assert(g[i] == x);
                }
                if x == l {
                    assert(g[f.len() as int] == x);
                }
            }
            assert forall|i: int, j: int| 0 <= i < g.len() && 0 <= j < g.len() && i != j implies g[i] != g[j] by {
                if j == f.len() {
                    assert(f.contains(f[i]));
                } else if i == f.len() {
                    assert(f.contains(f[j]));
                } else {
                    assert(f[i] != f[j]);
                }
            }
        }
    }
}

/// A run starts afresh: right after `begin_run` no record stands, so a run is
/// needed whatever the bindings, heap and resources; the activity counters
/// and the host-data revision carry over; and a `force` made before it is
/// cleared, so the run it begins, once finished after any reads, is never
/// needed again for being forced.
pub proof fn law_begin_run_starts_afresh(
    d: RunDepsView,
    rng: u64,
    syms: Seq<SymbolId>,
    m: Map<SymbolId, Value>,
    h: HeapView,
    rng2: u64,
    resources_revision: u64,
)
    ensures
        run_needed_spec(begun(d, rng), m, h, resources_revision) == Some(RunReason::NoRecord),
        begun(d, rng).activity == d.activity,
        begun(d, rng).host_data_now == d.host_data_now,
        run_needed_spec(
            finished(noted_all(begun(d, rng), syms), m, h, rng2, resources_revision),
            m,
            h,
            resources_revision,
        ) != Some(RunReason::Forced),
{
    lemma_noted_all(begun(d, rng), syms);
}

/// A completed run lists the bindings it read once each, in the order it
/// first read them, and counts every read: after `begin_run`, reads of
/// `syms` (repeats allowed) and `finish_run`, the read bindings are
/// `first_reads(syms)`, which hold exactly the symbols read, none twice; the
/// record is complete; the read counter has moved on by `syms.len()`
/// (wrapping at 2^32).
pub proof fn law_reads_listed_once_in_first_read_order(
    d: RunDepsView,
    rng: u64,
    syms: Seq<SymbolId>,
    m: Map<SymbolId, Value>,
    h: HeapView,
    rng2: u64,
    resources_revision: u64,
)
    ensures
        ({
            let f = finished(noted_all(begun(d, rng), syms), m, h, rng2, resources_revision);
            &&& f.reads.map_values(|r: (SymbolId, u64)| r.0) == first_reads(syms)
            &&& f.valid
            &&& f.activity.binding_reads == (d.activity.binding_reads + syms.len()) % 0x1_0000_0000
        }),
        first_reads(syms).no_duplicates(),
        forall|x: SymbolId| #[trigger] first_reads(syms).contains(x) <==> syms.contains(x),
{
    lemma_noted_all(begun(d, rng), syms);
    lemma_first_reads(syms);
    let f = finished(noted_all(begun(d, rng), syms), m, h, rng2, resources_revision);
    assert(f.reads.map_values(|r: (SymbolId, u64)| r.0) =~= first_reads(syms));
}

} // verus!
