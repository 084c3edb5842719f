//! Opt-in execution profiling: which opcodes and which builtins a program
//! runs, and how often.
//!
//! Collection is a runtime switch: when [`VmProfile::enabled`] is false every
//! `record_*` leaves the profile as it is. Counters stop at `u64::MAX`.
//! Times are kept in nanoseconds.

use vstd::prelude::*;
use crate::isa::{inst_opcode, opcode_at, opcode_index, Inst, Opcode, OPCODE_COUNT};
use crate::program::FunctionId;

verus! {

/// `x + 1`, stopping at `u64::MAX`.
pub open spec fn sat_inc(x: u64) -> u64 {
    if x == u64::MAX {
        u64::MAX
    } else {
        (x + 1) as u64
    }
}

/// `x + y`, stopping at `u64::MAX`.
pub open spec fn sat_add(x: u64, y: u64) -> u64 {
    if x + y > u64::MAX {
        u64::MAX
    } else {
        (x + y) as u64
    }
}

/// The sum of the counters, stopping at `u64::MAX`.
pub open spec fn sat_sum(s: Seq<u64>) -> u64
    decreases s.len(),
{
    if s.len() == 0 {
        0
    } else {
        sat_add(sat_sum(s.drop_last()), s.last())
    }
}

/// `s`, extended with zeros to at least `n` entries.
pub open spec fn grown(s: Seq<u64>, n: nat) -> Seq<u64> {
    if s.len() >= n {
        s
    } else {
        s + Seq::new((n - s.len()) as nat, |i: int| 0u64)
    }
}

/// `s` grown to hold index `i`, with entry `i` advanced by `f`.
pub open spec fn bumped(s: Seq<u64>, i: nat, f: spec_fn(u64) -> u64) -> Seq<u64> {
    grown(s, i + 1).update(i as int, f(grown(s, i + 1)[i as int]))
}

/// The per-function counters' index for a function: 0 for the implicit
/// root, `id + 1` for a function.
pub open spec fn fn_slot_spec(func: Option<FunctionId>) -> nat {
    match func {
        None => 0,
        Some(f) => (f.0 + 1) as nat,
    }
}

/// Rows ranked first by their count, largest first, then by their id.
pub open spec fn ranks_before(a: (usize, u64, u64), b: (usize, u64, u64)) -> bool {
    a.1 > b.1 || (a.1 == b.1 && a.0 < b.0)
}

/// `out` holds the rows of `rows` ranked: the same rows, each pair in
/// rank order.
pub open spec fn is_ranking(rows: Seq<(usize, u64, u64)>, out: Seq<(usize, u64, u64)>) -> bool {
    &&& out.len() == rows.len()
    &&& forall|x: (usize, u64, u64)| out.contains(x) <==> rows.contains(x)
    &&& forall|a: int, b: int| 0 <= a < b < out.len() ==> ranks_before(#[trigger] out[a], #[trigger] out[b])
}

/// The rows `(i, counts[i], extra[i])` of every index below `n` where the
/// count (or, when `by_extra`, the extra) is nonzero, in index order.
pub open spec fn nonzero_rows(counts: Seq<u64>, extra: Seq<u64>, n: nat, keep: spec_fn(u64, u64) -> bool) -> Seq<(usize, u64, u64)>
    decreases n,
{
    if n == 0 {
        Seq::empty()
    } else {
        let i = (n - 1) as int;
        let c = if i < counts.len() { counts[i] } else { 0 };
        let e = if i < extra.len() { extra[i] } else { 0 };
        let rest = nonzero_rows(counts, extra, (n - 1) as nat, keep);
        if keep(c, e) {
            rest.push((i as usize, c, e))
        } else {
            rest
        }
    }
}

/// Ids strictly increasing.
pub open spec fn ids_increasing(rows: Seq<(usize, u64, u64)>) -> bool {
    forall|a: int, b: int| 0 <= a < b < rows.len() ==> (#[trigger] rows[a]).0 < (#[trigger] rows[b]).0
}

/// Rank rows whose ids increase: count first, then id.
fn rank(rows: &Vec<(usize, u64, u64)>) -> (out: Vec<(usize, u64, u64)>)
    requires
        ids_increasing(rows@),
    ensures
        is_ranking(rows@, out@),
{
    let mut out: Vec<(usize, u64, u64)> = Vec::new();
    let mut k: usize = 0;
    while k < rows.len()
        invariant
            k <= rows@.len(),
            ids_increasing(rows@),
            out@.len() == k,
            forall|x: (usize, u64, u64)| out@.contains(x) <==> rows@.take(k as int).contains(x),
            forall|a: int, b: int| 0 <= a < b < out@.len() ==> ranks_before(#[trigger] out@[a], #[trigger] out@[b]),
            forall|j: int| 0 <= j < out@.len() ==> exists|m: int| 0 <= m < k && #[trigger] out@[j] == #[trigger] rows@[m],
        decreases rows@.len() - k,
    {
        let row = rows[k];
        let mut p: usize = 0;
        while p < out.len() && out[p].1 >= row.1
            invariant
                p <= out@.len(),
                forall|j: int| 0 <= j < p ==> (#[trigger] out@[j]).1 >= row.1,
            decreases out@.len() - p,
        {
            p = p + 1;
        }
        proof {
            assert forall|j: int| 0 <= j < out@.len() implies (#[trigger] out@[j]).0 < row.0 by {
                let m = choose|m: int| 0 <= m < k && #[trigger] out@[j] == #[trigger] rows@[m];
                assert(rows@[m].0 < rows@[k as int].0);
            }
        }
        let ghost before = out@;
        out.insert(p, row);
        proof {
            assert(out@ == before.insert(p as int, row));
            assert(rows@.take((k + 1) as int) =~= rows@.take(k as int).push(row));
            let tk = rows@.take((k + 1) as int);
            let tp = rows@.take(k as int);
            assert(tk == tp.push(row));
            assert forall|x: (usize, u64, u64)| out@.contains(x) implies tk.contains(x) by {
                let j = choose|j: int| 0 <= j < out@.len() && out@[j] == x;
                if j == p {
                    assert(tk[k as int] == x);
                } else {
                    let i = if j < p { j } else { j - 1 };
                    assert(before[i] == x);
                    assert(before.contains(x));
                    assert(tp.contains(x));
                    let m = choose|m: int| 0 <= m < tp.len() && tp[m] == x;
                    assert(tk[m] == x);
                }
            }
            assert forall|x: (usize, u64, u64)| tk.contains(x) implies out@.contains(x) by {
                let m = choose|m: int| 0 <= m < tk.len() && tk[m] == x;
                if m == k {
                    assert(out@[p as int] == x);
                } else {
                    assert(tp[m] == x);
                    assert(tp.contains(x));
                    assert(before.contains(x));
                    let j = choose|j: int| 0 <= j < before.len() && before[j] == x;
                    if j < p {
                        assert(out@[j] == x);
                    } else {
                        assert(out@[j + 1] == x);
                    }
                }
            }
            assert forall|a: int, b: int| 0 <= a < b < out@.len() implies ranks_before(#[trigger] out@[a], #[trigger] out@[b]) by {
                if a < p && b < p {
                    assert(out@[a] == before[a] && out@[b] == before[b]);
                } else if a < p && b == p {
                    assert(out@[a] == before[a]);
                    assert(before[a].1 >= row.1 && before[a].0 < row.0);
                } else if a < p && b > p {
                    assert(out@[a] == before[a] && out@[b] == before[b - 1]);
                } else if a == p {
                    assert(out@[b] == before[b - 1]);
                    assert(before[p as int].1 < row.1);
                    if b - 1 > p {
                        assert(ranks_before(before[p as int], before[b - 1]));
                    }
                } else {
                    assert(out@[a] == before[a - 1] && out@[b] == before[b - 1]);
                }
            }
            assert forall|j: int| 0 <= j < out@.len() implies exists|m: int| 0 <= m < k + 1 && #[trigger] out@[j] == #[trigger] rows@[m] by {
                if j < p {
                    assert(out@[j] == before[j]);
                } else if j == p {
                    assert(out@[j] == rows@[k as int]);
                } else {
                    assert(out@[j] == before[j - 1]);
                }
            }
        }
        k = k + 1;
    }
    proof {
        assert(rows@.take(rows@.len() as int) =~= rows@);
    }
    out
}


/// Keep a row when its count is nonzero.
pub open spec fn count_nonzero() -> spec_fn(u64, u64) -> bool {
    |c: u64, e: u64| c > 0
}

/// Keep a row when its count or its extra is nonzero.
pub open spec fn either_nonzero() -> spec_fn(u64, u64) -> bool {
    |c: u64, e: u64| c > 0 || e > 0
}

/// Build the rows of every index below `n` whose count (or, when `either`,
/// count or extra) is nonzero.
fn collect_rows(counts: &Vec<u64>, extra: &Vec<u64>, n: usize, either: bool) -> (rows: Vec<(usize, u64, u64)>)
    ensures
        rows@ == nonzero_rows(counts@, extra@, n as nat, if either { either_nonzero() } else { count_nonzero() }),
        ids_increasing(rows@),
        forall|j: int| 0 <= j < rows@.len() ==> (#[trigger] rows@[j]).0 < n,
        forall|j: int| 0 <= j < rows@.len() ==> (#[trigger] rows@[j]).2 == (if (rows@[j].0 as int) < extra@.len() {
            extra@[rows@[j].0 as int]
        } else {
            0
        }),
{
    let ghost keep = if either { either_nonzero() } else { count_nonzero() };
    let mut rows: Vec<(usize, u64, u64)> = Vec::new();
    let mut i: usize = 0;
    while i < n
        invariant
            i <= n,
            keep == (if either { either_nonzero() } else { count_nonzero() }),
            rows@ == nonzero_rows(counts@, extra@, i as nat, keep),
            ids_increasing(rows@),
            forall|j: int| 0 <= j < rows@.len() ==> (#[trigger] rows@[j]).0 < i,
            forall|j: int| 0 <= j < rows@.len() ==> (#[trigger] rows@[j]).2 == (if (rows@[j].0 as int) < extra@.len() {
                extra@[rows@[j].0 as int]
            } else {
                0
            }),
        decreases n - i,
    {
        let c = if i < counts.len() { counts[i] } else { 0 };
        let e = if i < extra.len() { extra[i] } else { 0 };
        let take = if either { c > 0 || e > 0 } else { c > 0 };
        proof {
            assert(take == keep(c, e));
        }
        if take {
            let ghost before = rows@;
            rows.push((i, c, e));
            proof {
                assert forall|a: int, b: int| 0 <= a < b < rows@.len() implies (#[trigger] rows@[a]).0 < (#[trigger] rows@[b]).0 by {
                    if b < before.len() {
                        assert(rows@[a] == before[a] && rows@[b] == before[b]);
                    } else {
                        assert(rows@[a] == before[a]);
                    }
                }
            }
        }
        i = i + 1;
    }
    rows
}

/// What a profile holds, as plain values.
pub struct ProfileView {
    pub enabled: bool,
    pub by_opcode: Seq<u64>,
    pub by_native: Seq<u64>,
    pub by_function: Seq<u64>,
    pub native_time: Seq<u64>,
    pub fn_native_time: Seq<u64>,
    pub calls: u64,
    pub collections: u64,
    pub gc_nanos: u64,
}

/// A profile after one retired instruction `inst` is counted.
pub open spec fn count_inst(p: ProfileView, inst: Inst) -> ProfileView {
    ProfileView {
        by_opcode: p.by_opcode.update(
            opcode_index(inst_opcode(inst)) as int,
            sat_inc(p.by_opcode[opcode_index(inst_opcode(inst)) as int]),
        ),
        ..p
    }
}

/// A profile after one retired instruction `inst` of function `func` is
/// counted: the opcode count as [`count_inst`] does, plus the function's.
pub open spec fn count_inst_in(p: ProfileView, inst: Inst, func: Option<FunctionId>) -> ProfileView {
    ProfileView {
        by_function: bumped(p.by_function, fn_slot_spec(func), |t: u64| sat_inc(t)),
        ..count_inst(p, inst)
    }
}

/// A profile with nothing counted.
pub open spec fn fresh_profile(enabled: bool) -> ProfileView {
    ProfileView {
        enabled,
        by_opcode: Seq::new(OPCODE_COUNT as nat, |i: int| 0u64),
        by_native: Seq::empty(),
        by_function: Seq::empty(),
        native_time: Seq::empty(),
        fn_native_time: Seq::empty(),
        calls: 0,
        collections: 0,
        gc_nanos: 0,
    }
}

/// Execution counters for one profiled session: per opcode, per native
/// (by id), per function slot, native wall time, user calls and
/// collections.
#[derive(Debug, Clone)]
pub struct VmProfile {
    /// Master switch. Every recording path leaves the profile alone when
    /// this is false.
    pub enabled: bool,
    by_opcode: Vec<u64>,
    by_native: Vec<u64>,
    by_function: Vec<u64>,
    native_time: Vec<u64>,
    fn_native_time: Vec<u64>,
    /// User-function calls (VM frames pushed).
    pub calls: u64,
    /// Garbage collections run.
    pub collections: u64,
    /// Wall time the collections took, in nanoseconds.
    pub gc_nanos: u64,
}

fn zeros(n: usize) -> (v: Vec<u64>)
    ensures
        v@ == Seq::new(n as nat, |i: int| 0u64),
{
    let mut v: Vec<u64> = Vec::new();
    while v.len() < n
        invariant
            v@.len() <= n,
            forall|j: int| 0 <= j < v@.len() ==> v@[j] == 0,
        decreases n - v@.len(),
    {
        v.push(0);
    }
    proof {
        assert(v@ =~= Seq::new(n as nat, |i: int| 0u64));
    }
    v
}

/// Grow `v` to hold index `i`, then advance entry `i`: by one, or by
/// `amount` when `add` is set, stopping at `u64::MAX`.
fn bump(v: &mut Vec<u64>, i: usize, add: bool, amount: u64)
    ensures
        final(v)@ == bumped(old(v)@, i as nat, if add { |t: u64| sat_add(t, amount) } else { |t: u64| sat_inc(t) }),
{
    let ghost start = v@;
    while v.len() <= i
        invariant
            start.len() <= v@.len() <= if start.len() > i + 1 { start.len() as int } else { i + 1 },
            forall|j: int| 0 <= j < start.len() ==> v@[j] == start[j],
            forall|j: int| start.len() <= j < v@.len() ==> v@[j] == 0,
        decreases i + 1 - v@.len(),
    {
        v.push(0);
    }
    proof {
        assert(v@ =~= grown(start, (i + 1) as nat));
    }
    let old_val = v[i];
    let new_val = if add {
        match old_val.checked_add(amount) {
            Some(x) => x,
            None => u64::MAX,
        }
    } else if old_val < u64::MAX {
        old_val + 1
    } else {
        u64::MAX
    };
    v.set(i, new_val);
}

impl VmProfile {
    /// The profile's counters.
    pub closed spec fn view_spec(&self) -> ProfileView {
        ProfileView {
            enabled: self.enabled,
            by_opcode: self.by_opcode@,
            by_native: self.by_native@,
            by_function: self.by_function@,
            native_time: self.native_time@,
            fn_native_time: self.fn_native_time@,
            calls: self.calls,
            collections: self.collections,
            gc_nanos: self.gc_nanos,
        }
    }

    /// One counter per opcode; native ids fit in `u32`.
    pub open spec fn wf(&self) -> bool {
        &&& self.view_spec().by_opcode.len() == OPCODE_COUNT
        &&& self.view_spec().by_native.len() <= 0x1_0000_0000
        &&& self.view_spec().native_time.len() <= 0x1_0000_0000
    }

    /// A disabled profile with nothing counted.
    pub fn new() -> (p: VmProfile)
        ensures
            p.wf(),
            p.view_spec() == fresh_profile(false),
    {
        VmProfile {
            enabled: false,
            by_opcode: zeros(OPCODE_COUNT),
            by_native: Vec::new(),
            by_function: Vec::new(),
            native_time: Vec::new(),
            fn_native_time: Vec::new(),
            calls: 0,
            collections: 0,
            gc_nanos: 0,
        }
    }

    /// Clear every counter, leaving `enabled` alone.
    pub fn reset(&mut self)
        ensures
            final(self).wf(),
            final(self).view_spec() == fresh_profile(old(self).view_spec().enabled),
    {
        let on = self.enabled;
        *self = VmProfile::new();
        self.enabled = on;
    }

    /// Turn collection on (or off), clearing whatever was collected before.
    pub fn set_enabled(&mut self, on: bool)
        ensures
            final(self).wf(),
            final(self).view_spec() == fresh_profile(on),
    {
        self.reset();
        self.enabled = on;
    }

    /// Record one retired instruction.
    pub fn record_inst(&mut self, inst: &Inst)
        requires
            old(self).wf(),
        ensures
            final(self).wf(),
            !old(self).view_spec().enabled ==> final(self).view_spec() == old(self).view_spec(),
            old(self).view_spec().enabled ==> final(self).view_spec() == count_inst(old(self).view_spec(), *inst),
    {
        if !self.enabled {
            return;
        }
        let i = inst.opcode().index();
        let c = self.by_opcode[i];
        self.by_opcode.set(i, if c < u64::MAX { c + 1 } else { u64::MAX });
    }

    /// Record one retired instruction of function `func` (`None` = root):
    /// its opcode and its function slot.
    pub fn record_inst_in(&mut self, inst: &Inst, func: Option<FunctionId>)
        requires
            old(self).wf(),
            fn_slot_spec(func) < usize::MAX,
        ensures
            final(self).wf(),
            !old(self).view_spec().enabled ==> final(self).view_spec() == old(self).view_spec(),
            old(self).view_spec().enabled ==> final(self).view_spec() == count_inst_in(old(self).view_spec(), *inst, func),
    {
        if !self.enabled {
            return;
        }
        self.record_inst(inst);
        let slot = fn_slot(func);
        bump(&mut self.by_function, slot, false, 0);
    }

    /// Record the wall time, in nanoseconds, one call of native `nid` took,
    /// made from function `caller` (`None` = root).
    pub fn record_native_time(&mut self, nid: u32, caller: Option<FunctionId>, elapsed: u64)
        requires
            old(self).wf(),
            fn_slot_spec(caller) < usize::MAX,
        ensures
            final(self).wf(),
            !old(self).view_spec().enabled ==> final(self).view_spec() == old(self).view_spec(),
            old(self).view_spec().enabled ==> final(self).view_spec() == (ProfileView {
                native_time: bumped(old(self).view_spec().native_time, nid as nat, |t: u64| sat_add(t, elapsed)),
                fn_native_time: bumped(old(self).view_spec().fn_native_time, fn_slot_spec(caller), |t: u64| sat_add(t, elapsed)),
                ..old(self).view_spec()
            }),
    {
        if !self.enabled {
            return;
        }
        bump(&mut self.native_time, nid as usize, true, elapsed);
        let slot = fn_slot(caller);
        bump(&mut self.fn_native_time, slot, true, elapsed);
    }

    /// Record one native/builtin invocation by table index.
    pub fn record_native(&mut self, nid: u32)
        requires
            old(self).wf(),
        ensures
            final(self).wf(),
            !old(self).view_spec().enabled ==> final(self).view_spec() == old(self).view_spec(),
            old(self).view_spec().enabled ==> final(self).view_spec() == (ProfileView {
                by_native: bumped(old(self).view_spec().by_native, nid as nat, |t: u64| sat_inc(t)),
                ..old(self).view_spec()
            }),
    {
        if !self.enabled {
            return;
        }
        bump(&mut self.by_native, nid as usize, false, 0);
    }

    /// Record one user-function call.
    pub fn record_call(&mut self)
        ensures
            !old(self).view_spec().enabled ==> final(self).view_spec() == old(self).view_spec(),
            old(self).view_spec().enabled ==> final(self).view_spec() == (ProfileView {
                calls: sat_inc(old(self).view_spec().calls),
                ..old(self).view_spec()
            }),
            old(self).wf() ==> final(self).wf(),
    {
        if !self.enabled {
            return;
        }
        if self.calls < u64::MAX {
            self.calls = self.calls + 1;
        }
    }

    /// Record one completed garbage collection and the nanoseconds it took.
    pub fn record_gc(&mut self, elapsed: u64)
        ensures
            !old(self).view_spec().enabled ==> final(self).view_spec() == old(self).view_spec(),
            old(self).view_spec().enabled ==> final(self).view_spec() == (ProfileView {
                collections: sat_inc(old(self).view_spec().collections),
                gc_nanos: sat_add(old(self).view_spec().gc_nanos, elapsed),
                ..old(self).view_spec()
            }),
            old(self).wf() ==> final(self).wf(),
    {
        if !self.enabled {
            return;
        }
        if self.collections < u64::MAX {
            self.collections = self.collections + 1;
        }
        self.gc_nanos = match self.gc_nanos.checked_add(elapsed) {
            Some(x) => x,
            None => u64::MAX,
        };
    }

    /// Total instructions retired across all opcodes.
    pub fn total_insts(&self) -> (n: u64)
        ensures
            n == sat_sum(self.view_spec().by_opcode),
    {
        sum_counts(&self.by_opcode)
    }

    /// Total native/builtin invocations.
    pub fn total_natives(&self) -> (n: u64)
        ensures
            n == sat_sum(self.view_spec().by_native),
    {
        sum_counts(&self.by_native)
    }

    /// `(opcode, count)` for every opcode that ran, most frequent first
    /// (ties in opcode order).
    pub fn opcodes_by_count(&self) -> (r: Vec<(Opcode, u64)>)
        requires
            self.wf(),
        ensures
            is_ranking(
                nonzero_rows(self.view_spec().by_opcode, Seq::empty(), OPCODE_COUNT as nat, count_nonzero()),
                r@.map_values(|x: (Opcode, u64)| (opcode_index(x.0) as usize, x.1, 0u64)),
            ),
    {
        let none: Vec<u64> = Vec::new();
        let rows = collect_rows(&self.by_opcode, &none, OPCODE_COUNT, false);
        let ranked = rank(&rows);
        let mut out: Vec<(Opcode, u64)> = Vec::new();
        let mut k: usize = 0;
        while k < ranked.len()
            invariant
                k <= ranked@.len(),
                is_ranking(rows@, ranked@),
                forall|j: int| 0 <= j < rows@.len() ==> (#[trigger] rows@[j]).0 < OPCODE_COUNT && rows@[j].2 == 0,
                out@.map_values(|x: (Opcode, u64)| (opcode_index(x.0) as usize, x.1, 0u64)) == ranked@.take(k as int),
            decreases ranked@.len() - k,
        {
            let (i, c, _) = ranked[k];
            proof {
                assert(rows@.contains(ranked@[k as int]));
                let m = choose|m: int| 0 <= m < rows@.len() && rows@[m] == ranked@[k as int];
                assert(rows@[m].0 < OPCODE_COUNT);
            }
            let ghost before = out@;
            let op = Opcode::from_index(i);
            out.push((op, c));
            proof {
                let m = choose|m: int| 0 <= m < rows@.len() && rows@[m] == ranked@[k as int];
                assert(ranked@[k as int].2 == 0);
                assert(out@ == before.push((op, c)));
                assert(out@.map_values(|x: (Opcode, u64)| (opcode_index(x.0) as usize, x.1, 0u64)) =~= before.map_values(|x: (Opcode, u64)| (opcode_index(x.0) as usize, x.1, 0u64)).push(ranked@[k as int]));
                assert(ranked@.take((k + 1) as int) =~= ranked@.take(k as int).push(ranked@[k as int]));
            }
            k = k + 1;
        }
        proof {
            assert(ranked@.take(ranked@.len() as int) =~= ranked@);
        }
        out
    }

    /// `(native id, count)` for every native that ran, most frequent first
    /// (ties by id).
    pub fn natives_by_count(&self) -> (r: Vec<(u32, u64)>)
        requires
            self.wf(),
        ensures
            is_ranking(
                nonzero_rows(self.view_spec().by_native, Seq::empty(), self.view_spec().by_native.len(), count_nonzero()),
                r@.map_values(|x: (u32, u64)| (x.0 as usize, x.1, 0u64)),
            ),
    {
        let none: Vec<u64> = Vec::new();
        let rows = collect_rows(&self.by_native, &none, self.by_native.len(), false);
        let ranked = rank(&rows);
        let mut out: Vec<(u32, u64)> = Vec::new();
        let mut k: usize = 0;
        while k < ranked.len()
            invariant
                k <= ranked@.len(),
                is_ranking(rows@, ranked@),
                forall|j: int| 0 <= j < rows@.len() ==> (#[trigger] rows@[j]).0 < 0x1_0000_0000 && rows@[j].2 == 0,
                out@.map_values(|x: (u32, u64)| (x.0 as usize, x.1, 0u64)) == ranked@.take(k as int),
            decreases ranked@.len() - k,
        {
            let (i, c, _) = ranked[k];
            proof {
                assert(rows@.contains(ranked@[k as int]));
                let m = choose|m: int| 0 <= m < rows@.len() && rows@[m] == ranked@[k as int];
                assert(rows@[m].0 < 0x1_0000_0000);
            }
            let ghost before = out@;
            out.push((i as u32, c));
            proof {
                let m = choose|m: int| 0 <= m < rows@.len() && rows@[m] == ranked@[k as int];
                assert(ranked@[k as int].2 == 0);
                assert(out@ == before.push((i as u32, c)));
                assert(out@.map_values(|x: (u32, u64)| (x.0 as usize, x.1, 0u64)) =~= before.map_values(|x: (u32, u64)| (x.0 as usize, x.1, 0u64)).push(ranked@[k as int]));
                assert(ranked@.take((k + 1) as int) =~= ranked@.take(k as int).push(ranked@[k as int]));
            }
            k = k + 1;
        }
        proof {
            assert(ranked@.take(ranked@.len() as int) =~= ranked@);
        }
        out
    }

    /// `(fn slot, self instructions, nanoseconds in natives it called)` for
    /// every function that ran, by instruction count, most first (ties by
    /// slot).
    pub fn functions_by_count(&self) -> (r: Vec<(usize, u64, u64)>)
        ensures
            is_ranking(
                nonzero_rows(
                    self.view_spec().by_function,
                    self.view_spec().fn_native_time,
                    if self.view_spec().by_function.len() >= self.view_spec().fn_native_time.len() {
                        self.view_spec().by_function.len()
                    } else {
                        self.view_spec().fn_native_time.len()
                    },
                    either_nonzero(),
                ),
                r@,
            ),
    {
        let n = if self.by_function.len() >= self.fn_native_time.len() {
            self.by_function.len()
        } else {
            self.fn_native_time.len()
        };
        let rows = collect_rows(&self.by_function, &self.fn_native_time, n, true);
        rank(&rows)
    }

    /// `(native id, calls, nanoseconds)` for every timed native, by time,
    /// most first (ties by id).
    pub fn natives_by_time(&self) -> (r: Vec<(u32, u64, u64)>)
        requires
            self.wf(),
        ensures
            is_ranking(
                nonzero_rows(self.view_spec().native_time, self.view_spec().by_native, self.view_spec().native_time.len(), count_nonzero()),
                r@.map_values(|x: (u32, u64, u64)| (x.0 as usize, x.2, x.1)),
            ),
    {
        let rows = collect_rows(&self.native_time, &self.by_native, self.native_time.len(), false);
        let ranked = rank(&rows);
        let mut out: Vec<(u32, u64, u64)> = Vec::new();
        let mut k: usize = 0;
        while k < ranked.len()
            invariant
                k <= ranked@.len(),
                is_ranking(rows@, ranked@),
                forall|j: int| 0 <= j < rows@.len() ==> (#[trigger] rows@[j]).0 < 0x1_0000_0000,
                out@.map_values(|x: (u32, u64, u64)| (x.0 as usize, x.2, x.1)) == ranked@.take(k as int),
            decreases ranked@.len() - k,
        {
            let (i, t, c) = ranked[k];
            proof {
                assert(rows@.contains(ranked@[k as int]));
                let m = choose|m: int| 0 <= m < rows@.len() && rows@[m] == ranked@[k as int];
                assert(rows@[m].0 < 0x1_0000_0000);
            }
            let ghost before = out@;
            out.push((i as u32, c, t));
            proof {
                assert(out@ == before.push((i as u32, c, t)));
                assert(out@.map_values(|x: (u32, u64, u64)| (x.0 as usize, x.2, x.1)) =~= before.map_values(|x: (u32, u64, u64)| (x.0 as usize, x.2, x.1)).push(ranked@[k as int]));
                assert(ranked@.take((k + 1) as int) =~= ranked@.take(k as int).push(ranked@[k as int]));
            }
            k = k + 1;
        }
        proof {
            assert(ranked@.take(ranked@.len() as int) =~= ranked@);
        }
        out
    }
}

fn sum_counts(v: &Vec<u64>) -> (n: u64)
    ensures
        n == sat_sum(v@),
{
    let mut n: u64 = 0;
    let mut i: usize = 0;
    while i < v.len()
        invariant
            i <= v@.len(),
            n == sat_sum(v@.take(i as int)),
        decreases v@.len() - i,
    {
        proof {
            assert(v@.take((i + 1) as int).drop_last() =~= v@.take(i as int));
        }
        n = match n.checked_add(v[i]) {
            Some(x) => x,
            None => u64::MAX,
        };
        i = i + 1;
    }
    proof {
        assert(v@.take(v@.len() as int) =~= v@);
    }
    n
}

/// The per-function counters' index for a function: 0 for the implicit
/// root, `id + 1` for a function.
pub fn fn_slot(func: Option<FunctionId>) -> (s: usize)
    requires
        fn_slot_spec(func) < usize::MAX,
    ensures
        s == fn_slot_spec(func),
{
    match func {
        None => 0,
        Some(f) => f.0 as usize + 1,
    }
}

impl Default for VmProfile {
    /// A disabled profile with nothing counted.
    fn default() -> (p: VmProfile)
        ensures
            p.wf(),
            p.view_spec() == fresh_profile(false),
    {
        VmProfile::new()
    }
}


/// The digits of `d` from `i` on, with a comma before each digit that
/// starts a group of three counted from the end.
pub open spec fn grouped_from(d: Seq<char>, i: int) -> Seq<char>
    decreases d.len() - i,
{
    if i < 0 || i >= d.len() {
        Seq::empty()
    } else {
        let sep = if i > 0 && (d.len() - i) % 3 == 0 {
            seq![',']
        } else {
            Seq::empty()
        };
        sep + seq![d[i]] + grouped_from(d, i + 1)
    }
}

/// `1234567` → `1,234,567`.
pub fn commas(n: u64) -> (s: String)
    ensures
        s@ == grouped_from(crate::text::decimal(n as nat), 0),
{
    let digits = crate::text::decimal_chars(n);
    let len = digits.len();
    let mut out = String::new();
    let mut i: usize = 0;
    while i < len
        invariant
            i <= len,
            len == digits@.len(),
            out@ + grouped_from(digits@, i as int) == grouped_from(digits@, 0),
        decreases len - i,
    {
        let ghost before = out@;
        if i > 0 && (len - i) % 3 == 0 {
            crate::text::push_char(&mut out, ',');
        }
        crate::text::push_char(&mut out, digits[i]);
        proof {
            let sep = if i > 0 && (len - i) % 3 == 0 { seq![','] } else { Seq::<char>::empty() };
            assert(out@ =~= before + sep + seq![digits@[i as int]]);
            assert(grouped_from(digits@, i as int) == sep + seq![digits@[i as int]] + grouped_from(digits@, i + 1));
            assert(out@ + grouped_from(digits@, i + 1) =~= before + grouped_from(digits@, i as int));
        }
        i = i + 1;
    }
    proof {
        assert(out@ + Seq::<char>::empty() =~= out@);
    }
    out
}

/// The exact sum of the counters.
pub open spec fn total(s: Seq<u64>) -> int
    decreases s.len(),
{
    if s.len() == 0 {
        0
    } else {
        total(s.drop_last()) + s.last()
    }
}

/// The exact sum of the rows' counts.
pub open spec fn row_total(rows: Seq<(usize, u64, u64)>) -> int
    decreases rows.len(),
{
    if rows.len() == 0 {
        0
    } else {
        row_total(rows.drop_last()) + rows.last().1
    }
}

/// `x`, stopping at `u64::MAX`.
pub open spec fn clamp(x: int) -> u64 {
    if x > u64::MAX {
        u64::MAX
    } else if x < 0 {
        0
    } else {
        x as u64
    }
}

proof fn lemma_sat_sum_clamps(s: Seq<u64>)
    ensures
        total(s) >= 0,
        sat_sum(s) == clamp(total(s)),
    decreases s.len(),
{
    if s.len() > 0 {
        lemma_sat_sum_clamps(s.drop_last());
    }
}

proof fn lemma_rows_total(counts: Seq<u64>, n: nat)
    requires
        n <= counts.len() <= usize::MAX,
    ensures
        row_total(nonzero_rows(counts, Seq::empty(), n, count_nonzero())) == total(counts.take(n as int)),
        forall|a: int| 0 <= a < nonzero_rows(counts, Seq::empty(), n, count_nonzero()).len() ==> (#[trigger] nonzero_rows(counts, Seq::empty(), n, count_nonzero())[a]).0 < n,
        ids_increasing(nonzero_rows(counts, Seq::empty(), n, count_nonzero())),
    decreases n,
{
    if n > 0 {
        let m = (n - 1) as nat;
        lemma_rows_total(counts, m);
        assert(counts.take(n as int).drop_last() =~= counts.take(m as int));
        let rest = nonzero_rows(counts, Seq::empty(), m, count_nonzero());
        let rows = nonzero_rows(counts, Seq::empty(), n, count_nonzero());
        if counts[m as int] > 0 {
            assert(rows == rest.push((m as usize, counts[m as int], 0u64)));
            assert(rows.drop_last() =~= rest);
            assert forall|a: int, b: int| 0 <= a < b < rows.len() implies (#[trigger] rows[a]).0 < (#[trigger] rows[b]).0 by {
                if b < rows.len() - 1 {
                    assert(rows[a] == rest[a] && rows[b] == rest[b]);
                } else {
                    assert(rows[a] == rest[a]);
                    assert(rest[a].0 < m);
                    assert(rows[b].0 == m);
                }
            }
            assert forall|a: int| 0 <= a < rows.len() implies (#[trigger] rows[a]).0 < n by {
                if a < rows.len() - 1 {
                    assert(rows[a] == rest[a]);
                }
            }
        }
    }
}

proof fn lemma_row_total_remove(s: Seq<(usize, u64, u64)>, j: int)
    requires
        0 <= j < s.len(),
    ensures
        row_total(s) == row_total(s.remove(j)) + s[j].1,
    decreases s.len(),
{
    if j == s.len() - 1 {
        assert(s.remove(j) =~= s.drop_last());
    } else {
        lemma_row_total_remove(s.drop_last(), j);
        assert(s.remove(j).drop_last() =~= s.drop_last().remove(j));
        assert(s.remove(j).last() == s.last());
    }
}

/// No row occurs twice.
pub open spec fn distinct_rows(s: Seq<(usize, u64, u64)>) -> bool {
    forall|a: int, b: int| 0 <= a < b < s.len() ==> #[trigger] s[a] != #[trigger] s[b]
}

proof fn lemma_same_rows_same_total(rows: Seq<(usize, u64, u64)>, out: Seq<(usize, u64, u64)>)
    requires
        rows.len() == out.len(),
        distinct_rows(rows),
        distinct_rows(out),
        forall|x: (usize, u64, u64)| out.contains(x) <==> rows.contains(x),
    ensures
        row_total(out) == row_total(rows),
    decreases out.len(),
{
    if out.len() > 0 {
        let x = out.last();
        assert(out.contains(x)) by {
            assert(out[out.len() - 1] == x);
        }
        let j = choose|j: int| 0 <= j < rows.len() && rows[j] == x;
        let rows2 = rows.remove(j);
        let out2 = out.drop_last();
        lemma_row_total_remove(rows, j);
        assert forall|y: (usize, u64, u64)| out2.contains(y) <==> rows2.contains(y) by {
            if out2.contains(y) {
                let a = choose|a: int| 0 <= a < out2.len() && out2[a] == y;
                assert(out[a] == y);
                assert(y != x);
                assert(rows.contains(y));
                let b = choose|b: int| 0 <= b < rows.len() && rows[b] == y;
                assert(b != j);
                if b < j {
                    assert(rows2[b] == y);
                } else {
                    assert(rows2[b - 1] == y);
                }
            }
            if rows2.contains(y) {
                let b = choose|b: int| 0 <= b < rows2.len() && rows2[b] == y;
                if b < j {
                    assert(rows[b] == y);
                    assert(b != j);
                } else {
                    assert(rows[b + 1] == y);
                }
                assert(y != x);
                assert(out.contains(y));
                let a = choose|a: int| 0 <= a < out.len() && out[a] == y;
                assert(a != out.len() - 1);
                assert(out2[a] == y);
            }
        }
        assert(distinct_rows(rows2)) by {
            assert forall|a: int, b: int| 0 <= a < b < rows2.len() implies #[trigger] rows2[a] != #[trigger] rows2[b] by {
                let a1 = if a < j { a } else { a + 1 };
                let b1 = if b < j { b } else { b + 1 };
                assert(rows2[a] == rows[a1]);
                assert(rows2[b] == rows[b1]);
            }
        }
        assert(distinct_rows(out2)) by {
            assert forall|a: int, b: int| 0 <= a < b < out2.len() implies #[trigger] out2[a] != #[trigger] out2[b] by {
                assert(out2[a] == out[a]);
                assert(out2[b] == out[b]);
            }
        }
        lemma_same_rows_same_total(rows2, out2);
    }
}

/// The counts of the ranked opcode rows add up to the instructions retired:
/// ranking drops only the opcodes that never ran, and loses no count.
pub proof fn law_ranked_opcode_counts_sum_to_total(by_opcode: Seq<u64>, out: Seq<(usize, u64, u64)>)
    requires
        by_opcode.len() == OPCODE_COUNT,
        is_ranking(nonzero_rows(by_opcode, Seq::empty(), OPCODE_COUNT as nat, count_nonzero()), out),
    ensures
        clamp(row_total(out)) == sat_sum(by_opcode),
{
    let rows = nonzero_rows(by_opcode, Seq::empty(), OPCODE_COUNT as nat, count_nonzero());
    lemma_rows_total(by_opcode, OPCODE_COUNT as nat);
    assert(by_opcode.take(OPCODE_COUNT as int) =~= by_opcode);
    lemma_sat_sum_clamps(by_opcode);
    assert(distinct_rows(rows)) by {
        assert forall|a: int, b: int| 0 <= a < b < rows.len() implies #[trigger] rows[a] != #[trigger] rows[b] by {
            assert(rows[a].0 < rows[b].0);
        }
    }
    assert(distinct_rows(out)) by {
        assert forall|a: int, b: int| 0 <= a < b < out.len() implies #[trigger] out[a] != #[trigger] out[b] by {
            assert(ranks_before(out[a], out[b]));
        }
    }
    lemma_same_rows_same_total(rows, out);
}

proof fn lemma_total_update(s: Seq<u64>, i: int, v: u64)
    requires
        0 <= i < s.len(),
    ensures
        total(s.update(i, v)) == total(s) - s[i] + v,
    decreases s.len(),
{
    if i == s.len() - 1 {
        assert(s.update(i, v).drop_last() =~= s.drop_last());
    } else {
        lemma_total_update(s.drop_last(), i, v);
        assert(s.update(i, v).drop_last() =~= s.drop_last().update(i, v));
    }
}

proof fn lemma_total_grown(s: Seq<u64>, n: nat)
    ensures
        total(grown(s, n)) == total(s),
        grown(s, n).len() >= n,
        forall|i: int| 0 <= i < s.len() ==> #[trigger] grown(s, n)[i] == s[i],
    decreases n,
{
    if s.len() < n {
        let k = (n - s.len()) as nat;
        let t = s + Seq::new(k, |i: int| 0u64);
        assert(t.drop_last() =~= grown(s, (n - 1) as nat)) by {
            if s.len() < n - 1 {
                assert(t.drop_last() =~= s + Seq::new((k - 1) as nat, |i: int| 0u64));
            } else {
                assert(t.drop_last() =~= s);
            }
        }
        lemma_total_grown(s, (n - 1) as nat);
    }
}

/// Counting every instruction with its function keeps the per-function
/// counts adding up to the per-opcode counts: one more instruction adds one
/// to each side (short of a counter at `u64::MAX`).
pub proof fn law_attributed_instructions_add_up(p: ProfileView, inst: Inst, func: Option<FunctionId>)
    requires
        total(p.by_function) == total(p.by_opcode),
        opcode_index(inst_opcode(inst)) < p.by_opcode.len(),
        p.by_opcode[opcode_index(inst_opcode(inst)) as int] < u64::MAX,
        grown(p.by_function, fn_slot_spec(func) + 1)[fn_slot_spec(func) as int] < u64::MAX,
    ensures
        total(count_inst_in(p, inst, func).by_opcode) == total(p.by_opcode) + 1,
        total(count_inst_in(p, inst, func).by_function) == total(count_inst_in(p, inst, func).by_opcode),
{
    let i = opcode_index(inst_opcode(inst)) as int;
    lemma_total_update(p.by_opcode, i, sat_inc(p.by_opcode[i]));
    let slot = fn_slot_spec(func);
    let g = grown(p.by_function, slot + 1);
    lemma_total_grown(p.by_function, slot + 1);
    lemma_total_update(g, slot as int, sat_inc(g[slot as int]));
}

} // verus!
