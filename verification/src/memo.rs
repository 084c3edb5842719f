//! Structural equality and fingerprints the memo and the frame gate use to
//! decide whether an input is the same as last time.
//!
//! Comparison is by content, not by heap id: a list re-allocated this frame
//! with the same elements is the same input. Every comparison runs under a
//! node budget and answers "different" — the safe answer, which only costs a
//! re-run — once the budget is spent.

use vstd::prelude::*;
use crate::value::{CellId, Heap, HeapView, MapId, SymbolId, Value, heap_closed, value_in};

verus! {

/// Node budget for one argument comparison.
pub const ARG_COMPARE_BUDGET: usize = 512;

/// Node budget for comparing a re-executed child's outputs with the cached
/// ones, per emitted value, on top of a fixed allowance.
pub const OUTPUT_COMPARE_PER_VALUE: usize = 24;

/// A scope whose subtree retired fewer instructions than this, with nothing
/// recorded and nothing emitted, is folded into its parent.
pub const MIN_SCOPE_INSTS: u64 = 32;

/// Records kept at most.
pub const MAX_SLOTS: usize = 200_000;

/// How many of a call site's records may be thrown away without any of them
/// being replayed before the site stops being recorded.
pub const COLD_AFTER_UNHIT_EVICTIONS: u32 = 3;

/// A scope with more dependency entries than this is not recorded.
pub const MAX_SCOPE_DEPS: usize = 8192;

/// The values a scope appended to one output buffer.
#[derive(Debug, Clone)]
pub struct OutputSegment {
    pub sym: SymbolId,
    pub values: Vec<Value>,
}

/// Counters for `--memo-stats`, cumulative over a table's life.
#[derive(Debug, Clone, Copy, PartialEq, Eq, Structural)]
pub struct MemoStats {
    /// Scopes replayed instead of run.
    pub hits: u64,
    /// Scopes that had a record but failed validation and ran.
    pub misses: u64,
    /// Scopes recorded.
    pub records: u64,
    /// Scopes folded into their parent as not worth a record.
    pub inlined: u64,
    /// Scopes that did something a replay cannot reproduce.
    pub effectful: u64,
    /// Children re-executed alone during a parent's validation.
    pub reexecs: u64,
    /// Re-executions that produced what they produced before.
    pub cutoffs: u64,
    /// Records evicted for not being visited by a run.
    pub evicted: u64,
    /// Scopes not recorded because their call site went cold.
    pub cold: u64,
}

impl MemoStats {
    /// Every counter at zero.
    pub fn new() -> (s: MemoStats)
        ensures
            s == (MemoStats {
                hits: 0,
                misses: 0,
                records: 0,
                inlined: 0,
                effectful: 0,
                reexecs: 0,
                cutoffs: 0,
                evicted: 0,
                cold: 0,
            }),
    {
        MemoStats {
            hits: 0,
            misses: 0,
            records: 0,
            inlined: 0,
            effectful: 0,
            reexecs: 0,
            cutoffs: 0,
            evicted: 0,
            cold: 0,
        }
    }
}

/// `x` rotated left by five bits.
pub open spec fn rotl5(x: u64) -> u64 {
    ((x << 5u64) | (x >> 59u64)) as u64
}

/// One step of the multiply-rotate recurrence: mix word `n` into state `h`.
pub open spec fn fx_step(h: u64, n: u64) -> u64 {
    (((rotl5(h) ^ n) as int * 0x517c_c1b7_2722_0a95int) % 0x1_0000_0000_0000_0000int) as u64
}

/// The little-endian word of up to eight bytes, zero-padded.
pub open spec fn le_word(bytes: Seq<u8>) -> u64
    decreases bytes.len(),
{
    if bytes.len() == 0 {
        0
    } else {
        (bytes[0] + 256 * le_word(bytes.drop_first())) as u64
    }
}

/// The state after mixing `bytes` in eight-byte chunks.
pub open spec fn fx_bytes(h: u64, bytes: Seq<u8>) -> u64
    decreases bytes.len(),
{
    if bytes.len() == 0 {
        h
    } else if bytes.len() <= 8 {
        fx_step(h, le_word(bytes))
    } else {
        fx_bytes(fx_step(h, le_word(bytes.take(8))), bytes.skip(8))
    }
}

/// The hasher for the memo's own maps: the multiply-rotate recurrence
/// (`FxHasher`) per word. Never used for a content fingerprint.
#[derive(Clone, Copy, Debug)]
pub struct FastHasher(pub u64);

impl FastHasher {
    /// A hasher in its initial state.
    pub fn new() -> (h: FastHasher)
        ensures
            h.0 == 0,
    {
        FastHasher(0)
    }

    /// Mix in one 64-bit word.
    pub fn write_u64(&mut self, n: u64)
        ensures
            final(self).0 == fx_step(old(self).0, n),
    {
        let rotated = (self.0 << 5u64) | (self.0 >> 59u64);
        self.0 = (rotated ^ n).wrapping_mul(0x517c_c1b7_2722_0a95u64);
    }

    /// Mix in a `usize`, as a word.
    pub fn write_usize(&mut self, n: usize)
        ensures
            final(self).0 == fx_step(old(self).0, n as u64),
    {
        self.write_u64(n as u64);
    }

    /// Mix in a byte, as a word.
    pub fn write_u8(&mut self, n: u8)
        ensures
            final(self).0 == fx_step(old(self).0, n as u64),
    {
        self.write_u64(n as u64);
    }

    /// Mix in a `u32`, as a word.
    pub fn write_u32(&mut self, n: u32)
        ensures
            final(self).0 == fx_step(old(self).0, n as u64),
    {
        self.write_u64(n as u64);
    }

    /// Mix in bytes, eight at a time as little-endian words (the last one
    /// zero-padded).
    pub fn write(&mut self, bytes: &[u8])
        ensures
            final(self).0 == fx_bytes(old(self).0, bytes@),
    {
        let mut i: usize = 0;
        proof {
            assert(bytes@.skip(0) =~= bytes@);
        }
        while i < bytes.len()
            invariant
                i <= bytes.len(),
                fx_bytes(self.0, bytes@.skip(i as int)) == fx_bytes(old(self).0, bytes@),
            decreases bytes.len() - i,
        {
            let end = if bytes.len() - i < 8 { bytes.len() } else { i + 8 };
            let ghost rest = bytes@.skip(i as int);
            let mut word: u64 = 0;
            let mut k = end;
            while k > i
                invariant
                    i <= k <= end <= bytes.len(),
                    end <= i + 8,
                    end == bytes.len() || end == i + 8,
                    word == le_word(bytes@.subrange(k as int, end as int)),
                    word < pow256((end - k) as nat),
                decreases k - i,
            {
                k = k - 1;
                proof {
                    assert(bytes@.subrange(k as int, end as int).drop_first() =~= bytes@.subrange(
                        (k + 1) as int,
                        end as int,
                    ));
                    lemma_pow256_step((end - k - 1) as nat);
                    assert(end - k <= 8);
                    lemma_pow256_le8((end - k) as nat);
                }
                word = bytes[k] as u64 + 256 * word;
            }
            proof {
                if rest.len() <= 8 {
                    assert(bytes@.subrange(i as int, end as int) =~= rest);
                } else {
                    assert(bytes@.subrange(i as int, end as int) =~= rest.take(8));
                    assert(rest.skip(8) =~= bytes@.skip(end as int));
                }
            }
            self.write_u64(word);
            i = end;
        }
    }

    /// The hash of what was written.
    pub fn finish(&self) -> (r: u64)
        ensures
            r == self.0,
    {
        self.0
    }
}

/// `256^n`.
pub open spec fn pow256(n: nat) -> nat
    decreases n,
{
    if n == 0 { 1 } else { 256 * pow256((n - 1) as nat) }
}

proof fn lemma_pow256_step(n: nat)
    ensures
        pow256(n + 1) == 256 * pow256(n),
{
}

proof fn lemma_pow256_mono(a: nat, b: nat)
    requires
        a <= b,
    ensures
        pow256(a) <= pow256(b),
    decreases b,
{
    if a < b {
        lemma_pow256_mono(a, (b - 1) as nat);
    }
}

proof fn lemma_pow256_le8(n: nat)
    requires
        n <= 8,
    ensures
        pow256(n) <= 0x1_0000_0000_0000_0000,
{
    lemma_pow256_mono(n, 8);
    reveal_with_fuel(pow256, 9);
    assert(pow256(8) == 0x1_0000_0000_0000_0000);
}

/// Structural equality under a node budget: `(equal, budget left)`. Lists
/// compare element by element, stopping at the first difference; maps (records
/// and class instances) by class name and then entry by entry, each key looked
/// up in the other map; strings by text; cells by identity; a pending resource
/// equals nothing. The same list or map id is equal without looking inside.
/// An exhausted budget answers "different".
pub open spec fn eq_spec(h: HeapView, a: Value, b: Value, budget: nat) -> (bool, nat)
    decreases budget, 0nat, 0nat,
{
    if budget == 0 {
        (false, 0)
    } else {
        let bud = (budget - 1) as nat;
        match (a, b) {
            (Value::Nil, Value::Nil) => (true, bud),
            (Value::Bool(x), Value::Bool(y)) => (x == y, bud),
            (Value::Int(x), Value::Int(y)) => (x == y, bud),
            (Value::Symbol(x), Value::Symbol(y)) => (x == y, bud),
            (Value::String(x), Value::String(y)) => (
                x == y || h.strings[x.0 as int] == h.strings[y.0 as int],
                bud,
            ),
            (Value::List(x), Value::List(y)) => {
                if x == y {
                    (true, bud)
                } else if h.lists[x.0 as int].len() != h.lists[y.0 as int].len() {
                    (false, bud)
                } else {
                    list_eq_spec(h, h.lists[x.0 as int], h.lists[y.0 as int], 0, bud)
                }
            },
            (Value::Record(x), Value::Record(y)) => record_eq_spec(h, x, y, bud),
            (Value::Cell(x), Value::Cell(y)) => (x == y, bud),
            _ => (false, bud),
        }
    }
}

/// The value under key `k` in map entries `es[j..]`: the first match.
pub open spec fn entry_lookup(es: Seq<(Seq<char>, Value)>, k: Seq<char>, j: int) -> Option<Value>
    decreases es.len() - j,
{
    if j < 0 || j >= es.len() {
        None
    } else if es[j].0 == k {
        Some(es[j].1)
    } else {
        entry_lookup(es, k, j + 1)
    }
}

/// [`eq_spec`] of two maps: the same id is equal; otherwise the class names
/// and the entry counts must agree, and every entry of `x`, in order, must
/// find its key in `y` with an equal value.
pub open spec fn record_eq_spec(h: HeapView, x: MapId, y: MapId, budget: nat) -> (bool, nat)
    decreases budget, 2nat, 0nat,
{
    if x == y {
        (true, budget)
    } else if h.maps[x.0 as int].class != h.maps[y.0 as int].class {
        (false, budget)
    } else if h.maps[x.0 as int].entries.len() != h.maps[y.0 as int].entries.len() {
        (false, budget)
    } else {
        map_eq_spec(h, h.maps[x.0 as int].entries, h.maps[y.0 as int].entries, 0, budget)
    }
}

/// Entrywise [`eq_spec`] of `xs[i..]` against the entries of `ys` under the
/// same keys, threading the budget.
pub open spec fn map_eq_spec(
    h: HeapView,
    xs: Seq<(Seq<char>, Value)>,
    ys: Seq<(Seq<char>, Value)>,
    i: int,
    budget: nat,
) -> (bool, nat)
    decreases budget, 1nat, (xs.len() - i) as nat,
{
    if i < 0 || i >= xs.len() {
        (true, budget)
    } else {
        match entry_lookup(ys, xs[i].0, 0) {
            None => (false, budget),
            Some(yv) => {
                let r = eq_spec(h, xs[i].1, yv, budget);
                if !r.0 {
                    (false, r.1)
                } else {
                    map_eq_spec(h, xs, ys, i + 1, if r.1 < budget { r.1 } else { budget })
                }
            },
        }
    }
}

/// The index of the first entry of `es` under key `k`.
fn find_entry(es: &[(String, Value)], k: &str) -> (r: Option<usize>)
    ensures
        match r {
            Some(j) => j < es@.len() && entry_lookup(es@.map_values(|x: (String, Value)| (x.0@, x.1)), k@, 0) == Some(es@[j as int].1),
            None => entry_lookup(es@.map_values(|x: (String, Value)| (x.0@, x.1)), k@, 0) is None,
        },
{
    let ghost ev = es@.map_values(|x: (String, Value)| (x.0@, x.1));
    let mut j: usize = 0;
    while j < es.len()
        invariant
            j <= es@.len(),
            ev == es@.map_values(|x: (String, Value)| (x.0@, x.1)),
            entry_lookup(ev, k@, 0) == entry_lookup(ev, k@, j as int),
        decreases es.len() - j,
    {
        proof {
            assert(ev[j as int] == (es@[j as int].0@, es@[j as int].1));
        }
        if crate::text::str_eq(es[j].0.as_str(), k) {
            return Some(j);
        }
        j = j + 1;
    }
    None
}

/// Elementwise [`eq_spec`] of `xs[i..]` and `ys[i..]`, threading the budget.
pub open spec fn list_eq_spec(h: HeapView, xs: Seq<Value>, ys: Seq<Value>, i: int, budget: nat) -> (
    bool,
    nat,
)
    decreases budget, 1nat, (xs.len() - i) as nat,
{
    if i < 0 || i >= xs.len() {
        (true, budget)
    } else {
        let r = eq_spec(h, xs[i], ys[i], budget);
        if !r.0 {
            (false, r.1)
        } else {
            list_eq_spec(h, xs, ys, i + 1, if r.1 < budget { r.1 } else { budget })
        }
    }
}

/// Structural equality as the memo needs it, under a node budget.
pub struct ValueEq<'a> {
    heap: &'a Heap,
    budget: usize,
}

impl<'a> ValueEq<'a> {
    /// A comparison over `heap` with `budget` nodes to spend.
    pub fn new(heap: &'a Heap, budget: usize) -> (e: ValueEq<'a>)
        ensures
            e.heap_view() == heap@,
            e.budget_left() == budget,
    {
        ValueEq { heap, budget }
    }

    /// The heap compared over.
    pub closed spec fn heap_view(&self) -> HeapView {
        self.heap@
    }

    /// The nodes still to spend.
    pub closed spec fn budget_left(&self) -> nat {
        self.budget as nat
    }

    /// The heap this comparison reads.
    pub closed spec fn heap_wf(&self) -> bool {
        self.heap.wf()
    }

    /// Whether `a` and `b` have the same content, spending one node per
    /// value visited; "different" once the budget is spent.
    pub fn eq(&mut self, a: &Value, b: &Value) -> (r: bool)
        requires
            old(self).heap_wf(),
            value_in(*a, old(self).heap_view()),
            value_in(*b, old(self).heap_view()),
        ensures
            final(self).heap_view() == old(self).heap_view(),
            final(self).heap_wf(),
            (r, final(self).budget_left()) == eq_spec(
                old(self).heap_view(),
                *a,
                *b,
                old(self).budget_left(),
            ),
            final(self).budget_left() <= old(self).budget_left(),
        decreases old(self).budget_left(), 0nat,
    {
        if self.budget == 0 {
            return false;
        }
        self.budget = self.budget - 1;
        let heap = self.heap;
        match (a, b) {
            (Value::Nil, Value::Nil) => true,
            (Value::Bool(x), Value::Bool(y)) => *x == *y,
            (Value::Int(x), Value::Int(y)) => *x == *y,
            (Value::Symbol(x), Value::Symbol(y)) => x.0 == y.0,
            (Value::String(x), Value::String(y)) => {
                x.0 == y.0 || crate::text::str_eq(heap.get_string(*x), heap.get_string(*y))
            },
            (Value::List(x), Value::List(y)) => {
                if x.0 == y.0 {
                    return true;
                }
                let xs = heap.get_list(*x);
                let ys = heap.get_list(*y);
                if xs.len() != ys.len() {
                    return false;
                }
                let ghost h = heap@;
                let ghost goal = list_eq_spec(h, xs@, ys@, 0, self.budget as nat);
                assert(eq_spec(h, *a, *b, old(self).budget_left()) == goal);
                let mut i: usize = 0;
                while i < xs.len()
                    invariant
                        i <= xs.len() == ys.len(),
                        self.heap@ == h,
                        self.heap.wf(),
                        h == old(self).heap_view(),
                        xs@ == h.lists[x.0 as int],
                        ys@ == h.lists[y.0 as int],
                        x.0 < h.lists.len(),
                        y.0 < h.lists.len(),
                        self.budget < old(self).budget_left(),
                        list_eq_spec(h, xs@, ys@, i as int, self.budget as nat) == goal,
                        eq_spec(h, *a, *b, old(self).budget_left()) == goal,
                    decreases xs.len() - i,
                {
                    proof {
                        assert(value_in(h.lists[x.0 as int][i as int], h));
                        assert(value_in(h.lists[y.0 as int][i as int], h));
                    }
                    let ghost prev = self.budget as nat;
                    let r = self.eq(&xs[i], &ys[i]);
                    proof {
                        let step = eq_spec(h, xs@[i as int], ys@[i as int], prev);
                        assert(step == (r, self.budget as nat));
                        if r {
                            assert(list_eq_spec(h, xs@, ys@, i as int, prev) == list_eq_spec(
                                h,
                                xs@,
                                ys@,
                                i + 1,
                                self.budget as nat,
                            ));
                        } else {
                            assert(list_eq_spec(h, xs@, ys@, i as int, prev) == (
                                false,
                                self.budget as nat,
                            ));
                        }
                    }
                    if !r {
                        assert(eq_spec(old(self).heap_view(), *a, *b, old(self).budget_left()) == (
                            false,
                            self.budget as nat,
                        ));
                        assert(self.budget_left() == self.budget as nat);
                        return false;
                    }
                    i = i + 1;
                }
                true
            },
            (Value::Record(x), Value::Record(y)) => self.eq_records(*x, *y),
            (Value::Cell(x), Value::Cell(y)) => x.0 == y.0,
            _ => false,
        }
    }

    /// [`record_eq_spec`]: compare two maps, spending the budget on their
    /// values.
    fn eq_records(&mut self, x: MapId, y: MapId) -> (r: bool)
        requires
            old(self).heap_wf(),
            x.0 < old(self).heap_view().maps.len(),
            y.0 < old(self).heap_view().maps.len(),
        ensures
            final(self).heap_view() == old(self).heap_view(),
            final(self).heap_wf(),
            (r, final(self).budget_left()) == record_eq_spec(
                old(self).heap_view(),
                x,
                y,
                old(self).budget_left(),
            ),
            final(self).budget_left() <= old(self).budget_left(),
        decreases old(self).budget_left(), 2nat,
    {
        if x.0 == y.0 {
            return true;
        }
        let heap = self.heap;
        let ghost h = heap@;
        let same_class = match (heap.map_class_name(x), heap.map_class_name(y)) {
            (Some(a), Some(b)) => crate::text::str_eq(a, b),
            (None, None) => true,
            _ => false,
        };
        if !same_class {
            return false;
        }
        let xs = heap.get_map(x);
        let ys = heap.get_map(y);
        let ghost xv = h.maps[x.0 as int].entries;
        let ghost yv = h.maps[y.0 as int].entries;
        proof {
            assert(xs@.len() == xv.len());
            assert(ys@.len() == yv.len());
        }
        if xs.len() != ys.len() {
            return false;
        }
        let ghost goal = map_eq_spec(h, xv, yv, 0, self.budget as nat);
        let mut i: usize = 0;
        while i < xs.len()
            invariant
                i <= xs@.len(),
                xs@.len() == xv.len(),
                self.heap@ == h,
                self.heap.wf(),
                h == old(self).heap_view(),
                xs@.map_values(|e: (String, Value)| (e.0@, e.1)) == xv,
                ys@.map_values(|e: (String, Value)| (e.0@, e.1)) == yv,
                xv == h.maps[x.0 as int].entries,
                yv == h.maps[y.0 as int].entries,
                x.0 < h.maps.len(),
                y.0 < h.maps.len(),
                self.budget <= old(self).budget_left(),
                map_eq_spec(h, xv, yv, i as int, self.budget as nat) == goal,
                record_eq_spec(h, x, y, old(self).budget_left()) == goal,
            decreases xs.len() - i,
        {
            proof {
                assert(xv[i as int] == (xs@[i as int].0@, xs@[i as int].1));
                assert(value_in(h.maps[x.0 as int].entries[i as int].1, h));
            }
            let found = find_entry(ys, xs[i].0.as_str());
            let j = match found {
                Some(j) => j,
                None => {
                    return false;
                },
            };
            proof {
                assert(yv[j as int] == (ys@[j as int].0@, ys@[j as int].1));
                assert(value_in(h.maps[y.0 as int].entries[j as int].1, h));
            }
            let ghost prev = self.budget as nat;
            let r = self.eq(&xs[i].1, &ys[j].1);
            if !r {
                return false;
            }
            i = i + 1;
        }
        true
    }
}

/// Structural equality for a one-off comparison under `budget` nodes.
pub fn content_equal(a: &Value, b: &Value, heap: &Heap, budget: usize) -> (r: bool)
    requires
        heap.wf(),
        value_in(*a, heap@),
        value_in(*b, heap@),
    ensures
        r == eq_spec(heap@, *a, *b, budget as nat).0,
{
    let mut e = ValueEq::new(heap, budget);
    e.eq(a, b)
}

/// Whether a value is a heap container a scope could mutate in place after
/// handing it to a native.
pub fn is_container(v: &Value) -> (r: bool)
    ensures
        r == (v is List || v is Record),
{
    match v {
        Value::List(_) => true,
        Value::Record(_) => true,
        _ => false,
    }
}

/// Any value other than a pending resource equals itself, with any budget to
/// spend: a value is compared by identity first.
pub proof fn lemma_eq_reflexive(h: HeapView, v: Value, budget: nat)
    requires
        budget > 0,
        !(v is Pending),
    ensures
        eq_spec(h, v, v, budget).0,
{
}

proof fn lemma_eq_budget(h: HeapView, a: Value, b: Value, budget: nat)
    ensures
        eq_spec(h, a, b, budget).1 <= budget,
        budget > 0 ==> eq_spec(h, a, b, budget).1 < budget,
    decreases budget, 0nat, 0nat,
{
    if budget > 0 {
        let bud = (budget - 1) as nat;
        match (a, b) {
            (Value::List(x), Value::List(y)) => {
                lemma_list_budget(h, h.lists[x.0 as int], h.lists[y.0 as int], 0, bud);
            },
            (Value::Record(x), Value::Record(y)) => {
                lemma_record_budget(h, x, y, bud);
            },
            _ => {},
        }
    }
}

proof fn lemma_list_budget(h: HeapView, xs: Seq<Value>, ys: Seq<Value>, i: int, budget: nat)
    ensures
        list_eq_spec(h, xs, ys, i, budget).1 <= budget,
    decreases budget, 1nat, (xs.len() - i) as nat,
{
    if 0 <= i < xs.len() {
        lemma_eq_budget(h, xs[i], ys[i], budget);
        let r = eq_spec(h, xs[i], ys[i], budget);
        if r.0 {
            lemma_list_budget(h, xs, ys, i + 1, if r.1 < budget { r.1 } else { budget });
        }
    }
}

proof fn lemma_map_budget(
    h: HeapView,
    xs: Seq<(Seq<char>, Value)>,
    ys: Seq<(Seq<char>, Value)>,
    i: int,
    budget: nat,
)
    ensures
        map_eq_spec(h, xs, ys, i, budget).1 <= budget,
    decreases budget, 1nat, (xs.len() - i) as nat,
{
    if 0 <= i < xs.len() {
        match entry_lookup(ys, xs[i].0, 0) {
            None => {},
            Some(yv) => {
                lemma_eq_budget(h, xs[i].1, yv, budget);
                let r = eq_spec(h, xs[i].1, yv, budget);
                if r.0 {
                    lemma_map_budget(h, xs, ys, i + 1, if r.1 < budget { r.1 } else { budget });
                }
            },
        }
    }
}

proof fn lemma_record_budget(h: HeapView, x: MapId, y: MapId, budget: nat)
    ensures
        record_eq_spec(h, x, y, budget).1 <= budget,
    decreases budget, 2nat, 0nat,
{
    if x != y && h.maps[x.0 as int].class == h.maps[y.0 as int].class && h.maps[x.0 as int].entries.len()
        == h.maps[y.0 as int].entries.len() {
        lemma_map_budget(h, h.maps[x.0 as int].entries, h.maps[y.0 as int].entries, 0, budget);
    }
}

/// Content equality on values with no heap content is value equality, and
/// values of different kinds are never equal: with a node to spend, two
/// `nil`s, booleans, integers, symbols or cells compare equal exactly when
/// they are the same value, and a comparison across kinds answers
/// "different". Strings compare equal exactly when their texts are.
pub proof fn law_scalars_compare_by_value(h: HeapView, a: Value, b: Value, budget: nat)
    requires
        budget > 0,
    ensures
        (a is Nil || a is Bool || a is Int || a is Symbol || a is Cell) ==> (eq_spec(h, a, b, budget).0 <==> a == b),
        (a is String && b is String) ==> (eq_spec(h, a, b, budget).0 <==> (a == b || h.strings[a->String_0.0 as int]
            == h.strings[b->String_0.0 as int])),
        a is Pending ==> !eq_spec(h, a, b, budget).0,
        ((a is Nil) != (b is Nil) || (a is Bool) != (b is Bool) || (a is Int) != (b is Int) || (a is String) != (
            b is String) || (a is List) != (b is List) || (a is Record) != (b is Record) || (a is Symbol) != (b is Symbol)
            || (a is Cell) != (b is Cell)) ==> !eq_spec(h, a, b, budget).0,
        eq_spec(h, a, b, budget).1 < budget,
{
    lemma_eq_budget(h, a, b, budget);
}

/// `x` and `y` compare equal with some budget of at most `budget` nodes.
pub open spec fn equal_within(h: HeapView, x: Value, y: Value, budget: nat) -> bool {
    exists|c: nat| c <= budget && #[trigger] eq_spec(h, x, y, c).0
}

proof fn lemma_list_eq_elementwise(h: HeapView, xs: Seq<Value>, ys: Seq<Value>, i: int, budget: nat)
    requires
        0 <= i,
        list_eq_spec(h, xs, ys, i, budget).0,
    ensures
        forall|j: int| i <= j < xs.len() ==> #[trigger] equal_within(h, xs[j], ys[j], budget),
    decreases (xs.len() - i) as nat,
{
    if i < xs.len() {
        let r = eq_spec(h, xs[i], ys[i], budget);
        assert(r.0);
        let nb: nat = if r.1 < budget { r.1 } else { budget };
        lemma_list_eq_elementwise(h, xs, ys, i + 1, nb);
        assert forall|j: int| i <= j < xs.len() implies #[trigger] equal_within(h, xs[j], ys[j], budget) by {
            if j == i {
                assert(eq_spec(h, xs[j], ys[j], budget).0);
            } else {
                assert(equal_within(h, xs[j], ys[j], nb));
                let c = choose|c: nat| c <= nb && #[trigger] eq_spec(h, xs[j], ys[j], c).0;
                assert(eq_spec(h, xs[j], ys[j], c).0);
            }
        }
    }
}

/// The value under key `k` in `ys` equals `x`, with some budget of at most
/// `budget` nodes.
pub open spec fn found_equal_within(h: HeapView, ys: Seq<(Seq<char>, Value)>, k: Seq<char>, x: Value, budget: nat) -> bool {
    match entry_lookup(ys, k, 0) {
        Some(yv) => equal_within(h, x, yv, budget),
        None => false,
    }
}

proof fn lemma_map_eq_entrywise(
    h: HeapView,
    xs: Seq<(Seq<char>, Value)>,
    ys: Seq<(Seq<char>, Value)>,
    i: int,
    budget: nat,
)
    requires
        0 <= i,
        map_eq_spec(h, xs, ys, i, budget).0,
    ensures
        forall|j: int| i <= j < xs.len() ==> #[trigger] found_equal_within(h, ys, xs[j].0, xs[j].1, budget),
    decreases (xs.len() - i) as nat,
{
    if i < xs.len() {
        let yv = entry_lookup(ys, xs[i].0, 0)->Some_0;
        let r = eq_spec(h, xs[i].1, yv, budget);
        let nb: nat = if r.1 < budget { r.1 } else { budget };
        lemma_map_eq_entrywise(h, xs, ys, i + 1, nb);
        assert forall|j: int| i <= j < xs.len() implies #[trigger] found_equal_within(h, ys, xs[j].0, xs[j].1, budget) by {
            if j == i {
                assert(eq_spec(h, xs[j].1, yv, budget).0);
            } else {
                assert(found_equal_within(h, ys, xs[j].0, xs[j].1, nb));
                let yj = entry_lookup(ys, xs[j].0, 0)->Some_0;
                let c = choose|c: nat| c <= nb && #[trigger] eq_spec(h, xs[j].1, yj, c).0;
                assert(eq_spec(h, xs[j].1, yj, c).0);
            }
        }
    }
}

/// Two distinct lists compare equal only when they have the same length and
/// each element equals the one at its position; two distinct maps only when
/// their class names and sizes agree and each entry's key is found in the
/// other map under an equal value. Each of those inner comparisons fits in
/// the budget left after the outer node.
pub proof fn law_containers_compare_by_content(h: HeapView, a: Value, b: Value, budget: nat)
    requires
        eq_spec(h, a, b, budget).0,
        a != b,
    ensures
        (a is List && b is List) ==> ({
            let xs = h.lists[a->List_0.0 as int];
            let ys = h.lists[b->List_0.0 as int];
            &&& xs.len() == ys.len()
            &&& forall|j: int| 0 <= j < xs.len() ==> #[trigger] equal_within(h, xs[j], ys[j], (budget - 1) as nat)
        }),
        (a is Record && b is Record) ==> ({
            let xm = h.maps[a->Record_0.0 as int];
            let ym = h.maps[b->Record_0.0 as int];
            &&& xm.class == ym.class
            &&& xm.entries.len() == ym.entries.len()
            &&& forall|j: int|
                0 <= j < xm.entries.len() ==> #[trigger] found_equal_within(
                    h,
                    ym.entries,
                    xm.entries[j].0,
                    xm.entries[j].1,
                    (budget - 1) as nat,
                )
        }),
{
    let bud = (budget - 1) as nat;
    match (a, b) {
        (Value::List(x), Value::List(y)) => {
            lemma_list_eq_elementwise(h, h.lists[x.0 as int], h.lists[y.0 as int], 0, bud);
        },
        (Value::Record(x), Value::Record(y)) => {
            lemma_map_eq_entrywise(h, h.maps[x.0 as int].entries, h.maps[y.0 as int].entries, 0, bud);
        },
        _ => {},
    }
}

/// The fingerprint of the container arguments among the first `k` of
/// `args`: each one's content fingerprint xored in after rotating the
/// running value left by 7 bits (0 when there are none).
pub open spec fn container_fp_upto(args: Seq<Value>, k: int, h: HeapView) -> u64
    decreases k,
{
    if k <= 0 {
        0
    } else {
        let before = container_fp_upto(args, k - 1, h);
        if args[k - 1] is List || args[k - 1] is Record {
            ((before << 7u64) | (before >> 57u64)) ^ crate::run_deps::fingerprint_spec(Some(args[k - 1]), h)
        } else {
            before
        }
    }
}

/// Fingerprint of a probe's container arguments (0 when there are none).
pub fn container_args_fingerprint(args: &[Value], heap: &Heap) -> (fp: u64)
    requires
        heap.wf(),
        forall|i: int| 0 <= i < args@.len() ==> value_in(#[trigger] args@[i], heap@),
    ensures
        fp == container_fp_upto(args@, args@.len() as int, heap@),
{
    let mut fp: u64 = 0;
    let mut i: usize = 0;
    while i < args.len()
        invariant
            i <= args@.len(),
            heap.wf(),
            forall|j: int| 0 <= j < args@.len() ==> value_in(#[trigger] args@[j], heap@),
            fp == container_fp_upto(args@, i as int, heap@),
        decreases args@.len() - i,
    {
        let a = &args[i];
        if is_container(a) {
            let rotated = (fp << 7u64) | (fp >> 57u64);
            fp = rotated ^ crate::run_deps::fingerprint_binding(Some(a), heap);
        }
        i = i + 1;
    }
    fp
}

/// Node budget for one [`holds_local_cell`] scan; past it the scan assumes
/// the worst.
pub const LOCAL_CELL_SCAN_BUDGET: usize = 256;

/// Whether `v` holds one of the cells `locals` (directly or inside lists and
/// maps), under a node budget, with the budget left. An exhausted budget
/// answers "yes", the safe answer.
pub open spec fn scan_spec(h: HeapView, locals: Seq<CellId>, v: Value, budget: nat) -> (bool, nat)
    decreases budget, 0nat, 0nat,
{
    if budget == 0 {
        (true, 0)
    } else {
        let bud = (budget - 1) as nat;
        match v {
            Value::Cell(id) => (locals.contains(id), bud),
            Value::List(id) => scan_list_spec(h, locals, h.lists[id.0 as int], 0, bud),
            Value::Record(id) => scan_entries_spec(h, locals, h.maps[id.0 as int].entries, 0, bud),
            _ => (false, bud),
        }
    }
}

/// [`scan_spec`] over `xs[i..]`, stopping at the first hit.
pub open spec fn scan_list_spec(h: HeapView, locals: Seq<CellId>, xs: Seq<Value>, i: int, budget: nat) -> (bool, nat)
    decreases budget, 1nat, (xs.len() - i) as nat,
{
    if i < 0 || i >= xs.len() {
        (false, budget)
    } else {
        let r = scan_spec(h, locals, xs[i], budget);
        if r.0 {
            (true, r.1)
        } else {
            scan_list_spec(h, locals, xs, i + 1, if r.1 < budget { r.1 } else { budget })
        }
    }
}

/// [`scan_spec`] over the values of map entries `es[i..]`, stopping at the
/// first hit.
pub open spec fn scan_entries_spec(
    h: HeapView,
    locals: Seq<CellId>,
    es: Seq<(Seq<char>, Value)>,
    i: int,
    budget: nat,
) -> (bool, nat)
    decreases budget, 1nat, (es.len() - i) as nat,
{
    if i < 0 || i >= es.len() {
        (false, budget)
    } else {
        let r = scan_spec(h, locals, es[i].1, budget);
        if r.0 {
            (true, r.1)
        } else {
            scan_entries_spec(h, locals, es, i + 1, if r.1 < budget { r.1 } else { budget })
        }
    }
}

fn contains_cell(locals: &[CellId], id: CellId) -> (r: bool)
    ensures
        r == locals@.contains(id),
{
    let mut i: usize = 0;
    while i < locals.len()
        invariant
            i <= locals@.len(),
            forall|j: int| 0 <= j < i ==> locals@[j] != id,
        decreases locals.len() - i,
    {
        if locals[i].0 == id.0 {
            proof {
                assert(locals@[i as int] == id);
            }
            return true;
        }
        i = i + 1;
    }
    false
}

fn scan_for_local_cell(v: &Value, heap: &Heap, locals: &[CellId], budget: &mut usize) -> (r: bool)
    requires
        heap.wf(),
        value_in(*v, heap@),
    ensures
        (r, *final(budget) as nat) == scan_spec(heap@, locals@, *v, *old(budget) as nat),
        *final(budget) <= *old(budget),
    decreases *old(budget), 0nat,
{
    if *budget == 0 {
        return true;
    }
    *budget = *budget - 1;
    let ghost h = heap@;
    match v {
        Value::Cell(id) => contains_cell(locals, *id),
        Value::List(id) => {
            let xs = heap.get_list(*id);
            let ghost goal = scan_list_spec(h, locals@, xs@, 0, *budget as nat);
            let mut i: usize = 0;
            while i < xs.len()
                invariant
                    i <= xs@.len(),
                    heap.wf(),
                    h == heap@,
                    xs@ == h.lists[id.0 as int],
                    id.0 < h.lists.len(),
                    *budget < *old(budget),
                    scan_list_spec(h, locals@, xs@, i as int, *budget as nat) == goal,
                    scan_spec(h, locals@, *v, *old(budget) as nat) == goal,
                decreases xs.len() - i,
            {
                proof {
                    assert(value_in(h.lists[id.0 as int][i as int], h));
                }
                let hit = scan_for_local_cell(&xs[i], heap, locals, budget);
                if hit {
                    return true;
                }
                i = i + 1;
            }
            false
        },
        Value::Record(id) => {
            let es = heap.get_map(*id);
            let ghost ev = h.maps[id.0 as int].entries;
            let ghost goal = scan_entries_spec(h, locals@, ev, 0, *budget as nat);
            proof {
                assert(es@.len() == ev.len());
            }
            let mut i: usize = 0;
            while i < es.len()
                invariant
                    i <= es@.len(),
                    es@.len() == ev.len(),
                    heap.wf(),
                    h == heap@,
                    es@.map_values(|e: (String, Value)| (e.0@, e.1)) == ev,
                    ev == h.maps[id.0 as int].entries,
                    id.0 < h.maps.len(),
                    *budget < *old(budget),
                    scan_entries_spec(h, locals@, ev, i as int, *budget as nat) == goal,
                    scan_spec(h, locals@, *v, *old(budget) as nat) == goal,
                decreases es.len() - i,
            {
                proof {
                    assert(ev[i as int] == (es@[i as int].0@, es@[i as int].1));
                    assert(value_in(h.maps[id.0 as int].entries[i as int].1, h));
                }
                let hit = scan_for_local_cell(&es[i].1, heap, locals, budget);
                if hit {
                    return true;
                }
                i = i + 1;
            }
            false
        },
        _ => false,
    }
}

/// Whether `v` holds (directly or inside lists and maps) one of the cells
/// `locals`. A scope whose result or a write carries one of its own cells
/// has let mutable state escape and cannot be replayed. Past
/// [`LOCAL_CELL_SCAN_BUDGET`] nodes the answer is "yes".
pub fn holds_local_cell(v: &Value, heap: &Heap, locals: &[CellId]) -> (r: bool)
    requires
        heap.wf(),
        value_in(*v, heap@),
    ensures
        r == (locals@.len() > 0 && scan_spec(heap@, locals@, *v, LOCAL_CELL_SCAN_BUDGET as nat).0),
{
    if locals.len() == 0 {
        return false;
    }
    let mut budget = LOCAL_CELL_SCAN_BUDGET;
    scan_for_local_cell(v, heap, locals, &mut budget)
}

} // verus!
