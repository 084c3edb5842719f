//! The runtime evaluation context: its identifiers and status, the persistent
//! `state` slots, and the record of which slots a run touched.
//!
//! The end of a run sweeps away every `state` slot the run did not touch. A
//! section of the program that is skipped on a later run (a memoized scope
//! replaying last frame's result) keeps its slots alive by replaying the
//! touches it captured when it last ran: [`Stack::begin_touch_capture`] /
//! [`Stack::end_touch_capture`] bracket a real execution and give back the
//! distinct keys it touched, and [`Stack::retain_touches`] replays them.

use smallvec::SmallVec;
use vstd::prelude::*;
use crate::program::{ProgramId, StateKey};
use crate::run_deps::RunDeps;
use crate::value::Value;

verus! {

/// One dynamic step on the path from the program root to a `state`
/// declaration.
#[derive(Debug, Clone, Copy, PartialEq, Eq, Hash, Structural)]
pub enum PathPart {
    /// A call: the compile-time hash identifying the callsite the frame was
    /// pushed from, so a helper called from three places holds three
    /// independent slots.
    Call(u64),
    /// One loop iteration: the 0-based iteration index.
    Index(usize),
    /// An explicit `state(expr)` key, hashed. Absolute: a keyed slot's path
    /// is exactly `[Key(h)]`.
    Key(u64),
}

/// A state key's call path: a `smallvec::SmallVec` holding up to four parts
/// inline.
#[verifier::external_body]
#[derive(Debug, PartialEq, Eq, Hash)]
pub struct StatePath {
    parts: SmallVec<[PathPart; 4]>,
}

/// The parts a call path holds, outermost first.
pub uninterp spec fn path_items(p: StatePath) -> Seq<PathPart>;

/// The parts of a call path, copied out: `SmallVec::as_slice`, which borrows
/// the parts in order, then `to_vec`.
#[verifier::external_body]
fn path_parts(p: &StatePath) -> (r: Vec<PathPart>)
    ensures
        r@ == path_items(*p),
{
    p.parts.as_slice().to_vec()
}

/// A call path holding `v`: `SmallVec::from_vec`, which keeps the parts in
/// order.
#[verifier::external_body]
fn path_from(v: Vec<PathPart>) -> (r: StatePath)
    ensures
        path_items(r) == v@,
{
    StatePath { parts: SmallVec::from_vec(v) }
}

/// What a runtime state key stands for: its declaration id and call path.
pub type KeyView = (u64, Seq<PathPart>);

/// Runtime state key: a declaration id (`base`) plus the call path that
/// reached it. Top-level state has an empty `path`; an explicit
/// `state(expr)` key has exactly one `Key` part; everything else carries one
/// `Call` part per enclosing call and one `Index` part per enclosing loop
/// iteration, outermost first.
#[derive(Debug, PartialEq, Eq, Hash)]
pub struct RuntimeStateKey {
    pub base: StateKey,
    pub path: StatePath,
}

impl View for RuntimeStateKey {
    type V = KeyView;

    open spec fn view(&self) -> KeyView {
        (self.base.0, path_items(self.path))
    }
}

impl RuntimeStateKey {
    /// The key of declaration `base` reached along `path`.
    pub fn new(base: StateKey, path: Vec<PathPart>) -> (k: RuntimeStateKey)
        ensures
            k@ == (base.0, path@),
    {
        RuntimeStateKey { base, path: path_from(path) }
    }

    /// The call path's parts, outermost first.
    pub fn path_parts(&self) -> (r: Vec<PathPart>)
        ensures
            r@ == self@.1,
    {
        path_parts(&self.path)
    }
}

impl Clone for RuntimeStateKey {
    fn clone(&self) -> (r: RuntimeStateKey)
        ensures
            r@ == self@,
    {
        RuntimeStateKey { base: self.base, path: path_from(path_parts(&self.path)) }
    }
}

/// Whether two runtime keys name the same slot: the same declaration
/// reached along the same path.
pub fn same_key(a: &RuntimeStateKey, b: &RuntimeStateKey) -> (r: bool)
    ensures
        r == (a@ == b@),
{
    if a.base.0 != b.base.0 {
        return false;
    }
    let pa = path_parts(&a.path);
    let pb = path_parts(&b.path);
    if pa.len() != pb.len() {
        return false;
    }
    let mut i: usize = 0;
    while i < pa.len()
        invariant
            i <= pa@.len(),
            pa@.len() == pb@.len(),
            pa@ == path_items(a.path),
            pb@ == path_items(b.path),
            forall|j: int| 0 <= j < i ==> pa@[j] == pb@[j],
        decreases pa@.len() - i,
    {
        if pa[i] != pb[i] {
            proof {
                assert(pa@[i as int] != pb@[i as int]);
                assert(pa@ != pb@);
            }
            return false;
        }
        i = i + 1;
    }
    proof {
        assert(pa@ =~= pb@);
    }
    true
}

/// What a list of runtime keys stands for.
pub open spec fn key_views(keys: Seq<RuntimeStateKey>) -> Seq<KeyView> {
    keys.map_values(|k: RuntimeStateKey| k@)
}

/// Each key of `s` once, at its first occurrence, in order.
pub open spec fn first_touches(s: Seq<KeyView>) -> Seq<KeyView>
    decreases s.len(),
{
    if s.len() == 0 {
        Seq::empty()
    } else if s.drop_last().contains(s.last()) {
        first_touches(s.drop_last())
    } else {
        first_touches(s.drop_last()).push(s.last())
    }
}

/// [`first_touches`] holds exactly the keys of `s`, none twice.
pub proof fn lemma_first_touches(s: Seq<KeyView>)
    ensures
        forall|x: KeyView| #[trigger] first_touches(s).contains(x) <==> s.contains(x),
        first_touches(s).no_duplicates(),
    decreases s.len(),
{
    if s.len() > 0 {
        let p = s.drop_last();
        lemma_first_touches(p);
        assert forall|x: KeyView| #[trigger] s.contains(x) <==> (p.contains(x) || x == s.last()) by {
            if s.contains(x) {
                let i = choose|i: int| 0 <= i < s.len() && s[i] == x;
                if i < s.len() - 1 {
                    assert(p[i] == x);
                }
            }
            if p.contains(x) {
                let i = choose|i: int| 0 <= i < p.len() && p[i] == x;
                assert(s[i] == x);
            }
            if x == s.last() {
                assert(s[s.len() - 1] == x);
            }
        }
        if !p.contains(s.last()) {
            let f = first_touches(p);
            assert forall|x: KeyView| #[trigger] f.push(s.last()).contains(x) <==> (f.contains(x) || x == s.last()) by {
                if f.push(s.last()).contains(x) {
                    let i = choose|i: int| 0 <= i < f.push(s.last()).len() && f.push(s.last())[i] == x;
                    if i < f.len() {
                        assert(f[i] == x);
                    }
                }
                if f.contains(x) {
                    let i = choose|i: int| 0 <= i < f.len() && f[i] == x;
                    assert(f.push(s.last())[i] == x);
                }
                if x == s.last() {
                    assert(f.push(s.last())[f.len() as int] == x);
                }
            }
            let g = f.push(s.last());
            assert forall|i: int, j: int| 0 <= i < g.len() && 0 <= j < g.len() && i != j implies g[i] != g[j] by {
                if j == f.len() {
                    assert(f.contains(f[i]));
                } else if i == f.len() {
                    assert(f.contains(f[j]));
                } else {
                    assert(f[i] != f[j]);
                }
            }
        }
    }
}

/// The distinct state keys a section of the program touched while it ran, in
/// first-touch order. Hand them to [`Stack::retain_touches`] on a run where
/// that section is skipped, so the sweep keeps its state.
#[derive(Debug, Clone, PartialEq)]
pub struct StateTouches(pub Vec<RuntimeStateKey>);

impl StateTouches {
    /// The keys, in order.
    pub open spec fn keys_view(&self) -> Seq<KeyView> {
        key_views(self.0@)
    }

    /// The number of keys.
    pub fn len(&self) -> (n: usize)
        ensures
            n == self.0@.len(),
    {
        self.0.len()
    }

    /// Whether no key was touched.
    pub fn is_empty(&self) -> (r: bool)
        ensures
            r == (self.0@.len() == 0),
    {
        self.0.len() == 0
    }

    /// The keys, in first-touch order.
    pub fn iter(&self) -> (r: Vec<&RuntimeStateKey>)
        ensures
            r@.len() == self.0@.len(),
            forall|i: int| 0 <= i < r@.len() ==> *r@[i] == self.0@[i],
    {
        let mut r: Vec<&RuntimeStateKey> = Vec::new();
        let mut i: usize = 0;
        while i < self.0.len()
            invariant
                i <= self.0@.len(),
                r@.len() == i,
                forall|j: int| 0 <= j < i ==> *r@[j] == self.0@[j],
            decreases self.0@.len() - i,
        {
            r.push(&self.0[i]);
            i = i + 1;
        }
        r
    }
}

impl Default for StateTouches {
    fn default() -> (t: StateTouches)
        ensures
            t.0@.len() == 0,
    {
        StateTouches(Vec::new())
    }
}

/// An open touch capture: a position in the stack's touch journal. Returned
/// by [`Stack::begin_touch_capture`] and consumed by
/// [`Stack::end_touch_capture`].
#[derive(Debug)]
#[must_use]
pub struct TouchCapture {
    start: usize,
}

impl TouchCapture {
    /// Where in the journal the capture began.
    pub closed spec fn start_spec(&self) -> usize {
        self.start
    }
}

/// The first index from `i` on whose slot key is `key`, or the number of
/// slots.
pub open spec fn slot_index_from(slots: Seq<(KeyView, Value)>, key: KeyView, i: int) -> int
    decreases slots.len() - i,
{
    if i < 0 || i >= slots.len() {
        slots.len() as int
    } else if slots[i].0 == key {
        i
    } else {
        slot_index_from(slots, key, i + 1)
    }
}

/// The index of `key`'s slot, or the number of slots when it has none.
pub open spec fn slot_index(slots: Seq<(KeyView, Value)>, key: KeyView) -> int {
    slot_index_from(slots, key, 0)
}

proof fn lemma_slot_index_from(slots: Seq<(KeyView, Value)>, key: KeyView, i: int)
    requires
        0 <= i <= slots.len(),
    ensures
        i <= slot_index_from(slots, key, i) <= slots.len(),
        slot_index_from(slots, key, i) < slots.len() ==> slots[slot_index_from(slots, key, i)].0 == key,
        forall|j: int| i <= j < slot_index_from(slots, key, i) ==> slots[j].0 != key,
    decreases slots.len() - i,
{
    if i < slots.len() && slots[i].0 != key {
        lemma_slot_index_from(slots, key, i + 1);
    }
}

/// No key has two slots.
pub open spec fn distinct_slots(slots: Seq<(KeyView, Value)>) -> bool {
    forall|i: int, j: int| 0 <= i < j < slots.len() ==> slots[i].0 != slots[j].0
}

/// Whether a slot's key is among `touched`.
pub open spec fn slot_touched(touched: Seq<KeyView>) -> spec_fn((KeyView, Value)) -> bool {
    |e: (KeyView, Value)| touched.contains(e.0)
}

/// The persistent `state` slots: runtime key → value, no key twice, in the
/// order the slots were made.
#[derive(Debug)]
pub struct StateMap {
    entries: Vec<(RuntimeStateKey, Value)>,
}

impl StateMap {
    /// The slots, in the order they were made.
    pub closed spec fn slots(&self) -> Seq<(KeyView, Value)> {
        self.entries@.map_values(|e: (RuntimeStateKey, Value)| (e.0@, e.1))
    }

    #[verifier::type_invariant]
    closed spec fn state_map_inv(&self) -> bool {
        distinct_slots(self.slots())
    }

    /// The value held under `key`, if any.
    pub open spec fn get_spec(&self, key: KeyView) -> Option<Value> {
        let i = slot_index(self.slots(), key);
        if i < self.slots().len() {
            Some(self.slots()[i].1)
        } else {
            None
        }
    }

    /// No slots.
    pub fn new() -> (m: StateMap)
        ensures
            m.slots() == Seq::<(KeyView, Value)>::empty(),
    {
        let m = StateMap { entries: Vec::new() };
        proof {
            assert(m.slots() =~= Seq::<(KeyView, Value)>::empty());
        }
        m
    }

    /// The number of slots.
    pub fn len(&self) -> (n: usize)
        ensures
            n == self.slots().len(),
    {
        self.entries.len()
    }

    /// Whether there are no slots.
    pub fn is_empty(&self) -> (r: bool)
        ensures
            r == (self.slots().len() == 0),
    {
        self.entries.len() == 0
    }

    fn find(&self, key: &RuntimeStateKey) -> (r: Option<usize>)
        ensures
            match r {
                Some(i) => i == slot_index(self.slots(), key@) && i < self.slots().len(),
                None => slot_index(self.slots(), key@) == self.slots().len(),
            },
    {
        let mut i: usize = 0;
        while i < self.entries.len()
            invariant
                i <= self.entries@.len(),
                slot_index(self.slots(), key@) == slot_index_from(self.slots(), key@, i as int),
            decreases self.entries@.len() - i,
        {
            if same_key(&self.entries[i].0, key) {
                proof {
                    assert(self.slots()[i as int].0 == self.entries@[i as int].0@);
                }
                return Some(i);
            }
            proof {
                assert(self.slots()[i as int].0 == self.entries@[i as int].0@);
            }
            i = i + 1;
        }
        None
    }

    /// The value held under `key`, if any.
    pub fn get(&self, key: &RuntimeStateKey) -> (r: Option<Value>)
        ensures
            r == self.get_spec(key@),
    {
        match self.find(key) {
            Some(i) => Some(self.entries[i].1),
            None => None,
        }
    }

    /// Whether `key` has a slot.
    pub fn contains_key(&self, key: &RuntimeStateKey) -> (r: bool)
        ensures
            r == self.get_spec(key@) is Some,
    {
        self.find(key).is_some()
    }

    /// Set `key`'s slot to `val`: an existing slot keeps its place, a new
    /// one goes last. Returns the value it held, if any.
    pub fn insert(&mut self, key: RuntimeStateKey, val: Value) -> (r: Option<Value>)
        ensures
            r == old(self).get_spec(key@),
            match r {
                Some(_) => final(self).slots() == old(self).slots().update(
                    slot_index(old(self).slots(), key@),
                    (key@, val),
                ),
                None => final(self).slots() == old(self).slots().push((key@, val)),
            },
    {
        proof {
            use_type_invariant(&*self);
            lemma_slot_index_from(self.slots(), key@, 0);
        }
        let ghost before = self.slots();
        let ghost kv = key@;
        match self.find(&key) {
            Some(i) => {
                let old_val = self.entries[i].1;
                let mut entries = self.take_entries();
                entries.set(i, (key, val));
                proof {
                    let after = entries@.map_values(|e: (RuntimeStateKey, Value)| (e.0@, e.1));
                    assert(after =~= before.update(i as int, (kv, val)));
                }
                *self = StateMap { entries };
                Some(old_val)
            },
            None => {
                let mut entries = self.take_entries();
                entries.push((key, val));
                proof {
                    let after = entries@.map_values(|e: (RuntimeStateKey, Value)| (e.0@, e.1));
                    assert(after =~= before.push((kv, val)));
                    assert forall|a: int, b: int| 0 <= a < b < after.len() implies after[a].0 != after[b].0 by {
                        if b == after.len() - 1 {
                            assert(before[a].0 != kv);
                        } else {
                            assert(before[a].0 != before[b].0);
                        }
                    }
                }
                *self = StateMap { entries };
                None
            },
        }
    }

    /// Keep the slots whose key `keys` holds, in order, and return how many
    /// went.
    fn retain_keys(&mut self, keys: &Vec<RuntimeStateKey>) -> (n: usize)
        ensures
            final(self).slots() == old(self).slots().filter(slot_touched(key_views(keys@))),
            n == old(self).slots().len() - final(self).slots().len(),
    {
        let ghost before = self.slots();
        let ghost pred = slot_touched(key_views(keys@));
        let entries = self.take_entries();
        let mut kept: Vec<(RuntimeStateKey, Value)> = Vec::new();
        let mut i: usize = 0;
        proof {
            assert(before.take(0) =~= Seq::<(KeyView, Value)>::empty());
            reveal(Seq::filter);
            assert(kept@.map_values(|e: (RuntimeStateKey, Value)| (e.0@, e.1)) =~= before.take(0).filter(pred));
        }
        while i < entries.len()
            invariant
                i <= entries@.len(),
                entries@.map_values(|e: (RuntimeStateKey, Value)| (e.0@, e.1)) == before,
                distinct_slots(before),
                pred == slot_touched(key_views(keys@)),
                kept@.map_values(|e: (RuntimeStateKey, Value)| (e.0@, e.1)) == before.take(i as int).filter(pred),
                kept@.len() <= i,
                distinct_slots(kept@.map_values(|e: (RuntimeStateKey, Value)| (e.0@, e.1))),
                forall|a: int| #![trigger kept@[a]] 0 <= a < kept@.len() ==> exists|j: int| 0 <= j < i && #[trigger] before[j].0 == kept@[a].0@,
            decreases entries@.len() - i,
        {
            let ghost kv = kept@.map_values(|e: (RuntimeStateKey, Value)| (e.0@, e.1));
            proof {
                assert(before.take(i + 1) =~= before.take(i as int).push(before[i as int]));
                before.take(i as int).lemma_filter_push(before[i as int], pred);
                assert(before[i as int] == (entries@[i as int].0@, entries@[i as int].1));
            }
            if holds_key(keys, &entries[i].0) {
                let k = entries[i].0.clone();
                let v = entries[i].1;
                let ghost prev = kept@;
                kept.push((k, v));
                proof {
                    assert(kept@.map_values(|e: (RuntimeStateKey, Value)| (e.0@, e.1)) =~= kv.push(before[i as int]));
                    let nk = kv.push(before[i as int]);
                    assert forall|a: int, b: int| 0 <= a < b < nk.len() implies nk[a].0 != nk[b].0 by {
                        if b == nk.len() - 1 {
                            assert(kv[a].0 == prev[a].0@);
                            let j = choose|j: int| 0 <= j < i && #[trigger] before[j].0 == prev[a].0@;
                            assert(before[j].0 != before[i as int].0);
                        } else {
                            assert(kv[a].0 != kv[b].0);
                        }
                    }
                    assert forall|a: int| #![trigger kept@[a]] 0 <= a < kept@.len() implies exists|j: int| 0 <= j < i + 1 && #[trigger] before[j].0 == kept@[a].0@ by {
                        if a < prev.len() {
                            assert(kept@[a] == prev[a]);
                            let j = choose|j: int| 0 <= j < i && #[trigger] before[j].0 == prev[a].0@;
                            assert(before[j].0 == kept@[a].0@);
                        } else {
                            assert(before[i as int].0 == kept@[a].0@);
                        }
                    }
                }
            } else {
                proof {
                    assert forall|a: int| #![trigger kept@[a]] 0 <= a < kept@.len() implies exists|j: int| 0 <= j < i + 1 && #[trigger] before[j].0 == kept@[a].0@ by {
                        let j = choose|j: int| 0 <= j < i && #[trigger] before[j].0 == kept@[a].0@;
                        assert(before[j].0 == kept@[a].0@);
                    }
                }
            }
            i = i + 1;
        }
        proof {
            assert(before.take(entries@.len() as int) =~= before);
        }
        let n = entries.len() - kept.len();
        *self = StateMap { entries: kept };
        n
    }

    /// Move the slots out, leaving no slots behind.
    fn take_entries(&mut self) -> (r: Vec<(RuntimeStateKey, Value)>)
        ensures
            r@.map_values(|e: (RuntimeStateKey, Value)| (e.0@, e.1)) == old(self).slots(),
            distinct_slots(old(self).slots()),
    {
        proof {
            use_type_invariant(&*self);
        }
        let mut tmp = StateMap { entries: Vec::new() };
        proof {
            assert(tmp.slots() =~= Seq::<(KeyView, Value)>::empty());
        }
        std::mem::swap(self, &mut tmp);
        let StateMap { entries } = tmp;
        entries
    }
}

/// Whether `keys` holds `key`.
fn holds_key(keys: &Vec<RuntimeStateKey>, key: &RuntimeStateKey) -> (r: bool)
    ensures
        r == key_views(keys@).contains(key@),
{
    let mut i: usize = 0;
    while i < keys.len()
        invariant
            i <= keys@.len(),
            forall|j: int| 0 <= j < i ==> keys@[j]@ != key@,
        decreases keys@.len() - i,
    {
        if same_key(&keys[i], key) {
            proof {
                assert(key_views(keys@)[i as int] == key@);
            }
            return true;
        }
        i = i + 1;
    }
    proof {
        if key_views(keys@).contains(key@) {
            let j = choose|j: int| 0 <= j < key_views(keys@).len() && key_views(keys@)[j] == key@;
            assert(keys@[j]@ == key@);
        }
    }
    false
}

/// Unique identifier for a stack within an Env.
#[derive(Debug, Clone, Copy, PartialEq, Eq, Hash, Structural)]
pub struct StackKey(pub u32);

/// Where a stack's run stands.
#[derive(Debug, Clone)]
pub enum StackStatus {
    Ready,
    Running,
    Complete(Value),
    Error(String),
}


/// `t` after touching `k`: unchanged when it holds `k`, else `k` appended.
pub open spec fn touch_one(t: Seq<KeyView>, k: KeyView) -> Seq<KeyView> {
    if t.contains(k) {
        t
    } else {
        t.push(k)
    }
}

/// `t` after touching each of `ks` in turn.
pub open spec fn touch_all(t: Seq<KeyView>, ks: Seq<KeyView>) -> Seq<KeyView>
    decreases ks.len(),
{
    if ks.len() == 0 {
        t
    } else {
        touch_one(touch_all(t, ks.drop_last()), ks.last())
    }
}

/// Touching keys in turn leaves exactly the keys touched before and the new
/// ones.
pub proof fn lemma_touch_all(t: Seq<KeyView>, ks: Seq<KeyView>)
    ensures
        forall|x: KeyView| #[trigger] touch_all(t, ks).contains(x) <==> (t.contains(x) || ks.contains(x)),
    decreases ks.len(),
{
    if ks.len() > 0 {
        let p = ks.drop_last();
        lemma_touch_all(t, p);
        let u = touch_all(t, p);
        assert forall|x: KeyView| #[trigger] touch_all(t, ks).contains(x) <==> (t.contains(x) || ks.contains(x)) by {
            if ks.contains(x) {
                let i = choose|i: int| 0 <= i < ks.len() && ks[i] == x;
                if i < ks.len() - 1 {
                    assert(p[i] == x);
                }
            }
            if p.contains(x) {
                let i = choose|i: int| 0 <= i < p.len() && p[i] == x;
                assert(ks[i] == x);
            }
            if x == ks.last() {
                assert(ks[ks.len() - 1] == x);
            }
            if !u.contains(ks.last()) {
                if u.push(ks.last()).contains(x) {
                    let i = choose|i: int| 0 <= i < u.push(ks.last()).len() && u.push(ks.last())[i] == x;
                    if i < u.len() {
                        assert(u[i] == x);
                    }
                }
                if u.contains(x) {
                    let i = choose|i: int| 0 <= i < u.len() && u[i] == x;
                    assert(u.push(ks.last())[i] == x);
                }
                if x == ks.last() {
                    assert(u.push(ks.last())[u.len() as int] == x);
                }
            }
        }
    }
}

/// Runtime state for a program: its persistent `state` slots, where its run
/// stands, and which slots the current run has touched.
#[derive(Debug)]
pub struct Stack {
    pub id: StackKey,
    pub program_id: ProgramId,
    /// Persistent state slots.
    pub state: StateMap,
    pub status: StackStatus,
    /// The value the last synchronous closure call returned.
    pub last_pop_result: Option<Value>,
    /// Every key read or written since the last `start_run_tracking`, once
    /// each, in first-touch order. Written through `touch_state`, which also
    /// feeds open captures.
    pub touched_state_keys: Vec<RuntimeStateKey>,
    /// Every touch made while at least one capture is open, in order. Empty
    /// whenever no capture is open.
    pub touch_journal: Vec<RuntimeStateKey>,
    /// How many captures are open. Captures nest; the journal is kept until
    /// the outermost one ends, so an enclosing capture sees its children's
    /// touches.
    pub open_touch_captures: usize,
    /// What the most recent run depended on.
    pub run_deps: RunDeps,
    /// Instructions retired on this stack since it was created.
    pub insts: u64,
}

impl Stack {
    /// The keys touched this run, once each, in first-touch order.
    pub open spec fn touched_view(&self) -> Seq<KeyView> {
        key_views(self.touched_state_keys@)
    }

    /// The touches made while a capture was open, in order.
    pub open spec fn journal_view(&self) -> Seq<KeyView> {
        key_views(self.touch_journal@)
    }

    /// How many captures are open.
    pub open spec fn open_captures(&self) -> nat {
        self.open_touch_captures as nat
    }

    /// Outside captures the journal is empty: no capture open means no
    /// journal kept.
    pub open spec fn journal_quiet(&self) -> bool {
        self.open_captures() == 0 ==> self.journal_view().len() == 0
    }

    /// `a` and `b` agree on everything but the run-tracking record.
    spec fn same_run(a: &Stack, b: &Stack) -> bool {
        &&& a.id == b.id
        &&& a.program_id == b.program_id
        &&& a.state == b.state
        &&& a.status == b.status
        &&& a.last_pop_result == b.last_pop_result
        &&& a.run_deps == b.run_deps
        &&& a.insts == b.insts
    }

    /// A fresh stack: no state, `Ready`, nothing touched.
    pub fn new(id: StackKey, program_id: ProgramId) -> (s: Stack)
        ensures
            s.journal_quiet(),
            s.id == id,
            s.program_id == program_id,
            s.state.slots() == Seq::<(KeyView, Value)>::empty(),
            s.status is Ready,
            s.last_pop_result is None,
            s.touched_view() == Seq::<KeyView>::empty(),
            s.journal_view() == Seq::<KeyView>::empty(),
            s.open_captures() == 0,
            s.run_deps.wf(),
            !s.run_deps@.valid,
            s.insts == 0,
    {
        let s = Stack {
            id,
            program_id,
            state: StateMap::new(),
            status: StackStatus::Ready,
            last_pop_result: None,
            touched_state_keys: Vec::new(),
            touch_journal: Vec::new(),
            open_touch_captures: 0,
            run_deps: RunDeps::default(),
            insts: 0,
        };
        proof {
            assert(s.touched_view() =~= Seq::<KeyView>::empty());
            assert(s.journal_view() =~= Seq::<KeyView>::empty());
        }
        s
    }

    /// Clear the per-run execution state, leaving the stack `Ready`.
    /// Persistent `state` is kept.
    pub fn reset_execution(&mut self)
        ensures
            old(self).journal_quiet() ==> final(self).journal_quiet(),
            final(self).status is Ready,
            final(self).last_pop_result is None,
            final(self).id == old(self).id,
            final(self).program_id == old(self).program_id,
            final(self).state == old(self).state,
            final(self).run_deps == old(self).run_deps,
            final(self).insts == old(self).insts,
            final(self).touched_view() == old(self).touched_view(),
            final(self).journal_view() == old(self).journal_view(),
            final(self).open_captures() == old(self).open_captures(),
    {
        self.status = StackStatus::Ready;
        self.last_pop_result = None;
    }

    /// Forget what was touched: called at the start of a top-level run so
    /// the end-of-run sweep can drop slots the current source no longer
    /// reaches. Captures do not span runs: one left open by an aborted run
    /// is dropped.
    pub fn start_run_tracking(&mut self)
        ensures
            final(self).journal_quiet(),
            final(self).id == old(self).id,
            final(self).program_id == old(self).program_id,
            final(self).state == old(self).state,
            final(self).status == old(self).status,
            final(self).last_pop_result == old(self).last_pop_result,
            final(self).run_deps == old(self).run_deps,
            final(self).insts == old(self).insts,
            final(self).touched_view() == Seq::<KeyView>::empty(),
            final(self).journal_view() == Seq::<KeyView>::empty(),
            final(self).open_captures() == 0,
    {
        self.touched_state_keys = Vec::new();
        self.touch_journal = Vec::new();
        self.open_touch_captures = 0;
        proof {
            assert(self.touched_view() =~= Seq::<KeyView>::empty());
            assert(self.journal_view() =~= Seq::<KeyView>::empty());
        }
    }

    /// Record that `key` was read or written this run, so the end-of-run
    /// sweep keeps its slot; an open capture also records it.
    pub fn touch_state(&mut self, key: &RuntimeStateKey)
        ensures
            old(self).journal_quiet() ==> final(self).journal_quiet(),
            final(self).id == old(self).id,
            final(self).program_id == old(self).program_id,
            final(self).state == old(self).state,
            final(self).status == old(self).status,
            final(self).last_pop_result == old(self).last_pop_result,
            final(self).run_deps == old(self).run_deps,
            final(self).insts == old(self).insts,
            final(self).touched_view() == touch_one(old(self).touched_view(), key@),
            final(self).journal_view() == if old(self).open_captures() > 0 {
                old(self).journal_view().push(key@)
            } else {
                old(self).journal_view()
            },
            final(self).open_captures() == old(self).open_captures(),
    {
        let ghost touched = self.touched_view();
        let ghost journal = self.journal_view();
        if self.open_touch_captures > 0 {
            self.touch_journal.push(key.clone());
            proof {
                assert(self.journal_view() =~= journal.push(key@));
            }
        }
        if !holds_key(&self.touched_state_keys, key) {
            self.touched_state_keys.push(key.clone());
            proof {
                assert(self.touched_view() =~= touched.push(key@));
            }
        }
    }

    /// Start recording which state keys are touched from here on. Captures
    /// nest and end in LIFO order, all within one run.
    pub fn begin_touch_capture(&mut self) -> (c: TouchCapture)
        requires
            old(self).open_captures() < usize::MAX,
        ensures
            final(self).journal_quiet(),
            final(self).id == old(self).id,
            final(self).program_id == old(self).program_id,
            final(self).state == old(self).state,
            final(self).status == old(self).status,
            final(self).last_pop_result == old(self).last_pop_result,
            final(self).run_deps == old(self).run_deps,
            final(self).insts == old(self).insts,
            c.start_spec() == old(self).journal_view().len(),
            final(self).open_captures() == old(self).open_captures() + 1,
            final(self).touched_view() == old(self).touched_view(),
            final(self).journal_view() == old(self).journal_view(),
    {
        self.open_touch_captures = self.open_touch_captures + 1;
        TouchCapture { start: self.touch_journal.len() }
    }

    /// End a capture and return the distinct keys touched since it began,
    /// in first-touch order, nested captures and replayed touches included.
    /// The outermost capture's end clears the journal.
    pub fn end_touch_capture(&mut self, capture: TouchCapture) -> (t: StateTouches)
        ensures
            final(self).journal_quiet(),
            final(self).id == old(self).id,
            final(self).program_id == old(self).program_id,
            final(self).state == old(self).state,
            final(self).status == old(self).status,
            final(self).last_pop_result == old(self).last_pop_result,
            final(self).run_deps == old(self).run_deps,
            final(self).insts == old(self).insts,
            t.keys_view() == first_touches(old(self).journal_view().skip(
                if capture.start_spec() <= old(self).journal_view().len() {
                    capture.start_spec() as int
                } else {
                    old(self).journal_view().len() as int
                },
            )),
            final(self).open_captures() == if old(self).open_captures() == 0 {
                0
            } else {
                (old(self).open_captures() - 1) as nat
            },
            final(self).journal_view() == if final(self).open_captures() == 0 {
                Seq::<KeyView>::empty()
            } else {
                old(self).journal_view()
            },
            final(self).touched_view() == old(self).touched_view(),
    {
        let len = self.touch_journal.len();
        let start = if capture.start <= len { capture.start } else { len };
        let ghost journal = self.journal_view();
        let mut keys: Vec<RuntimeStateKey> = Vec::new();
        let mut i: usize = start;
        proof {
            assert(journal.subrange(start as int, start as int) =~= Seq::<KeyView>::empty());
            assert(key_views(keys@) =~= Seq::<KeyView>::empty());
        }
        while i < len
            invariant
                start <= i <= len,
                len == self.touch_journal@.len(),
                journal == self.journal_view(),
                key_views(keys@) == first_touches(journal.subrange(start as int, i as int)),
            decreases len - i,
        {
            let ghost sub = journal.subrange(start as int, i as int);
            let ghost kv = key_views(keys@);
            proof {
                lemma_first_touches(sub);
                assert(journal.subrange(start as int, i + 1) =~= sub.push(journal[i as int]));
                assert(sub.push(journal[i as int]).drop_last() =~= sub);
                assert(journal[i as int] == self.touch_journal@[i as int]@);
            }
            if !holds_key(&keys, &self.touch_journal[i]) {
                keys.push(self.touch_journal[i].clone());
                proof {
                    assert(key_views(keys@) =~= kv.push(journal[i as int]));
                }
            }
            i = i + 1;
        }
        proof {
            assert(journal.subrange(start as int, len as int) =~= journal.skip(start as int));
        }
        self.open_touch_captures = if self.open_touch_captures == 0 { 0 } else { self.open_touch_captures - 1 };
        if self.open_touch_captures == 0 {
            self.touch_journal = Vec::new();
            proof {
                assert(self.journal_view() =~= Seq::<KeyView>::empty());
            }
        }
        StateTouches(keys)
    }

    /// Mark every key in `touches` as touched this run, as if the section
    /// that produced them had executed again. Keys without a slot are
    /// harmless: touching never makes a slot. An open capture records them
    /// too.
    pub fn retain_touches(&mut self, touches: &StateTouches)
        ensures
            old(self).journal_quiet() ==> final(self).journal_quiet(),
            final(self).id == old(self).id,
            final(self).program_id == old(self).program_id,
            final(self).state == old(self).state,
            final(self).status == old(self).status,
            final(self).last_pop_result == old(self).last_pop_result,
            final(self).run_deps == old(self).run_deps,
            final(self).insts == old(self).insts,
            final(self).touched_view() == touch_all(old(self).touched_view(), touches.keys_view()),
            forall|x: KeyView| #[trigger] final(self).touched_view().contains(x) <==> (old(
                self,
            ).touched_view().contains(x) || touches.keys_view().contains(x)),
            final(self).journal_view() == if old(self).open_captures() > 0 {
                old(self).journal_view() + touches.keys_view()
            } else {
                old(self).journal_view()
            },
            final(self).open_captures() == old(self).open_captures(),
    {
        let ghost touched = self.touched_view();
        let ghost journal = self.journal_view();
        let ghost ks = touches.keys_view();
        let mut i: usize = 0;
        proof {
            assert(ks.take(0) =~= Seq::<KeyView>::empty());
            assert(journal + ks.take(0) =~= journal);
        }
        while i < touches.0.len()
            invariant
                i <= touches.0@.len(),
                ks == touches.keys_view(),
                Stack::same_run(self, old(self)),
                touched == old(self).touched_view(),
                journal == old(self).journal_view(),
                self.touched_view() == touch_all(touched, ks.take(i as int)),
                self.journal_view() == if old(self).open_captures() > 0 {
                    journal + ks.take(i as int)
                } else {
                    journal
                },
                self.open_captures() == old(self).open_captures(),
            decreases touches.0@.len() - i,
        {
            proof {
                assert(ks.take(i + 1) =~= ks.take(i as int).push(ks[i as int]));
                assert(ks.take(i + 1).drop_last() =~= ks.take(i as int));
                assert(ks[i as int] == touches.0@[i as int]@);
                assert(journal + ks.take(i + 1) =~= (journal + ks.take(i as int)).push(ks[i as int]));
            }
            self.touch_state(&touches.0[i]);
            i = i + 1;
        }
        proof {
            assert(ks.take(ks.len() as int) =~= ks);
            lemma_touch_all(touched, ks);
        }
    }

    /// Drop the persistent state slots not touched since the last
    /// `start_run_tracking`, keeping the rest in order. Returns how many
    /// went.
    pub fn sweep_untouched_state(&mut self) -> (n: usize)
        ensures
            old(self).journal_quiet() ==> final(self).journal_quiet(),
            final(self).state.slots() == old(self).state.slots().filter(slot_touched(old(self).touched_view())),
            n == old(self).state.slots().len() - final(self).state.slots().len(),
            final(self).id == old(self).id,
            final(self).program_id == old(self).program_id,
            final(self).status == old(self).status,
            final(self).last_pop_result == old(self).last_pop_result,
            final(self).run_deps == old(self).run_deps,
            final(self).insts == old(self).insts,
            final(self).touched_view() == old(self).touched_view(),
            final(self).journal_view() == old(self).journal_view(),
            final(self).open_captures() == old(self).open_captures(),
    {
        self.state.retain_keys(&self.touched_state_keys)
    }
}

/// A section skipped on a run keeps its state by replaying its touches:
/// after `start_run_tracking`, `retain_touches` with a section's touches and
/// the end-of-run sweep, a slot survives exactly when the section touched
/// its key.
pub proof fn law_retained_touches_survive_the_sweep(slots: Seq<(KeyView, Value)>, touches: Seq<KeyView>)
    ensures
        forall|e: (KeyView, Value)| #[trigger] slots.filter(slot_touched(touch_all(Seq::empty(), touches))).contains(e)
            <==> (slots.contains(e) && touches.contains(e.0)),
{
    lemma_touch_all(Seq::empty(), touches);
    let pred = slot_touched(touch_all(Seq::empty(), touches));
    assert forall|e: (KeyView, Value)| #[trigger] slots.filter(pred).contains(e)
        <==> (slots.contains(e) && touches.contains(e.0)) by {
        if slots.contains(e) && touches.contains(e.0) {
            let i = choose|i: int| 0 <= i < slots.len() && slots[i] == e;
            assert(touch_all(Seq::<KeyView>::empty(), touches).contains(e.0));
            slots.lemma_filter_contains(pred, i);
        }
        if slots.filter(pred).contains(e) {
            slots.lemma_filter_contains_rev(pred, e);
            let i = choose|i: int| 0 <= i < slots.filter(pred).len() && slots.filter(pred)[i] == e;
            slots.lemma_filter_pred(pred, i);
            assert(pred(e));
            assert(touch_all(Seq::<KeyView>::empty(), touches).contains(e.0));
            assert(!Seq::<KeyView>::empty().contains(e.0));
        }
    }
}

} // verus!
