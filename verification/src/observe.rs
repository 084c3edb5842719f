//! Observation — the last value bound to every named IR term.
//!
//! One slot per term, overwritten on every write: "what is `grid` right
//! now?". Off by default; when disabled, [`Observations::record`] is a single
//! check. The stored values are heap ids, so the buffer is stamped with the
//! execution context they came from and cleared whenever execution moves to
//! another context.

use std::collections::HashMap;
use vstd::prelude::*;
use crate::program::TermId;
use crate::value::Value;

verus! {

/// Identifies an execution context: the heap a value's ids index.
#[derive(Debug, Clone, Copy, PartialEq, Eq, Hash, Structural)]
pub struct ContextKey(pub u64);

/// Last-write-wins values for named IR terms, scoped to one execution
/// context. Entries keep the order in which their terms were first recorded.
#[derive(Debug)]
pub struct Observations {
    /// Recording gate. Off by default.
    pub enabled: bool,
    context: Option<ContextKey>,
    index: HashMap<u32, usize>,
    entries: Vec<(TermId, Value)>,
}

/// The value a list of entries holds for `term` (its last entry).
pub open spec fn entry_value(entries: Seq<(TermId, Value)>, term: TermId) -> Option<Value>
    decreases entries.len(),
{
    if entries.len() == 0 {
        None
    } else if entries.last().0 == term {
        Some(entries.last().1)
    } else {
        entry_value(entries.drop_last(), term)
    }
}

impl Observations {
    /// The recorded `(term, value)` pairs, first-recorded first.
    pub closed spec fn entries_spec(&self) -> Seq<(TermId, Value)> {
        self.entries@
    }

    /// Whether recording is on.
    pub closed spec fn enabled_spec(&self) -> bool {
        self.enabled
    }

    /// The context the recorded values belong to.
    pub closed spec fn context_spec(&self) -> Option<ContextKey> {
        self.context
    }

    /// The index agrees with the entries, which name each term once.
    pub closed spec fn wf(&self) -> bool {
        &&& forall|k: u32| #[trigger]
            self.index@.contains_key(k) ==> self.index@[k] < self.entries@.len()
                && self.entries@[self.index@[k] as int].0.0 == k
        &&& forall|i: int|
            0 <= i < self.entries@.len() ==> self.index@.contains_key((#[trigger] self.entries@[i]).0.0)
                && self.index@[self.entries@[i].0.0] == i
    }

    /// The value recorded for `term`, if any.
    pub open spec fn value_of(&self, term: TermId) -> Option<Value> {
        entry_value(self.entries_spec(), term)
    }

    /// An empty, disabled buffer.
    pub fn new() -> (o: Observations)
        ensures
            o.wf(),
            !o.enabled_spec(),
            o.context_spec() is None,
            o.entries_spec() == Seq::<(TermId, Value)>::empty(),
    {
        Observations { enabled: false, context: None, index: HashMap::new(), entries: Vec::new() }
    }

    /// Turn recording on.
    pub fn enable(&mut self)
        ensures
            final(self).enabled_spec(),
            final(self).entries_spec() == old(self).entries_spec(),
            final(self).context_spec() == old(self).context_spec(),
            old(self).wf() ==> final(self).wf(),
    {
        self.enabled = true;
    }

    /// Turn recording off.
    pub fn disable(&mut self)
        ensures
            !final(self).enabled_spec(),
            final(self).entries_spec() == old(self).entries_spec(),
            final(self).context_spec() == old(self).context_spec(),
            old(self).wf() ==> final(self).wf(),
    {
        self.enabled = false;
    }

    /// Drop every recorded value and the context stamp with it.
    pub fn clear(&mut self)
        ensures
            final(self).wf(),
            final(self).enabled_spec() == old(self).enabled_spec(),
            final(self).context_spec() is None,
            final(self).entries_spec() == Seq::<(TermId, Value)>::empty(),
    {
        self.index.clear();
        self.entries.clear();
        self.context = None;
    }

    /// The context the recorded values belong to.
    pub fn context(&self) -> (c: Option<ContextKey>)
        ensures
            c == self.context_spec(),
    {
        self.context
    }

    /// Point the buffer at `ck`, discarding anything recorded in another
    /// context.
    pub fn enter_context(&mut self, ck: ContextKey)
        requires
            old(self).wf(),
        ensures
            final(self).wf(),
            final(self).enabled_spec() == old(self).enabled_spec(),
            final(self).context_spec() == Some(ck),
            old(self).context_spec() == Some(ck) ==> final(self).entries_spec() == old(self).entries_spec(),
            old(self).context_spec() != Some(ck) ==> final(self).entries_spec() == Seq::<(TermId, Value)>::empty(),
    {
        let same = match self.context {
            Some(c) => c.0 == ck.0,
            None => false,
        };
        if !same {
            self.index.clear();
            self.entries.clear();
            self.context = Some(ck);
        }
    }

    /// Clear the buffer and stamp it with `ck`: the start of a run.
    pub fn start_run(&mut self, ck: ContextKey)
        ensures
            final(self).wf(),
            final(self).enabled_spec() == old(self).enabled_spec(),
            final(self).context_spec() == Some(ck),
            final(self).entries_spec() == Seq::<(TermId, Value)>::empty(),
    {
        self.index.clear();
        self.entries.clear();
        self.context = Some(ck);
    }

    /// Record `value` as `term`'s current binding, when recording is on.
    pub fn record(&mut self, term: TermId, value: Value)
        requires
            old(self).wf(),
        ensures
            final(self).wf(),
            final(self).enabled_spec() == old(self).enabled_spec(),
            final(self).context_spec() == old(self).context_spec(),
            !old(self).enabled_spec() ==> final(self).entries_spec() == old(self).entries_spec(),
            old(self).enabled_spec() ==> final(self).value_of(term) == Some(value),
            old(self).enabled_spec() ==> forall|t: TermId|
                t != term ==> #[trigger] final(self).value_of(t) == old(self).value_of(t),
    {
        if !self.enabled {
            return;
        }
        let ghost before = self.entries@;
        match self.index.get(&term.0) {
            Some(i) => {
                let i = *i;
                self.entries.set(i, (term, value));
                proof {
                    assert(self.entries@ == before.update(i as int, (term, value)));
                    assert forall|j: int| 0 <= j < self.entries@.len() && self.entries@[j].0 == term implies j == i by {
                        assert(old(self).index@.contains_key(before[j].0.0));
                    }
                    lemma_entry_found(self.entries@, i as int, term);
                    assert forall|t: TermId| t != term implies #[trigger] entry_value(self.entries@, t)
                        == entry_value(before, t) by {
                        lemma_entry_update(before, i as int, term, value, t);
                    }
                    assert forall|j: int| 0 <= j < self.entries@.len() implies self.index@.contains_key(
                        (#[trigger] self.entries@[j]).0.0,
                    ) && self.index@[self.entries@[j].0.0] == j by {
                        assert(self.entries@[j].0 == before[j].0);
                    }
                }
            },
            None => {
                let i = self.entries.len();
                proof {
                    assert forall|j: int| 0 <= j < before.len() implies before[j].0 != term by {
                        assert(self.index@.contains_key(before[j].0.0));
                    }
                    lemma_entry_push(before, term, value);
                }
                self.entries.push((term, value));
                self.index.insert(term.0, i);
                proof {
                    assert forall|j: int| 0 <= j < self.entries@.len() implies self.index@.contains_key(
                        (#[trigger] self.entries@[j]).0.0,
                    ) && self.index@[self.entries@[j].0.0] == j by {
                        if j < before.len() {
                            assert(self.entries@[j] == before[j]);
                            assert(old(self).index@.contains_key(before[j].0.0));
                        }
                    }
                }
            },
        }
    }

    /// The current value of one term, if it has been bound since the last
    /// clear.
    pub fn get(&self, term: TermId) -> (r: Option<Value>)
        requires
            self.wf(),
        ensures
            r == self.value_of(term),
    {
        match self.index.get(&term.0) {
            Some(i) => {
                let i = *i;
                proof {
                    assert forall|j: int| 0 <= j < self.entries@.len() && self.entries@[j].0 == term implies j == i by {
                        assert(self.index@.contains_key(self.entries@[j].0.0));
                    }
                    lemma_entry_found(self.entries@, i as int, term);
                }
                Some(self.entries[i].1)
            },
            None => {
                proof {
                    assert forall|j: int| 0 <= j < self.entries@.len() implies self.entries@[j].0 != term by {
                        assert(self.index@.contains_key(self.entries@[j].0.0));
                    }
                    lemma_entry_absent(self.entries@, term);
                }
                None
            },
        }
    }

    /// The number of recorded terms.
    pub fn len(&self) -> (n: usize)
        ensures
            n == self.entries_spec().len(),
    {
        self.entries.len()
    }

    /// Whether nothing is recorded.
    pub fn is_empty(&self) -> (r: bool)
        ensures
            r == (self.entries_spec().len() == 0),
    {
        self.entries.len() == 0
    }

    /// Every recorded `(term, value)` pair, first-recorded first.
    pub fn iter(&self) -> (v: Vec<(TermId, Value)>)
        ensures
            v@ == self.entries_spec(),
    {
        let mut v: Vec<(TermId, Value)> = Vec::new();
        let mut i: usize = 0;
        while i < self.entries.len()
            invariant
                i <= self.entries@.len(),
                v@ == self.entries@.take(i as int),
            decreases self.entries@.len() - i,
        {
            v.push(self.entries[i]);
            proof {
                assert(v@ =~= self.entries@.take((i + 1) as int));
            }
            i = i + 1;
        }
        proof {
            assert(self.entries@.take(self.entries@.len() as int) =~= self.entries@);
        }
        v
    }
}

impl Default for Observations {
    /// An empty, disabled buffer.
    fn default() -> (o: Observations)
        ensures
            o.wf(),
            !o.enabled_spec(),
            o.entries_spec() == Seq::<(TermId, Value)>::empty(),
    {
        Observations::new()
    }
}

proof fn lemma_entry_found(entries: Seq<(TermId, Value)>, i: int, term: TermId)
    requires
        0 <= i < entries.len(),
        entries[i].0 == term,
        forall|j: int| 0 <= j < entries.len() && entries[j].0 == term ==> j == i,
    ensures
        entry_value(entries, term) == Some(entries[i].1),
    decreases entries.len(),
{
    if i < entries.len() - 1 {
        assert(entries.last().0 != term);
        lemma_entry_found(entries.drop_last(), i, term);
    }
}

proof fn lemma_entry_absent(entries: Seq<(TermId, Value)>, term: TermId)
    requires
        forall|j: int| 0 <= j < entries.len() ==> entries[j].0 != term,
    ensures
        entry_value(entries, term) is None,
    decreases entries.len(),
{
    if entries.len() > 0 {
        lemma_entry_absent(entries.drop_last(), term);
    }
}

proof fn lemma_entry_update(entries: Seq<(TermId, Value)>, i: int, term: TermId, value: Value, t: TermId)
    requires
        0 <= i < entries.len(),
        entries[i].0 == term,
        t != term,
    ensures
        entry_value(entries.update(i, (term, value)), t) == entry_value(entries, t),
    decreases entries.len(),
{
    let e2 = entries.update(i, (term, value));
    if i < entries.len() - 1 {
        assert(e2.drop_last() =~= entries.drop_last().update(i, (term, value)));
        lemma_entry_update(entries.drop_last(), i, term, value, t);
    } else {
        assert(e2.drop_last() =~= entries.drop_last());
    }
}

proof fn lemma_entry_push(entries: Seq<(TermId, Value)>, term: TermId, value: Value)
    ensures
        entry_value(entries.push((term, value)), term) == Some(value),
        forall|t: TermId| t != term ==> #[trigger] entry_value(entries.push((term, value)), t) == entry_value(entries, t),
{
    assert(entries.push((term, value)).drop_last() =~= entries);
}

} // verus!
