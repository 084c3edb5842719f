//! Resource table — the home for pending/unresolved resources.
//!
//! A `Value::Pending` is a thin [`PendingId`] index into this table; the
//! resolution state and provenance live here so [`Value`] stays `Copy`. Two
//! requests for the same key share one entry, and so one `PendingId`.

use std::collections::HashMap;
use vstd::prelude::*;
use crate::program::TermId;
use crate::value::{PendingId, Value};

verus! {

/// The resolution state of one resource: it starts `Loading`, then lands as
/// `Ready` or `Errored`.
#[derive(Clone, Copy, Debug, PartialEq, Eq, Structural)]
pub enum ResourceState {
    Loading,
    Errored(Value),
    Ready(Value),
}

/// One resource's table entry: its cache key, current state, origin call
/// site, and how many operations absorbed it this frame.
#[derive(Clone, Copy, Debug)]
pub struct ResourceEntry {
    pub key: u64,
    pub state: ResourceState,
    pub origin: Option<TermId>,
    pub absorbed_count: u64,
}

/// Keyed table of resources: entries addressed by [`PendingId`], and a key
/// index so that one key always yields one id.
#[derive(Debug)]
pub struct ResourceTable {
    entries: Vec<ResourceEntry>,
    by_key: HashMap<u64, PendingId>,
}

impl ResourceTable {
    /// The entries, by id.
    pub closed spec fn entries_spec(&self) -> Seq<ResourceEntry> {
        self.entries@
    }

    /// The id each key maps to.
    pub closed spec fn keys_spec(&self) -> Map<u64, PendingId> {
        self.by_key@
    }

    /// The key index and the entries agree: every key maps to the entry
    /// holding it, and every entry is indexed under its key.
    pub closed spec fn wf(&self) -> bool {
        &&& forall|k: u64| #[trigger]
            self.by_key@.contains_key(k) ==> (self.by_key@[k].0 as int) < self.entries@.len()
                && self.entries@[self.by_key@[k].0 as int].key == k
        &&& forall|i: int|
            0 <= i < self.entries@.len() ==> self.by_key@.contains_key(
                (#[trigger] self.entries@[i]).key,
            ) && self.by_key@[self.entries@[i].key].0 == i
    }

    /// An empty table.
    pub fn new() -> (t: ResourceTable)
        ensures
            t.wf(),
            t.entries_spec() == Seq::<ResourceEntry>::empty(),
            t.keys_spec() == Map::<u64, PendingId>::empty(),
    {
        ResourceTable { entries: Vec::new(), by_key: HashMap::new() }
    }

    /// The number of entries.
    pub fn len(&self) -> (n: usize)
        ensures
            n == self.entries_spec().len(),
    {
        self.entries.len()
    }

    /// The [`PendingId`] currently mapped to `key`, if any.
    pub fn pending_for_key(&self, key: u64) -> (r: Option<PendingId>)
        ensures
            r == (if self.keys_spec().contains_key(key) {
                Some(self.keys_spec()[key])
            } else {
                None
            }),
    {
        match self.by_key.get(&key) {
            Some(id) => Some(*id),
            None => None,
        }
    }

    /// Return the existing entry for `key`, or create a fresh `Loading` one.
    /// The same key always yields the same `PendingId`.
    pub fn get_or_create_loading(&mut self, key: u64) -> (id: PendingId)
        requires
            old(self).wf(),
            old(self).entries_spec().len() < 0x1_0000_0000,
        ensures
            final(self).wf(),
            (id.0 as int) < final(self).entries_spec().len(),
            final(self).entries_spec()[id.0 as int].key == key,
            final(self).keys_spec() == old(self).keys_spec().insert(key, id),
            old(self).keys_spec().contains_key(key) ==> {
                &&& id == old(self).keys_spec()[key]
                &&& final(self).entries_spec() == old(self).entries_spec()
            },
            !old(self).keys_spec().contains_key(key) ==> {
                &&& id.0 == old(self).entries_spec().len()
                &&& final(self).entries_spec() == old(self).entries_spec().push(
                    ResourceEntry {
                        key,
                        state: ResourceState::Loading,
                        origin: None,
                        absorbed_count: 0,
                    },
                )
            },
    {
        match self.by_key.get(&key) {
            Some(id) => {
                let id = *id;
                proof {
                    assert(self.by_key@.insert(key, id) =~= self.by_key@);
                }
                return id;
            },
            None => {},
        }
        let id = PendingId(self.entries.len() as u32);
        let ghost before = self.entries@;
        self.entries.push(
            ResourceEntry { key, state: ResourceState::Loading, origin: None, absorbed_count: 0 },
        );
        self.by_key.insert(key, id);
        proof {
            assert forall|i: int| 0 <= i < self.entries@.len() implies self.by_key@.contains_key(
                (#[trigger] self.entries@[i]).key,
            ) && self.by_key@[self.entries@[i].key].0 == i by {
                if i < before.len() {
                    assert(self.entries@[i] == before[i]);
                    assert(old(self).by_key@.contains_key(before[i].key));
                }
            }
        }
        id
    }

    fn set_state(&mut self, id: PendingId, state: ResourceState)
        requires
            old(self).wf(),
            (id.0 as int) < old(self).entries_spec().len(),
        ensures
            final(self).wf(),
            final(self).keys_spec() == old(self).keys_spec(),
            final(self).entries_spec() == old(self).entries_spec().update(
                id.0 as int,
                ResourceEntry { state, ..old(self).entries_spec()[id.0 as int] },
            ),
    {
        let i = id.0 as usize;
        let mut e = self.entries[i];
        e.state = state;
        self.entries.set(i, e);
        proof {
            assert forall|j: int| 0 <= j < self.entries@.len() implies self.by_key@.contains_key(
                (#[trigger] self.entries@[j]).key,
            ) && self.by_key@[self.entries@[j].key].0 == j by {
                assert(self.entries@[j].key == old(self).entries@[j].key);
            }
        }
    }

    /// Mark `key`'s entry `Ready(value)`, creating it if absent.
    pub fn resolve(&mut self, key: u64, value: Value)
        requires
            old(self).wf(),
            old(self).entries_spec().len() < 0x1_0000_0000,
        ensures
            final(self).wf(),
            final(self).keys_spec().contains_key(key),
            final(self).entries_spec()[final(self).keys_spec()[key].0 as int].state
                == ResourceState::Ready(value),
            final(self).keys_spec().dom() == old(self).keys_spec().dom().insert(key),
            forall|k: u64|
                k != key && old(self).keys_spec().contains_key(k) ==> #[trigger] final(self).entries_spec()[
                final(self).keys_spec()[k].0 as int] == old(self).entries_spec()[old(self).keys_spec()[k].0 as int],
    {
        let id = self.get_or_create_loading(key);
        self.set_state(id, ResourceState::Ready(value));
    }

    /// Mark `key`'s entry `Errored(error)`, creating it if absent.
    pub fn reject(&mut self, key: u64, error: Value)
        requires
            old(self).wf(),
            old(self).entries_spec().len() < 0x1_0000_0000,
        ensures
            final(self).wf(),
            final(self).keys_spec().contains_key(key),
            final(self).entries_spec()[final(self).keys_spec()[key].0 as int].state
                == ResourceState::Errored(error),
            final(self).keys_spec().dom() == old(self).keys_spec().dom().insert(key),
            forall|k: u64|
                k != key && old(self).keys_spec().contains_key(k) ==> #[trigger] final(self).entries_spec()[
                final(self).keys_spec()[k].0 as int] == old(self).entries_spec()[old(self).keys_spec()[k].0 as int],
    {
        let id = self.get_or_create_loading(key);
        self.set_state(id, ResourceState::Errored(error));
    }

    /// The entry a `PendingId` points at.
    pub fn entry(&self, id: PendingId) -> (e: &ResourceEntry)
        requires
            (id.0 as int) < self.entries_spec().len(),
        ensures
            *e == self.entries_spec()[id.0 as int],
    {
        &self.entries[id.0 as usize]
    }

    /// The resolved value for `id` if its entry is `Ready`; `None` while it
    /// is `Loading` or `Errored`.
    pub fn value_for(&self, id: PendingId) -> (r: Option<Value>)
        requires
            (id.0 as int) < self.entries_spec().len(),
        ensures
            r == (match self.entries_spec()[id.0 as int].state {
                ResourceState::Ready(v) => Some(v),
                _ => None,
            }),
    {
        match self.entries[id.0 as usize].state {
            ResourceState::Ready(v) => Some(v),
            _ => None,
        }
    }

    /// Count one absorption of the resource `id` (an aggregate swallowing a
    /// `Pending` element). The count stops at `u64::MAX`.
    pub fn note_absorbed(&mut self, id: PendingId)
        requires
            old(self).wf(),
            (id.0 as int) < old(self).entries_spec().len(),
        ensures
            final(self).wf(),
            final(self).keys_spec() == old(self).keys_spec(),
            final(self).entries_spec() == old(self).entries_spec().update(
                id.0 as int,
                ResourceEntry {
                    absorbed_count: if old(self).entries_spec()[id.0 as int].absorbed_count
                        == u64::MAX {
                        u64::MAX
                    } else {
                        (old(self).entries_spec()[id.0 as int].absorbed_count + 1) as u64
                    },
                    ..old(self).entries_spec()[id.0 as int]
                },
            ),
    {
        let i = id.0 as usize;
        let mut e = self.entries[i];
        if e.absorbed_count < u64::MAX {
            e.absorbed_count = e.absorbed_count + 1;
        }
        self.entries.set(i, e);
        proof {
            assert forall|j: int| 0 <= j < self.entries@.len() implies self.by_key@.contains_key(
                (#[trigger] self.entries@[j]).key,
            ) && self.by_key@[self.entries@[j].key].0 == j by {
                assert(self.entries@[j].key == old(self).entries@[j].key);
            }
        }
    }

    /// GC roots: the payload values the table holds alive — the value of
    /// every `Ready` and `Errored` entry, in id order.
    pub fn gc_roots(&self) -> (roots: Vec<Value>)
        ensures
            roots@ == payloads(self.entries_spec()),
    {
        let mut roots: Vec<Value> = Vec::new();
        let mut i: usize = 0;
        while i < self.entries.len()
            invariant
                i <= self.entries@.len(),
                roots@ == payloads(self.entries@.take(i as int)),
            decreases self.entries@.len() - i,
        {
            proof {
                assert(self.entries@.take((i + 1) as int).drop_last() =~= self.entries@.take(
                    i as int,
                ));
            }
            match self.entries[i].state {
                ResourceState::Ready(v) => {
                    roots.push(v);
                },
                ResourceState::Errored(v) => {
                    roots.push(v);
                },
                ResourceState::Loading => {},
            }
            i = i + 1;
        }
        proof {
            assert(self.entries@.take(self.entries@.len() as int) =~= self.entries@);
        }
        roots
    }
}

/// The values carried by `Ready` and `Errored` entries, in order.
pub open spec fn payloads(entries: Seq<ResourceEntry>) -> Seq<Value>
    decreases entries.len(),
{
    if entries.len() == 0 {
        Seq::empty()
    } else {
        let rest = payloads(entries.drop_last());
        match entries.last().state {
            ResourceState::Ready(v) => rest.push(v),
            ResourceState::Errored(v) => rest.push(v),
            ResourceState::Loading => rest,
        }
    }
}

impl Default for ResourceTable {
    /// An empty table.
    fn default() -> (t: ResourceTable)
        ensures
            t.wf(),
            t.entries_spec() == Seq::<ResourceEntry>::empty(),
    {
        ResourceTable::new()
    }
}

/// Requests for one key share one resource: asking twice yields the same
/// id and leaves the table as the first request left it.
pub proof fn law_same_key_same_id(t: ResourceTable, key: u64)
    requires
        t.wf(),
        t.keys_spec().contains_key(key),
    ensures
        (t.keys_spec()[key].0 as int) < t.entries_spec().len(),
        t.entries_spec()[t.keys_spec()[key].0 as int].key == key,
        t.keys_spec().insert(key, t.keys_spec()[key]) == t.keys_spec(),
{
    assert(t.keys_spec().insert(key, t.keys_spec()[key]) =~= t.keys_spec());
}

} // verus!
