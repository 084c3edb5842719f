//! Polling change detection for a program's source files.
//!
//! A [`SourceWatch`] is a stat snapshot of a set of files that reports when
//! any of them no longer matches. The host stats the files (one `stat` per
//! file per check) and hands the stamps in; the watch decides what changed.

use vstd::prelude::*;

verus! {

/// What a file looked like when it was stat'ed: modification time (in
/// nanoseconds from the Unix epoch, negative before it) and length. Length
/// catches a rewrite that lands within the filesystem's mtime granularity.
/// `None` in a [`SourceWatch`] entry means the file could not be stat'ed
/// (missing, unreadable), and a file that appears later counts as a change.
#[derive(Debug, Clone, Copy, PartialEq, Eq, Structural)]
pub struct FileStamp {
    pub modified: i128,
    pub len: u64,
}

/// Whether two stat results agree.
pub fn same_stamp(a: &Option<FileStamp>, b: &Option<FileStamp>) -> (r: bool)
    ensures
        r == (*a == *b),
{
    match (a, b) {
        (Some(x), Some(y)) => x.modified == y.modified && x.len == y.len,
        (None, None) => true,
        _ => false,
    }
}

/// A stat snapshot of a set of files, for "has anything changed since?".
/// Each query takes the files' stamps as they are now, one per watched
/// file, in snapshot order.
#[derive(Debug, Clone)]
pub struct SourceWatch {
    files: Vec<(String, Option<FileStamp>)>,
}

/// The indices of `now` that differ from the snapshot `files`, in order.
pub open spec fn changed_indices(files: Seq<(String, Option<FileStamp>)>, now: Seq<Option<FileStamp>>) -> Seq<int>
    decreases files.len(),
{
    if files.len() == 0 {
        seq![]
    } else {
        let k = files.len() - 1;
        let before = changed_indices(files.drop_last(), now);
        if now[k] != files[k].1 {
            before.push(k)
        } else {
            before
        }
    }
}

impl SourceWatch {
    /// The watched files with the stamp each had at snapshot time.
    pub closed spec fn entries_spec(&self) -> Seq<(String, Option<FileStamp>)> {
        self.files@
    }

    /// Snapshot the files `entries`: each path with its stamp as it is now.
    pub fn new(entries: Vec<(String, Option<FileStamp>)>) -> (w: SourceWatch)
        ensures
            w.entries_spec() == entries@,
    {
        SourceWatch { files: entries }
    }

    /// The watched files, in snapshot order.
    pub fn paths(&self) -> (r: Vec<String>)
        ensures
            r.len() == self.entries_spec().len(),
            forall|i: int| 0 <= i < r.len() ==> (#[trigger] r@[i])@ == self.entries_spec()[i].0@,
    {
        let mut r: Vec<String> = Vec::new();
        let mut i: usize = 0;
        while i < self.files.len()
            invariant
                i <= self.files.len(),
                r.len() == i,
                forall|k: int| 0 <= k < i ==> (#[trigger] r@[k])@ == self.files@[k].0@,
            decreases self.files.len() - i,
        {
            r.push(crate::text::string_from(self.files[i].0.as_str()));
            i = i + 1;
        }
        r
    }

    /// The watched files with the stamp each had at snapshot time.
    pub fn entries(&self) -> (r: &[(String, Option<FileStamp>)])
        ensures
            r@ == self.entries_spec(),
    {
        self.files.as_slice()
    }

    /// Whether no files are watched.
    pub fn is_empty(&self) -> (r: bool)
        ensures
            r == (self.entries_spec().len() == 0),
    {
        self.files.len() == 0
    }

    /// Whether any watched file differs from its snapshot: modified,
    /// resized, deleted, or (if it was missing) created. Stops at the first
    /// change.
    pub fn changed(&self, now: &[Option<FileStamp>]) -> (r: bool)
        requires
            now.len() == self.entries_spec().len(),
        ensures
            r == exists|i: int| 0 <= i < now.len() && now@[i] != #[trigger] self.entries_spec()[i].1,
    {
        let mut i: usize = 0;
        while i < self.files.len()
            invariant
                i <= self.files.len(),
                now.len() == self.files.len(),
                forall|k: int| 0 <= k < i ==> now@[k] == #[trigger] self.files@[k].1,
            decreases self.files.len() - i,
        {
            if !same_stamp(&now[i], &self.files[i].1) {
                proof {
                    assert(now@[i as int] != self.entries_spec()[i as int].1);
                }
                return true;
            }
            i = i + 1;
        }
        false
    }

    /// Every watched file that differs from its snapshot, in snapshot order.
    pub fn changed_paths(&self, now: &[Option<FileStamp>]) -> (r: Vec<String>)
        requires
            now.len() == self.entries_spec().len(),
        ensures
            r.len() == changed_indices(self.entries_spec(), now@).len(),
            forall|j: int| 0 <= j < r.len() ==> (#[trigger] r@[j])@
                == self.entries_spec()[changed_indices(self.entries_spec(), now@)[j]].0@,
    {
        let mut r: Vec<String> = Vec::new();
        let mut i: usize = 0;
        while i < self.files.len()
            invariant
                i <= self.files.len(),
                now.len() == self.files.len(),
                r.len() == changed_indices(self.files@.take(i as int), now@).len(),
                forall|j: int| 0 <= j < r.len() ==> (#[trigger] r@[j])@
                    == self.files@[changed_indices(self.files@.take(i as int), now@)[j]].0@,
            decreases self.files.len() - i,
        {
            proof {
                assert(self.files@.take((i + 1) as int).drop_last() == self.files@.take(i as int));
                lemma_changed_indices_below(self.files@.take(i as int), now@);
            }
            if !same_stamp(&now[i], &self.files[i].1) {
                r.push(crate::text::string_from(self.files[i].0.as_str()));
            }
            i = i + 1;
        }
        proof {
            assert(self.files@.take(self.files.len() as int) == self.files@);
        }
        r
    }

    /// Re-stamp every watched file as it is now, so the next check compares
    /// against this moment.
    pub fn refresh(&mut self, now: &[Option<FileStamp>])
        requires
            now.len() == old(self).entries_spec().len(),
        ensures
            final(self).entries_spec().len() == old(self).entries_spec().len(),
            forall|i: int| 0 <= i < now.len() ==> (#[trigger] final(self).entries_spec()[i]).0@
                == old(self).entries_spec()[i].0@ && final(self).entries_spec()[i].1 == now@[i],
    {
        let mut files: Vec<(String, Option<FileStamp>)> = Vec::new();
        let mut i: usize = 0;
        while i < self.files.len()
            invariant
                i <= self.files.len(),
                now.len() == self.files.len(),
                self.files@ == old(self).files@,
                files.len() == i,
                forall|k: int| 0 <= k < i ==> (#[trigger] files@[k]).0@ == self.files@[k].0@ && files@[k].1 == now@[k],
            decreases self.files.len() - i,
        {
            let path = crate::text::string_from(self.files[i].0.as_str());
            files.push((path, now[i]));
            i = i + 1;
        }
        self.files = files;
    }
}

/// Every index in `changed_indices(files, now)` is one of `files`.
proof fn lemma_changed_indices_below(files: Seq<(String, Option<FileStamp>)>, now: Seq<Option<FileStamp>>)
    ensures
        forall|j: int| 0 <= j < changed_indices(files, now).len()
            ==> 0 <= #[trigger] changed_indices(files, now)[j] < files.len(),
    decreases files.len(),
{
    if files.len() > 0 {
        let before = changed_indices(files.drop_last(), now);
        lemma_changed_indices_below(files.drop_last(), now);
        let all = changed_indices(files, now);
        assert forall|j: int| 0 <= j < all.len() implies 0 <= #[trigger] all[j] < files.len() by {
            if j < before.len() {
                assert(all[j] == before[j]);
            }
        }
    }
}

/// Dedupe `paths` by filesystem identity, keeping the first spelling of each:
/// `keys[i]` is the canonical form of `paths[i]` (the path as written when it
/// cannot be canonicalized), and a path whose key an earlier path had is
/// dropped.
pub fn dedup_paths(paths: &[String], keys: &[String]) -> (r: Vec<String>)
    requires
        paths.len() == keys.len(),
    ensures
        r@.map_values(|p: String| p@) == first_of_each(paths@, keys@),
{
    let mut out: Vec<String> = Vec::new();
    let mut seen: Vec<String> = Vec::new();
    let mut i: usize = 0;
    while i < paths.len()
        invariant
            i <= paths.len(),
            paths.len() == keys.len(),
            out@.map_values(|p: String| p@) == first_of_each(paths@.take(i as int), keys@.take(i as int)),
            forall|k: Seq<char>| #[trigger] key_seen(seen@, k) == key_seen(keys@.take(i as int), k),
        decreases paths.len() - i,
    {
        let key = &keys[i];
        let mut found = false;
        let mut s: usize = 0;
        while s < seen.len()
            invariant
                s <= seen.len(),
                found == key_seen(seen@.take(s as int), key@),
            decreases seen.len() - s,
        {
            proof {
                let t = seen@.take((s + 1) as int);
                assert(t.drop_last() == seen@.take(s as int));
                if key_seen(t, key@) {
                    let j = choose|j: int| 0 <= j < t.len() && (#[trigger] t[j])@ == key@;
                    if j < s {
                        assert(seen@.take(s as int)[j] == t[j]);
                    }
                }
                if key_seen(seen@.take(s as int), key@) {
                    let j = choose|j: int| 0 <= j < s && (#[trigger] seen@.take(s as int)[j])@ == key@;
                    assert(t[j] == seen@.take(s as int)[j]);
                }
            }
            if crate::text::str_eq(seen[s].as_str(), key.as_str()) {
                found = true;
                proof {
                    let t = seen@.take((s + 1) as int);
                    assert(t[s as int]@ == key@);
                }
            }
            s = s + 1;
        }
        let ghost ki = keys@.take(i as int);
        let ghost kn = keys@.take((i + 1) as int);
        proof {
            assert(seen@.take(seen.len() as int) == seen@);
            assert(paths@.take((i + 1) as int).drop_last() == paths@.take(i as int));
            assert(kn.drop_last() == ki);
            assert(kn.last() == keys@[i as int]);
            assert(found == key_seen(ki, key@));
        }
        if !found {
            let ghost before = out@;
            let ghost seen_before = seen@;
            out.push(crate::text::string_from(paths[i].as_str()));
            proof {
                assert(out@.map_values(|p: String| p@) =~= before.map_values(|p: String| p@).push(paths@[i as int]@));
            }
            seen.push(crate::text::string_from(key.as_str()));
            proof {
                assert forall|k: Seq<char>| #[trigger] key_seen(seen@, k) == key_seen(kn, k) by {
                    lemma_key_seen_push(seen_before, seen@.last(), k);
                    lemma_key_seen_push(ki, keys@[i as int], k);
                    assert(seen@ == seen_before.push(seen@.last()));
                    assert(kn == ki.push(keys@[i as int]));
                }
            }
        } else {
            proof {
                assert forall|k: Seq<char>| #[trigger] key_seen(seen@, k) == key_seen(kn, k) by {
                    lemma_key_seen_push(ki, keys@[i as int], k);
                    assert(kn == ki.push(keys@[i as int]));
                }
            }
        }
        i = i + 1;
    }
    proof {
        assert(paths@.take(paths.len() as int) == paths@);
        assert(keys@.take(keys.len() as int) == keys@);
    }
    out
}

proof fn lemma_key_seen_push(keys: Seq<String>, last: String, k: Seq<char>)
    ensures
        key_seen(keys.push(last), k) == (key_seen(keys, k) || last@ == k),
{
    let all = keys.push(last);
    if key_seen(all, k) {
        let j = choose|j: int| 0 <= j < all.len() && (#[trigger] all[j])@ == k;
        if j < keys.len() {
            assert(keys[j] == all[j]);
        }
    }
    if key_seen(keys, k) {
        let j = choose|j: int| 0 <= j < keys.len() && (#[trigger] keys[j])@ == k;
        assert(all[j] == keys[j]);
    }
    if last@ == k {
        assert(all[keys.len() as int] == last);
    }
}

/// Whether some key of `keys` spells `k`.
pub open spec fn key_seen(keys: Seq<String>, k: Seq<char>) -> bool {
    exists|j: int| 0 <= j < keys.len() && (#[trigger] keys[j])@ == k
}

/// The paths whose key no earlier path had, in order.
pub open spec fn first_of_each(paths: Seq<String>, keys: Seq<String>) -> Seq<Seq<char>>
    decreases paths.len(),
{
    if paths.len() == 0 || keys.len() == 0 {
        seq![]
    } else {
        let before = first_of_each(paths.drop_last(), keys.drop_last());
        if key_seen(keys.drop_last(), keys.last()@) {
            before
        } else {
            before.push(paths.last()@)
        }
    }
}

} // verus!
