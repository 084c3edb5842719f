//! Module resolution.
//!
//! A module name is an identifier; what it resolves to is the resolver's
//! business. The built-in [`ModuleRegistry`] resolves, in order: modules
//! registered in memory, then `<dir>/<name>.ptl` in the importing file's
//! directory, the registered search paths, and the directories of the
//! `PETAL_PATH` list. Finding which of those files exists is the host's
//! part: the registry says which to try, in which order.

use vstd::prelude::*;
use crate::package::{entries_map, entries_view, find_slot, sorted_insert, sorted_keys};
use crate::text::{chars_of, push_str, string_from};

verus! {

/// Where a module's source came from.
#[derive(Debug, Clone)]
pub enum ModuleOrigin {
    /// Registered in memory.
    Memory,
    /// Read from (or, for an in-memory package, named as) a file path.
    File(String),
}

/// A resolved module source, before parsing.
#[derive(Debug, Clone)]
pub struct ModuleSource {
    pub name: String,
    pub source: String,
    pub origin: ModuleOrigin,
}

/// Pluggable module resolution: given a module name and the origin of the
/// importing file, produce source.
pub trait ModuleResolver {
    fn resolve(&self, name: &str, importer: Option<&ModuleOrigin>) -> Option<ModuleSource>;
}

/// The built-in resolver's state: in-memory modules, search paths, and the
/// modules every entry file imports implicitly.
#[derive(Debug)]
pub struct ModuleRegistry {
    memory: Vec<(String, String)>,
    paths: Vec<String>,
    /// Modules every loaded entry file imports as if by `import m: <all>`.
    pub implicit_imports: Vec<String>,
}

/// `dir` joined with a relative file name, `/`-separated.
pub open spec fn join_text(dir: Seq<char>, file: Seq<char>) -> Seq<char> {
    if dir.len() == 0 {
        file
    } else if dir.last() == '/' {
        dir + file
    } else {
        dir + "/"@ + file
    }
}

/// The directories of a `:`-separated list, empty entries skipped.
pub open spec fn split_path_list(list: Seq<char>) -> Seq<Seq<char>>
    decreases list.len(),
{
    if list.len() == 0 {
        Seq::empty()
    } else {
        let i = crate::package::find_from(list, ':', 0);
        proof {
            crate::package::lemma_find_from_bounds(list, ':', 0);
        }
        let head = list.subrange(0, i);
        let rest = if i < list.len() {
            split_path_list(list.subrange(i + 1, list.len() as int))
        } else {
            Seq::empty()
        };
        if head.len() == 0 {
            rest
        } else {
            seq![head] + rest
        }
    }
}

impl ModuleRegistry {
    /// The in-memory modules, by name.
    pub closed spec fn memory_spec(&self) -> Map<Seq<char>, Seq<char>> {
        entries_map(entries_view(self.memory@))
    }

    /// The modules every entry file imports implicitly, in order.
    pub closed spec fn implicit_spec(&self) -> Seq<Seq<char>> {
        self.implicit_imports@.map_values(|m: String| m@)
    }

    /// The search paths, in order.
    pub closed spec fn paths_spec(&self) -> Seq<Seq<char>> {
        self.paths@.map_values(|p: String| p@)
    }

    /// The memory table is kept sorted by name.
    pub closed spec fn wf(&self) -> bool {
        sorted_keys(entries_view(self.memory@))
    }

    /// An empty registry.
    pub fn new() -> (r: ModuleRegistry)
        ensures
            r.wf(),
            r.memory_spec() == Map::<Seq<char>, Seq<char>>::empty(),
            r.paths_spec() == Seq::<Seq<char>>::empty(),
            r.implicit_spec() == Seq::<Seq<char>>::empty(),
    {
        let r = ModuleRegistry { memory: Vec::new(), paths: Vec::new(), implicit_imports: Vec::new() };
        proof {
            assert(entries_view(r.memory@) =~= Seq::<(Seq<char>, Seq<char>)>::empty());
            assert(r.paths_spec() =~= Seq::<Seq<char>>::empty());
            assert(r.implicit_spec() =~= Seq::<Seq<char>>::empty());
        }
        r
    }

    /// Register an in-memory module; a later registration of a name
    /// replaces the earlier one. In-memory modules take priority over the
    /// filesystem.
    pub fn register(&mut self, name: &str, source: &str)
        requires
            old(self).wf(),
        ensures
            final(self).wf(),
            final(self).memory_spec() == old(self).memory_spec().insert(name@, source@),
            final(self).paths_spec() == old(self).paths_spec(),
    {
        sorted_insert(&mut self.memory, string_from(name), string_from(source));
    }

    /// Append a directory to the module search path.
    pub fn add_path(&mut self, dir: &str)
        ensures
            final(self).paths_spec() == old(self).paths_spec().push(dir@),
            final(self).memory_spec() == old(self).memory_spec(),
            old(self).wf() ==> final(self).wf(),
    {
        self.paths.push(string_from(dir));
        proof {
            assert(self.paths_spec() =~= old(self).paths_spec().push(dir@));
        }
    }

    /// The in-memory module named `name`, if one is registered.
    pub fn resolve_memory(&self, name: &str) -> (r: Option<ModuleSource>)
        requires
            self.wf(),
        ensures
            match r {
                Some(m) => self.memory_spec().contains_key(name@) && m.name@ == name@ && m.source@
                    == self.memory_spec()[name@] && m.origin is Memory,
                None => !self.memory_spec().contains_key(name@),
            },
    {
        let nc = chars_of(name);
        let (i, found) = find_slot(&self.memory, nc.as_slice());
        if found {
            proof {
                crate::package::lemma_entries_map_get(entries_view(self.memory@), i as int);
            }
            Some(
                ModuleSource {
                    name: string_from(name),
                    source: self.memory[i].1.clone(),
                    origin: ModuleOrigin::Memory,
                },
            )
        } else {
            proof {
                crate::package::lemma_absent_key(entries_view(self.memory@), nc@, i as int);
            }
            None
        }
    }

    /// The files to try, in order, for a module not registered in memory:
    /// `<name>.ptl` in the importing file's directory, in each search path,
    /// then in each directory of `petal_path` (a `:`-separated list).
    pub fn candidate_files(&self, name: &str, importer: Option<&ModuleOrigin>, petal_path: &str) -> (r:
        Vec<String>)
        ensures
            r@.map_values(|s: String| s@) == candidate_spec(
                name@,
                crate::package::origin_path(importer),
                self.paths_spec(),
                petal_path@,
            ),
    {
        let mut file = string_from(name);
        push_str(&mut file, ".ptl");
        let fc = chars_of(file.as_str());
        let mut dirs: Vec<Vec<char>> = Vec::new();
        match importer {
            Some(ModuleOrigin::File(p)) => {
                let pc = chars_of(p.as_str());
                let parent = parent_chars(pc.as_slice());
                dirs.push(parent);
            },
            _ => {},
        }
        let ghost first = dirs@.map_values(|d: Vec<char>| d@);
        let mut k: usize = 0;
        while k < self.paths.len()
            invariant
                k <= self.paths@.len(),
                dirs@.map_values(|d: Vec<char>| d@) == first + self.paths_spec().take(k as int),
            decreases self.paths@.len() - k,
        {
            let ghost before = dirs@;
            let d = chars_of(self.paths[k].as_str());
            let ghost dv = d@;
            dirs.push(d);
            proof {
                assert(dirs@ == before.push(d));
                assert(dirs@.map_values(|d: Vec<char>| d@) =~= before.map_values(|d: Vec<char>| d@).push(dv));
                assert(dv == self.paths_spec()[k as int]);
                assert(self.paths_spec().take((k + 1) as int) =~= self.paths_spec().take(k as int).push(dv));
                assert(dirs@.map_values(|d: Vec<char>| d@) =~= first + self.paths_spec().take(
                    (k + 1) as int,
                ));
            }
            k = k + 1;
        }
        proof {
            assert(self.paths_spec().take(self.paths@.len() as int) =~= self.paths_spec());
        }
        let listed = split_list(petal_path);
        let ghost mid = dirs@.map_values(|d: Vec<char>| d@);
        let mut k: usize = 0;
        while k < listed.len()
            invariant
                k <= listed@.len(),
                dirs@.map_values(|d: Vec<char>| d@) == mid + listed@.map_values(|d: Vec<char>| d@).take(k as int),
            decreases listed@.len() - k,
        {
            let ghost before = dirs@;
            let d = crate::text::slice_chars(listed[k].as_slice(), 0, listed[k].len());
            let ghost dv = d@;
            dirs.push(d);
            proof {
                assert(dirs@ == before.push(d));
                assert(dirs@.map_values(|d: Vec<char>| d@) =~= before.map_values(|d: Vec<char>| d@).push(dv));
                assert(dv == listed@.map_values(|d: Vec<char>| d@)[k as int]);
                assert(listed@.map_values(|d: Vec<char>| d@).take((k + 1) as int) =~= listed@.map_values(|d: Vec<char>| d@).take(k as int).push(dv));
                assert(dirs@.map_values(|d: Vec<char>| d@) =~= mid + listed@.map_values(
                    |d: Vec<char>| d@,
                ).take((k + 1) as int));
            }
            k = k + 1;
        }
        proof {
            assert(listed@.map_values(|d: Vec<char>| d@).take(listed@.len() as int) =~= listed@.map_values(|d: Vec<char>| d@));
        }
        let ghost all_dirs = dirs@.map_values(|d: Vec<char>| d@);
        let mut out: Vec<String> = Vec::new();
        let mut k: usize = 0;
        while k < dirs.len()
            invariant
                k <= dirs@.len(),
                all_dirs == dirs@.map_values(|d: Vec<char>| d@),
                fc@ == name@ + ".ptl"@,
                out@.map_values(|s: String| s@) == all_dirs.take(k as int).map_values(
                    |d: Seq<char>| join_text(d, name@ + ".ptl"@),
                ),
            decreases dirs@.len() - k,
        {
            let joined = join_chars(dirs[k].as_slice(), fc.as_slice());
            let ghost before = out@;
            let js = crate::text::string_of(joined.as_slice());
            let ghost jv = js@;
            out.push(js);
            proof {
                assert(out@ == before.push(js));
                assert(out@.map_values(|s: String| s@) =~= before.map_values(|s: String| s@).push(jv));
                assert(jv == join_text(all_dirs[k as int], name@ + ".ptl"@));
                assert(all_dirs.take((k + 1) as int) =~= all_dirs.take(k as int).push(all_dirs[k as int]));
                assert(out@.map_values(|s: String| s@) =~= all_dirs.take((k + 1) as int).map_values(
                    |d: Seq<char>| join_text(d, name@ + ".ptl"@),
                ));
            }
            k = k + 1;
        }
        proof {
            assert(all_dirs.take(dirs@.len() as int) =~= all_dirs);
        }
        out
    }
}

/// The candidate files for `name`: the importer's directory (when the
/// importer is a file), the search paths, then the `petal_path` list.
pub open spec fn candidate_spec(
    name: Seq<char>,
    importer: Option<Seq<char>>,
    paths: Seq<Seq<char>>,
    petal_path: Seq<char>,
) -> Seq<Seq<char>> {
    let first = match importer {
        Some(p) => seq![crate::package::parent_text(p)],
        None => Seq::empty(),
    };
    (first + paths + split_path_list(petal_path)).map_values(
        |d: Seq<char>| join_text(d, name + ".ptl"@),
    )
}

fn parent_chars(p: &[char]) -> (r: Vec<char>)
    ensures
        r@ == crate::package::parent_text(p@),
{
    let mut i = p.len();
    while i > 0
        invariant
            i <= p@.len(),
            crate::package::rfind_before(p@, '/', p@.len() as int) == crate::package::rfind_before(p@, '/', i as int),
        decreases i,
    {
        if p[i - 1] == '/' {
            return crate::text::slice_chars(p, 0, i - 1);
        }
        i = i - 1;
    }
    Vec::new()
}

pub(crate) fn join_chars(dir: &[char], file: &[char]) -> (r: Vec<char>)
    ensures
        r@ == join_text(dir@, file@),
{
    let mut r = crate::text::slice_chars(dir, 0, dir.len());
    if dir.len() > 0 && dir[dir.len() - 1] != '/' {
        r.push('/');
    }
    let ghost base = r@;
    let mut k: usize = 0;
    while k < file.len()
        invariant
            k <= file@.len(),
            r@ == base + file@.take(k as int),
        decreases file@.len() - k,
    {
        r.push(file[k]);
        proof {
            assert(r@ =~= base + file@.take((k + 1) as int));
        }
        k = k + 1;
    }
    proof {
        reveal_strlit("/");
        assert(file@.take(file@.len() as int) =~= file@);
        if dir@.len() > 0 && dir@.last() != '/' {
            assert(base =~= dir@ + "/"@);
        }
    }
    r
}

/// The non-empty entries of a `:`-separated list, in order.
fn split_list(list: &str) -> (r: Vec<Vec<char>>)
    ensures
        r@.map_values(|d: Vec<char>| d@) == split_path_list(list@),
{
    let lc = chars_of(list);
    let mut out: Vec<Vec<char>> = Vec::new();
    let mut i: usize = 0;
    proof {
        assert(lc@.subrange(0, lc@.len() as int) =~= lc@);
        assert(Seq::<Seq<char>>::empty() + split_path_list(lc@) =~= split_path_list(lc@));
    }
    while i < lc.len()
        invariant
            i <= lc@.len(),
            split_path_list(lc@) == out@.map_values(|d: Vec<char>| d@) + split_path_list(
                lc@.subrange(i as int, lc@.len() as int),
            ),
        decreases lc@.len() - i,
    {
        let e = crate::package::find_char_pub(lc.as_slice(), ':', i);
        let ghost rest_seq = lc@.subrange(i as int, lc@.len() as int);
        proof {
            lemma_find_shift(lc@, ':', i as int);
        }
        let ghost before = out@;
        if e > i {
            out.push(crate::text::slice_chars(lc.as_slice(), i, e));
        }
        proof {
            let head = rest_seq.subrange(0, e - i);
            assert(head =~= lc@.subrange(i as int, e as int));
            if e < lc@.len() {
                assert(rest_seq.subrange(e - i + 1, rest_seq.len() as int) =~= lc@.subrange(
                    e + 1,
                    lc@.len() as int,
                ));
            }
            assert(out@.map_values(|d: Vec<char>| d@) =~= if e > i {
                before.map_values(|d: Vec<char>| d@).push(head)
            } else {
                before.map_values(|d: Vec<char>| d@)
            });
        }
        if e >= lc.len() {
            proof {
                assert(lc@.subrange(lc@.len() as int, lc@.len() as int) =~= Seq::<char>::empty());
            }
            i = lc.len();
        } else {
            i = e + 1;
        }
    }
    proof {
        assert(lc@.subrange(lc@.len() as int, lc@.len() as int) =~= Seq::<char>::empty());
        assert(out@.map_values(|d: Vec<char>| d@) + Seq::<Seq<char>>::empty() =~= out@.map_values(
            |d: Vec<char>| d@,
        ));
    }
    out
}

/// Looking for `c` from `i` in `s` is looking from 0 in `s[i..]`, shifted.
proof fn lemma_find_shift(s: Seq<char>, c: char, i: int)
    requires
        0 <= i <= s.len(),
    ensures
        crate::package::find_from(s.subrange(i, s.len() as int), c, 0) + i == crate::package::find_from(s, c, i),
        i <= crate::package::find_from(s, c, i) <= s.len(),
    decreases s.len() - i,
{
    crate::package::lemma_find_from_bounds(s, c, i);
    lemma_find_shift_at(s, c, i, i);
}

proof fn lemma_find_shift_at(s: Seq<char>, c: char, i: int, j: int)
    requires
        0 <= i <= j <= s.len(),
    ensures
        crate::package::find_from(s.subrange(i, s.len() as int), c, j - i) + i == crate::package::find_from(s, c, j),
    decreases s.len() - j,
{
    if j < s.len() && s[j] != c {
        lemma_find_shift_at(s, c, i, j + 1);
    }
}

} // verus!
