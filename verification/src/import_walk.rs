//! The import walk: which modules to load, in which order, and when the
//! imports are cyclic.
//!
//! Loading the entry file's imports is a depth-first walk. Each imported
//! module is loaded at most once (a diamond import is loaded the first time
//! it is reached), its own imports are loaded before it, and an import of a
//! module that is still being loaded is a cycle, reported with the chain of
//! modules that closes it. Finding and parsing a module's source is the
//! host's work: the walk says which module to load next ([`WalkAction::Load`])
//! and the host answers with that module's imports
//! ([`ImportWalk::module_loaded`]).

use vstd::prelude::*;
use crate::text::{push_str, str_eq, string_from};

verus! {

/// A module whose imports are being walked: its name (`None` for the entry
/// file), its imports, and how many of them have been visited.
#[derive(Debug)]
pub struct Frame {
    pub module: Option<String>,
    pub imports: Vec<String>,
    pub next: usize,
}

/// A frame as plain values.
pub struct FrameView {
    pub module: Option<Seq<char>>,
    pub imports: Seq<Seq<char>>,
    pub next: int,
}

/// The walk as plain values: the frames (the entry's first), the modules
/// finished so far in dependency post-order, the next file id, and the
/// module the host has been asked to load.
pub struct WalkState {
    pub frames: Seq<FrameView>,
    pub loaded: Seq<Seq<char>>,
    pub next_file: u16,
    pub pending: Option<Seq<char>>,
}

/// What the host does next.
#[derive(Debug)]
pub enum WalkAction {
    /// Resolve and parse module `name`, imported by `importer` (`None`: the
    /// entry file), giving it file id `file_id`; then report its imports.
    Load { name: String, file_id: u16, importer: Option<String> },
    /// Every import is loaded.
    Done,
    /// The walk failed: an import cycle, or too many modules.
    Failed(String),
}

/// An action as plain values.
pub enum ActionView {
    Load { name: Seq<char>, file_id: u16, importer: Option<Seq<char>> },
    Done,
    Failed(Seq<char>),
}

/// The view of an action.
pub open spec fn action_view(a: WalkAction) -> ActionView {
    match a {
        WalkAction::Load { name, file_id, importer } => ActionView::Load {
            name: name@,
            file_id,
            importer: match importer {
                Some(i) => Some(i@),
                None => None,
            },
        },
        WalkAction::Done => ActionView::Done,
        WalkAction::Failed(m) => ActionView::Failed(m@),
    }
}

/// The view of an optional name.
pub open spec fn opt_view(o: Option<String>) -> Option<Seq<char>> {
    match o {
        Some(s) => Some(s@),
        None => None,
    }
}

/// The view of a list of names.
pub open spec fn names_view(v: Seq<String>) -> Seq<Seq<char>> {
    v.map_values(|s: String| s@)
}

/// The view of a frame.
pub open spec fn frame_view(f: Frame) -> FrameView {
    FrameView { module: opt_view(f.module), imports: names_view(f.imports@), next: f.next as int }
}

/// The largest file id; the file table holds no more.
pub const FILE_LIMIT: u16 = 65535;

/// The first frame at or after `k`, past the entry's, that loads module
/// `name`.
pub open spec fn frame_of(frames: Seq<FrameView>, name: Seq<char>, k: int) -> Option<int>
    decreases frames.len() - k,
{
    if k < 1 || k >= frames.len() {
        None
    } else if frames[k].module == Some(name) {
        Some(k)
    } else {
        frame_of(frames, name, k + 1)
    }
}

/// The names of the modules of `frames[k..]`, joined by ` -> `.
pub open spec fn chain_from(frames: Seq<FrameView>, k: int) -> Seq<char>
    decreases frames.len() - k,
{
    if k < 0 || k >= frames.len() {
        Seq::empty()
    } else if k == frames.len() - 1 {
        frames[k].module.unwrap_or(Seq::empty())
    } else {
        frames[k].module.unwrap_or(Seq::empty()) + " -> "@ + chain_from(frames, k + 1)
    }
}

/// One step of the walk: `Ok` a state to go on from, or `Err` the action to
/// hand the host with the state it leaves.
pub open spec fn micro(s: WalkState) -> Result<WalkState, (ActionView, WalkState)> {
    let top = s.frames.last();
    let n = s.frames.len() as int;
    if 0 <= top.next < top.imports.len() {
        let name = top.imports[top.next];
        let advanced = WalkState {
            frames: s.frames.update(n - 1, FrameView { next: top.next + 1, ..top }),
            ..s
        };
        if s.loaded.contains(name) {
            Ok(advanced)
        } else {
            match frame_of(s.frames, name, 1) {
                Some(k) => Err((
                    ActionView::Failed("import cycle: "@ + chain_from(s.frames, k) + " -> "@ + name),
                    advanced,
                )),
                None => if s.next_file == FILE_LIMIT {
                    Err((ActionView::Failed("too many modules (file table limit is 65535)"@), advanced))
                } else {
                    Err((
                        ActionView::Load { name, file_id: s.next_file, importer: top.module },
                        WalkState {
                            next_file: (s.next_file + 1) as u16,
                            pending: Some(name),
                            ..advanced
                        },
                    ))
                },
            }
        }
    } else if n <= 1 {
        Err((ActionView::Done, s))
    } else {
        Ok(WalkState {
            frames: s.frames.drop_last(),
            loaded: s.loaded.push(top.module.unwrap_or(Seq::empty())),
            ..s
        })
    }
}

/// The imports still to visit, plus one per frame still to finish.
pub open spec fn remaining(frames: Seq<FrameView>) -> nat
    decreases frames.len(),
{
    if frames.len() == 0 {
        0
    } else {
        remaining(frames.drop_last()) + (frames.last().imports.len() - frames.last().next) as nat + 1
    }
}

/// Every frame's count of visited imports is within its imports.
pub open spec fn frames_ok(frames: Seq<FrameView>) -> bool {
    &&& frames.len() >= 1
    &&& forall|i: int| 0 <= i < frames.len() ==> 0 <= #[trigger] frames[i].next <= frames[i].imports.len()
}

/// Steps of the walk until it hands the host an action.
pub open spec fn run(s: WalkState) -> (ActionView, WalkState)
    decreases remaining(s.frames),
{
    if !frames_ok(s.frames) {
        (ActionView::Done, s)
    } else {
        match micro(s) {
            Err(r) => r,
            Ok(t) => {
                proof {
                    lemma_micro_decreases(s);
                }
                run(t)
            },
        }
    }
}

pub proof fn lemma_remaining_update(frames: Seq<FrameView>, f: FrameView)
    requires
        frames.len() >= 1,
    ensures
        remaining(frames.update(frames.len() - 1, f)) == remaining(frames.drop_last()) + (f.imports.len() - f.next) as nat + 1,
{
    assert(frames.update(frames.len() - 1, f).drop_last() =~= frames.drop_last());
}

pub proof fn lemma_micro_decreases(s: WalkState)
    requires
        frames_ok(s.frames),
        micro(s) is Ok,
    ensures
        frames_ok(micro(s)->Ok_0.frames),
        remaining(micro(s)->Ok_0.frames) < remaining(s.frames),
{
    let top = s.frames.last();
    let n = s.frames.len() as int;
    assert(0 <= s.frames[n - 1].next <= s.frames[n - 1].imports.len());
    if 0 <= top.next < top.imports.len() {
        let f = FrameView { next: top.next + 1, ..top };
        lemma_remaining_update(s.frames, f);
        let t = s.frames.update(n - 1, f);
        assert forall|i: int| 0 <= i < t.len() implies 0 <= #[trigger] t[i].next <= t[i].imports.len() by {
            if i < n - 1 {
                assert(t[i] == s.frames[i]);
            }
        }
    } else {
        let t = s.frames.drop_last();
        assert forall|i: int| 0 <= i < t.len() implies 0 <= #[trigger] t[i].next <= t[i].imports.len() by {
            assert(t[i] == s.frames[i]);
        }
    }
}

/// No name occurs twice.
pub open spec fn distinct(names: Seq<Seq<char>>) -> bool {
    forall|i: int, j: int| 0 <= i < j < names.len() ==> names[i] != names[j]
}

/// The modules being loaded: the frames past the entry's, and the one the
/// host has been asked for.
pub open spec fn in_progress(s: WalkState) -> Seq<Seq<char>> {
    let fs = s.frames.skip(1).map_values(|f: FrameView| f.module.unwrap_or(Seq::empty()));
    match s.pending {
        Some(p) => fs.push(p),
        None => fs,
    }
}

/// The walk's invariant: the entry's frame is first and names no module,
/// every other frame names one, and no module is both finished and being
/// loaded, or finished or being loaded twice.
pub open spec fn walk_ok(s: WalkState) -> bool {
    &&& frames_ok(s.frames)
    &&& s.frames[0].module is None
    &&& forall|i: int| 1 <= i < s.frames.len() ==> (#[trigger] s.frames[i]).module is Some
    &&& distinct(s.loaded)
    &&& distinct(in_progress(s))
    &&& forall|x: Seq<char>| s.loaded.contains(x) ==> !in_progress(s).contains(x)
}

/// An import walk over the entry file's imports.
#[derive(Debug)]
pub struct ImportWalk {
    frames: Vec<Frame>,
    loaded: Vec<String>,
    next_file: u16,
    pending: Option<String>,
}

impl ImportWalk {
    /// The walk as plain values.
    pub closed spec fn state(&self) -> WalkState {
        WalkState {
            frames: self.frames@.map_values(|f: Frame| frame_view(f)),
            loaded: names_view(self.loaded@),
            next_file: self.next_file,
            pending: opt_view(self.pending),
        }
    }

    /// A walk over the entry file's `imports`; the first module gets file id
    /// 1 (0 is the entry file's).
    pub fn new(imports: Vec<String>) -> (w: ImportWalk)
        ensures
            w.state() == (WalkState {
                frames: seq![FrameView { module: None, imports: names_view(imports@), next: 0 }],
                loaded: Seq::empty(),
                next_file: 1,
                pending: None,
            }),
            walk_ok(w.state()),
    {
        let ghost iv = names_view(imports@);
        let w = ImportWalk {
            frames: vec![Frame { module: None, imports, next: 0 }],
            loaded: Vec::new(),
            next_file: 1,
            pending: None,
        };
        proof {
            assert(w.state().frames =~= seq![FrameView { module: None, imports: iv, next: 0 }]);
            assert(w.state().loaded =~= Seq::<Seq<char>>::empty());
            assert(in_progress(w.state()) =~= Seq::<Seq<char>>::empty());
        }
        w
    }

    /// The modules finished so far, in dependency post-order.
    pub fn loaded(&self) -> (r: &[String])
        ensures
            names_view(r@) == self.state().loaded,
    {
        self.loaded.as_slice()
    }
}

/// Whether `x` is among `names`.
fn contains_name(names: &Vec<String>, x: &str) -> (r: bool)
    ensures
        r == names_view(names@).contains(x@),
{
    let mut i: usize = 0;
    while i < names.len()
        invariant
            i <= names@.len(),
            forall|j: int| 0 <= j < i ==> names@[j]@ != x@,
        decreases names.len() - i,
    {
        if str_eq(names[i].as_str(), x) {
            proof {
                assert(names_view(names@)[i as int] == x@);
            }
            return true;
        }
        i = i + 1;
    }
    proof {
        if names_view(names@).contains(x@) {
            let j = choose|j: int| 0 <= j < names_view(names@).len() && names_view(names@)[j] == x@;
            assert(names@[j]@ == x@);
        }
    }
    false
}

impl ImportWalk {
    /// The first frame past the entry's that loads `name`.
    fn frame_of_name(&self, name: &str) -> (r: Option<usize>)
        ensures
            match r {
                Some(k) => frame_of(self.state().frames, name@, 1) == Some(k as int),
                None => frame_of(self.state().frames, name@, 1) is None,
            },
    {
        let ghost fs = self.state().frames;
        let mut k: usize = 1;
        while k < self.frames.len()
            invariant
                1 <= k,
                fs == self.state().frames,
                fs.len() == self.frames@.len(),
                frame_of(fs, name@, 1) == frame_of(fs, name@, k as int),
            decreases self.frames.len() - k,
        {
            proof {
                assert(fs[k as int] == frame_view(self.frames@[k as int]));
            }
            let hit = match &self.frames[k].module {
                Some(m) => str_eq(m.as_str(), name),
                None => false,
            };
            if hit {
                return Some(k);
            }
            k = k + 1;
        }
        None
    }

    /// `import cycle: a -> b -> … -> name`, from frame `k` on.
    fn cycle_message(&self, k: usize, name: &str) -> (m: String)
        requires
            1 <= k < self.state().frames.len(),
        ensures
            m@ == "import cycle: "@ + chain_from(self.state().frames, k as int) + " -> "@ + name@,
    {
        let ghost fs = self.state().frames;
        let mut m = string_from("import cycle: ");
        let mut i = k;
        proof {
            assert(chain_from(fs, k as int) == Seq::<char>::empty() + chain_from(fs, i as int));
        }
        let ghost prefix = Seq::<char>::empty();
        while i < self.frames.len()
            invariant
                k <= i <= self.frames@.len(),
                fs == self.state().frames,
                fs.len() == self.frames@.len(),
                m@ == "import cycle: "@ + prefix,
                chain_from(fs, k as int) == prefix + chain_from(fs, i as int),
            decreases self.frames.len() - i,
        {
            proof {
                assert(fs[i as int] == frame_view(self.frames@[i as int]));
            }
            let ghost before = m@;
            match &self.frames[i].module {
                Some(n) => push_str(&mut m, n.as_str()),
                None => {},
            }
            let ghost part = fs[i as int].module.unwrap_or(Seq::empty());
            proof {
                assert(m@ == before + part);
            }
            if i + 1 < self.frames.len() {
                push_str(&mut m, " -> ");
                proof {
                    prefix = prefix + part + " -> "@;
                    assert(m@ =~= "import cycle: "@ + prefix);
                }
            } else {
                proof {
                    prefix = prefix + part;
                    assert(m@ =~= "import cycle: "@ + prefix);
                    assert(chain_from(fs, (i + 1) as int) == Seq::<char>::empty());
                }
            }
            i = i + 1;
        }
        push_str(&mut m, " -> ");
        push_str(&mut m, name);
        proof {
            assert(prefix =~= chain_from(fs, k as int));
        }
        m
    }

    /// Walk on until the host has something to do: the next module to load,
    /// the end of the walk, or its failure.
    pub fn step(&mut self) -> (a: WalkAction)
        requires
            old(self).state().pending is None,
            frames_ok(old(self).state().frames),
        ensures
            (action_view(a), final(self).state()) == run(old(self).state()),
            walk_ok(old(self).state()) ==> walk_ok(final(self).state()),
    {
        proof {
            if walk_ok(self.state()) {
                law_walk_loads_each_module_once(self.state());
            }
        }
        loop
            invariant
                self.state().pending is None,
                frames_ok(self.state().frames),
                run(self.state()) == run(old(self).state()),
                walk_ok(old(self).state()) ==> walk_ok(run(old(self).state()).1),
            decreases remaining(self.state().frames),
        {
            let ghost s = self.state();
            let n = self.frames.len();
            proof {
                assert(s.frames.last() == frame_view(self.frames@[n - 1]));
                assert(0 <= s.frames[n - 1].next <= s.frames[n - 1].imports.len());
            }
            if self.frames[n - 1].next < self.frames[n - 1].imports.len() {
                let at = self.frames[n - 1].next;
                let name = string_from(self.frames[n - 1].imports[at].as_str());
                proof {
                    assert(name@ == s.frames.last().imports[at as int]);
                }
                let mut top = self.frames.pop().unwrap();
                top.next = at + 1;
                let ghost tv = frame_view(top);
                self.frames.push(top);
                let ghost adv = WalkState {
                    frames: s.frames.update(n - 1, FrameView { next: s.frames.last().next + 1, ..s.frames.last() }),
                    ..s
                };
                proof {
                    assert(self.state().frames =~= adv.frames);
                    assert(self.state() == adv);
                }
                if contains_name(&self.loaded, name.as_str()) {
                    proof {
                        assert(micro(s) == Ok::<WalkState, (ActionView, WalkState)>(adv));
                        lemma_micro_decreases(s);
                    }
                    continue;
                }
                match self.frame_of_name(name.as_str()) {
                    Some(k) => {
                        proof {
                            lemma_frame_of_bounds(self.state().frames, name@, 1);
                        }
                        let msg = self.cycle_message(k, name.as_str());
                        proof {
                            assert(chain_from(adv.frames, k as int) == chain_from(s.frames, k as int)) by {
                                lemma_chain_same(s.frames, adv.frames, k as int);
                            }
                            assert(frame_of(adv.frames, name@, 1) == frame_of(s.frames, name@, 1)) by {
                                lemma_frame_of_same(s.frames, adv.frames, name@, 1);
                            }
                        }
                        proof {
                            assert(micro(s) == Err::<WalkState, (ActionView, WalkState)>((ActionView::Failed(msg@), adv)));
                            assert(self.state() == run(old(self).state()).1);
                        }
                        return WalkAction::Failed(msg);
                    },
                    None => {
                        proof {
                            lemma_frame_of_same(s.frames, adv.frames, name@, 1);
                        }
                    },
                }
                if self.next_file == FILE_LIMIT {
                    let msg = string_from("too many modules (file table limit is 65535)");
                    proof {
                        assert(micro(s) == Err::<WalkState, (ActionView, WalkState)>((ActionView::Failed(msg@), adv)));
                        assert(self.state() == run(old(self).state()).1);
                    }
                    return WalkAction::Failed(msg);
                }
                let file_id = self.next_file;
                self.next_file = self.next_file + 1;
                let importer = match &self.frames[n - 1].module {
                    Some(m) => Some(string_from(m.as_str())),
                    None => None,
                };
                proof {
                    assert(frame_view(self.frames@[n - 1]) == tv);
                }
                self.pending = Some(string_from(name.as_str()));
                return WalkAction::Load { name, file_id, importer };
            } else if n <= 1 {
                return WalkAction::Done;
            } else {
                let top = self.frames.pop().unwrap();
                let m = match top.module {
                    Some(m) => m,
                    None => String::new(),
                };
                proof {
                    assert(frame_view(top) == s.frames.last());
                    assert(m@ == s.frames.last().module.unwrap_or(Seq::empty()));
                }
                self.loaded.push(m);
                proof {
                    assert(self.state().frames =~= s.frames.drop_last());
                    assert(self.state().loaded =~= s.loaded.push(s.frames.last().module.unwrap_or(Seq::empty())));
                    lemma_micro_decreases(s);
                }
            }
        }
    }

    /// The host loaded the module it was asked for; these are its imports,
    /// which are walked next.
    pub fn module_loaded(&mut self, imports: Vec<String>)
        requires
            old(self).state().pending is Some,
        ensures
            final(self).state() == (WalkState {
                frames: old(self).state().frames.push(
                    FrameView { module: old(self).state().pending, imports: names_view(imports@), next: 0 },
                ),
                pending: None,
                ..old(self).state()
            }),
            walk_ok(old(self).state()) ==> walk_ok(final(self).state()),
    {
        let ghost s = self.state();
        proof {
            if walk_ok(s) {
                law_module_loaded_keeps_the_walk_ok(s, names_view(imports@));
            }
        }
        let ghost iv = names_view(imports@);
        let module = self.pending.take();
        self.frames.push(Frame { module, imports, next: 0 });
        proof {
            assert(self.state().frames =~= s.frames.push(FrameView { module: s.pending, imports: iv, next: 0 }));
        }
    }
}

proof fn lemma_frame_of_bounds(fs: Seq<FrameView>, name: Seq<char>, j: int)
    ensures
        frame_of(fs, name, j) matches Some(k) ==> 1 <= j <= k < fs.len() && fs[k].module == Some(name),
    decreases fs.len() - j,
{
    if 1 <= j < fs.len() && fs[j].module != Some(name) {
        lemma_frame_of_bounds(fs, name, j + 1);
    }
}

proof fn lemma_frame_of_same(a: Seq<FrameView>, b: Seq<FrameView>, name: Seq<char>, k: int)
    requires
        a.len() == b.len(),
        forall|i: int| 0 <= i < a.len() ==> (#[trigger] a[i]).module == b[i].module,
    ensures
        frame_of(a, name, k) == frame_of(b, name, k),
    decreases a.len() - k,
{
    if 1 <= k < a.len() {
        lemma_frame_of_same(a, b, name, k + 1);
    }
}

proof fn lemma_chain_same(a: Seq<FrameView>, b: Seq<FrameView>, k: int)
    requires
        a.len() == b.len(),
        forall|i: int| 0 <= i < a.len() ==> (#[trigger] a[i]).module == b[i].module,
    ensures
        chain_from(a, k) == chain_from(b, k),
    decreases a.len() - k,
{
    if 0 <= k < a.len() - 1 {
        lemma_chain_same(a, b, k + 1);
    }
}

/// Frames with the same modules have the same modules in progress.
proof fn lemma_in_progress_same(s: WalkState, t: WalkState)
    requires
        s.frames.len() >= 1,
        s.frames.len() == t.frames.len(),
        forall|i: int| 0 <= i < s.frames.len() ==> (#[trigger] s.frames[i]).module == t.frames[i].module,
        s.pending == t.pending,
    ensures
        in_progress(s) == in_progress(t),
{
    let a = s.frames.skip(1).map_values(|f: FrameView| f.module.unwrap_or(Seq::empty()));
    let b = t.frames.skip(1).map_values(|f: FrameView| f.module.unwrap_or(Seq::empty()));
    assert(a =~= b) by {
        assert(a.len() == b.len());
        assert forall|i: int| 0 <= i < a.len() implies a[i] == b[i] by {
            assert(s.frames.skip(1)[i] == s.frames[i + 1]);
            assert(t.frames.skip(1)[i] == t.frames[i + 1]);
            assert(s.frames[i + 1].module == t.frames[i + 1].module);
        }
    }
}

/// One step of the walk keeps its invariant.
proof fn lemma_micro_keeps_ok(s: WalkState)
    requires
        walk_ok(s),
        s.pending is None,
    ensures
        match micro(s) {
            Ok(t) => walk_ok(t) && t.pending is None,
            Err(r) => walk_ok(r.1),
        },
{
    let top = s.frames.last();
    let n = s.frames.len() as int;
    assert(0 <= s.frames[n - 1].next <= s.frames[n - 1].imports.len());
    let ip = in_progress(s);
    if 0 <= top.next < top.imports.len() {
        let name = top.imports[top.next];
        let adv = WalkState {
            frames: s.frames.update(n - 1, FrameView { next: top.next + 1, ..top }),
            ..s
        };
        lemma_in_progress_same(s, adv);
        lemma_micro_decreases_frames(s);
        assert(walk_ok(adv)) by {
            assert forall|i: int| 1 <= i < adv.frames.len() implies (#[trigger] adv.frames[i]).module is Some by {
                assert(adv.frames[i].module == s.frames[i].module);
            }
            assert(adv.frames[0].module == s.frames[0].module);
        }
        if !s.loaded.contains(name) && frame_of(s.frames, name, 1) is None && s.next_file != FILE_LIMIT {
            let t = WalkState { next_file: (s.next_file + 1) as u16, pending: Some(name), ..adv };
            let fs = adv.frames.skip(1).map_values(|f: FrameView| f.module.unwrap_or(Seq::empty()));
            assert(in_progress(t) == fs.push(name));
            assert(in_progress(adv) == fs);
            assert(!fs.contains(name)) by {
                if fs.contains(name) {
                    let j = choose|j: int| 0 <= j < fs.len() && fs[j] == name;
                    assert(s.frames[j + 1].module is Some);
                    assert(s.frames[j + 1].module == Some(name));
                    lemma_frame_of_none(s.frames, name, 1, j + 1);
                }
            }
            assert(walk_ok(t)) by {
                let q = fs.push(name);
                assert forall|i: int, j: int| 0 <= i < j < q.len() implies q[i] != q[j] by {
                    if j == q.len() - 1 {
                        assert(fs.contains(q[i]) || i == j);
                    }
                }
            }
        }
    } else if n > 1 {
        let m = top.module.unwrap_or(Seq::empty());
        let t = WalkState { frames: s.frames.drop_last(), loaded: s.loaded.push(m), ..s };
        assert(frames_ok(t.frames)) by {
            assert forall|i: int| 0 <= i < t.frames.len() implies 0 <= #[trigger] t.frames[i].next <= t.frames[i].imports.len() by {
                assert(t.frames[i] == s.frames[i]);
            }
        }
        let ipt = in_progress(t);
        assert(ipt =~= ip.drop_last());
        assert(ip.last() == m) by {
            assert(ip[ip.len() - 1] == s.frames[n - 1].module.unwrap_or(Seq::empty()));
        }
        assert(ip.contains(m)) by {
            assert(ip[ip.len() - 1] == m);
        }
        assert(walk_ok(t)) by {
            assert forall|i: int| 1 <= i < t.frames.len() implies (#[trigger] t.frames[i]).module is Some by {
                assert(t.frames[i] == s.frames[i]);
            }
            assert(t.frames[0] == s.frames[0]);
            assert forall|i: int, j: int| 0 <= i < j < t.loaded.len() implies t.loaded[i] != t.loaded[j] by {
                if j == t.loaded.len() - 1 {
                    assert(s.loaded.contains(t.loaded[i]));
                }
            }
            assert forall|x: Seq<char>| t.loaded.contains(x) implies !ipt.contains(x) by {
                if ipt.contains(x) {
                    let j = choose|j: int| 0 <= j < ipt.len() && ipt[j] == x;
                    assert(ip[j] == x);
                    if x == m {
                        assert(ip[ip.len() - 1] == m);
                    } else {
                        let i = choose|i: int| 0 <= i < t.loaded.len() && t.loaded[i] == x;
                        assert(s.loaded[i] == x);
                        assert(s.loaded.contains(x));
                    }
                }
            }
        }
    }
}

proof fn lemma_micro_decreases_frames(s: WalkState)
    requires
        frames_ok(s.frames),
        0 <= s.frames.last().next < s.frames.last().imports.len(),
    ensures
        frames_ok(s.frames.update(s.frames.len() - 1, FrameView { next: s.frames.last().next + 1, ..s.frames.last() })),
{
    let n = s.frames.len() as int;
    let t = s.frames.update(n - 1, FrameView { next: s.frames.last().next + 1, ..s.frames.last() });
    assert forall|i: int| 0 <= i < t.len() implies 0 <= #[trigger] t[i].next <= t[i].imports.len() by {
        if i < n - 1 {
            assert(t[i] == s.frames[i]);
        }
    }
}

proof fn lemma_frame_of_none(fs: Seq<FrameView>, name: Seq<char>, j: int, k: int)
    requires
        1 <= j <= k < fs.len(),
        fs[k].module == Some(name),
    ensures
        frame_of(fs, name, j) is Some,
    decreases k - j,
{
    if fs[j].module != Some(name) {
        lemma_frame_of_none(fs, name, j + 1, k);
    }
}

/// Walking keeps the walk's invariant, so a module is asked for only when
/// it is neither finished nor being loaded: each module is loaded at most
/// once, and the finished modules never repeat.
pub proof fn law_walk_loads_each_module_once(s: WalkState)
    requires
        walk_ok(s),
        s.pending is None,
    ensures
        walk_ok(run(s).1),
        run(s).0 matches ActionView::Load { name, .. } ==> run(s).1.pending == Some(name) && !run(s).1.loaded.contains(name),
    decreases remaining(s.frames),
{
    lemma_micro_keeps_ok(s);
    match micro(s) {
        Ok(t) => {
            lemma_micro_decreases(s);
            law_walk_loads_each_module_once(t);
        },
        Err(r) => {
            if r.0 is Load {
                let ip = in_progress(r.1);
                assert(ip[ip.len() - 1] == r.1.pending.unwrap());
                assert(ip.contains(r.1.pending.unwrap()));
            }
        },
    }
}

/// Reporting a loaded module's imports keeps the walk's invariant.
pub proof fn law_module_loaded_keeps_the_walk_ok(s: WalkState, imports: Seq<Seq<char>>)
    requires
        walk_ok(s),
        s.pending is Some,
    ensures
        walk_ok(WalkState {
            frames: s.frames.push(FrameView { module: s.pending, imports, next: 0 }),
            pending: None,
            ..s
        }),
{
    let t = WalkState { frames: s.frames.push(FrameView { module: s.pending, imports, next: 0 }), pending: None, ..s };
    assert(in_progress(t) =~= in_progress(s));
    assert forall|i: int| 0 <= i < t.frames.len() implies 0 <= #[trigger] t.frames[i].next <= t.frames[i].imports.len() by {
        if i < s.frames.len() {
            assert(t.frames[i] == s.frames[i]);
        }
    }
    assert forall|i: int| 1 <= i < t.frames.len() implies (#[trigger] t.frames[i]).module is Some by {
        if i < s.frames.len() {
            assert(t.frames[i] == s.frames[i]);
        }
    }
    assert(t.frames[0] == s.frames[0]);
}

} // verus!
