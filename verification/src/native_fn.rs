//! Native functions: Rust functions registered under a name and called from
//! Petal code through a stack-based context.
//!
//! The registry records, per native, its name, the callable the host
//! stores, the declared effect row and the `Pending`-argument policy. What a
//! callable is, and how it is invoked, is the host's business: the table is
//! generic over it.

use std::collections::HashMap;
use vstd::prelude::*;
use crate::program::TermId;
use crate::resource_table::ResourceTable;
use crate::run_deps::RunDeps;
use crate::value::{Heap, PendingId, SymbolId, SymbolTable, Value};

verus! {

/// Identifier for a registered native function.
#[derive(Debug, Clone, Copy, PartialEq, Eq, Hash, Structural)]
pub struct NativeFnId(pub u32);

/// What a native function does when handed a `Value::Pending` argument.
#[derive(Debug, Clone, Copy, PartialEq, Eq, Structural)]
pub enum NativeClass {
    /// Default. A Pending argument is absorbed: the call returns the
    /// leftmost Pending argument without invoking the native.
    Strict,
    /// Side-effecting emitter: a Pending argument makes the call a no-op
    /// returning `Nil`.
    Effectful,
    /// The native inspects Pendings itself and must run normally.
    AllowPending,
}

/// Reads nothing outside the program's own state.
pub const INPUT_NONE: u16 = 0;
/// Pointer position and buttons.
pub const INPUT_POINTER: u16 = 0x01;
/// Key state and typed text.
pub const INPUT_KEYBOARD: u16 = 0x02;
/// Wall-clock or frame time.
pub const INPUT_CLOCK: u16 = 0x04;
/// Window or pane geometry.
pub const INPUT_VIEWPORT: u16 = 0x08;
/// Host-owned data the binding table does not cover.
pub const INPUT_HOST_DATA: u16 = 0x10;
/// The resource table.
pub const INPUT_RESOURCES: u16 = 0x20;
/// The per-run random stream.
pub const INPUT_RNG: u16 = 0x40;
/// A host→script binding outside the named classes.
pub const INPUT_BINDINGS: u16 = 0x80;

/// The external inputs a native can read, as a bitmask: one bit per class
/// of host state that changes independently of the others.
#[derive(Debug, Clone, Copy, PartialEq, Eq, Hash, Structural)]
pub struct InputClasses(pub u16);

impl InputClasses {
    /// Every class either reads.
    pub fn union(self, other: InputClasses) -> (r: InputClasses)
        ensures
            r.0 == self.0 | other.0,
    {
        InputClasses(self.0 | other.0)
    }

    /// Whether every class of `other` is among these.
    pub fn contains(self, other: InputClasses) -> (r: bool)
        ensures
            r == (self.0 & other.0 == other.0),
    {
        self.0 & other.0 == other.0
    }

    /// Whether no class is read.
    pub fn is_empty(self) -> (r: bool)
        ensures
            r == (self.0 == 0),
    {
        self.0 == 0
    }
}

impl Default for InputClasses {
    /// No class.
    fn default() -> (r: InputClasses)
        ensures
            r.0 == 0,
    {
        InputClasses(0)
    }
}

/// A union reads each of its parts, and each part's classes are contained
/// in it; the empty set is contained in everything.
pub proof fn law_union_contains(a: u16, b: u16)
    ensures
        (a | b) & a == a,
        (a | b) & b == b,
        a & 0u16 == 0u16,
        a | b == b | a,
{
    assert((a | b) & a == a) by (bit_vector);
    assert((a | b) & b == b) by (bit_vector);
    assert(a & 0u16 == 0u16) by (bit_vector);
    assert(a | b == b | a) by (bit_vector);
}

/// What a native does, declared once at registration so the reactive
/// layers can ask instead of inferring it from activity after the call.
#[derive(Debug, Clone, Copy, PartialEq, Eq, Structural)]
pub struct NativeEffects {
    /// What this native reads, by input class.
    pub reads: InputClasses,
    /// The result is a pure function of the arguments and `reads`, and the
    /// call may be re-evaluated at validation time.
    pub probe: bool,
    /// Pushes into an output buffer.
    pub emits: bool,
    /// Does something no replay can reproduce.
    pub effect: bool,
    /// What to do with a `Pending` argument.
    pub pending: NativeClass,
}

impl NativeEffects {
    /// Reads nothing, emits nothing, does nothing a replay could not
    /// reproduce: a pure function of its arguments.
    pub fn pure() -> (e: NativeEffects)
        ensures
            e == (NativeEffects {
                reads: InputClasses(0),
                probe: false,
                emits: false,
                effect: false,
                pending: NativeClass::Strict,
            }),
    {
        NativeEffects {
            reads: InputClasses(INPUT_NONE),
            probe: false,
            emits: false,
            effect: false,
            pending: NativeClass::Strict,
        }
    }

    /// Something a replay cannot reproduce (`print`, `noise_seed`).
    pub fn effect_row() -> (e: NativeEffects)
        ensures
            e == (NativeEffects { effect: true, ..NativeEffects::pure_spec() }),
    {
        NativeEffects { effect: true, ..NativeEffects::pure() }
    }

    /// Pushes into an output buffer, and no-ops on a `Pending` argument.
    pub fn emits_row() -> (e: NativeEffects)
        ensures
            e == (NativeEffects {
                emits: true,
                pending: NativeClass::Effectful,
                ..NativeEffects::pure_spec()
            }),
    {
        NativeEffects { emits: true, pending: NativeClass::Effectful, ..NativeEffects::pure() }
    }

    /// The pure row.
    pub open spec fn pure_spec() -> NativeEffects {
        NativeEffects {
            reads: InputClasses(0),
            probe: false,
            emits: false,
            effect: false,
            pending: NativeClass::Strict,
        }
    }

    /// A pure function of its arguments and the given input classes, safe
    /// to re-evaluate at validation.
    pub fn probe(reads: InputClasses) -> (e: NativeEffects)
        ensures
            e == (NativeEffects { reads, probe: true, ..NativeEffects::pure_spec() }),
    {
        NativeEffects { reads, probe: true, ..NativeEffects::pure() }
    }

    /// Reads the given classes but is not re-evaluable as a probe.
    pub fn reads(reads: InputClasses) -> (e: NativeEffects)
        ensures
            e == (NativeEffects { reads, ..NativeEffects::pure_spec() }),
    {
        NativeEffects { reads, ..NativeEffects::pure() }
    }

    /// This row pushing into an output buffer, with the `Pending` policy
    /// left as it is.
    pub fn with_emits(self) -> (e: NativeEffects)
        ensures
            e == (NativeEffects { emits: true, ..self }),
    {
        NativeEffects { emits: true, ..self }
    }

    /// This row with an effect.
    pub fn with_effect(self) -> (e: NativeEffects)
        ensures
            e == (NativeEffects { effect: true, ..self }),
    {
        NativeEffects { effect: true, ..self }
    }

    /// This row with the given `Pending`-argument policy.
    pub fn with_pending(self, pending: NativeClass) -> (e: NativeEffects)
        ensures
            e == (NativeEffects { pending, ..self }),
    {
        NativeEffects { pending, ..self }
    }
}

/// Entry in the native function table.
#[derive(Debug)]
struct NativeFnEntry<F> {
    name: String,
    func: F,
    boxed: bool,
    /// The Pending-argument policy, kept equal to `effects.pending`.
    class: NativeClass,
    effects: NativeEffects,
}

/// What the table knows of one native.
pub struct NativeView<F> {
    pub name: Seq<char>,
    pub func: F,
    pub boxed: bool,
    pub class: NativeClass,
    pub effects: NativeEffects,
}

/// The id the last registration under `name` got, among `names[..k]`.
pub open spec fn last_named(names: Seq<Seq<char>>, name: Seq<char>, k: int) -> Option<NativeFnId>
    decreases k,
{
    if k <= 0 || k > names.len() {
        None
    } else if names[k - 1] == name {
        Some(NativeFnId((k - 1) as u32))
    } else {
        last_named(names, name, k - 1)
    }
}

/// The id last indexed under `class.method`, among `methods[..k]`.
pub open spec fn last_method(
    methods: Seq<(Seq<char>, Seq<char>, NativeFnId)>,
    class: Seq<char>,
    method: Seq<char>,
    k: int,
) -> Option<NativeFnId>
    decreases k,
{
    if k <= 0 || k > methods.len() {
        None
    } else if methods[k - 1].0 == class && methods[k - 1].1 == method {
        Some(methods[k - 1].2)
    } else {
        last_method(methods, class, method, k - 1)
    }
}

/// Registry of native functions, mapping ids to names, callables and
/// declared effects. `F` is what the host stores to invoke a native.
#[derive(Debug)]
pub struct NativeFnTable<F> {
    entries: Vec<NativeFnEntry<F>>,
    /// Ids of higher-order builtins that need evaluator intrinsic dispatch.
    pub intrinsic_map: Option<NativeFnId>,
    pub intrinsic_filter: Option<NativeFnId>,
    pub intrinsic_reduce: Option<NativeFnId>,
    pub intrinsic_for_each: Option<NativeFnId>,
    /// `sort`, an intrinsic only when called with a comparator.
    pub intrinsic_sort: Option<NativeFnId>,
    /// `sort_by`, always an intrinsic.
    pub intrinsic_sort_by: Option<NativeFnId>,
    /// `__declare_method`, which the VM intercepts instead of calling.
    pub intrinsic_declare_method: Option<NativeFnId>,
    /// Built-in class methods as `(class, method, native)`, latest last.
    class_methods: Vec<(String, String, NativeFnId)>,
}

impl<F> NativeFnTable<F> {
    /// The registered natives, by id.
    pub closed spec fn natives(&self) -> Seq<NativeView<F>> {
        self.entries@.map_values(
            |e: NativeFnEntry<F>|
                NativeView {
                    name: e.name@,
                    func: e.func,
                    boxed: e.boxed,
                    class: e.class,
                    effects: e.effects,
                },
        )
    }

    /// The registered names, by id.
    pub closed spec fn names(&self) -> Seq<Seq<char>> {
        self.entries@.map_values(|e: NativeFnEntry<F>| e.name@)
    }

    /// The names are the natives' names, id for id.
    pub proof fn lemma_names_of_natives(&self)
        ensures
            self.names().len() == self.natives().len(),
            forall|i: int| 0 <= i < self.names().len() ==> #[trigger] self.names()[i] == self.natives()[i].name,
    {
    }

    /// The class-method index, oldest first.
    pub closed spec fn methods(&self) -> Seq<(Seq<char>, Seq<char>, NativeFnId)> {
        self.class_methods@.map_values(|m: (String, String, NativeFnId)| (m.0@, m.1@, m.2))
    }

    /// Every native's class is its declared `Pending` policy.
    pub closed spec fn wf(&self) -> bool {
        forall|i: int|
            0 <= i < self.entries@.len() ==> (#[trigger] self.entries@[i]).class
                == self.entries@[i].effects.pending
    }

    /// An empty table.
    pub fn new() -> (t: NativeFnTable<F>)
        ensures
            t.wf(),
            t.natives().len() == 0,
            t.methods().len() == 0,
    {
        NativeFnTable {
            entries: Vec::new(),
            intrinsic_map: None,
            intrinsic_filter: None,
            intrinsic_reduce: None,
            intrinsic_for_each: None,
            intrinsic_sort: None,
            intrinsic_sort_by: None,
            intrinsic_declare_method: None,
            class_methods: Vec::new(),
        }
    }

    /// Index an already-registered native as the built-in implementation
    /// of `class.method`; a later index of the same pair wins.
    pub fn register_class_method(&mut self, class: &str, method: &str, id: NativeFnId)
        ensures
            final(self).methods() == old(self).methods().push((class@, method@, id)),
            final(self).natives() == old(self).natives(),
            old(self).wf() ==> final(self).wf(),
    {
        let ghost before = self.class_methods@;
        self.class_methods.push(
            (crate::text::string_from(class), crate::text::string_from(method), id),
        );
        proof {
            assert(self.methods() =~= old(self).methods().push((class@, method@, id)));
        }
    }

    /// The built-in native implementing `class.method`, if any.
    pub fn lookup_class_method(&self, class: &str, method: &str) -> (r: Option<NativeFnId>)
        ensures
            r == last_method(self.methods(), class@, method@, self.methods().len() as int),
    {
        let mut k = self.class_methods.len();
        while k > 0
            invariant
                k <= self.class_methods@.len(),
                last_method(self.methods(), class@, method@, self.methods().len() as int)
                    == last_method(self.methods(), class@, method@, k as int),
            decreases k,
        {
            let (c, m, id) = (&self.class_methods[k - 1].0, &self.class_methods[k - 1].1, self.class_methods[k - 1].2);
            proof {
                assert(self.methods()[k - 1] == (c@, m@, id));
            }
            if crate::text::str_eq(c.as_str(), class) && crate::text::str_eq(m.as_str(), method) {
                return Some(id);
            }
            k = k - 1;
        }
        None
    }

    fn insert(&mut self, name: &str, func: F, boxed: bool, effects: NativeEffects) -> (id: NativeFnId)
        requires
            old(self).wf(),
            old(self).natives().len() < u32::MAX,
        ensures
            final(self).wf(),
            id.0 == old(self).natives().len(),
            final(self).natives() == old(self).natives().push(
                NativeView { name: name@, func, boxed, class: effects.pending, effects },
            ),
            final(self).names() == old(self).names().push(name@),
            final(self).methods() == old(self).methods(),
    {
        let id = NativeFnId(self.entries.len() as u32);
        self.entries.push(
            NativeFnEntry {
                name: crate::text::string_from(name),
                func,
                boxed,
                class: effects.pending,
                effects,
            },
        );
        proof {
            assert(self.natives() =~= old(self).natives().push(
                NativeView { name: name@, func, boxed, class: effects.pending, effects },
            ));
            assert(self.names() =~= old(self).names().push(name@));
            assert forall|i: int| 0 <= i < self.entries@.len() implies (
            #[trigger] self.entries@[i]).class == self.entries@[i].effects.pending by {
                if i < old(self).entries@.len() {
                    assert(self.entries@[i] == old(self).entries@[i]);
                }
            }
        }
        id
    }

    /// Register a native function together with its declared effects,
    /// returning its id (the next one). A later registration of a name wins
    /// lookups by that name.
    pub fn register(&mut self, name: &str, func: F, effects: NativeEffects) -> (id: NativeFnId)
        requires
            old(self).wf(),
            old(self).natives().len() < u32::MAX,
        ensures
            final(self).wf(),
            id.0 == old(self).natives().len(),
            final(self).natives() == old(self).natives().push(
                NativeView { name: name@, func, boxed: false, class: effects.pending, effects },
            ),
            final(self).names() == old(self).names().push(name@),
            final(self).methods() == old(self).methods(),
    {
        self.insert(name, func, false, effects)
    }

    /// [`register`](Self::register) for a native that owns captured state;
    /// the entry is marked boxed.
    pub fn register_boxed(&mut self, name: &str, func: F, effects: NativeEffects) -> (id:
        NativeFnId)
        requires
            old(self).wf(),
            old(self).natives().len() < u32::MAX,
        ensures
            final(self).wf(),
            id.0 == old(self).natives().len(),
            final(self).natives() == old(self).natives().push(
                NativeView { name: name@, func, boxed: true, class: effects.pending, effects },
            ),
            final(self).names() == old(self).names().push(name@),
            final(self).methods() == old(self).methods(),
    {
        self.insert(name, func, true, effects)
    }

    /// Override the Pending-handling class of a registered native; the
    /// declared row's `pending` changes with it.
    pub fn set_class(&mut self, id: NativeFnId, class: NativeClass)
        requires
            old(self).wf(),
            (id.0 as int) < old(self).natives().len(),
        ensures
            final(self).wf(),
            final(self).names() == old(self).names(),
            final(self).methods() == old(self).methods(),
            final(self).natives().len() == old(self).natives().len(),
            forall|i: int|
                0 <= i < old(self).natives().len() && i != id.0 ==> #[trigger] final(self).natives()[i]
                    == old(self).natives()[i],
            final(self).natives()[id.0 as int].class == class,
            final(self).natives()[id.0 as int].effects == (NativeEffects {
                pending: class,
                ..old(self).natives()[id.0 as int].effects
            }),
            final(self).natives()[id.0 as int].name == old(self).natives()[id.0 as int].name,
            final(self).natives()[id.0 as int].boxed == old(self).natives()[id.0 as int].boxed,
    {
        let i = id.0 as usize;
        let mut entry = self.entries.remove(i);
        entry.class = class;
        entry.effects.pending = class;
        self.entries.insert(i, entry);
        proof {
            assert forall|j: int| 0 <= j < self.entries@.len() && j != i implies #[trigger] self.entries@[j]
                == old(self).entries@[j] by {}
            assert(self.names() =~= old(self).names());
            assert forall|j: int| 0 <= j < self.entries@.len() implies (
            #[trigger] self.entries@[j]).class == self.entries@[j].effects.pending by {
                if j != i {
                    assert(self.entries@[j] == old(self).entries@[j]);
                }
            }
        }
    }

    /// The declared effect row of a native.
    pub fn effects(&self, id: NativeFnId) -> (e: NativeEffects)
        requires
            (id.0 as int) < self.natives().len(),
        ensures
            e == self.natives()[id.0 as int].effects,
    {
        self.entries[id.0 as usize].effects
    }

    /// The Pending-handling class of a native.
    pub fn get_class(&self, id: NativeFnId) -> (c: NativeClass)
        requires
            (id.0 as int) < self.natives().len(),
        ensures
            c == self.natives()[id.0 as int].class,
    {
        self.entries[id.0 as usize].class
    }

    /// The native last registered under `name`.
    pub fn lookup_name(&self, name: &str) -> (r: Option<NativeFnId>)
        ensures
            r == last_named(self.names(), name@, self.names().len() as int),
    {
        let mut k = self.entries.len();
        while k > 0
            invariant
                k <= self.entries@.len(),
                self.names().len() == self.entries@.len(),
                self.entries@.len() <= usize::MAX,
                last_named(self.names(), name@, self.names().len() as int) == last_named(
                    self.names(),
                    name@,
                    k as int,
                ),
            decreases k,
        {
            proof {
                assert(self.names()[k - 1] == self.entries@[k - 1].name@);
            }
            if crate::text::str_eq(self.entries[k - 1].name.as_str(), name) {
                return Some(NativeFnId((k - 1) as u32));
            }
            k = k - 1;
        }
        None
    }

    /// The name of a native.
    pub fn get_name(&self, id: NativeFnId) -> (s: &str)
        requires
            (id.0 as int) < self.natives().len(),
        ensures
            s@ == self.natives()[id.0 as int].name,
    {
        self.entries[id.0 as usize].name.as_str()
    }

    /// The callable of a native registered with [`register`](Self::register);
    /// `None` for a boxed native.
    pub fn get_func(&self, id: NativeFnId) -> (f: Option<&F>)
        requires
            (id.0 as int) < self.natives().len(),
        ensures
            match f {
                Some(g) => !self.natives()[id.0 as int].boxed && *g == self.natives()[id.0 as int].func,
                None => self.natives()[id.0 as int].boxed,
            },
    {
        let e = &self.entries[id.0 as usize];
        if e.boxed {
            None
        } else {
            Some(&e.func)
        }
    }

    /// The callable of a native of either kind.
    pub fn callable(&self, id: NativeFnId) -> (f: &F)
        requires
            (id.0 as int) < self.natives().len(),
        ensures
            *f == self.natives()[id.0 as int].func,
    {
        &self.entries[id.0 as usize].func
    }

    /// Whether the native was registered with a closure.
    pub fn is_boxed(&self, id: NativeFnId) -> (r: bool)
        requires
            (id.0 as int) < self.natives().len(),
        ensures
            r == self.natives()[id.0 as int].boxed,
    {
        self.entries[id.0 as usize].boxed
    }

    /// Number of registered native functions.
    pub fn count(&self) -> (n: usize)
        ensures
            n == self.natives().len(),
    {
        self.entries.len()
    }
}

/// Registering a name makes it the one a lookup by that name finds, and
/// leaves every other name's lookup as it was.
pub proof fn law_register_then_lookup(names: Seq<Seq<char>>, name: Seq<char>, other: Seq<char>)
    requires
        names.len() < u32::MAX,
    ensures
        last_named(names.push(name), name, names.len() + 1int) == Some(NativeFnId(names.len() as u32)),
        other != name ==> last_named(names.push(name), other, names.len() + 1int) == last_named(
            names,
            other,
            names.len() as int,
        ),
{
    if other != name {
        lemma_last_named_prefix(names, name, other, names.len() as int);
    }
}

proof fn lemma_last_named_prefix(names: Seq<Seq<char>>, name: Seq<char>, other: Seq<char>, k: int)
    requires
        0 <= k <= names.len(),
    ensures
        last_named(names.push(name), other, k) == last_named(names, other, k),
    decreases k,
{
    if k > 0 {
        assert(names.push(name)[k - 1] == names[k - 1]);
        lemma_last_named_prefix(names, name, other, k - 1);
    }
}


/// Where an emitted value came from: the call chain that reached the
/// emitting native, innermost first.
#[derive(Debug, Clone)]
pub struct EmitSite {
    pub chain: Vec<TermId>,
}

/// The handle passed to native functions: access to arguments, result
/// pushing, buffered output, bindings, counters, the heap and the resource
/// table of the running context.
pub struct PetalCxt<'a> {
    pub(crate) args: &'a [Value],
    pub(crate) heap: &'a mut Heap,
    pub(crate) output: &'a mut Vec<String>,
    pub(crate) symbols: &'a mut SymbolTable,
    pub(crate) output_buffers: &'a mut HashMap<u32, Vec<Value>>,
    /// Whether emits record their call site.
    pub(crate) trace_emit: bool,
    /// Call-site attribution for buffered output, index for index.
    pub(crate) emit_origins: &'a mut HashMap<u32, Vec<EmitSite>>,
    /// The call chain that reached this native, innermost first.
    pub(crate) emit_chain: &'a [TermId],
    pub(crate) bindings: &'a HashMap<SymbolId, Value>,
    pub(crate) run_deps: &'a mut RunDeps,
    pub(crate) counters: &'a mut HashMap<u32, u64>,
    pub(crate) noise_seed: &'a mut u64,
    pub(crate) resources: &'a mut ResourceTable,
    /// Whether the absorption log records.
    pub(crate) trace_pending: bool,
    pub(crate) absorption_log: &'a mut Vec<(Option<TermId>, PendingId)>,
    /// The call site of the instruction invoking this native, when known.
    pub(crate) origin: Option<TermId>,
    /// The owning context's current frame.
    pub(crate) frame: u64,
    pub(crate) results: Vec<Value>,
    /// Whether a mutating builtin may mutate its container argument in
    /// place.
    pub(crate) in_place: bool,
}

/// The message for an argument index outside `1..=len`.
pub open spec fn arg_range_message(index: nat, len: nat) -> Seq<char> {
    "Argument index "@ + crate::text::decimal(index) + " out of range (1.."@
        + crate::text::decimal(len) + ")"@
}

/// The message for an argument of the wrong type.
pub open spec fn arg_type_message(expected: Seq<char>, index: nat, got: Value) -> Seq<char> {
    "Expected "@ + expected + " at arg "@ + crate::text::decimal(index) + ", got "@
        + crate::value::kind_name_spec(got)
}

/// The value at a 1-based argument index, or why there is none.
pub open spec fn arg_spec(args: Seq<Value>, index: nat) -> Result<Value, Seq<char>> {
    if index == 0 || index > args.len() {
        Err(arg_range_message(index, args.len()))
    } else {
        Ok(args[index - 1])
    }
}

fn usize_text(n: usize) -> (r: Vec<char>)
    ensures
        r@ == crate::text::decimal(n as nat),
{
    crate::text::decimal_chars(n as u64)
}

fn type_error(expected: &str, index: usize, got: Value) -> (e: String)
    ensures
        e@ == arg_type_message(expected@, index as nat, got),
{
    let mut e = crate::text::string_from("Expected ");
    crate::text::push_str(&mut e, expected);
    crate::text::push_str(&mut e, " at arg ");
    let digits = usize_text(index);
    crate::text::push_chars(&mut e, digits.as_slice());
    crate::text::push_str(&mut e, ", got ");
    crate::text::push_str(&mut e, got.kind_name());
    e
}

impl<'a> PetalCxt<'a> {
    /// The arguments.
    pub closed spec fn args_spec(&self) -> Seq<Value> {
        self.args@
    }

    /// The results pushed so far.
    pub closed spec fn results_spec(&self) -> Seq<Value> {
        self.results@
    }

    /// The heap.
    pub closed spec fn heap_spec(&self) -> crate::value::HeapView {
        (*self.heap)@
    }

    /// The run's dependency record.
    pub closed spec fn deps(&self) -> crate::run_deps::RunDepsView {
        (*self.run_deps)@
    }

    /// The output buffers, by symbol id.
    pub closed spec fn buffers(&self) -> Map<u32, Vec<Value>> {
        self.output_buffers@
    }

    /// The call-site attributions, by symbol id.
    pub closed spec fn origins(&self) -> Map<u32, Vec<EmitSite>> {
        self.emit_origins@
    }

    /// The counters, by symbol id.
    pub closed spec fn counters_spec(&self) -> Map<u32, u64> {
        self.counters@
    }

    /// The Perlin-noise seed.
    pub closed spec fn seed_spec(&self) -> u64 {
        *self.noise_seed
    }

    /// The parts the context borrows are each consistent.
    pub closed spec fn wf(&self) -> bool {
        &&& (*self.heap).wf()
        &&& (*self.symbols).wf()
        &&& (*self.run_deps).wf()
        &&& (*self.resources).wf()
    }

    /// A context for one native call over the running context's state.
    pub fn new(
        args: &'a [Value],
        heap: &'a mut Heap,
        output: &'a mut Vec<String>,
        symbols: &'a mut SymbolTable,
        output_buffers: &'a mut HashMap<u32, Vec<Value>>,
        emit_origins: &'a mut HashMap<u32, Vec<EmitSite>>,
        emit_chain: &'a [TermId],
        bindings: &'a HashMap<SymbolId, Value>,
        run_deps: &'a mut RunDeps,
        counters: &'a mut HashMap<u32, u64>,
        noise_seed: &'a mut u64,
        resources: &'a mut ResourceTable,
        absorption_log: &'a mut Vec<(Option<TermId>, PendingId)>,
    ) -> (c: PetalCxt<'a>)
        ensures
            c.args_spec() == args@,
            c.results_spec() == Seq::<Value>::empty(),
            c.heap_spec() == old(heap)@,
            c.deps() == old(run_deps)@,
            c.seed_spec() == *old(noise_seed),
            old(heap).wf() && old(symbols).wf() && old(run_deps).wf() && old(resources).wf()
                ==> c.wf(),
    {
        PetalCxt {
            args,
            heap,
            output,
            symbols,
            output_buffers,
            trace_emit: false,
            emit_origins,
            emit_chain,
            bindings,
            run_deps,
            counters,
            noise_seed,
            resources,
            trace_pending: false,
            absorption_log,
            origin: None,
            frame: 0,
            results: Vec::new(),
            in_place: false,
        }
    }

    /// Whether a mutating builtin may mutate its container argument in
    /// place rather than cloning.
    pub fn in_place(&self) -> (r: bool)
        ensures
            r == self.parts().in_place,
    {
        self.in_place
    }

    /// Number of arguments passed to the function.
    pub fn arg_count(&self) -> (n: usize)
        ensures
            n == self.args_spec().len(),
    {
        self.args.len()
    }

    /// The argument at a 1-based position.
    pub fn get_value(&self, index: usize) -> (r: Result<Value, String>)
        ensures
            match r {
                Ok(v) => arg_spec(self.args_spec(), index as nat) == Ok::<Value, Seq<char>>(v),
                Err(e) => arg_spec(self.args_spec(), index as nat) == Err::<Value, Seq<char>>(e@),
            },
    {
        if index == 0 || index > self.args.len() {
            let mut e = crate::text::string_from("Argument index ");
            let d = usize_text(index);
            crate::text::push_chars(&mut e, d.as_slice());
            crate::text::push_str(&mut e, " out of range (1..");
            let d2 = usize_text(self.args.len());
            crate::text::push_chars(&mut e, d2.as_slice());
            crate::text::push_str(&mut e, ")");
            return Err(e);
        }
        Ok(self.args[index - 1])
    }

    /// An integer argument at a 1-based position.
    pub fn get_int(&self, index: usize) -> (r: Result<i64, String>)
        ensures
            match arg_spec(self.args_spec(), index as nat) {
                Err(m) => r matches Err(e) && e@ == m,
                Ok(Value::Int(n)) => r == Ok::<i64, String>(n),
                Ok(v) => r matches Err(e) && e@ == arg_type_message("int"@, index as nat, v),
            },
    {
        match self.get_value(index) {
            Err(e) => Err(e),
            Ok(Value::Int(n)) => Ok(n),
            Ok(other) => Err(type_error("int", index, other)),
        }
    }

    /// A boolean argument at a 1-based position.
    pub fn get_bool(&self, index: usize) -> (r: Result<bool, String>)
        ensures
            match arg_spec(self.args_spec(), index as nat) {
                Err(m) => r matches Err(e) && e@ == m,
                Ok(Value::Bool(b)) => r == Ok::<bool, String>(b),
                Ok(v) => r matches Err(e) && e@ == arg_type_message("bool"@, index as nat, v),
            },
    {
        match self.get_value(index) {
            Err(e) => Err(e),
            Ok(Value::Bool(b)) => Ok(b),
            Ok(other) => Err(type_error("bool", index, other)),
        }
    }

    /// A symbol argument at a 1-based position.
    pub fn get_symbol(&self, index: usize) -> (r: Result<SymbolId, String>)
        ensures
            match arg_spec(self.args_spec(), index as nat) {
                Err(m) => r matches Err(e) && e@ == m,
                Ok(Value::Symbol(s)) => r == Ok::<SymbolId, String>(s),
                Ok(v) => r matches Err(e) && e@ == arg_type_message("symbol"@, index as nat, v),
            },
    {
        match self.get_value(index) {
            Err(e) => Err(e),
            Ok(Value::Symbol(s)) => Ok(s),
            Ok(other) => Err(type_error("symbol", index, other)),
        }
    }

    /// A string argument at a 1-based position, copied out of the heap.
    pub fn get_string(&self, index: usize) -> (r: Result<String, String>)
        requires
            self.wf(),
            forall|j: int| 0 <= j < self.args_spec().len() ==> crate::value::value_in(
                #[trigger] self.args_spec()[j],
                self.heap_spec(),
            ),
        ensures
            match arg_spec(self.args_spec(), index as nat) {
                Err(m) => r matches Err(e) && e@ == m,
                Ok(Value::String(id)) => r matches Ok(s) && s@ == self.heap_spec().strings[id.0 as int],
                Ok(v) => r matches Err(e) && e@ == arg_type_message("string"@, index as nat, v),
            },
    {
        match self.get_value(index) {
            Err(e) => Err(e),
            Ok(Value::String(id)) => {
                proof {
                    assert(crate::value::value_in(self.args_spec()[index - 1], self.heap_spec()));
                }
                Ok(crate::text::string_from(self.heap.get_string(id)))
            },
            Ok(other) => Err(type_error("string", index, other)),
        }
    }
}


/// Everything a native call can see or change, as plain values.
pub struct CxParts {
    pub args: Seq<Value>,
    pub results: Seq<Value>,
    pub heap: crate::value::HeapView,
    pub deps: crate::run_deps::RunDepsView,
    pub deps_wf: bool,
    pub output: Seq<Seq<char>>,
    pub buffers: Map<u32, Vec<Value>>,
    pub origins: Map<u32, Vec<EmitSite>>,
    pub counters: Map<u32, u64>,
    pub bindings: Map<SymbolId, Value>,
    pub symbols: Seq<Seq<char>>,
    pub seed: u64,
    pub resources: Seq<crate::resource_table::ResourceEntry>,
    pub resource_keys: Map<u64, PendingId>,
    pub absorbed: Seq<(Option<TermId>, PendingId)>,
    pub origin: Option<TermId>,
    pub frame: u64,
    pub trace_emit: bool,
    pub trace_pending: bool,
    pub in_place: bool,
    pub chain: Seq<TermId>,
}

/// The counter `sym` holds (0 when unset).
pub open spec fn counter_of(counters: Map<u32, u64>, sym: SymbolId) -> u64 {
    if counters.contains_key(sym.0) {
        counters[sym.0]
    } else {
        0
    }
}

/// The values buffered under `sym` (none when it has no buffer).
pub open spec fn buffer_of(buffers: Map<u32, Vec<Value>>, sym: SymbolId) -> Seq<Value> {
    if buffers.contains_key(sym.0) {
        buffers[sym.0]@
    } else {
        Seq::empty()
    }
}

impl<'a> PetalCxt<'a> {
    /// The whole state the call sees.
    pub closed spec fn parts(&self) -> CxParts {
        CxParts {
            args: self.args@,
            results: self.results@,
            heap: (*self.heap)@,
            deps: (*self.run_deps)@,
            deps_wf: (*self.run_deps).wf(),
            output: self.output@.map_values(|s: String| s@),
            buffers: self.output_buffers@,
            origins: self.emit_origins@,
            counters: self.counters@,
            bindings: self.bindings@,
            symbols: self.symbols.names_spec(),
            seed: *self.noise_seed,
            resources: self.resources.entries_spec(),
            resource_keys: self.resources.keys_spec(),
            absorbed: self.absorption_log@,
            origin: self.origin,
            frame: self.frame,
            trace_emit: self.trace_emit,
            trace_pending: self.trace_pending,
            in_place: self.in_place,
            chain: self.emit_chain@,
        }
    }

    fn push_result(&mut self, v: Value)
        ensures
            final(self).parts() == (CxParts { results: old(self).parts().results.push(v), ..old(self).parts() }),
            old(self).wf() ==> final(self).wf(),
    {
        self.results.push(v);
    }

    /// Return `Nil`.
    pub fn push_nil(&mut self)
        ensures
            final(self).parts() == (CxParts {
                results: old(self).parts().results.push(Value::Nil),
                ..old(self).parts()
            }),
            old(self).wf() ==> final(self).wf(),
    {
        self.push_result(Value::Nil);
    }

    /// Return an integer.
    pub fn push_int(&mut self, n: i64)
        ensures
            final(self).parts() == (CxParts {
                results: old(self).parts().results.push(Value::Int(n)),
                ..old(self).parts()
            }),
            old(self).wf() ==> final(self).wf(),
    {
        self.push_result(Value::Int(n));
    }

    /// Return a boolean.
    pub fn push_bool(&mut self, b: bool)
        ensures
            final(self).parts() == (CxParts {
                results: old(self).parts().results.push(Value::Bool(b)),
                ..old(self).parts()
            }),
            old(self).wf() ==> final(self).wf(),
    {
        self.push_result(Value::Bool(b));
    }

    /// Return a value as it is.
    pub fn push_value(&mut self, v: Value)
        ensures
            final(self).parts() == (CxParts { results: old(self).parts().results.push(v), ..old(self).parts() }),
            old(self).wf() ==> final(self).wf(),
    {
        self.push_result(v);
    }

    /// Return a new heap string holding `s`.
    pub fn push_string(&mut self, s: String)
        requires
            old(self).wf(),
            old(self).parts().heap.strings.len() < u32::MAX,
        ensures
            final(self).wf(),
            final(self).parts() == (CxParts {
                heap: crate::value::HeapView {
                    strings: old(self).parts().heap.strings.push(s@),
                    ..old(self).parts().heap
                },
                results: old(self).parts().results.push(
                    Value::String(crate::value::StringId(old(self).parts().heap.strings.len() as u32)),
                ),
                ..old(self).parts()
            }),
    {
        let id = self.heap.alloc_string(s);
        self.results.push(Value::String(id));
    }

    /// Return text, reusing a heap string with the same content when there
    /// is one.
    pub fn push_str(&mut self, s: &str)
        requires
            old(self).wf(),
            old(self).parts().heap.strings.len() < u32::MAX,
        ensures
            final(self).wf(),
            final(self).parts().heap.lists == old(self).parts().heap.lists,
            old(self).parts().heap.strings.contains(s@) ==> final(self).parts().heap == old(self).parts().heap,
            !old(self).parts().heap.strings.contains(s@) ==> final(self).parts().heap.strings == old(
                self,
            ).parts().heap.strings.push(s@),
            final(self).parts().results.len() == old(self).parts().results.len() + 1,
            final(self).parts().results.drop_last() == old(self).parts().results,
            final(self).parts().results.last() matches Value::String(id) && (id.0 as int)
                < final(self).parts().heap.strings.len() && final(self).parts().heap.strings[id.0 as int]
                == s@,
            final(self).parts() == (CxParts {
                heap: final(self).parts().heap,
                results: final(self).parts().results,
                ..old(self).parts()
            }),
    {
        let id = self.heap.intern_str(s);
        self.results.push(Value::String(id));
        proof {
            assert(self.results@.drop_last() =~= old(self).results@);
        }
    }

    /// Return a new heap list of `items`.
    pub fn push_list(&mut self, items: Vec<Value>)
        requires
            old(self).wf(),
            old(self).parts().heap.lists.len() < u32::MAX,
            forall|j: int| 0 <= j < items@.len() ==> crate::value::value_in(
                #[trigger] items@[j],
                old(self).parts().heap,
            ),
        ensures
            final(self).wf(),
            final(self).parts() == (CxParts {
                heap: crate::value::HeapView {
                    lists: old(self).parts().heap.lists.push(items@),
                    ..old(self).parts().heap
                },
                results: old(self).parts().results.push(
                    Value::List(crate::value::ListId(old(self).parts().heap.lists.len() as u32)),
                ),
                ..old(self).parts()
            }),
    {
        let id = self.heap.alloc_list(items);
        self.results.push(Value::List(id));
    }

    /// The current Perlin-noise seed.
    pub fn noise_seed(&self) -> (s: u64)
        ensures
            s == self.parts().seed,
    {
        *self.noise_seed
    }

    /// Set the Perlin-noise seed; an effect.
    pub fn set_noise_seed(&mut self, seed: u64)
        ensures
            final(self).parts() == (CxParts {
                seed,
                deps: final(self).parts().deps,
                deps_wf: final(self).parts().deps_wf,
                ..old(self).parts()
            }),
            final(self).parts().deps == (crate::run_deps::RunDepsView {
                activity: crate::run_deps::Activity {
                    effects: crate::run_deps::wrap_inc(old(self).parts().deps.activity.effects),
                    ..old(self).parts().deps.activity
                },
                ..old(self).parts().deps
            }),
            old(self).wf() ==> final(self).wf(),
    {
        self.run_deps.note_effect();
        *self.noise_seed = seed;
    }

    /// Intern a symbol name, returning its stable id. Idempotent.
    pub fn intern_symbol(&mut self, name: &str) -> (id: SymbolId)
        requires
            old(self).wf(),
            old(self).parts().symbols.len() < u32::MAX,
        ensures
            final(self).wf(),
            (id.0 as int) < final(self).parts().symbols.len(),
            final(self).parts().symbols[id.0 as int] == name@,
            old(self).parts().symbols.contains(name@) ==> final(self).parts().symbols == old(
                self,
            ).parts().symbols,
            !old(self).parts().symbols.contains(name@) ==> final(self).parts().symbols == old(
                self,
            ).parts().symbols.push(name@),
            final(self).parts() == (CxParts { symbols: final(self).parts().symbols, ..old(self).parts() }),
    {
        self.symbols.intern(name)
    }

    /// Declare that this native answered from host-owned data the binding
    /// table does not cover.
    pub fn note_host_read(&mut self)
        ensures
            final(self).parts() == (CxParts {
                deps: final(self).parts().deps,
                deps_wf: final(self).parts().deps_wf,
                ..old(self).parts()
            }),
            final(self).parts().deps == (crate::run_deps::RunDepsView {
                host_read: true,
                activity: crate::run_deps::Activity {
                    host_reads: crate::run_deps::wrap_inc(old(self).parts().deps.activity.host_reads),
                    ..old(self).parts().deps.activity
                },
                ..old(self).parts().deps
            }),
            old(self).wf() ==> final(self).wf(),
    {
        self.run_deps.note_host_read();
    }

    /// Print a line: it joins the context's output and the run is marked as
    /// having had an effect a replay could not reproduce. Echoing the line
    /// to a terminal is the host's part: it reads the output.
    pub fn print(&mut self, line: String)
        ensures
            final(self).parts() == (CxParts {
                output: old(self).parts().output.push(line@),
                deps: final(self).parts().deps,
                deps_wf: final(self).parts().deps_wf,
                ..old(self).parts()
            }),
            final(self).parts().deps == (crate::run_deps::RunDepsView {
                activity: crate::run_deps::Activity {
                    effects: crate::run_deps::wrap_inc(old(self).parts().deps.activity.effects),
                    ..old(self).parts().deps.activity
                },
                ..old(self).parts().deps
            }),
            old(self).wf() ==> final(self).wf(),
    {
        self.run_deps.note_effect();
        let ghost before = self.output@;
        self.output.push(line);
        proof {
            assert(self.output@.map_values(|s: String| s@) =~= before.map_values(|s: String| s@).push(self.output@.last()@));
        }
    }

    /// Declare that this native did something a replay could not reproduce.
    pub fn note_effect(&mut self)
        ensures
            final(self).parts() == (CxParts {
                deps: final(self).parts().deps,
                deps_wf: final(self).parts().deps_wf,
                ..old(self).parts()
            }),
            final(self).parts().deps == (crate::run_deps::RunDepsView {
                activity: crate::run_deps::Activity {
                    effects: crate::run_deps::wrap_inc(old(self).parts().deps.activity.effects),
                    ..old(self).parts().deps.activity
                },
                ..old(self).parts().deps
            }),
            old(self).wf() ==> final(self).wf(),
    {
        self.run_deps.note_effect();
    }

    /// Read the host→script value bound to `sym`, or `Nil` when nothing is
    /// bound; the read is recorded in the run's dependency record.
    pub fn binding(&mut self, sym: SymbolId) -> (v: Value)
        requires
            old(self).wf(),
        ensures
            final(self).wf(),
            v == (match crate::run_deps::lookup(old(self).parts().bindings, sym) {
                Some(b) => b,
                None => Value::Nil,
            }),
            final(self).parts().deps == (crate::run_deps::RunDepsView {
                read_list: if old(self).parts().deps.read_list.contains(sym) {
                    old(self).parts().deps.read_list
                } else {
                    old(self).parts().deps.read_list.push(sym)
                },
                activity: crate::run_deps::Activity {
                    binding_reads: crate::run_deps::wrap_inc(old(self).parts().deps.activity.binding_reads),
                    ..old(self).parts().deps.activity
                },
                ..old(self).parts().deps
            }),
            final(self).parts() == (CxParts {
                deps: final(self).parts().deps,
                deps_wf: final(self).parts().deps_wf,
                ..old(self).parts()
            }),
    {
        self.run_deps.note_binding_read(sym);
        match crate::run_deps::binding_of(self.bindings, sym) {
            Some(v) => v,
            None => Value::Nil,
        }
    }

    /// Read the value bound to the symbol named `name`.
    pub fn binding_named(&mut self, name: &str) -> (v: Value)
        requires
            old(self).wf(),
            old(self).parts().symbols.len() < u32::MAX,
        ensures
            final(self).wf(),
            exists|sym: SymbolId|
                (sym.0 as int) < final(self).parts().symbols.len() && final(self).parts().symbols[sym.0 as int]
                    == name@ && v == (match crate::run_deps::lookup(old(self).parts().bindings, sym) {
                    Some(b) => b,
                    None => Value::Nil,
                }),
    {
        let sym = self.intern_symbol(name);
        let ghost mid = self.parts();
        let v = self.binding(sym);
        proof {
            assert(self.parts().symbols == mid.symbols);
            assert(mid.bindings == old(self).parts().bindings);
            assert((sym.0 as int) < self.parts().symbols.len() && self.parts().symbols[sym.0 as int]
                == name@);
        }
        v
    }

    /// The counter for `sym` before advancing it by one; an effect.
    pub fn next_counter(&mut self, sym: SymbolId) -> (c: u64)
        requires
            counter_of(old(self).parts().counters, sym) < u64::MAX,
        ensures
            c == counter_of(old(self).parts().counters, sym),
            final(self).parts().counters == old(self).parts().counters.insert(sym.0, (c + 1) as u64),
            final(self).parts().deps == (crate::run_deps::RunDepsView {
                activity: crate::run_deps::Activity {
                    effects: crate::run_deps::wrap_inc(old(self).parts().deps.activity.effects),
                    ..old(self).parts().deps.activity
                },
                ..old(self).parts().deps
            }),
            final(self).parts() == (CxParts {
                counters: final(self).parts().counters,
                deps: final(self).parts().deps,
                deps_wf: final(self).parts().deps_wf,
                ..old(self).parts()
            }),
            old(self).wf() ==> final(self).wf(),
    {
        self.run_deps.note_effect();
        let c = match self.counters.get(&sym.0) {
            Some(v) => *v,
            None => 0,
        };
        self.counters.insert(sym.0, c + 1);
        c
    }

    /// The counter for `sym` without advancing it (0 if unset).
    pub fn peek_counter(&self, sym: SymbolId) -> (c: u64)
        ensures
            c == counter_of(self.parts().counters, sym),
    {
        match self.counters.get(&sym.0) {
            Some(v) => *v,
            None => 0,
        }
    }

    /// Overwrite the counter for `sym`; an effect.
    pub fn set_counter(&mut self, sym: SymbolId, value: u64)
        ensures
            final(self).parts().counters == old(self).parts().counters.insert(sym.0, value),
            final(self).parts().deps == (crate::run_deps::RunDepsView {
                activity: crate::run_deps::Activity {
                    effects: crate::run_deps::wrap_inc(old(self).parts().deps.activity.effects),
                    ..old(self).parts().deps.activity
                },
                ..old(self).parts().deps
            }),
            final(self).parts() == (CxParts {
                counters: final(self).parts().counters,
                deps: final(self).parts().deps,
                deps_wf: final(self).parts().deps_wf,
                ..old(self).parts()
            }),
            old(self).wf() ==> final(self).wf(),
    {
        self.run_deps.note_effect();
        self.counters.insert(sym.0, value);
    }

    /// The heap.
    pub fn heap(&self) -> (h: &Heap)
        ensures
            h@ == self.parts().heap,
    {
        &*self.heap
    }

    /// The call site of the instruction invoking this native, when known.
    pub fn origin(&self) -> (o: Option<TermId>)
        ensures
            o == self.parts().origin,
    {
        self.origin
    }

    /// The owning context's current frame.
    pub fn frame(&self) -> (f: u64)
        ensures
            f == self.parts().frame,
    {
        self.frame
    }

    /// The resource table, for reading; the read is recorded.
    pub fn resources(&mut self) -> (t: &ResourceTable)
        ensures
            t.entries_spec() == old(self).parts().resources,
            t.keys_spec() == old(self).parts().resource_keys,
            final(self).parts().deps == (crate::run_deps::RunDepsView {
                activity: crate::run_deps::Activity {
                    resource_reads: crate::run_deps::wrap_inc(old(self).parts().deps.activity.resource_reads),
                    ..old(self).parts().deps.activity
                },
                ..old(self).parts().deps
            }),
    {
        self.run_deps.note_resource_read();
        &*self.resources
    }

    /// Count one absorption of the resource `id` by this native, and log
    /// `(origin, id)` when the log is on.
    pub fn note_absorbed(&mut self, id: PendingId)
        requires
            old(self).wf(),
            (id.0 as int) < old(self).parts().resources.len(),
        ensures
            final(self).wf(),
            final(self).parts().resource_keys == old(self).parts().resource_keys,
            final(self).parts().resources.len() == old(self).parts().resources.len(),
            final(self).parts().resources[id.0 as int].absorbed_count == (if old(self).parts().resources[id.0 as int].absorbed_count
                == u64::MAX {
                u64::MAX
            } else {
                (old(self).parts().resources[id.0 as int].absorbed_count + 1) as u64
            }),
            final(self).parts().absorbed == (if old(self).parts().trace_pending {
                old(self).parts().absorbed.push((old(self).parts().origin, id))
            } else {
                old(self).parts().absorbed
            }),
            final(self).parts() == (CxParts {
                resources: final(self).parts().resources,
                absorbed: final(self).parts().absorbed,
                ..old(self).parts()
            }),
    {
        self.resources.note_absorbed(id);
        if self.trace_pending {
            self.absorption_log.push((self.origin, id));
        }
    }

    /// The single value a call yields: the first result the native pushed,
    /// or `Nil` when it pushed none or reported no result.
    pub fn take_result(self, count: u32) -> (v: Value)
        ensures
            v == (if count == 0 || self.parts().results.len() == 0 {
                Value::Nil
            } else {
                self.parts().results[0]
            }),
    {
        if count == 0 {
            return Value::Nil;
        }
        if self.results.len() > 0 {
            self.results[0]
        } else {
            Value::Nil
        }
    }
}


/// The call-site records kept for the buffer of `sym` (none when it has
/// no record).
pub open spec fn origins_of(origins: Map<u32, Vec<EmitSite>>, sym: SymbolId) -> Seq<EmitSite> {
    if origins.contains_key(sym.0) {
        origins[sym.0]@
    } else {
        Seq::empty()
    }
}

fn copy_chain(chain: &[TermId]) -> (r: Vec<TermId>)
    ensures
        r@ == chain@,
{
    let mut r: Vec<TermId> = Vec::new();
    let mut i: usize = 0;
    while i < chain.len()
        invariant
            i <= chain@.len(),
            r@ == chain@.take(i as int),
        decreases chain@.len() - i,
    {
        r.push(chain[i]);
        proof {
            assert(r@ =~= chain@.take((i + 1) as int));
        }
        i = i + 1;
    }
    proof {
        assert(chain@.take(chain@.len() as int) =~= chain@);
    }
    r
}

impl<'a> PetalCxt<'a> {
    /// Push a value into the buffered-output channel bound to `sym`. While
    /// emit tracing is on, the call chain is recorded at the same index:
    /// the record list is first cut or padded (with empty chains) to the
    /// buffer's previous length.
    pub fn push_output(&mut self, sym: SymbolId, value: Value)
        ensures
            buffer_of(final(self).parts().buffers, sym) == buffer_of(old(self).parts().buffers, sym).push(value),
            final(self).parts().buffers.contains_key(sym.0),
            final(self).parts().buffers.remove(sym.0) == old(self).parts().buffers.remove(sym.0),
            final(self).parts().deps == (crate::run_deps::RunDepsView {
                activity: crate::run_deps::Activity {
                    emits: crate::run_deps::wrap_inc(old(self).parts().deps.activity.emits),
                    ..old(self).parts().deps.activity
                },
                ..old(self).parts().deps
            }),
            !old(self).parts().trace_emit ==> final(self).parts().origins == old(self).parts().origins,
            old(self).parts().trace_emit ==> {
                let before = origins_of(old(self).parts().origins, sym);
                let after = origins_of(final(self).parts().origins, sym);
                let n = buffer_of(old(self).parts().buffers, sym).len();
                &&& final(self).parts().origins.contains_key(sym.0)
                &&& final(self).parts().origins.remove(sym.0) == old(self).parts().origins.remove(sym.0)
                &&& after.len() == n + 1
                &&& forall|j: int| 0 <= j < n && j < before.len() ==> #[trigger] after[j] == before[j]
                &&& forall|j: int| before.len() <= j < n ==> (#[trigger] after[j]).chain@.len() == 0
                &&& after[n as int].chain@ == old(self).parts().chain
            },
            final(self).parts() == (CxParts {
                buffers: final(self).parts().buffers,
                origins: final(self).parts().origins,
                deps: final(self).parts().deps,
                deps_wf: final(self).parts().deps_wf,
                ..old(self).parts()
            }),
            old(self).wf() ==> final(self).wf(),
    {
        self.run_deps.note_emit();
        let mut buf = match self.output_buffers.remove(&sym.0) {
            Some(b) => b,
            None => Vec::new(),
        };
        let n = buf.len();
        buf.push(value);
        self.output_buffers.insert(sym.0, buf);
        proof {
            assert(self.output_buffers@.remove(sym.0) =~= old(self).output_buffers@.remove(sym.0));
        }
        if self.trace_emit {
            let mut o = match self.emit_origins.remove(&sym.0) {
                Some(v) => v,
                None => Vec::new(),
            };
            let ghost before = o@;
            if o.len() > n {
                o.truncate(n);
            }
            while o.len() < n
                invariant
                    o@.len() <= n,
                    o@.len() < n ==> before.len() <= o@.len(),
                    forall|j: int| 0 <= j < o@.len() && j < before.len() ==> #[trigger] o@[j] == before[j],
                    forall|j: int| before.len() <= j < o@.len() ==> (#[trigger] o@[j]).chain@.len() == 0,
                decreases n - o@.len(),
            {
                o.push(EmitSite { chain: Vec::new() });
            }
            let chain = copy_chain(self.emit_chain);
            o.push(EmitSite { chain });
            self.emit_origins.insert(sym.0, o);
            proof {
                assert(self.emit_origins@.remove(sym.0) =~= old(self).emit_origins@.remove(sym.0));
            }
        }
    }
}


impl<'a> PetalCxt<'a> {
    /// The heap, for changing.
    pub fn heap_mut(&mut self) -> (h: &mut Heap)
        ensures
            h@ == old(self).parts().heap,
            final(self).parts() == (CxParts { heap: final(h)@, ..old(self).parts() }),
    {
        &mut *self.heap
    }

    /// The resource table, for changing; an effect.
    pub fn resources_mut(&mut self) -> (t: &mut ResourceTable)
        ensures
            t.entries_spec() == old(self).parts().resources,
            t.keys_spec() == old(self).parts().resource_keys,
            final(self).parts().resources == final(t).entries_spec(),
            final(self).parts().resource_keys == final(t).keys_spec(),
            final(self).parts().deps == (crate::run_deps::RunDepsView {
                activity: crate::run_deps::Activity {
                    effects: crate::run_deps::wrap_inc(old(self).parts().deps.activity.effects),
                    ..old(self).parts().deps.activity
                },
                ..old(self).parts().deps
            }),
    {
        self.run_deps.note_effect();
        &mut *self.resources
    }
}

} // verus!
