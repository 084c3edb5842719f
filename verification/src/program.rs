//! A compiled program: its identifiers, terms, blocks and functions.

use smallvec::SmallVec;
use std::collections::HashMap;
use vstd::prelude::*;
use crate::source_map::SourceMap;

verus! {

/// Unique identifier for a program within an Env.
#[derive(Debug, Clone, Copy, PartialEq, Eq, Hash, Structural)]
pub struct ProgramId(pub u32);

/// Unique identifier for a term within a Program.
#[derive(Debug, Clone, Copy, PartialEq, Eq, Hash, Structural)]
pub struct TermId(pub u32);

/// Unique identifier for a block within a Program.
#[derive(Debug, Clone, Copy, PartialEq, Eq, Hash, Structural)]
pub struct BlockId(pub u32);

/// Global term identifier - unique within an Env.
#[derive(Debug, Clone, Copy, PartialEq, Eq, Hash, Structural)]
pub struct GlobalTermId {
    pub program: ProgramId,
    pub term: TermId,
}

/// Register index within a Frame's register file.
#[derive(Debug, Clone, Copy, PartialEq, Eq, Hash, Structural)]
pub struct RegisterIndex(pub u16);

/// Unique key for persistent state values.
#[derive(Debug, Clone, Copy, PartialEq, Eq, Hash, Structural)]
pub struct StateKey(pub u64);

/// Identifier for a function definition within a Program.
#[derive(Debug, Clone, Copy, PartialEq, Eq, Hash, Structural)]
pub struct FunctionId(pub u32);

/// Identifier for a runtime closure instance.
#[derive(Debug, Clone, Copy, PartialEq, Eq, Hash, Structural)]
pub struct ClosureId(pub u32);

/// Identifier for a runtime overload set (multi-arity function dispatch).
#[derive(Debug, Clone, Copy, PartialEq, Eq, Hash, Structural)]
pub struct OverloadSetId(pub u32);

/// Index of a constant in a program's constant table.
#[derive(Debug, Clone, Copy, PartialEq, Eq, Hash, Structural)]
pub struct ConstantId(pub u32);

/// The register a term has not been given yet.
pub fn register_unset() -> (r: RegisterIndex)
    ensures
        r.0 == 0xFFFF,
{
    RegisterIndex(0xFFFF)
}

/// Entry in a map-with-spread allocation.
#[derive(Debug, Clone, Copy, PartialEq, Eq, Structural)]
pub enum MapSpreadEntry {
    /// Spread all fields from the input at the given index.
    Spread(usize),
    /// Set a named field from the input at the given index.
    Named(ConstantId, usize),
}

/// The operation a term performs.
#[derive(Debug, Clone)]
pub enum TermOp {
    /// Load a constant from the constant table.
    Constant(ConstantId),
    /// A parse error - message stored as a constant.
    Error(ConstantId),
    Add,
    Sub,
    Mul,
    Div,
    Mod,
    Neg,
    Eq,
    Ne,
    Lt,
    Le,
    Gt,
    Ge,
    Not,
    /// Short-circuit AND: inputs=[left], child_blocks=[rhs_block].
    And,
    /// Short-circuit OR: inputs=[left], child_blocks=[rhs_block].
    Or,
    /// Short-circuit coalesce `??`.
    Coalesce,
    Concat,
    /// Variable reference / identity copy: inputs=[source_term].
    Copy,
    /// Pure-dataflow join point for values rebound inside a child block.
    Phi,
    /// if/else: inputs=[cond], child_blocks=[then_block, else_block].
    Branch,
    /// for-in loop: inputs=[iterable], child_blocks=[body_block].
    ForLoop,
    /// Numeric for-loop over an integer range.
    NumericForLoop,
    /// while loop: child_blocks=[cond_block, body_block].
    WhileLoop,
    Break,
    Continue,
    /// Return from function: inputs=[value] or empty for bare return.
    Return,
    MakeClosure(FunctionId),
    MakeOverloadSet,
    Call,
    MethodCall { name: ConstantId, hint: Option<ConstantId> },
    BuiltinCall(ConstantId),
    StateInit,
    StateRead,
    StateWrite,
    CellNew,
    CellRead,
    CellWrite,
    AllocList,
    AllocMap { fields: Vec<ConstantId>, class: Option<ConstantId> },
    AllocMapSpread { entries: Vec<MapSpreadEntry> },
    GetField(ConstantId),
    GetFieldOpt(ConstantId),
    SetField(ConstantId),
    GetIndex,
    GetIndexOpt,
    SetIndex,
    AllocElement { tag: ConstantId, prop_keys: Vec<ConstantId> },
    MakeEnumVariant(ConstantId),
    Match,
}

/// The constants named by map-with-spread entries, in order.
pub open spec fn named_constants(entries: Seq<MapSpreadEntry>) -> Seq<ConstantId>
    decreases entries.len(),
{
    if entries.len() == 0 {
        Seq::empty()
    } else {
        let rest = named_constants(entries.drop_last());
        match entries.last() {
            MapSpreadEntry::Named(c, _) => rest.push(c),
            MapSpreadEntry::Spread(_) => rest,
        }
    }
}

/// The constant-table entries an operation refers to, in order.
pub open spec fn constant_ids_spec(op: TermOp) -> Seq<ConstantId> {
    match op {
        TermOp::Constant(c) => seq![c],
        TermOp::Error(c) => seq![c],
        TermOp::GetField(c) => seq![c],
        TermOp::GetFieldOpt(c) => seq![c],
        TermOp::SetField(c) => seq![c],
        TermOp::BuiltinCall(c) => seq![c],
        TermOp::MakeEnumVariant(c) => seq![c],
        TermOp::MethodCall { name, hint } => match hint {
            Some(h) => seq![name, h],
            None => seq![name],
        },
        TermOp::AllocMap { fields, class } => match class {
            Some(c) => fields@.push(c),
            None => fields@,
        },
        TermOp::AllocElement { tag, prop_keys } => seq![tag] + prop_keys@,
        TermOp::AllocMapSpread { entries } => named_constants(entries@),
        _ => Seq::empty(),
    }
}

fn copy_ids(v: &Vec<ConstantId>) -> (r: Vec<ConstantId>)
    ensures
        r@ == v@,
{
    let mut r: Vec<ConstantId> = Vec::new();
    let mut i: usize = 0;
    while i < v.len()
        invariant
            i <= v@.len(),
            r@ == v@.take(i as int),
        decreases v@.len() - i,
    {
        r.push(v[i]);
        proof {
            assert(r@ =~= v@.take((i + 1) as int));
        }
        i = i + 1;
    }
    proof {
        assert(v@.take(v@.len() as int) =~= v@);
    }
    r
}

impl TermOp {
    /// The constant-table entries this operation refers to, in order.
    pub fn constant_ids(&self) -> (r: Vec<ConstantId>)
        ensures
            r@ == constant_ids_spec(*self),
    {
        match self {
            TermOp::Constant(c) | TermOp::Error(c) | TermOp::GetField(c) | TermOp::GetFieldOpt(c)
            | TermOp::SetField(c) | TermOp::BuiltinCall(c) | TermOp::MakeEnumVariant(c) => {
                let mut v = Vec::new();
                v.push(*c);
                proof {
                    assert(v@ =~= seq![*c]);
                }
                v
            },
            TermOp::MethodCall { name, hint } => {
                let mut v = Vec::new();
                v.push(*name);
                match hint {
                    Some(h) => {
                        v.push(*h);
                    },
                    None => {},
                }
                proof {
                    assert(v@ =~= constant_ids_spec(*self));
                }
                v
            },
            TermOp::AllocMap { fields, class } => {
                let mut v = copy_ids(fields);
                match class {
                    Some(c) => {
                        v.push(*c);
                    },
                    None => {},
                }
                v
            },
            TermOp::AllocElement { tag, prop_keys } => {
                let mut v = Vec::new();
                v.push(*tag);
                let mut i: usize = 0;
                while i < prop_keys.len()
                    invariant
                        i <= prop_keys@.len(),
                        v@ == seq![*tag] + prop_keys@.take(i as int),
                    decreases prop_keys@.len() - i,
                {
                    v.push(prop_keys[i]);
                    proof {
                        assert(v@ =~= seq![*tag] + prop_keys@.take((i + 1) as int));
                    }
                    i = i + 1;
                }
                proof {
                    assert(prop_keys@.take(prop_keys@.len() as int) =~= prop_keys@);
                }
                v
            },
            TermOp::AllocMapSpread { entries } => {
                let mut v = Vec::new();
                let mut i: usize = 0;
                while i < entries.len()
                    invariant
                        i <= entries@.len(),
                        v@ == named_constants(entries@.take(i as int)),
                    decreases entries@.len() - i,
                {
                    proof {
                        assert(entries@.take((i + 1) as int).drop_last() =~= entries@.take(i as int));
                    }
                    match entries[i] {
                        MapSpreadEntry::Named(c, _) => {
                            v.push(c);
                        },
                        MapSpreadEntry::Spread(_) => {},
                    }
                    i = i + 1;
                }
                proof {
                    assert(entries@.take(entries@.len() as int) =~= entries@);
                }
                v
            },
            _ => Vec::new(),
        }
    }
}

/// A control-flow join: the register a child frame writes back on pop.
#[derive(Debug, Clone, Copy)]
pub struct PhiOut {
    pub src_term: TermId,
    pub dest_term: TermId,
}

/// A block of terms.
#[derive(Debug)]
pub struct Block {
    pub id: BlockId,
    pub parent_term_id: Option<TermId>,
    pub entry: Option<TermId>,
    pub terms: Vec<TermId>,
    pub param_names: Vec<String>,
    pub register_count: u16,
    pub phi_outs: Vec<PhiOut>,
}

/// A function definition.
#[derive(Debug)]
pub struct FunctionDef {
    pub id: FunctionId,
    pub name: Option<String>,
    pub params: Vec<String>,
    pub body_block: BlockId,
    pub capture_names: Vec<String>,
    pub capture_registers: Vec<RegisterIndex>,
    pub self_ref_register: Option<RegisterIndex>,
    pub register_count: u16,
}

/// One arity of an overload set.
#[derive(Debug, Clone, Copy)]
pub struct OverloadEntry {
    pub arity: usize,
    pub closure_id: ClosureId,
}

/// The name a function was declared with, before any `#arity` suffix: the
/// text before the last `#`, or the whole name.
pub open spec fn base_fn_name_spec(name: Seq<char>) -> Seq<char> {
    if exists|i: int| 0 <= i < name.len() && name[i] == '#' {
        let pos = choose|i: int|
            0 <= i < name.len() && name[i] == '#' && forall|j: int| i < j < name.len() ==> name[j] != '#';
        name.subrange(0, pos)
    } else {
        name
    }
}

/// The name a function was declared with, before any `#arity` suffix.
pub fn base_fn_name(name: &str) -> (r: String)
    ensures
        r@ == base_fn_name_spec(name@),
{
    let chars = crate::text::chars_of(name);
    let mut i = chars.len();
    while i > 0
        invariant
            i <= chars@.len(),
            chars@ == name@,
            forall|j: int| i <= j < chars@.len() ==> chars@[j] != '#',
        decreases i,
    {
        if chars[i - 1] == '#' {
            let head = crate::text::slice_chars(chars.as_slice(), 0, i - 1);
            proof {
                let pos = (i - 1) as int;
                assert(0 <= pos < name@.len() && name@[pos] == '#');
                let c = choose|k: int|
                    0 <= k < name@.len() && name@[k] == '#' && forall|j: int| k < j < name@.len() ==> name@[j] != '#';
                if c < pos {
                    assert(name@[pos] != '#');
                } else if c > pos {
                    assert(name@[c] != '#');
                }
            }
            return crate::text::string_of(head.as_slice());
        }
        i = i - 1;
    }
    crate::text::string_from(name)
}

/// A term's input list: a `smallvec::SmallVec` holding up to four term ids
/// inline.
#[verifier::external_body]
pub struct TermInputs {
    items: SmallVec<[TermId; 4]>,
}

/// A term's child-block list: a `smallvec::SmallVec` holding up to two block
/// ids inline.
#[verifier::external_body]
pub struct ChildBlocks {
    items: SmallVec<[BlockId; 2]>,
}

/// The term ids an input list holds, in order.
pub uninterp spec fn input_items(v: TermInputs) -> Seq<TermId>;

/// The block ids a child-block list holds, in order.
pub uninterp spec fn child_block_items(v: ChildBlocks) -> Seq<BlockId>;

/// The items of an input list, copied out: `SmallVec::as_slice`, which
/// borrows the elements in order, then `to_vec`.
#[verifier::external_body]
pub fn inputs_of(v: &TermInputs) -> (r: Vec<TermId>)
    ensures
        r@ == input_items(*v),
{
    v.items.as_slice().to_vec()
}

/// An input list holding `v`: `SmallVec::from_vec`, which keeps the
/// elements in order (inline when they fit, else in `v`'s own buffer).
#[verifier::external_body]
pub fn inputs_from(v: Vec<TermId>) -> (r: TermInputs)
    ensures
        input_items(r) == v@,
{
    TermInputs { items: SmallVec::from_vec(v) }
}

/// An empty child-block list: `SmallVec::new`.
#[verifier::external_body]
pub fn no_child_blocks() -> (r: ChildBlocks)
    ensures
        child_block_items(r) == Seq::<BlockId>::empty(),
{
    ChildBlocks { items: SmallVec::new() }
}

/// A single expression/node in the program graph.
pub struct Term {
    pub id: TermId,
    pub op: TermOp,
    /// Input terms (dataflow edges).
    pub inputs: TermInputs,
    /// The block this term belongs to.
    pub block_id: BlockId,
    /// Linked-list ordering within the block, in memory only.
    pub block_next: Option<TermId>,
    pub block_prev: Option<TermId>,
    /// Optional name for binding terms (variable declarations).
    pub name: Option<String>,
    /// Register assignment for evaluation.
    pub register: RegisterIndex,
    /// For state terms: unique identifier for state reconciliation.
    pub state_key: Option<StateKey>,
    /// Child blocks for control-flow terms.
    pub child_blocks: ChildBlocks,
    /// For a state access: how many innermost loop path parts to drop so the
    /// access lands on its declaration's slot.
    pub path_pop: u32,
    /// For a call term: the stable callsite id.
    pub call_site: Option<u64>,
    /// For a loop in value position: collect each iteration's result.
    pub collect: bool,
    /// The binding was declared `config let`.
    pub is_config: bool,
}

impl Term {
    /// A term carrying no optional metadata: no state key, no child blocks,
    /// no path pop, no callsite, not collecting, not config, and the block
    /// links unset.
    pub fn new(
        id: TermId,
        op: TermOp,
        inputs: TermInputs,
        block_id: BlockId,
        name: Option<String>,
        register: RegisterIndex,
    ) -> (t: Term)
        ensures
            t.id == id,
            t.op == op,
            t.inputs == inputs,
            t.block_id == block_id,
            t.name == name,
            t.register == register,
            t.block_next is None,
            t.block_prev is None,
            t.state_key is None,
            child_block_items(t.child_blocks).len() == 0,
            t.path_pop == 0,
            t.call_site is None,
            !t.collect,
            !t.is_config,
    {
        Term {
            id,
            op,
            inputs,
            block_id,
            block_next: None,
            block_prev: None,
            name,
            register,
            state_key: None,
            child_blocks: no_child_blocks(),
            path_pop: 0,
            call_site: None,
            collect: false,
            is_config: false,
        }
    }
}

/// The builtin a `fn Class.name` declaration registers its method through:
/// `__declare_method(class, name, func)`.
pub const DECLARE_METHOD_BUILTIN: &'static str = "__declare_method";

/// A compiled program. The constant table is held as what the analyses read
/// of it: the string each entry holds, `None` for an entry that is not a
/// string.
pub struct Program {
    pub id: ProgramId,
    /// Original source text.
    pub source: String,
    pub terms: Vec<Term>,
    pub blocks: Vec<Block>,
    pub root_block: BlockId,
    pub string_constants: Vec<Option<String>>,
    /// Source spans.
    pub source_map: SourceMap,
    pub has_errors: bool,
    pub functions: Vec<FunctionDef>,
}

impl Program {
    /// The inputs of term `t`.
    pub open spec fn inputs_spec(self, t: int) -> Seq<TermId> {
        input_items(self.terms@[t].inputs)
    }

    /// Every id the program's terms, blocks and functions mention points at
    /// one of its terms or blocks, and term `i` has id `i`.
    pub open spec fn wf(self) -> bool {
        &&& self.terms@.len() <= u32::MAX
        &&& self.blocks@.len() <= u32::MAX
        &&& forall|i: int| 0 <= i < self.terms@.len() ==> (#[trigger] self.terms@[i]).id.0 == i
        &&& forall|i: int| 0 <= i < self.terms@.len() ==> (#[trigger] self.terms@[i]).block_id.0 < self.blocks@.len()
        &&& forall|i: int, j: int| 0 <= i < self.terms@.len() && 0 <= j < input_items(self.terms@[i].inputs).len()
            ==> (#[trigger] input_items(self.terms@[i].inputs)[j]).0 < self.terms@.len()
        &&& forall|b: int| 0 <= b < self.blocks@.len() ==> match (#[trigger] self.blocks@[b]).parent_term_id {
            Some(p) => p.0 < self.terms@.len(),
            None => true,
        }
        &&& forall|b: int, k: int| 0 <= b < self.blocks@.len() && 0 <= k < self.blocks@[b].phi_outs@.len()
            ==> (#[trigger] self.blocks@[b].phi_outs@[k]).src_term.0 < self.terms@.len()
        &&& forall|i: int, j: int| 0 <= i < self.terms@.len() && 0 <= j < constant_ids_spec(self.terms@[i].op).len()
            ==> (#[trigger] constant_ids_spec(self.terms@[i].op)[j]).0 < self.string_constants@.len()
    }

    /// The `(method name constant, function term)` that term `t` registers,
    /// when it is a `__declare_method(class, name, func)` call whose name is
    /// a constant.
    pub open spec fn declared_method(self, t: int) -> Option<(u32, TermId)> {
        match self.terms@[t].op {
            TermOp::BuiltinCall(name) => if self.string_constants@[name.0 as int] matches Some(s)
                && s@ == DECLARE_METHOD_BUILTIN@ && self.inputs_spec(t).len() >= 3 {
                match self.terms@[self.inputs_spec(t)[1].0 as int].op {
                    TermOp::Constant(c) => Some((c.0, self.inputs_spec(t)[2])),
                    _ => None,
                }
            } else {
                None
            },
            _ => None,
        }
    }

    /// Method name constant -> the function terms the first `n` terms
    /// register under it, each once, in order of first registration.
    pub open spec fn dispatch_upto(self, n: int) -> Map<u32, Seq<TermId>>
        decreases n,
    {
        if n <= 0 {
            Map::empty()
        } else {
            let m = self.dispatch_upto(n - 1);
            match self.declared_method(n - 1) {
                Some((c, f)) => {
                    let slot = if m.contains_key(c) { m[c] } else { Seq::empty() };
                    m.insert(c, if slot.contains(f) { slot } else { slot.push(f) })
                },
                None => m,
            }
        }
    }

    /// Method name -> the function terms a `fn Class.name` declaration
    /// publishes under it, keyed by the interned constant a `MethodCall`
    /// carries. Dispatch is by name at runtime, so every method of that
    /// name is a possible target.
    pub fn dispatch_targets(&self) -> (r: HashMap<u32, Vec<TermId>>)
        requires
            self.wf(),
        ensures
            forall|c: u32| #[trigger] r@.contains_key(c) == self.dispatch_upto(self.terms@.len() as int).contains_key(c),
            forall|c: u32| r@.contains_key(c) ==> (#[trigger] r@[c])@ == self.dispatch_upto(self.terms@.len() as int)[c],
    {
        let mut out: HashMap<u32, Vec<TermId>> = HashMap::new();
        let mut i: usize = 0;
        while i < self.terms.len()
            invariant
                i <= self.terms@.len(),
                self.wf(),
                forall|c: u32| #[trigger] out@.contains_key(c) == self.dispatch_upto(i as int).contains_key(c),
                forall|c: u32| out@.contains_key(c) ==> (#[trigger] out@[c])@ == self.dispatch_upto(i as int)[c],
            decreases self.terms@.len() - i,
        {
            let term = &self.terms[i];
            let ghost m = self.dispatch_upto(i as int);
            if let TermOp::BuiltinCall(name) = term.op {
                proof {
                    assert(constant_ids_spec(self.terms@[i as int].op)[0] == name);
                }
                let is_declare = match self.get_string_constant(name) {
                    Some(s) => crate::text::str_eq(s, DECLARE_METHOD_BUILTIN),
                    None => false,
                };
                let inputs = inputs_of(&term.inputs);
                if is_declare && inputs.len() >= 3 {
                    let method_tid = inputs[1];
                    let func = inputs[2];
                    proof {
                        assert(input_items(self.terms@[i as int].inputs)[1] == method_tid);
                    }
                    if let TermOp::Constant(method_cid) = self.get_term(method_tid).op {
                        let key = method_cid.0;
                        let mut slot = match out.remove(&key) {
                            Some(v) => v,
                            None => Vec::new(),
                        };
                        let ghost old_slot = slot@;
                        if !contains_term(&slot, func) {
                            slot.push(func);
                        }
                        out.insert(key, slot);
                        proof {
                            assert(self.declared_method(i as int) == Some((key, func)));
                            let slot_spec = if m.contains_key(key) { m[key] } else { Seq::<TermId>::empty() };
                            assert(old_slot == slot_spec);
                        }
                    }
                }
            }
            i = i + 1;
        }
        out
    }

    pub fn get_term(&self, id: TermId) -> (r: &Term)
        requires
            id.0 < self.terms@.len(),
        ensures
            *r == self.terms@[id.0 as int],
    {
        &self.terms[id.0 as usize]
    }

    pub fn get_block(&self, id: BlockId) -> (r: &Block)
        requires
            id.0 < self.blocks@.len(),
        ensures
            *r == self.blocks@[id.0 as int],
    {
        &self.blocks[id.0 as usize]
    }

    /// The string constant `cid` holds, if it is a string.
    pub fn get_string_constant(&self, cid: ConstantId) -> (r: Option<&str>)
        requires
            cid.0 < self.string_constants@.len(),
        ensures
            match self.string_constants@[cid.0 as int] {
                Some(s) => r is Some && r->0@ == s@,
                None => r is None,
            },
    {
        match &self.string_constants[cid.0 as usize] {
            Some(s) => Some(s.as_str()),
            None => None,
        }
    }

    /// The program's state-bearing terms as `(state key, variable name)`,
    /// in term order.
    pub fn state_terms(&self) -> (r: Vec<(StateKey, Option<String>)>)
        ensures
            r@.len() == state_term_indices(self.terms@).len(),
            forall|j: int| 0 <= j < r@.len() ==> {
                let t = #[trigger] self.terms@[state_term_indices(self.terms@)[j]];
                &&& t.state_key == Some(r@[j].0)
                &&& same_text(r@[j].1, t.name)
            },
    {
        let mut r: Vec<(StateKey, Option<String>)> = Vec::new();
        let mut i: usize = 0;
        while i < self.terms.len()
            invariant
                i <= self.terms@.len(),
                r@.len() == state_term_indices(self.terms@.take(i as int)).len(),
                forall|j: int| 0 <= j < r@.len() ==> {
                    let t = #[trigger] self.terms@[state_term_indices(self.terms@.take(i as int))[j]];
                    &&& t.state_key == Some(r@[j].0)
                    &&& same_text(r@[j].1, t.name)
                },
            decreases self.terms@.len() - i,
        {
            proof {
                assert(self.terms@.take((i + 1) as int).drop_last() == self.terms@.take(i as int));
                lemma_state_term_indices_below(self.terms@.take(i as int));
            }
            let t = &self.terms[i];
            match t.state_key {
                Some(k) => {
                    let name = match &t.name {
                        Some(n) => Some(crate::text::string_from(n.as_str())),
                        None => None,
                    };
                    r.push((k, name));
                },
                None => {},
            }
            i = i + 1;
        }
        proof {
            assert(self.terms@.take(self.terms@.len() as int) == self.terms@);
        }
        r
    }
}

/// Whether `v` holds the term id `t`.
pub fn contains_term(v: &Vec<TermId>, t: TermId) -> (r: bool)
    ensures
        r == v@.contains(t),
{
    let mut i: usize = 0;
    while i < v.len()
        invariant
            i <= v@.len(),
            forall|k: int| 0 <= k < i ==> v@[k] != t,
        decreases v@.len() - i,
    {
        if v[i].0 == t.0 {
            proof {
                assert(v@[i as int] == t);
            }
            return true;
        }
        i = i + 1;
    }
    false
}

/// Whether two optional strings are both absent or spell the same text.
pub open spec fn same_text(a: Option<String>, b: Option<String>) -> bool {
    match (a, b) {
        (Some(x), Some(y)) => x@ == y@,
        (None, None) => true,
        _ => false,
    }
}

/// The indices of the terms of `ts` that carry a state key, in order.
pub open spec fn state_term_indices(ts: Seq<Term>) -> Seq<int>
    decreases ts.len(),
{
    if ts.len() == 0 {
        seq![]
    } else {
        let before = state_term_indices(ts.drop_last());
        if ts.last().state_key is Some {
            before.push(ts.len() - 1)
        } else {
            before
        }
    }
}

proof fn lemma_state_term_indices_below(ts: Seq<Term>)
    ensures
        forall|j: int| 0 <= j < state_term_indices(ts).len()
            ==> 0 <= #[trigger] state_term_indices(ts)[j] < ts.len(),
    decreases ts.len(),
{
    if ts.len() > 0 {
        let before = state_term_indices(ts.drop_last());
        lemma_state_term_indices_below(ts.drop_last());
        let all = state_term_indices(ts);
        assert forall|j: int| 0 <= j < all.len() implies 0 <= #[trigger] all[j] < ts.len() by {
            if j < before.len() {
                assert(all[j] == before[j]);
            }
        }
    }
}

} // verus!
