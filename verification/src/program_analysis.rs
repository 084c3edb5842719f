//! Dataflow-graph analysis over a compiled [`Program`]: term lookup, the
//! static index of cells, and the backward and forward walks behind the
//! provenance, dependents and slice tooling.

use std::collections::HashMap;
use vstd::prelude::*;
use crate::program::{
    inputs_of, input_items, contains_term, Block, FunctionDef, FunctionId, Program, Term, TermId,
    TermOp,
};

verus! {

// ---------------------------------------------------------------------------
// Cells: identity edges, and the frontier a backward walk stops at
// ---------------------------------------------------------------------------

/// How a forward edge got into the graph: a real value edge, a possible
/// edge through a cell (a write or declaration reaches every read of the
/// cell), or a possible edge through method dispatch (a method reaches every
/// call of its name).
#[derive(Debug, Clone, Copy, PartialEq, Eq, Structural)]
pub enum EdgeKind {
    Dataflow,
    CellMay,
    DispatchMay,
}

/// The name a report gives each edge kind.
pub open spec fn edge_kind_name(k: EdgeKind) -> Seq<char> {
    match k {
        EdgeKind::Dataflow => "dataflow"@,
        EdgeKind::CellMay => "may"@,
        EdgeKind::DispatchMay => "dispatch"@,
    }
}

impl EdgeKind {
    pub fn as_str(self) -> (r: &'static str)
        ensures
            r@ == edge_kind_name(self),
    {
        match self {
            EdgeKind::Dataflow => "dataflow",
            EdgeKind::CellMay => "may",
            EdgeKind::DispatchMay => "dispatch",
        }
    }
}

/// A place a backward walk stopped because it reached a cell: which var,
/// where it was declared, and the complete set of writes that could have
/// supplied the value.
#[derive(Debug, Clone)]
pub struct CellFrontier {
    /// The term the walk stopped at: a `CellRead`, or (when `captured`) the
    /// `MakeClosure` that handed the cell to a function.
    pub read_term: TermId,
    /// `CellNew`, or the `StateInit` that owns it for a `state var`; `None`
    /// when the cell operand could not be resolved statically.
    pub cell_decl: Option<TermId>,
    pub var_name: Option<String>,
    /// Every `CellWrite` on this cell's declaration, in program order.
    pub writes: Vec<TermId>,
    /// A `state var`'s slot is also writable by the host, so its write set
    /// is not closed.
    pub host_writable: bool,
    /// The stop was a closure capture rather than a direct read.
    pub captured: bool,
}

/// How [`CellFrontier::describe`] words a stop.
pub open spec fn describe_spec(var_name: Option<String>, captured: bool) -> Seq<char> {
    match var_name {
        Some(n) => if captured {
            "closure captures var '"@ + n@ + "'"@
        } else {
            "read of var '"@ + n@ + "'"@
        },
        None => if captured {
            "closure captures an unresolved cell"@
        } else {
            "read of an unresolved cell"@
        },
    }
}

impl CellFrontier {
    /// `read of var 'x'`, or an unresolved cell when static resolution
    /// failed.
    pub fn describe(&self) -> (r: String)
        ensures
            r@ == describe_spec(self.var_name, self.captured),
    {
        match &self.var_name {
            Some(n) => {
                let mut s = if self.captured {
                    crate::text::string_from("closure captures var '")
                } else {
                    crate::text::string_from("read of var '")
                };
                crate::text::push_str(&mut s, n.as_str());
                crate::text::push_str(&mut s, "'");
                s
            },
            None => if self.captured {
                crate::text::string_from("closure captures an unresolved cell")
            } else {
                crate::text::string_from("read of an unresolved cell")
            },
        }
    }
}

/// Result of a backward walk. `frontier` is empty iff the answer is
/// complete.
#[derive(Debug, Clone)]
pub struct Provenance {
    pub ancestors: Vec<TermId>,
    pub edges: Vec<(TermId, TermId)>,
    pub frontier: Vec<CellFrontier>,
}

impl Provenance {
    pub fn is_complete(&self) -> (r: bool)
        ensures
            r == (self.frontier@.len() == 0),
    {
        self.frontier.len() == 0
    }
}

/// Result of a forward walk. Edges carry their kind.
#[derive(Debug, Clone)]
pub struct Dependents {
    pub dependents: Vec<TermId>,
    pub edges: Vec<(TermId, TermId, EdgeKind)>,
}

/// A backward slice that crossed a cell, and therefore is not minimal.
#[derive(Debug, Clone)]
pub struct IncompleteSlice {
    pub frontier: Vec<CellFrontier>,
}

/// A dataflow slice, with its minimal and its conservative reading kept
/// apart: a caller names which one it can live with.
#[derive(Debug, Clone)]
pub struct SliceResult {
    terms: Vec<TermId>,
    minimal_frontier: Vec<CellFrontier>,
    conservative_terms: Vec<TermId>,
    /// The stops the conservative closure crossed beyond the minimal ones.
    extra_frontier: Vec<CellFrontier>,
}

impl SliceResult {
    pub closed spec fn terms_spec(self) -> Seq<TermId> {
        self.terms@
    }

    pub closed spec fn minimal_frontier_spec(self) -> Seq<CellFrontier> {
        self.minimal_frontier@
    }

    pub closed spec fn conservative_terms_spec(self) -> Seq<TermId> {
        self.conservative_terms@
    }

    pub closed spec fn conservative_frontier_spec(self) -> Seq<CellFrontier> {
        self.minimal_frontier@ + self.extra_frontier@
    }

    /// The minimal subgraph, or `Err` with the frontier the moment a cell
    /// read was crossed.
    pub fn minimal(self) -> (r: Result<Vec<TermId>, IncompleteSlice>)
        ensures
            self.minimal_frontier_spec().len() == 0 ==> (r matches Ok(t) && t@ == self.terms_spec()),
            self.minimal_frontier_spec().len() > 0 ==> (r matches Err(e)
                && e.frontier@ == self.minimal_frontier_spec()),
    {
        if self.minimal_frontier.len() == 0 {
            Ok(self.terms)
        } else {
            Err(IncompleteSlice { frontier: self.minimal_frontier })
        }
    }

    /// The minimal slice closed over cells, and the frontier it crossed.
    pub fn conservative(self) -> (r: (Vec<TermId>, Vec<CellFrontier>))
        ensures
            r.0@ == self.conservative_terms_spec(),
            r.1@ == self.conservative_frontier_spec(),
    {
        let SliceResult { terms: _, minimal_frontier, conservative_terms, extra_frontier } = self;
        let mut frontier = minimal_frontier;
        let mut extra = extra_frontier;
        frontier.append(&mut extra);
        (conservative_terms, frontier)
    }
}

/// Static index of every cell declaration in a program and the reads and
/// writes that reach it; the sole owner of the question "which input of
/// which op names a box rather than a value". Terms are keyed by their
/// number, method names by their constant's number.
#[derive(Debug)]
pub struct CellIndex {
    /// Cell-operand term -> the declaration it resolves to; a declaration
    /// maps to itself.
    decl_of: HashMap<u32, TermId>,
    reads: HashMap<u32, Vec<TermId>>,
    writes: HashMap<u32, Vec<TermId>>,
    host_writable: HashMap<u32, bool>,
    var_name: HashMap<u32, String>,
    /// Every declaration, in the order it was found.
    decls: Vec<TermId>,
    /// A read, write or capturing closure term -> its declaration.
    site_decl: HashMap<u32, TermId>,
    /// Method name constant -> the function terms a call on it may reach.
    dispatch: HashMap<u32, Vec<TermId>>,
}

/// The inputs of an operation at positions `0..n` whose being an identity
/// edge is `want`, in order.
pub open spec fn inputs_where(decl_of: Map<u32, TermId>, op: TermOp, ins: Seq<TermId>, n: int, want: bool) -> Seq<TermId>
    decreases n,
{
    if n <= 0 {
        seq![]
    } else {
        let before = inputs_where(decl_of, op, ins, n - 1, want);
        if identity_at(decl_of, op, ins, n - 1) == want {
            before.push(ins[n - 1])
        } else {
            before
        }
    }
}

/// Whether input `pos` of an operation names a box rather than a value:
/// the cell operand of a read or write, and a closure capture of a cell.
pub open spec fn identity_at(decl_of: Map<u32, TermId>, op: TermOp, ins: Seq<TermId>, pos: int) -> bool {
    match op {
        TermOp::CellRead | TermOp::CellWrite => pos == 0,
        TermOp::MakeClosure(_) => decl_of.contains_key(ins[pos].0),
        _ => false,
    }
}

impl CellIndex {
    pub closed spec fn decl_map(&self) -> Map<u32, TermId> {
        self.decl_of@
    }

    pub closed spec fn decl_list(&self) -> Seq<TermId> {
        self.decls@
    }

    pub closed spec fn site_map(&self) -> Map<u32, TermId> {
        self.site_decl@
    }

    /// The reads of declaration `d`, in program order.
    pub closed spec fn reads_spec(&self, d: u32) -> Seq<TermId> {
        if self.reads@.contains_key(d) { self.reads@[d]@ } else { seq![] }
    }

    /// The writes of declaration `d`, in program order.
    pub closed spec fn writes_spec(&self, d: u32) -> Seq<TermId> {
        if self.writes@.contains_key(d) { self.writes@[d]@ } else { seq![] }
    }

    pub closed spec fn host_writable_spec(&self, d: u32) -> bool {
        self.host_writable@.contains_key(d)
    }

    pub closed spec fn var_name_spec(&self, d: u32) -> Option<Seq<char>> {
        if self.var_name@.contains_key(d) { Some(self.var_name@[d]@) } else { None }
    }

    /// The function terms a call on method name `c` may reach.
    pub closed spec fn dispatch_spec(&self, c: u32) -> Seq<TermId> {
        if self.dispatch@.contains_key(c) { self.dispatch@[c]@ } else { seq![] }
    }

    /// Every term id the index holds is below `n`.
    pub closed spec fn within(&self, n: nat) -> bool {
        &&& forall|k: u32| #[trigger] self.decl_of@.contains_key(k) ==> self.decl_of@[k].0 < n
        &&& forall|k: u32| #[trigger] self.site_decl@.contains_key(k) ==> self.site_decl@[k].0 < n
        &&& forall|k: u32, j: int| self.dispatch@.contains_key(k) && 0 <= j < self.dispatch@[k]@.len()
            ==> (#[trigger] self.dispatch@[k]@[j]).0 < n
        &&& forall|k: u32, j: int| self.writes@.contains_key(k) && 0 <= j < self.writes@[k]@.len()
            ==> (#[trigger] self.writes@[k]@[j]).0 < n
        &&& forall|k: u32, j: int| self.reads@.contains_key(k) && 0 <= j < self.reads@[k]@.len()
            ==> (#[trigger] self.reads@[k]@[j]).0 < n
        &&& forall|j: int| 0 <= j < self.decls@.len() ==> (#[trigger] self.decls@[j]).0 < n
    }

    /// The inputs of an operation that a backward walk may follow: every
    /// input but the identity ones, then, for a method call, the functions
    /// it may dispatch to.
    pub open spec fn value_inputs_spec(&self, op: TermOp, ins: Seq<TermId>) -> Seq<TermId> {
        inputs_where(self.decl_map(), op, ins, ins.len() as int, false) + self.dispatch_inputs_spec(op)
    }

    /// The function terms a method call may dispatch to; none for any other
    /// operation.
    pub open spec fn dispatch_inputs_spec(&self, op: TermOp) -> Seq<TermId> {
        match op {
            TermOp::MethodCall { name, .. } => self.dispatch_spec(name.0),
            _ => seq![],
        }
    }

    /// The inputs of an operation that name a cell.
    pub open spec fn cell_operands_spec(&self, op: TermOp, ins: Seq<TermId>) -> Seq<TermId> {
        inputs_where(self.decl_map(), op, ins, ins.len() as int, true)
    }

    fn is_identity_input(&self, op: &TermOp, ins: &Vec<TermId>, pos: usize) -> (r: bool)
        requires
            pos < ins@.len(),
        ensures
            r == identity_at(self.decl_map(), *op, ins@, pos as int),
    {
        match op {
            TermOp::CellRead | TermOp::CellWrite => pos == 0,
            TermOp::MakeClosure(_) => self.decl_of.contains_key(&ins[pos].0),
            _ => false,
        }
    }

    fn inputs_by_identity(&self, op: &TermOp, ins: &Vec<TermId>, want: bool) -> (r: Vec<TermId>)
        ensures
            r@ == inputs_where(self.decl_map(), *op, ins@, ins@.len() as int, want),
    {
        let mut out: Vec<TermId> = Vec::new();
        let mut i: usize = 0;
        while i < ins.len()
            invariant
                i <= ins@.len(),
                out@ == inputs_where(self.decl_map(), *op, ins@, i as int, want),
            decreases ins@.len() - i,
        {
            if self.is_identity_input(op, ins, i) == want {
                out.push(ins[i]);
            }
            i = i + 1;
        }
        out
    }

    /// The inputs of `term` a backward walk may follow. For a method call
    /// this includes the functions it may dispatch to, which are not
    /// operands: dispatch is by name.
    pub fn value_inputs(&self, term: &Term) -> (r: Vec<TermId>)
        ensures
            r@ == self.value_inputs_spec(term.op, input_items(term.inputs)),
    {
        let ins = inputs_of(&term.inputs);
        let mut out = self.inputs_by_identity(&term.op, &ins, false);
        let mut extra = self.dispatch_inputs(term);
        out.append(&mut extra);
        out
    }

    /// The function terms a `MethodCall` may dispatch to; empty for every
    /// other op.
    pub fn dispatch_inputs(&self, term: &Term) -> (r: Vec<TermId>)
        ensures
            r@ == self.dispatch_inputs_spec(term.op),
    {
        match &term.op {
            TermOp::MethodCall { name, .. } => match self.dispatch.get(&name.0) {
                Some(v) => copy_terms(v),
                None => Vec::new(),
            },
            _ => Vec::new(),
        }
    }

    /// The inputs of `term` that name a cell. Empty for every op but
    /// `CellRead`, `CellWrite` and a capturing `MakeClosure`.
    pub fn cell_operands(&self, term: &Term) -> (r: Vec<TermId>)
        ensures
            r@ == self.cell_operands_spec(term.op, input_items(term.inputs)),
    {
        let ins = inputs_of(&term.inputs);
        self.inputs_by_identity(&term.op, &ins, true)
    }

    /// The declaration a cell operand resolves to, if it resolves.
    pub fn decl_of(&self, operand: TermId) -> (r: Option<TermId>)
        ensures
            r == (if self.decl_map().contains_key(operand.0) { Some(self.decl_map()[operand.0]) } else { None }),
    {
        match self.decl_of.get(&operand.0) {
            Some(d) => Some(*d),
            None => None,
        }
    }

    pub fn is_decl(&self, term: TermId) -> (r: bool)
        ensures
            r == self.decl_list().contains(term),
    {
        contains_term(&self.decls, term)
    }

    /// The declaration a read, write or capture site belongs to; a
    /// declaration belongs to itself.
    pub fn decl_for_site(&self, term: TermId) -> (r: Option<TermId>)
        ensures
            r == (if self.decl_list().contains(term) {
                Some(term)
            } else if self.site_map().contains_key(term.0) {
                Some(self.site_map()[term.0])
            } else {
                None
            }),
    {
        if self.is_decl(term) {
            return Some(term);
        }
        match self.site_decl.get(&term.0) {
            Some(d) => Some(*d),
            None => None,
        }
    }

    pub fn writes_of(&self, decl: TermId) -> (r: &[TermId])
        ensures
            r@ == self.writes_spec(decl.0),
    {
        match self.writes.get(&decl.0) {
            Some(v) => v.as_slice(),
            None => &[],
        }
    }

    pub fn reads_of(&self, decl: TermId) -> (r: &[TermId])
        ensures
            r@ == self.reads_spec(decl.0),
    {
        match self.reads.get(&decl.0) {
            Some(v) => v.as_slice(),
            None => &[],
        }
    }

    pub fn var_name(&self, decl: TermId) -> (r: Option<&str>)
        ensures
            match self.var_name_spec(decl.0) {
                Some(n) => r matches Some(s) && s@ == n,
                None => r is None,
            },
    {
        match self.var_name.get(&decl.0) {
            Some(s) => Some(s.as_str()),
            None => None,
        }
    }

    pub fn host_writable(&self, decl: TermId) -> (r: bool)
        ensures
            r == self.host_writable_spec(decl.0),
    {
        self.host_writable.contains_key(&decl.0)
    }
}

/// A copy of `v`.
fn copy_terms(v: &Vec<TermId>) -> (r: Vec<TermId>)
    ensures
        r@ == v@,
{
    let mut r: Vec<TermId> = Vec::new();
    let mut i: usize = 0;
    while i < v.len()
        invariant
            i <= v@.len(),
            r@ == v@.take(i as int),
        decreases v@.len() - i,
    {
        r.push(v[i]);
        proof {
            assert(v@.take((i + 1) as int) == v@.take(i as int).push(v@[i as int]));
        }
        i = i + 1;
    }
    proof {
        assert(v@.take(v@.len() as int) == v@);
    }
    r
}

/// What [`CellIndex::frontier_for`] records for a walk that stopped at
/// `at`'s cell operand `operand`: the declaration it resolves to and that
/// declaration's name, writes and host-writability.
pub open spec fn frontier_is(f: CellFrontier, idx: CellIndex, at: TermId, operand: TermId, captured: bool) -> bool {
    &&& f.read_term == at
    &&& f.captured == captured
    &&& if idx.decl_map().contains_key(operand.0) {
        let d = idx.decl_map()[operand.0];
        &&& f.cell_decl == Some(d)
        &&& match idx.var_name_spec(d.0) {
            Some(n) => f.var_name matches Some(v) && v@ == n,
            None => f.var_name is None,
        }
        &&& f.writes@ == idx.writes_spec(d.0)
        &&& f.host_writable == idx.host_writable_spec(d.0)
    } else {
        &&& f.cell_decl is None
        &&& f.var_name is None
        &&& f.writes@.len() == 0
        &&& !f.host_writable
    }
}

impl CellIndex {
    /// The frontier record for a walk that stopped at `at_term`'s cell
    /// operand `operand`.
    fn frontier_for(&self, at_term: TermId, operand: TermId, captured: bool) -> (r: CellFrontier)
        ensures
            frontier_is(r, *self, at_term, operand, captured),
    {
        match self.decl_of(operand) {
            Some(d) => {
                let name = match self.var_name(d) {
                    Some(n) => Some(crate::text::string_from(n)),
                    None => None,
                };
                let w = self.writes_of(d);
                let mut writes: Vec<TermId> = Vec::new();
                let mut i: usize = 0;
                while i < w.len()
                    invariant
                        i <= w@.len(),
                        writes@ == w@.take(i as int),
                    decreases w@.len() - i,
                {
                    writes.push(w[i]);
                    proof {
                        assert(w@.take((i + 1) as int) == w@.take(i as int).push(w@[i as int]));
                    }
                    i = i + 1;
                }
                proof {
                    assert(w@.take(w@.len() as int) == w@);
                }
                CellFrontier {
                    read_term: at_term,
                    cell_decl: Some(d),
                    var_name: name,
                    writes,
                    host_writable: self.host_writable(d),
                    captured,
                }
            },
            None => CellFrontier {
                read_term: at_term,
                cell_decl: None,
                var_name: None,
                writes: Vec::new(),
                host_writable: false,
                captured,
            },
        }
    }
}

/// The declaration a `CellNew` term `t` makes: the `StateInit` that owns its
/// block for a `state var`, else the term itself.
pub open spec fn owner_of(p: Program, t: int) -> TermId {
    match p.blocks@[p.terms@[t].block_id.0 as int].parent_term_id {
        Some(q) => if p.terms@[q.0 as int].op is StateInit { q } else { p.terms@[t].id },
        None => p.terms@[t].id,
    }
}

/// Whether `d` is the declaration some `CellNew` among the first `n` terms
/// makes.
pub open spec fn declares(p: Program, n: int, d: TermId) -> bool {
    exists|t: int| 0 <= t < n && p.terms@[t].op is CellNew && #[trigger] owner_of(p, t) == d
}

/// Every resolution the index holds lands on a declaration it lists.
pub open spec fn resolves_to_decls(idx: CellIndex) -> bool {
    forall|k: u32| #[trigger] idx.decl_map().contains_key(k) ==> idx.decl_list().contains(idx.decl_map()[k])
}

/// What the index says of the declarations of `p`'s first `n` terms.
pub open spec fn decls_indexed(p: Program, idx: CellIndex, n: int) -> bool {
    &&& forall|d: TermId| #[trigger] idx.decl_list().contains(d) <==> declares(p, n, d)
    &&& idx.decl_list().no_duplicates()
    &&& forall|t: int| 0 <= t < n && (#[trigger] p.terms@[t]).op is CellNew ==> {
        &&& idx.decl_map().contains_key(t as u32)
        &&& idx.decl_map()[t as u32] == owner_of(p, t)
        &&& idx.decl_map().contains_key(owner_of(p, t).0)
        &&& idx.decl_map()[owner_of(p, t).0] == owner_of(p, t)
    }
    &&& forall|d: u32| #[trigger] idx.host_writable_spec(d)
        <==> (idx.decl_list().contains(TermId(d)) && p.terms@[d as int].op is StateInit)
    &&& forall|d: u32| #[trigger] idx.var_name_spec(d) is Some ==> idx.decl_list().contains(TermId(d))
}

/// What the index says of the sites among `p`'s first `n` terms: each
/// listed read and write, in program order, is a site of its declaration.
pub open spec fn sites_indexed(p: Program, idx: CellIndex, n: int) -> bool {
    &&& forall|d: u32, j: int| 0 <= j < idx.reads_spec(d).len() ==> {
        let r = #[trigger] idx.reads_spec(d)[j];
        &&& r.0 < n
        &&& p.terms@[r.0 as int].op is CellRead
        &&& idx.decl_map().contains_key(p.inputs_spec(r.0 as int)[0].0)
        &&& idx.decl_map()[p.inputs_spec(r.0 as int)[0].0] == TermId(d)
        &&& idx.site_map().contains_key(r.0)
        &&& idx.site_map()[r.0] == TermId(d)
    }
    &&& forall|d: u32, j: int| 0 <= j < idx.writes_spec(d).len() ==> {
        let w = #[trigger] idx.writes_spec(d)[j];
        &&& w.0 < n
        &&& p.terms@[w.0 as int].op is CellWrite
        &&& idx.decl_map().contains_key(p.inputs_spec(w.0 as int)[0].0)
        &&& idx.decl_map()[p.inputs_spec(w.0 as int)[0].0] == TermId(d)
        &&& idx.site_map().contains_key(w.0)
        &&& idx.site_map()[w.0] == TermId(d)
    }
    &&& forall|d: u32, j: int, k: int| 0 <= j < k < idx.reads_spec(d).len()
        ==> (#[trigger] idx.reads_spec(d)[j]).0 < (#[trigger] idx.reads_spec(d)[k]).0
    &&& forall|d: u32, j: int, k: int| 0 <= j < k < idx.writes_spec(d).len()
        ==> (#[trigger] idx.writes_spec(d)[j]).0 < (#[trigger] idx.writes_spec(d)[k]).0
    &&& forall|s: u32| #[trigger] idx.site_map().contains_key(s) ==> idx.decl_list().contains(idx.site_map()[s])
}

proof fn lemma_push_contains(s: Seq<TermId>, x: TermId, d: TermId)
    ensures
        s.push(x).contains(d) <==> (s.contains(d) || d == x),
{
    let t = s.push(x);
    if t.contains(d) {
        let j = choose|j: int| 0 <= j < t.len() && t[j] == d;
        if j < s.len() {
            assert(s[j] == d);
        }
    }
    if s.contains(d) {
        let j = choose|j: int| 0 <= j < s.len() && s[j] == d;
        assert(t[j] == d);
    }
    if d == x {
        assert(t[s.len() as int] == d);
    }
}

/// The function terms a call on method name `c` may reach in `p`.
pub open spec fn dispatch_of(p: Program, c: u32) -> Seq<TermId> {
    let m = p.dispatch_upto(p.terms@.len() as int);
    if m.contains_key(c) { m[c] } else { seq![] }
}

proof fn lemma_dispatch_within(p: Program, k: int)
    requires
        p.wf(),
        0 <= k <= p.terms@.len(),
    ensures
        forall|c: u32, j: int| p.dispatch_upto(k).contains_key(c) && 0 <= j < p.dispatch_upto(k)[c].len()
            ==> (#[trigger] p.dispatch_upto(k)[c][j]).0 < p.terms@.len(),
    decreases k,
{
    if k > 0 {
        lemma_dispatch_within(p, k - 1);
        let m = p.dispatch_upto(k - 1);
        match p.declared_method(k - 1) {
            Some((c0, f)) => {
                assert(f.0 < p.terms@.len()) by {
                    assert(f == input_items(p.terms@[k - 1].inputs)[2]);
                }
                let slot = if m.contains_key(c0) { m[c0] } else { Seq::<TermId>::empty() };
                assert forall|c: u32, j: int| p.dispatch_upto(k).contains_key(c) && 0 <= j < p.dispatch_upto(k)[c].len()
                    implies (#[trigger] p.dispatch_upto(k)[c][j]).0 < p.terms@.len() by {
                    if c == c0 {
                        if j < slot.len() {
                            assert(p.dispatch_upto(k)[c][j] == slot[j]);
                        }
                    }
                }
            },
            None => {},
        }
    }
}

impl Program {
    /// Pass 1 of [`Program::cell_index`]: the declarations. A `state var`
    /// puts its `CellNew` inside the `StateInit`'s init block, which makes
    /// the slot the thing every read names.
    fn index_decls(&self) -> (idx: CellIndex)
        requires
            self.wf(),
        ensures
            idx.within(self.terms@.len()),
            resolves_to_decls(idx),
            decls_indexed(*self, idx, self.terms@.len() as int),
            sites_indexed(*self, idx, 0),
            forall|d: u32| #[trigger] idx.reads_spec(d).len() == 0,
            forall|d: u32| #[trigger] idx.writes_spec(d).len() == 0,
            idx.site_map() == Map::<u32, TermId>::empty(),
            forall|c: u32| #[trigger] idx.dispatch_spec(c) == dispatch_of(*self, c),
    {
        let mut idx = CellIndex {
            decl_of: HashMap::new(),
            reads: HashMap::new(),
            writes: HashMap::new(),
            host_writable: HashMap::new(),
            var_name: HashMap::new(),
            decls: Vec::new(),
            site_decl: HashMap::new(),
            dispatch: self.dispatch_targets(),
        };
        proof {
            lemma_dispatch_within(*self, self.terms@.len() as int);
        }
        let ghost d0 = idx.dispatch@;
        let mut i: usize = 0;
        while i < self.terms.len()
            invariant
                i <= self.terms@.len(),
                self.wf(),
                idx.within(self.terms@.len()),
                resolves_to_decls(idx),
                decls_indexed(*self, idx, i as int),
                idx.reads@ == Map::<u32, Vec<TermId>>::empty(),
                idx.writes@ == Map::<u32, Vec<TermId>>::empty(),
                idx.site_map() == Map::<u32, TermId>::empty(),
                idx.dispatch@ == d0,
                forall|c: u32| (if d0.contains_key(c) { d0[c]@ } else { Seq::<TermId>::empty() })
                    == #[trigger] dispatch_of(*self, c),
            decreases self.terms@.len() - i,
        {
            let term = &self.terms[i];
            if let TermOp::CellNew = term.op {
                let block = self.get_block(term.block_id);
                let owner: Option<TermId> = match block.parent_term_id {
                    Some(q) => if let TermOp::StateInit = self.get_term(q).op {
                        Some(q)
                    } else {
                        None
                    },
                    None => None,
                };
                let decl = match owner {
                    Some(q) => q,
                    None => term.id,
                };
                let ghost old_idx = idx;
                proof {
                    assert(decl == owner_of(*self, i as int));
                    assert(self.terms@[i as int].id.0 == i);
                }
                if !contains_term(&idx.decls, decl) {
                    idx.decls.push(decl);
                }
                let ghost new_decls = idx.decls@;
                proof {
                    assert forall|d: TermId| #[trigger] new_decls.contains(d)
                        <==> (old_idx.decls@.contains(d) || d == decl) by {
                        if new_decls != old_idx.decls@ {
                            lemma_push_contains(old_idx.decls@, decl, d);
                        }
                    }
                }
                idx.decl_of.insert(decl.0, decl);
                idx.decl_of.insert(term.id.0, decl);
                if owner.is_some() {
                    idx.host_writable.insert(decl.0, true);
                }
                let name: Option<String> = match &self.get_term(decl).name {
                    Some(n) => Some(crate::text::string_from(n.as_str())),
                    None => match &term.name {
                        Some(n) => Some(crate::text::string_from(n.as_str())),
                        None => None,
                    },
                };
                match name {
                    Some(n) => {
                        idx.var_name.insert(decl.0, n);
                    },
                    None => {},
                }
                proof {
                    assert(idx.decl_list() == new_decls);
                    assert(self.terms@[i as int].op is CellNew);
                    assert(declares(*self, (i + 1) as int, decl)) by {
                        assert(owner_of(*self, i as int) == decl);
                    }
                    assert forall|d: TermId| #[trigger] idx.decl_list().contains(d) <==> declares(*self, (i + 1) as int, d) by {
                        if d == decl {
                            assert(new_decls.contains(d));
                        } else {
                            assert(new_decls.contains(d) == old_idx.decls@.contains(d));
                            assert(old_idx.decl_list().contains(d) == declares(*self, i as int, d));
                            if declares(*self, i as int, d) {
                                let t = choose|t: int| 0 <= t < i && self.terms@[t].op is CellNew && #[trigger] owner_of(*self, t) == d;
                                assert(declares(*self, (i + 1) as int, d));
                            }
                            if declares(*self, (i + 1) as int, d) {
                                let t = choose|t: int| 0 <= t < i + 1 && self.terms@[t].op is CellNew && #[trigger] owner_of(*self, t) == d;
                                assert(t != i);
                                assert(declares(*self, i as int, d));
                            }
                        }
                    }
                    assert forall|t: int| 0 <= t < i + 1 && (#[trigger] self.terms@[t]).op is CellNew implies {
                        &&& idx.decl_map().contains_key(t as u32)
                        &&& idx.decl_map()[t as u32] == owner_of(*self, t)
                        &&& idx.decl_map().contains_key(owner_of(*self, t).0)
                        &&& idx.decl_map()[owner_of(*self, t).0] == owner_of(*self, t)
                    } by {
                        if t < i {
                            let o = owner_of(*self, t);
                            assert(self.terms@[t].id.0 == t);
                            assert(old_idx.decl_map().contains_key(o.0));
                            if o.0 == i {
                                assert(o == self.terms@[t].id || self.terms@[o.0 as int].op is StateInit);
                            }
                        }
                    }
                    assert forall|d: u32| #[trigger] idx.host_writable_spec(d)
                        <==> (idx.decl_list().contains(TermId(d)) && self.terms@[d as int].op is StateInit) by {
                        if d == decl.0 {
                            assert(TermId(d) == decl);
                            assert(idx.decl_list().contains(TermId(d)));
                            match owner {
                                Some(q) => {
                                    assert(idx.host_writable_spec(d));
                                    assert(self.terms@[q.0 as int].op is StateInit);
                                },
                                None => {
                                    assert(d == i);
                                    assert(!(self.terms@[d as int].op is StateInit));
                                    assert(old_idx.host_writable_spec(d) == (old_idx.decl_list().contains(TermId(d))
                                        && self.terms@[d as int].op is StateInit));
                                    assert(!idx.host_writable_spec(d));
                                },
                            }
                        } else {
                            assert(TermId(d) != decl);
                            assert(idx.host_writable_spec(d) == old_idx.host_writable_spec(d));
                            assert(old_idx.decl_list().contains(TermId(d)) == idx.decl_list().contains(TermId(d)));
                        }
                    }
                    assert forall|d: u32| #[trigger] idx.var_name_spec(d) is Some implies idx.decl_list().contains(TermId(d)) by {
                        if d == decl.0 {
                            assert(TermId(d) == decl);
                        } else {
                            assert(old_idx.var_name_spec(d) is Some);
                        }
                    }
                    assert forall|k: u32| #[trigger] idx.decl_map().contains_key(k) implies idx.decl_list().contains(idx.decl_map()[k]) by {
                        if k != decl.0 && k != i as u32 {
                            assert(old_idx.decl_map().contains_key(k));
                        }
                    }
                    assert(idx.decl_list().no_duplicates());
                }
            } else {
                proof {
                    assert forall|d: TermId| #[trigger] idx.decl_list().contains(d) <==> declares(*self, (i + 1) as int, d) by {
                        if declares(*self, (i + 1) as int, d) {
                            let t = choose|t: int| 0 <= t < i + 1 && self.terms@[t].op is CellNew && #[trigger] owner_of(*self, t) == d;
                            assert(t < i);
                            assert(declares(*self, i as int, d));
                        }
                    }
                }
            }
            i = i + 1;
        }
        proof {
            assert forall|c: u32| #[trigger] idx.dispatch_spec(c) == dispatch_of(*self, c) by {
                assert(dispatch_of(*self, c) == (if d0.contains_key(c) { d0[c]@ } else { Seq::<TermId>::empty() }));
            }
        }
        idx
    }
}

/// Every term a closure table lists is one of `n` terms.
pub open spec fn closures_within(closures: Map<u32, Vec<TermId>>, n: nat) -> bool {
    forall|f: u32, j: int| closures.contains_key(f) && 0 <= j < closures[f]@.len()
        ==> (#[trigger] closures[f]@[j]).0 < n
}

impl Program {
    /// A `MakeClosure` per function id, in program order, for resolving
    /// capture phantoms.
    fn closures_by_function(&self) -> (r: HashMap<u32, Vec<TermId>>)
        requires
            self.wf(),
        ensures
            closures_within(r@, self.terms@.len()),
    {
        let mut closures: HashMap<u32, Vec<TermId>> = HashMap::new();
        let mut i: usize = 0;
        while i < self.terms.len()
            invariant
                i <= self.terms@.len(),
                self.wf(),
                closures_within(closures@, i as nat),
            decreases self.terms@.len() - i,
        {
            if let TermOp::MakeClosure(fid) = self.terms[i].op {
                let mut v = match closures.remove(&fid.0) {
                    Some(v) => v,
                    None => Vec::new(),
                };
                let ghost before = v@;
                v.push(self.terms[i].id);
                proof {
                    assert(self.terms@[i as int].id.0 == i);
                    assert forall|j: int| 0 <= j < v@.len() implies (#[trigger] v@[j]).0 < i + 1 by {
                        if j < before.len() {
                            assert(v@[j] == before[j]);
                        }
                    }
                }
                closures.insert(fid.0, v);
            }
            i = i + 1;
        }
        closures
    }

    /// Resolve a cell operand to its declaration, walking out through
    /// closure capture phantoms: phantom -> the `FunctionDef` whose body is
    /// the phantom's block -> the capture slot whose register (or name) is
    /// the phantom's -> each `MakeClosure` of that function -> the input in
    /// that slot. Only an unambiguous answer is accepted, and the walk gives
    /// up past a depth of 16.
    fn resolve_cell_operand(
        &self,
        idx: &CellIndex,
        closures: &HashMap<u32, Vec<TermId>>,
        operand: TermId,
        depth: usize,
    ) -> (r: Option<TermId>)
        requires
            self.wf(),
            operand.0 < self.terms@.len(),
            idx.within(self.terms@.len()),
            resolves_to_decls(*idx),
            closures_within(closures@, self.terms@.len()),
        ensures
            r matches Some(d) ==> idx.decl_list().contains(d),
            depth <= 16 && idx.decl_map().contains_key(operand.0) ==> r == Some(idx.decl_map()[operand.0]),
        decreases 17 - depth,
    {
        if depth > 16 {
            return None;
        }
        if let Some(d) = idx.decl_of.get(&operand.0) {
            proof {
                assert(idx.decl_map().contains_key(operand.0));
            }
            return Some(*d);
        }
        let term = self.get_term(operand);
        let ins = inputs_of(&term.inputs);
        if !matches!(term.op, TermOp::Copy) || ins.len() != 0 {
            return None;
        }
        let mut fi: usize = 0;
        while fi < self.functions.len()
            invariant
                fi <= self.functions@.len(),
            ensures
                fi < self.functions@.len() ==> self.functions@[fi as int].body_block == term.block_id,
            decreases self.functions@.len() - fi,
        {
            if self.functions[fi].body_block.0 == term.block_id.0 {
                break;
            }
            fi = fi + 1;
        }
        if fi == self.functions.len() {
            return None;
        }
        let func = &self.functions[fi];
        let mut slot: usize = 0;
        while slot < func.capture_registers.len()
            invariant
                slot <= func.capture_registers@.len(),
            decreases func.capture_registers@.len() - slot,
        {
            if func.capture_registers[slot].0 == term.register.0 {
                break;
            }
            slot = slot + 1;
        }
        if slot == func.capture_registers.len() {
            let name = match &term.name {
                Some(n) => n,
                None => return None,
            };
            slot = 0;
            while slot < func.capture_names.len()
                invariant
                    slot <= func.capture_names@.len(),
                decreases func.capture_names@.len() - slot,
            {
                if crate::text::str_eq(func.capture_names[slot].as_str(), name.as_str()) {
                    break;
                }
                slot = slot + 1;
            }
            if slot == func.capture_names.len() {
                return None;
            }
        }
        let sites = match closures.get(&func.id.0) {
            Some(v) => v,
            None => return None,
        };
        let mut resolved: Option<TermId> = None;
        let mut k: usize = 0;
        while k < sites.len()
            invariant
                k <= sites@.len(),
                self.wf(),
                idx.within(self.terms@.len()),
                resolves_to_decls(*idx),
                closures_within(closures@, self.terms@.len()),
                closures@.contains_key(func.id.0),
                sites@ == closures@[func.id.0]@,
                depth <= 16,
                !idx.decl_map().contains_key(operand.0),
                resolved matches Some(d) ==> idx.decl_list().contains(d),
            decreases sites@.len() - k,
        {
            let site = self.get_term(sites[k]);
            let site_inputs = inputs_of(&site.inputs);
            if slot >= site_inputs.len() {
                return None;
            }
            let outer = site_inputs[slot];
            proof {
                assert(self.terms@[sites@[k as int].0 as int] == *site);
                assert(input_items(self.terms@[sites@[k as int].0 as int].inputs)[slot as int] == outer);
            }
            let decl = match self.resolve_cell_operand(idx, closures, outer, depth + 1) {
                Some(d) => d,
                None => return None,
            };
            match resolved {
                Some(prev) => {
                    if prev.0 != decl.0 {
                        return None;
                    }
                },
                None => {
                    resolved = Some(decl);
                },
            }
            k = k + 1;
        }
        resolved
    }
}

/// Whether term `t` of `p` reads or writes a cell through an operand that
/// `m` already maps to its declaration.
pub open spec fn direct_site(p: Program, m: Map<u32, TermId>, t: int) -> bool {
    &&& (p.terms@[t].op is CellRead || p.terms@[t].op is CellWrite)
    &&& p.inputs_spec(t).len() > 0
    &&& m.contains_key(p.inputs_spec(t)[0].0)
}

/// Whether term `t` of `p` reads or writes the cell that a `CellNew` term
/// makes, named directly as its operand.
pub open spec fn uses_new_cell(p: Program, t: int) -> bool {
    &&& (p.terms@[t].op is CellRead || p.terms@[t].op is CellWrite)
    &&& p.inputs_spec(t).len() > 0
    &&& p.terms@[p.inputs_spec(t)[0].0 as int].op is CellNew
}

/// What the index records of the site `t`, a direct use of the declaration
/// `m` maps its operand to: the site's declaration, and the site among that
/// declaration's reads or writes.
pub open spec fn site_recorded(p: Program, m: Map<u32, TermId>, idx: CellIndex, t: int) -> bool {
    let d = m[p.inputs_spec(t)[0].0];
    &&& idx.site_map().contains_key(t as u32)
    &&& idx.site_map()[t as u32] == d
    &&& p.terms@[t].op is CellRead ==> idx.reads_spec(d.0).contains(TermId(t as u32))
    &&& p.terms@[t].op is CellWrite ==> idx.writes_spec(d.0).contains(TermId(t as u32))
}

/// `after` maps every key `before` maps, to the same declaration.
pub open spec fn extends_map(before: Map<u32, TermId>, after: Map<u32, TermId>) -> bool {
    forall|k: u32| #[trigger] before.contains_key(k) ==> after.contains_key(k) && after[k] == before[k]
}

/// Append `t` to the list `m` holds under `key`.
fn push_under(m: &mut HashMap<u32, Vec<TermId>>, key: u32, t: TermId)
    ensures
        final(m)@.contains_key(key),
        final(m)@[key]@ == (if old(m)@.contains_key(key) { old(m)@[key]@ } else { Seq::empty() }).push(t),
        forall|k: u32| k != key ==> (#[trigger] final(m)@.contains_key(k)) == old(m)@.contains_key(k),
        forall|k: u32| k != key && old(m)@.contains_key(k) ==> #[trigger] final(m)@[k] == old(m)@[k],
{
    let mut v = match m.remove(&key) {
        Some(v) => v,
        None => Vec::new(),
    };
    v.push(t);
    m.insert(key, v);
}

impl Program {
    /// Pass 2 of [`Program::cell_index`]: attach every `CellRead`,
    /// `CellWrite` and closure capture to the declaration its cell operand
    /// resolves to.
    fn index_uses(&self, idx: &mut CellIndex, closures: &HashMap<u32, Vec<TermId>>)
        requires
            self.wf(),
            old(idx).within(self.terms@.len()),
            resolves_to_decls(*old(idx)),
            decls_indexed(*self, *old(idx), self.terms@.len() as int),
            sites_indexed(*self, *old(idx), 0),
            old(idx).site_map() == Map::<u32, TermId>::empty(),
            forall|d: u32| #[trigger] old(idx).reads_spec(d).len() == 0,
            forall|d: u32| #[trigger] old(idx).writes_spec(d).len() == 0,
            closures_within(closures@, self.terms@.len()),
        ensures
            final(idx).within(self.terms@.len()),
            resolves_to_decls(*final(idx)),
            decls_indexed(*self, *final(idx), self.terms@.len() as int),
            sites_indexed(*self, *final(idx), self.terms@.len() as int),
            forall|c: u32| #[trigger] final(idx).dispatch_spec(c) == old(idx).dispatch_spec(c),
            extends_map(old(idx).decl_map(), final(idx).decl_map()),
            forall|t: int| 0 <= t < self.terms@.len() && #[trigger] direct_site(*self, old(idx).decl_map(), t)
                ==> site_recorded(*self, old(idx).decl_map(), *final(idx), t),
    {
        let n = self.terms.len();
        let mut i: usize = 0;
        while i < n
            invariant
                n == self.terms@.len(),
                i <= n,
                self.wf(),
                idx.within(n as nat),
                resolves_to_decls(*idx),
                decls_indexed(*self, *idx, n as int),
                sites_indexed(*self, *idx, i as int),
                idx.decls@ == old(idx).decls@,
                idx.dispatch@ == old(idx).dispatch@,
                idx.host_writable@ == old(idx).host_writable@,
                idx.var_name@ == old(idx).var_name@,
                closures_within(closures@, n as nat),
                forall|d: u32, j: int| 0 <= j < idx.reads_spec(d).len() ==> (#[trigger] idx.reads_spec(d)[j]).0 < i,
                forall|d: u32, j: int| 0 <= j < idx.writes_spec(d).len() ==> (#[trigger] idx.writes_spec(d)[j]).0 < i,
                forall|s: u32| #[trigger] idx.site_map().contains_key(s) ==> s < i,
                extends_map(old(idx).decl_map(), idx.decl_map()),
                forall|t: int| 0 <= t < i && #[trigger] direct_site(*self, old(idx).decl_map(), t)
                    ==> site_recorded(*self, old(idx).decl_map(), *idx, t),
            decreases n - i,
        {
            let term = &self.terms[i];
            let is_read = matches!(term.op, TermOp::CellRead);
            let is_write = matches!(term.op, TermOp::CellWrite);
            let is_closure = matches!(term.op, TermOp::MakeClosure(_));
            if is_read || is_write || is_closure {
                let ins = inputs_of(&term.inputs);
                let limit: usize = if is_closure { ins.len() } else if ins.len() > 0 { 1 } else { 0 };
                let mut pos: usize = 0;
                proof {
                    assert(self.terms@[i as int].id.0 == i);
                }
                while pos < limit
                    invariant
                        n == self.terms@.len(),
                        i < n,
                        self.wf(),
                        *term == self.terms@[i as int],
                        ins@ == input_items(term.inputs),
                        limit <= ins@.len(),
                        is_read == (term.op is CellRead),
                        is_write == (term.op is CellWrite),
                        is_closure == (term.op is MakeClosure),
                        term.id.0 == i,
                        !is_closure ==> limit <= 1,
                        is_read ==> !is_write,
                        pos <= limit,
                        idx.within(n as nat),
                        resolves_to_decls(*idx),
                        decls_indexed(*self, *idx, n as int),
                        idx.decls@ == old(idx).decls@,
                        idx.dispatch@ == old(idx).dispatch@,
                        idx.host_writable@ == old(idx).host_writable@,
                        idx.var_name@ == old(idx).var_name@,
                        closures_within(closures@, n as nat),
                        sites_indexed(*self, *idx, (i + 1) as int),
                        forall|d: u32, j: int| 0 <= j < idx.reads_spec(d).len()
                            ==> (#[trigger] idx.reads_spec(d)[j]).0 < i + 1,
                        forall|d: u32, j: int| 0 <= j < idx.writes_spec(d).len()
                            ==> (#[trigger] idx.writes_spec(d)[j]).0 < i + 1,
                        pos == 0 ==> forall|d: u32, j: int| 0 <= j < idx.reads_spec(d).len()
                            ==> (#[trigger] idx.reads_spec(d)[j]).0 < i,
                        pos == 0 ==> forall|d: u32, j: int| 0 <= j < idx.writes_spec(d).len()
                            ==> (#[trigger] idx.writes_spec(d)[j]).0 < i,
                        forall|s: u32| #[trigger] idx.site_map().contains_key(s) ==> s < i + 1,
                        extends_map(old(idx).decl_map(), idx.decl_map()),
                        forall|t: int| 0 <= t < i && #[trigger] direct_site(*self, old(idx).decl_map(), t)
                            ==> site_recorded(*self, old(idx).decl_map(), *idx, t),
                        pos > 0 && direct_site(*self, old(idx).decl_map(), i as int)
                            ==> site_recorded(*self, old(idx).decl_map(), *idx, i as int),
                        (is_read || is_write) ==> limit == (if ins@.len() > 0 { 1usize } else { 0usize }),
                    decreases limit - pos,
                {
                    let operand = ins[pos];
                    proof {
                        assert(input_items(self.terms@[i as int].inputs)[pos as int] == operand);
                    }
                    match self.resolve_cell_operand(idx, closures, operand, 0) {
                        Some(decl) => {
                            let ghost before = *idx;
                            idx.decl_of.insert(operand.0, decl);
                            idx.site_decl.insert(term.id.0, decl);
                            if is_read {
                                push_under(&mut idx.reads, decl.0, term.id);
                            } else if is_write {
                                push_under(&mut idx.writes, decl.0, term.id);
                            }
                            proof {
                                assert(before.decl_list().contains(decl));
                                assert(decl.0 < n);
                                lemma_decl_map_extend(*self, before, *idx, operand, decl);
                                lemma_sites_extend(*self, before, *idx, i as int, operand, decl, is_read, is_write, pos as int);
                                assert forall|s: u32| #[trigger] idx.site_map().contains_key(s) implies s < i + 1 by {
                                    if s != i as u32 {
                                        assert(before.site_map().contains_key(s));
                                    }
                                }
                                let om = old(idx).decl_map();
                                assert forall|k: u32| #[trigger] om.contains_key(k) implies idx.decl_map().contains_key(k)
                                    && idx.decl_map()[k] == om[k] by {
                                    assert(before.decl_map().contains_key(k));
                                }
                                assert(forall|d: u32| d != decl.0 || !is_read ==> #[trigger] idx.reads_spec(d) == before.reads_spec(d));
                                assert(is_read ==> idx.reads_spec(decl.0) == before.reads_spec(decl.0).push(TermId(i as u32)));
                                assert(forall|d: u32| d != decl.0 || !is_write ==> #[trigger] idx.writes_spec(d) == before.writes_spec(d));
                                assert(is_write ==> idx.writes_spec(decl.0) == before.writes_spec(decl.0).push(TermId(i as u32)));
                                assert forall|t: int| 0 <= t < i && #[trigger] direct_site(*self, om, t)
                                    implies site_recorded(*self, om, *idx, t) by {
                                    assert(site_recorded(*self, om, before, t));
                                    let d = om[self.inputs_spec(t)[0].0];
                                    if self.terms@[t].op is CellRead {
                                        let rs = before.reads_spec(d.0);
                                        let j = choose|j: int| 0 <= j < rs.len() && rs[j] == TermId(t as u32);
                                        if is_read && d.0 == decl.0 {
                                            assert(idx.reads_spec(d.0)[j] == TermId(t as u32));
                                        }
                                    }
                                    if self.terms@[t].op is CellWrite {
                                        let ws = before.writes_spec(d.0);
                                        let j = choose|j: int| 0 <= j < ws.len() && ws[j] == TermId(t as u32);
                                        if is_write && d.0 == decl.0 {
                                            assert(idx.writes_spec(d.0)[j] == TermId(t as u32));
                                        }
                                    }
                                }
                                if pos == 0 && direct_site(*self, om, i as int) {
                                    assert(operand == self.inputs_spec(i as int)[0]);
                                    assert(before.decl_map().contains_key(operand.0));
                                    assert(decl == om[operand.0]);
                                    if is_read {
                                        assert(idx.reads_spec(decl.0)[before.reads_spec(decl.0).len() as int] == TermId(i as u32));
                                    }
                                    if is_write {
                                        assert(idx.writes_spec(decl.0)[before.writes_spec(decl.0).len() as int] == TermId(i as u32));
                                    }
                                    assert(site_recorded(*self, om, *idx, i as int));
                                }
                            }
                        },
                        None => {
                            proof {
                                if pos == 0 && direct_site(*self, old(idx).decl_map(), i as int) {
                                    assert(operand == self.inputs_spec(i as int)[0]);
                                    assert(idx.decl_map().contains_key(operand.0));
                                }
                            }
                        },
                    }
                    pos = pos + 1;
                }
            } else {
                proof {
                    assert(sites_indexed(*self, *idx, (i + 1) as int));
                }
            }
            proof {
                assert(!direct_site(*self, old(idx).decl_map(), i as int) || (is_read || is_write));
            }
            i = i + 1;
        }
    }
}

/// Adding a resolution that agrees with what the index already holds keeps
/// what it says of the declarations.
proof fn lemma_decl_map_extend(p: Program, before: CellIndex, after: CellIndex, operand: TermId, decl: TermId)
    requires
        decls_indexed(p, before, p.terms@.len() as int),
        resolves_to_decls(before),
        before.decl_list().contains(decl),
        before.decl_map().contains_key(operand.0) ==> before.decl_map()[operand.0] == decl,
        after.decl_map() == before.decl_map().insert(operand.0, decl),
        after.decl_list() == before.decl_list(),
        forall|d: u32| #[trigger] after.host_writable_spec(d) == before.host_writable_spec(d),
        forall|d: u32| #[trigger] after.var_name_spec(d) == before.var_name_spec(d),
    ensures
        decls_indexed(p, after, p.terms@.len() as int),
        resolves_to_decls(after),
{
    let n = p.terms@.len() as int;
    assert forall|t: int| 0 <= t < n && (#[trigger] p.terms@[t]).op is CellNew implies {
        &&& after.decl_map().contains_key(t as u32)
        &&& after.decl_map()[t as u32] == owner_of(p, t)
        &&& after.decl_map().contains_key(owner_of(p, t).0)
        &&& after.decl_map()[owner_of(p, t).0] == owner_of(p, t)
    } by {
        assert(before.decl_map().contains_key(t as u32));
        assert(before.decl_map().contains_key(owner_of(p, t).0));
    }
    assert forall|k: u32| #[trigger] after.decl_map().contains_key(k) implies after.decl_list().contains(after.decl_map()[k]) by {
        if k != operand.0 {
            assert(before.decl_map().contains_key(k));
        }
    }
}

/// Recording one resolved cell operand of term `i` keeps what the index
/// says of the sites among the first `i + 1` terms.
proof fn lemma_sites_extend(
    p: Program,
    before: CellIndex,
    after: CellIndex,
    i: int,
    operand: TermId,
    decl: TermId,
    is_read: bool,
    is_write: bool,
    pos: int,
)
    requires
        p.wf(),
        0 <= i < p.terms@.len(),
        sites_indexed(p, before, i + 1),
        before.decl_list().contains(decl),
        before.decl_map().contains_key(operand.0) ==> before.decl_map()[operand.0] == decl,
        after.decl_map() == before.decl_map().insert(operand.0, decl),
        after.site_map() == before.site_map().insert(i as u32, decl),
        after.decl_list() == before.decl_list(),
        is_read == (p.terms@[i].op is CellRead),
        is_write == (p.terms@[i].op is CellWrite),
        (is_read || is_write) ==> pos == 0 && operand == p.inputs_spec(i)[0],
        (is_read || is_write) ==> forall|d: u32, j: int| 0 <= j < before.reads_spec(d).len()
            ==> (#[trigger] before.reads_spec(d)[j]).0 < i,
        (is_read || is_write) ==> forall|d: u32, j: int| 0 <= j < before.writes_spec(d).len()
            ==> (#[trigger] before.writes_spec(d)[j]).0 < i,
        forall|d: u32| d != decl.0 || !is_read ==> #[trigger] after.reads_spec(d) == before.reads_spec(d),
        is_read ==> after.reads_spec(decl.0) == before.reads_spec(decl.0).push(TermId(i as u32)),
        forall|d: u32| d != decl.0 || !is_write ==> #[trigger] after.writes_spec(d) == before.writes_spec(d),
        is_write ==> after.writes_spec(decl.0) == before.writes_spec(decl.0).push(TermId(i as u32)),
    ensures
        sites_indexed(p, after, i + 1),
{
    assert forall|d: u32, j: int| 0 <= j < after.reads_spec(d).len() implies {
        let r = #[trigger] after.reads_spec(d)[j];
        &&& r.0 < i + 1
        &&& p.terms@[r.0 as int].op is CellRead
        &&& after.decl_map().contains_key(p.inputs_spec(r.0 as int)[0].0)
        &&& after.decl_map()[p.inputs_spec(r.0 as int)[0].0] == TermId(d)
        &&& after.site_map().contains_key(r.0)
        &&& after.site_map()[r.0] == TermId(d)
    } by {
        let r = after.reads_spec(d)[j];
        if is_read && d == decl.0 && j == before.reads_spec(d).len() {
            assert(r == TermId(i as u32));
            assert(TermId(d) == decl);
        } else {
            assert(r == before.reads_spec(d)[j]);
            assert(r.0 != i);
        }
    }
    assert forall|d: u32, j: int| 0 <= j < after.writes_spec(d).len() implies {
        let w = #[trigger] after.writes_spec(d)[j];
        &&& w.0 < i + 1
        &&& p.terms@[w.0 as int].op is CellWrite
        &&& after.decl_map().contains_key(p.inputs_spec(w.0 as int)[0].0)
        &&& after.decl_map()[p.inputs_spec(w.0 as int)[0].0] == TermId(d)
        &&& after.site_map().contains_key(w.0)
        &&& after.site_map()[w.0] == TermId(d)
    } by {
        let w = after.writes_spec(d)[j];
        if is_write && d == decl.0 && j == before.writes_spec(d).len() {
            assert(w == TermId(i as u32));
            assert(TermId(d) == decl);
        } else {
            assert(w == before.writes_spec(d)[j]);
            assert(w.0 != i);
        }
    }
    assert forall|d: u32, j: int, k: int| 0 <= j < k < after.reads_spec(d).len()
        implies (#[trigger] after.reads_spec(d)[j]).0 < (#[trigger] after.reads_spec(d)[k]).0 by {
        if is_read && d == decl.0 && k == before.reads_spec(d).len() {
            assert(after.reads_spec(d)[j] == before.reads_spec(d)[j]);
        } else {
            assert(after.reads_spec(d)[j] == before.reads_spec(d)[j]);
            assert(after.reads_spec(d)[k] == before.reads_spec(d)[k]);
        }
    }
    assert forall|d: u32, j: int, k: int| 0 <= j < k < after.writes_spec(d).len()
        implies (#[trigger] after.writes_spec(d)[j]).0 < (#[trigger] after.writes_spec(d)[k]).0 by {
        if is_write && d == decl.0 && k == before.writes_spec(d).len() {
            assert(after.writes_spec(d)[j] == before.writes_spec(d)[j]);
        } else {
            assert(after.writes_spec(d)[j] == before.writes_spec(d)[j]);
            assert(after.writes_spec(d)[k] == before.writes_spec(d)[k]);
        }
    }
    assert forall|s: u32| #[trigger] after.site_map().contains_key(s) implies after.decl_list().contains(after.site_map()[s]) by {
        if s != i as u32 {
            assert(before.site_map().contains_key(s));
        }
    }
}

impl Program {
    /// Index every cell declaration and the reads and writes that reach it:
    /// one pass for the declarations (a `CellNew`, or the `StateInit` that
    /// owns it for a `state var`), then one pass attaching every read, write
    /// and closure capture to the declaration its cell operand resolves to.
    pub fn cell_index(&self) -> (idx: CellIndex)
        requires
            self.wf(),
        ensures
            idx.within(self.terms@.len()),
            resolves_to_decls(idx),
            decls_indexed(*self, idx, self.terms@.len() as int),
            sites_indexed(*self, idx, self.terms@.len() as int),
            forall|c: u32| #[trigger] idx.dispatch_spec(c) == dispatch_of(*self, c),
            forall|t: int| 0 <= t < self.terms@.len() && #[trigger] uses_new_cell(*self, t) ==> {
                let d = owner_of(*self, self.inputs_spec(t)[0].0 as int);
                &&& idx.site_map().contains_key(t as u32)
                &&& idx.site_map()[t as u32] == d
                &&& self.terms@[t].op is CellRead ==> idx.reads_spec(d.0).contains(TermId(t as u32))
                &&& self.terms@[t].op is CellWrite ==> idx.writes_spec(d.0).contains(TermId(t as u32))
            },
    {
        let mut idx = self.index_decls();
        let ghost first = idx;
        let closures = self.closures_by_function();
        self.index_uses(&mut idx, &closures);
        proof {
            assert forall|t: int| 0 <= t < self.terms@.len() && #[trigger] uses_new_cell(*self, t) implies {
                let d = owner_of(*self, self.inputs_spec(t)[0].0 as int);
                &&& idx.site_map().contains_key(t as u32)
                &&& idx.site_map()[t as u32] == d
                &&& self.terms@[t].op is CellRead ==> idx.reads_spec(d.0).contains(TermId(t as u32))
                &&& self.terms@[t].op is CellWrite ==> idx.writes_spec(d.0).contains(TermId(t as u32))
            } by {
                let c = self.inputs_spec(t)[0].0 as int;
                assert(c < self.terms@.len());
                assert(self.terms@[c].op is CellNew);
                assert(first.decl_map().contains_key(c as u32));
                assert(direct_site(*self, first.decl_map(), t));
                assert(site_recorded(*self, first.decl_map(), idx, t));
            }
        }
        idx
    }
}

impl Default for CellIndex {
    fn default() -> (idx: CellIndex)
        ensures
            idx.decl_map() == Map::<u32, TermId>::empty(),
            idx.decl_list().len() == 0,
            idx.site_map() == Map::<u32, TermId>::empty(),
            forall|d: u32| #[trigger] idx.reads_spec(d).len() == 0 && idx.writes_spec(d).len() == 0,
            forall|d: u32| !(#[trigger] idx.host_writable_spec(d)) && idx.var_name_spec(d) is None,
            forall|c: u32| #[trigger] idx.dispatch_spec(c).len() == 0,
    {
        CellIndex {
            decl_of: HashMap::new(),
            reads: HashMap::new(),
            writes: HashMap::new(),
            host_writable: HashMap::new(),
            var_name: HashMap::new(),
            decls: Vec::new(),
            site_decl: HashMap::new(),
            dispatch: HashMap::new(),
        }
    }
}

// ---------------------------------------------------------------------------
// The backward walk
// ---------------------------------------------------------------------------

/// The sources of the first `k` phi-outs of `outs` that target `t`.
pub open spec fn phi_in_outs(outs: Seq<crate::program::PhiOut>, t: TermId, k: int) -> Seq<TermId>
    decreases k,
{
    if k <= 0 {
        seq![]
    } else {
        phi_in_outs(outs, t, k - 1) + if outs[k - 1].dest_term == t { seq![outs[k - 1].src_term] } else { seq![] }
    }
}

/// The sources of every phi-out of the first `nb` blocks that targets `t`,
/// block by block.
pub open spec fn phi_sources_upto(p: Program, t: TermId, nb: int) -> Seq<TermId>
    decreases nb,
{
    if nb <= 0 {
        seq![]
    } else {
        phi_sources_upto(p, t, nb - 1) + phi_in_outs(p.blocks@[nb - 1].phi_outs@, t, p.blocks@[nb - 1].phi_outs@.len() as int)
    }
}

/// The rebind candidates that update phi term `t`'s register when a child
/// frame pops: the ancestors of a phi beyond its inputs.
pub open spec fn phi_sources_spec(p: Program, t: TermId) -> Seq<TermId> {
    phi_sources_upto(p, t, p.blocks@.len() as int)
}

/// The terms a backward walk steps to from `t`: its value inputs, and for
/// a phi its rebind sources.
pub open spec fn preds(p: Program, idx: CellIndex, t: TermId) -> Seq<TermId> {
    let term = p.terms@[t.0 as int];
    idx.value_inputs_spec(term.op, input_items(term.inputs)) + if term.op is Phi {
        phi_sources_spec(p, t)
    } else {
        seq![]
    }
}

/// Whether `s` holds every term a backward walk from `root` steps to, and
/// every term it steps to from any of them.
pub open spec fn closed_set(p: Program, idx: CellIndex, root: TermId, s: Set<TermId>) -> bool {
    &&& forall|j: int| 0 <= j < preds(p, idx, root).len() ==> s.contains(#[trigger] preds(p, idx, root)[j])
    &&& forall|y: TermId, j: int| #![trigger s.contains(y), preds(p, idx, y)[j]]
        s.contains(y) && 0 <= j < preds(p, idx, y).len() ==> s.contains(preds(p, idx, y)[j])
}

/// The edges `(x, y)` for each `x` of `xs`, in order.
pub open spec fn edges_into(xs: Seq<TermId>, y: TermId) -> Seq<(TermId, TermId)> {
    xs.map_values(|x: TermId| (x, y))
}

/// The edges a walk records visiting `order`: each term's steps, in turn.
pub open spec fn walk_edges(p: Program, idx: CellIndex, order: Seq<TermId>) -> Seq<(TermId, TermId)>
    decreases order.len(),
{
    if order.len() == 0 {
        seq![]
    } else {
        walk_edges(p, idx, order.drop_last()) + edges_into(preds(p, idx, order.last()), order.last())
    }
}

/// A term whose visit stops at no cell: a write, or a term with no cell
/// operand.
pub open spec fn quiet(p: Program, idx: CellIndex, y: TermId) -> bool {
    let term = p.terms@[y.0 as int];
    term.op is CellWrite || idx.cell_operands_spec(term.op, input_items(term.inputs)).len() == 0
}

/// `f` records a stop at one of the cell operands of `y`, which is not a
/// write.
pub open spec fn stop_at(p: Program, idx: CellIndex, f: CellFrontier, y: TermId) -> bool {
    let term = p.terms@[y.0 as int];
    let ops = idx.cell_operands_spec(term.op, input_items(term.inputs));
    &&& !(term.op is CellWrite)
    &&& exists|o: int| 0 <= o < ops.len() && #[trigger] frontier_is(f, idx, y, ops[o], term.op is MakeClosure)
}

/// `visited` marks exactly the terms of `order`, which holds distinct terms
/// of `p`.
pub open spec fn marks(visited: Seq<bool>, order: Seq<TermId>, n: int) -> bool {
    &&& visited.len() == n
    &&& n <= u32::MAX
    &&& order.no_duplicates()
    &&& forall|k: int| 0 <= k < order.len() ==> (#[trigger] order[k]).0 < n
    &&& forall|x: int| 0 <= x < n ==> (#[trigger] visited[x] <==> order.contains(TermId(x as u32)))
}

proof fn lemma_distinct_terms_fit(s: Seq<TermId>, n: int)
    requires
        0 <= n,
        s.no_duplicates(),
        forall|k: int| 0 <= k < s.len() ==> (#[trigger] s[k]).0 < n,
    ensures
        s.len() <= n,
{
    let m = s.map_values(|t: TermId| t.0 as int);
    assert(m.no_duplicates()) by {
        assert forall|i: int, j: int| 0 <= i < m.len() && 0 <= j < m.len() && i != j implies m[i] != m[j] by {
            assert(s[i] != s[j]);
        }
    }
    m.unique_seq_to_set();
    vstd::set_lib::lemma_int_range(0, n);
    assert(m.to_set().subset_of(vstd::set_lib::set_int_range(0, n))) by {
        assert forall|v: int| m.to_set().contains(v) implies vstd::set_lib::set_int_range(0, n).contains(v) by {
            let k = choose|k: int| 0 <= k < m.len() && m[k] == v;
            assert(s[k].0 < n);
        }
    }
    vstd::set_lib::lemma_len_subset(m.to_set(), vstd::set_lib::set_int_range(0, n));
}

/// Record the edge `(x, y)` for each `x` of `xs`, and queue each `x` not yet
/// visited.
fn visit_all(
    xs: &Vec<TermId>,
    y: TermId,
    n: usize,
    visited: &mut Vec<bool>,
    order: &mut Vec<TermId>,
    edges: &mut Vec<(TermId, TermId)>,
)
    requires
        marks(old(visited)@, old(order)@, n as int),
        forall|j: int| 0 <= j < xs@.len() ==> (#[trigger] xs@[j]).0 < n,
    ensures
        marks(final(visited)@, final(order)@, n as int),
        final(edges)@ == old(edges)@ + edges_into(xs@, y),
        final(order)@.len() >= old(order)@.len(),
        final(order)@.take(old(order)@.len() as int) == old(order)@,
        forall|j: int| 0 <= j < xs@.len() ==> final(order)@.contains(#[trigger] xs@[j]),
        forall|k: int| old(order)@.len() <= k < final(order)@.len() ==> xs@.contains(#[trigger] final(order)@[k]),
{
    let ghost order0 = order@;
    let ghost edges0 = edges@;
    let mut j: usize = 0;
    while j < xs.len()
        invariant
            j <= xs@.len(),
            marks(visited@, order@, n as int),
            forall|k: int| 0 <= k < xs@.len() ==> (#[trigger] xs@[k]).0 < n,
            edges@ == edges0 + edges_into(xs@.take(j as int), y),
            order@.len() >= order0.len(),
            order@.take(order0.len() as int) == order0,
            forall|k: int| 0 <= k < j ==> order@.contains(#[trigger] xs@[k]),
            forall|k: int| order0.len() <= k < order@.len() ==> xs@.contains(#[trigger] order@[k]),
        decreases xs@.len() - j,
    {
        let x = xs[j];
        edges.push((x, y));
        proof {
            assert(edges_into(xs@.take((j + 1) as int), y) =~= edges_into(xs@.take(j as int), y).push((x, y)));
        }
        let ghost before = order@;
        if !visited[x.0 as usize] {
            visited.set(x.0 as usize, true);
            order.push(x);
            proof {
                assert(TermId(x.0 as u32) == x);
                assert forall|z: TermId| #[trigger] order@.contains(z) <==> (before.contains(z) || z == x) by {
                    lemma_push_contains(before, x, z);
                }
                assert(order@.no_duplicates()) by {
                    assert(!before.contains(x));
                    assert forall|a: int, b: int| 0 <= a < order@.len() && 0 <= b < order@.len() && a != b
                        implies order@[a] != order@[b] by {
                        if a == before.len() {
                            assert(!before.contains(order@[b]) || b != before.len());
                            assert(order@[b] == before[b]);
                        } else if b == before.len() {
                            assert(order@[a] == before[a]);
                        } else {
                            assert(order@[a] == before[a]);
                            assert(order@[b] == before[b]);
                        }
                    }
                }
                assert forall|k: int| 0 <= k < order@.len() implies (#[trigger] order@[k]).0 < n by {
                    if k < before.len() {
                        assert(order@[k] == before[k]);
                    }
                }
                assert forall|z: int| 0 <= z < n implies (#[trigger] visited@[z] <==> order@.contains(TermId(z as u32))) by {
                    if z == x.0 {
                        assert(TermId(z as u32) == x);
                    } else {
                        assert(TermId(z as u32) != x);
                    }
                }
                assert(order@.take(order0.len() as int) =~= before.take(order0.len() as int));
                assert forall|k: int| 0 <= k < j + 1 implies order@.contains(#[trigger] xs@[k]) by {
                    if k < j {
                        assert(before.contains(xs@[k]));
                    }
                }
                assert forall|k: int| order0.len() <= k < order@.len() implies xs@.contains(#[trigger] order@[k]) by {
                    if k < before.len() {
                        assert(order@[k] == before[k]);
                    } else {
                        assert(order@[k] == xs@[j as int]);
                    }
                }
            }
        } else {
            proof {
                assert(TermId(x.0 as u32) == x);
                assert(order@.contains(x));
            }
        }
        j = j + 1;
    }
    proof {
        assert(xs@.take(xs@.len() as int) == xs@);
    }
}

/// Whether `v` holds the pair `(a, b)`.
fn contains_pair(v: &Vec<(TermId, TermId)>, a: TermId, b: TermId) -> (r: bool)
    ensures
        r == v@.contains((a, b)),
{
    let mut i: usize = 0;
    while i < v.len()
        invariant
            i <= v@.len(),
            forall|k: int| 0 <= k < i ==> v@[k] != (a, b),
        decreases v@.len() - i,
    {
        if v[i].0.0 == a.0 && v[i].1.0 == b.0 {
            proof {
                assert(v@[i as int] == (a, b));
            }
            return true;
        }
        i = i + 1;
    }
    false
}

impl Program {
    /// Every `src_term` of a phi-out, in any block, whose `dest_term` is `t`.
    fn phi_sources(&self, t: TermId) -> (r: Vec<TermId>)
        requires
            self.wf(),
        ensures
            r@ == phi_sources_spec(*self, t),
            forall|j: int| 0 <= j < r@.len() ==> (#[trigger] r@[j]).0 < self.terms@.len(),
    {
        let mut out: Vec<TermId> = Vec::new();
        let mut b: usize = 0;
        while b < self.blocks.len()
            invariant
                b <= self.blocks@.len(),
                self.wf(),
                out@ == phi_sources_upto(*self, t, b as int),
                forall|j: int| 0 <= j < out@.len() ==> (#[trigger] out@[j]).0 < self.terms@.len(),
            decreases self.blocks@.len() - b,
        {
            let outs = &self.blocks[b].phi_outs;
            let ghost before = out@;
            let mut k: usize = 0;
            while k < outs.len()
                invariant
                    k <= outs@.len(),
                    self.wf(),
                    b < self.blocks@.len(),
                    *outs == self.blocks@[b as int].phi_outs,
                    out@ == before + phi_in_outs(outs@, t, k as int),
                    forall|j: int| 0 <= j < out@.len() ==> (#[trigger] out@[j]).0 < self.terms@.len(),
                decreases outs@.len() - k,
            {
                let po = outs[k];
                if po.dest_term.0 == t.0 {
                    out.push(po.src_term);
                    proof {
                        assert(self.blocks@[b as int].phi_outs@[k as int] == po);
                        assert(po.dest_term == t);
                    }
                } else {
                    proof {
                        assert(po.dest_term != t);
                    }
                }
                proof {
                    assert(before + phi_in_outs(outs@, t, (k + 1) as int) =~= out@);
                }
                k = k + 1;
            }
            b = b + 1;
        }
        out
    }

    /// Visit `y`: record an edge from each term the walk steps to, queue the
    /// unvisited ones, and, unless `y` is a write, record a stop at each of
    /// its cell operands not stopped at before. A `CellWrite`'s value chain
    /// is at its value operand, so nothing about the answer is missing there.
    fn push_term_inputs(
        &self,
        index: &CellIndex,
        y: TermId,
        visited: &mut Vec<bool>,
        order: &mut Vec<TermId>,
        edges: &mut Vec<(TermId, TermId)>,
        frontier: &mut Vec<CellFrontier>,
        stopped: &mut Vec<(TermId, TermId)>,
    )
        requires
            self.wf(),
            index.within(self.terms@.len()),
            y.0 < self.terms@.len(),
            marks(old(visited)@, old(order)@, self.terms@.len() as int),
            old(stopped)@.len() == old(frontier)@.len(),
            forall|k: int| 0 <= k < old(stopped)@.len() ==> (#[trigger] old(stopped)@[k]).0 == old(frontier)@[k].read_term,
        ensures
            forall|k: int| 0 <= k < final(stopped)@.len() ==> (#[trigger] final(stopped)@[k]).0 == final(frontier)@[k].read_term,
            !quiet(*self, *index, y) ==> exists|k: int| 0 <= k < final(frontier)@.len() && (#[trigger] final(frontier)@[k]).read_term == y,
            marks(final(visited)@, final(order)@, self.terms@.len() as int),
            final(edges)@ == old(edges)@ + edges_into(preds(*self, *index, y), y),
            final(order)@.len() >= old(order)@.len(),
            final(order)@.take(old(order)@.len() as int) == old(order)@,
            forall|j: int| 0 <= j < preds(*self, *index, y).len()
                ==> final(order)@.contains(#[trigger] preds(*self, *index, y)[j]),
            forall|k: int| old(order)@.len() <= k < final(order)@.len()
                ==> preds(*self, *index, y).contains(#[trigger] final(order)@[k]),
            final(stopped)@.len() == final(frontier)@.len(),
            final(frontier)@.len() >= old(frontier)@.len(),
            final(frontier)@.take(old(frontier)@.len() as int) == old(frontier)@,
            forall|k: int| old(frontier)@.len() <= k < final(frontier)@.len()
                ==> (#[trigger] final(frontier)@[k]).read_term == y && stop_at(*self, *index, final(frontier)@[k], y),
            !quiet(*self, *index, y) ==> final(frontier)@.len() > 0,
            quiet(*self, *index, y) ==> final(frontier)@ == old(frontier)@,
    {
        let n = self.terms.len();
        let term = self.get_term(y);
        let mut xs = index.value_inputs(term);
        if matches!(term.op, TermOp::Phi) {
            let mut srcs = self.phi_sources(y);
            xs.append(&mut srcs);
        }
        proof {
            assert(xs@ == preds(*self, *index, y));
            assert forall|j: int| 0 <= j < xs@.len() implies (#[trigger] xs@[j]).0 < n by {
                lemma_preds_within(*self, *index, y, j);
            }
        }
        visit_all(&xs, y, n, visited, order, edges);
        let ghost frontier0 = frontier@;
        if !matches!(term.op, TermOp::CellWrite) {
            let ops = index.cell_operands(term);
            let captured = matches!(term.op, TermOp::MakeClosure(_));
            let mut k: usize = 0;
            while k < ops.len()
                invariant
                    k <= ops@.len(),
                    *term == self.terms@[y.0 as int],
                    !(term.op is CellWrite),
                    captured == (term.op is MakeClosure),
                    ops@ == index.cell_operands_spec(term.op, input_items(term.inputs)),
                    stopped@.len() == frontier@.len(),
                    frontier@.len() >= frontier0.len(),
                    frontier@.take(frontier0.len() as int) == frontier0,
                    forall|j: int| frontier0.len() <= j < frontier@.len()
                        ==> (#[trigger] frontier@[j]).read_term == y && stop_at(*self, *index, frontier@[j], y),
                    k > 0 ==> frontier@.len() > 0,
                    k == 0 ==> frontier@ == frontier0,
                    forall|m: int| 0 <= m < stopped@.len() ==> (#[trigger] stopped@[m]).0 == frontier@[m].read_term,
                    k > 0 ==> exists|m: int| 0 <= m < frontier@.len() && (#[trigger] frontier@[m]).read_term == y,
                decreases ops@.len() - k,
            {
                let o = ops[k];
                if !contains_pair(stopped, y, o) {
                    let ghost sb = stopped@;
                    stopped.push((y, o));
                    let f = index.frontier_for(y, o, captured);
                    let ghost fb = frontier@;
                    frontier.push(f);
                    proof {
                        assert forall|m: int| 0 <= m < stopped@.len() implies (#[trigger] stopped@[m]).0 == frontier@[m].read_term by {
                            if m < sb.len() {
                                assert(stopped@[m] == sb[m]);
                                assert(frontier@[m] == fb[m]);
                            }
                        }
                        assert(frontier@[frontier@.len() - 1].read_term == y);
                        assert(frontier_is(f, *index, y, ops@[k as int], term.op is MakeClosure));
                        assert(stop_at(*self, *index, f, y));
                        assert(frontier@.take(frontier0.len() as int) =~= fb.take(frontier0.len() as int));
                        assert forall|j: int| frontier0.len() <= j < frontier@.len()
                            implies (#[trigger] frontier@[j]).read_term == y && stop_at(*self, *index, frontier@[j], y) by {
                            if j < fb.len() {
                                assert(frontier@[j] == fb[j]);
                            }
                        }
                    }
                } else {
                    proof {
                        assert(stopped@.len() > 0);
                        let m = choose|m: int| 0 <= m < stopped@.len() && stopped@[m] == (y, o);
                        assert(frontier@[m].read_term == y);
                    }
                }
                k = k + 1;
            }
        }
    }
}

/// Every term a walk steps to is one of the program's.
proof fn lemma_preds_within(p: Program, idx: CellIndex, y: TermId, j: int)
    requires
        p.wf(),
        idx.within(p.terms@.len()),
        y.0 < p.terms@.len(),
        0 <= j < preds(p, idx, y).len(),
    ensures
        preds(p, idx, y)[j].0 < p.terms@.len(),
{
    let term = p.terms@[y.0 as int];
    let ins = input_items(term.inputs);
    let vi = idx.value_inputs_spec(term.op, ins);
    let kept = inputs_where(idx.decl_map(), term.op, ins, ins.len() as int, false);
    if j < vi.len() {
        assert(preds(p, idx, y)[j] == vi[j]);
        if j < kept.len() {
            lemma_inputs_where_from(idx.decl_map(), term.op, ins, ins.len() as int, false, j);
            let k = choose|k: int| 0 <= k < ins.len() && ins[k] == kept[j];
            assert(ins[k].0 < p.terms@.len());
        } else {
            assert(vi[j] == idx.dispatch_inputs_spec(term.op)[j - kept.len()]);
        }
    } else {
        let ps = phi_sources_spec(p, y);
        assert(preds(p, idx, y)[j] == ps[j - vi.len()]);
        lemma_phi_within(p, y, p.blocks@.len() as int, j - vi.len());
    }
}

/// Every input an `inputs_where` keeps is one of the inputs.
proof fn lemma_inputs_where_from(decl_of: Map<u32, TermId>, op: TermOp, ins: Seq<TermId>, n: int, want: bool, j: int)
    requires
        0 <= n <= ins.len(),
        0 <= j < inputs_where(decl_of, op, ins, n, want).len(),
    ensures
        exists|k: int| 0 <= k < ins.len() && ins[k] == inputs_where(decl_of, op, ins, n, want)[j],
    decreases n,
{
    let before = inputs_where(decl_of, op, ins, n - 1, want);
    if j < before.len() {
        lemma_inputs_where_from(decl_of, op, ins, n - 1, want, j);
        assert(inputs_where(decl_of, op, ins, n, want)[j] == before[j]);
    } else {
        assert(inputs_where(decl_of, op, ins, n, want)[j] == ins[n - 1]);
    }
}

/// Every phi source is one of the program's terms.
proof fn lemma_phi_within(p: Program, t: TermId, nb: int, j: int)
    requires
        p.wf(),
        0 <= nb <= p.blocks@.len(),
        0 <= j < phi_sources_upto(p, t, nb).len(),
    ensures
        phi_sources_upto(p, t, nb)[j].0 < p.terms@.len(),
    decreases nb,
{
    let before = phi_sources_upto(p, t, nb - 1);
    if j < before.len() {
        lemma_phi_within(p, t, nb - 1, j);
        assert(phi_sources_upto(p, t, nb)[j] == before[j]);
    } else {
        let outs = p.blocks@[nb - 1].phi_outs@;
        lemma_phi_outs_within(p, nb - 1, t, outs.len() as int, j - before.len());
        assert(phi_sources_upto(p, t, nb)[j] == phi_in_outs(outs, t, outs.len() as int)[j - before.len()]);
    }
}

proof fn lemma_phi_outs_within(p: Program, b: int, t: TermId, k: int, j: int)
    requires
        p.wf(),
        0 <= b < p.blocks@.len(),
        0 <= k <= p.blocks@[b].phi_outs@.len(),
        0 <= j < phi_in_outs(p.blocks@[b].phi_outs@, t, k).len(),
    ensures
        phi_in_outs(p.blocks@[b].phi_outs@, t, k)[j].0 < p.terms@.len(),
    decreases k,
{
    let outs = p.blocks@[b].phi_outs@;
    let before = phi_in_outs(outs, t, k - 1);
    if j < before.len() {
        lemma_phi_outs_within(p, b, t, k - 1, j);
        assert(phi_in_outs(outs, t, k)[j] == before[j]);
    } else {
        assert(phi_in_outs(outs, t, k)[j] == outs[k - 1].src_term);
    }
}

/// What a backward walk from `root` answers: its ancestors are exactly the
/// terms reachable by one or more steps (the least set closed under
/// stepping), each once; its edges are each visited term's steps, root
/// first; and its frontier is empty exactly when no visited term stops at a
/// cell, each entry recording a stop at a visited term.
pub open spec fn provenance_of(p: Program, idx: CellIndex, root: TermId, r: Provenance) -> bool {
    let anc = r.ancestors@;
    let visited = seq![root] + anc;
    &&& anc.no_duplicates()
    &&& closed_set(p, idx, root, anc.to_set())
    &&& forall|s: Set<TermId>| #[trigger] closed_set(p, idx, root, s) ==> anc.to_set().subset_of(s)
    &&& r.edges@ == walk_edges(p, idx, visited)
    &&& (r.frontier@.len() == 0 <==> forall|k: int| 0 <= k < visited.len() ==> quiet(p, idx, #[trigger] visited[k]))
    &&& forall|k: int| 0 <= k < r.frontier@.len() ==> visited.contains((#[trigger] r.frontier@[k]).read_term)
        && stop_at(p, idx, r.frontier@[k], r.frontier@[k].read_term)
    &&& forall|k: int| 0 <= k < visited.len() && !quiet(p, idx, #[trigger] visited[k])
        ==> exists|m: int| 0 <= m < r.frontier@.len() && (#[trigger] r.frontier@[m]).read_term == visited[k]
}

/// `n` unvisited marks.
fn no_marks(n: usize) -> (v: Vec<bool>)
    ensures
        v@.len() == n,
        forall|x: int| 0 <= x < n ==> !(#[trigger] v@[x]),
{
    let mut v: Vec<bool> = Vec::new();
    let mut i: usize = 0;
    while i < n
        invariant
            i <= n,
            v@.len() == i,
            forall|x: int| 0 <= x < i ==> !(#[trigger] v@[x]),
        decreases n - i,
    {
        v.push(false);
        i = i + 1;
    }
    v
}

impl Program {
    /// Collect every transitive ancestor of `root_id` along value edges,
    /// breadth first. The walk stops at every cell and records a
    /// [`CellFrontier`] there; [`Provenance::is_complete`] is the caller's
    /// gate. The cell index comes from [`Program::cell_index`].
    pub fn trace_provenance(&self, root_id: TermId) -> (r: Provenance)
        requires
            self.wf(),
            root_id.0 < self.terms@.len(),
        ensures
            exists|idx: CellIndex| #[trigger] provenance_of(*self, idx, root_id, r) && decls_indexed(*self, idx, self.terms@.len() as int)
                && sites_indexed(*self, idx, self.terms@.len() as int),
    {
        let index = self.cell_index();
        let r = self.trace_provenance_with(&index, root_id);
        proof {
            assert(provenance_of(*self, index, root_id, r));
        }
        r
    }

    /// [`Program::trace_provenance`] over a cell index already built.
    pub fn trace_provenance_with(&self, index: &CellIndex, root_id: TermId) -> (r: Provenance)
        requires
            self.wf(),
            index.within(self.terms@.len()),
            root_id.0 < self.terms@.len(),
        ensures
            provenance_of(*self, *index, root_id, r),
    {
        let n = self.terms.len();
        let mut visited = no_marks(n);
        let mut order: Vec<TermId> = Vec::new();
        let mut edges: Vec<(TermId, TermId)> = Vec::new();
        let mut frontier: Vec<CellFrontier> = Vec::new();
        let mut stopped: Vec<(TermId, TermId)> = Vec::new();
        proof {
            assert(marks(visited@, order@, n as int));
        }
        self.push_term_inputs(index, root_id, &mut visited, &mut order, &mut edges, &mut frontier, &mut stopped);
        proof {
            assert(walk_edges(*self, *index, seq![root_id]) =~= edges_into(preds(*self, *index, root_id), root_id)) by {
                let one = seq![root_id];
                assert(one.drop_last() =~= Seq::<TermId>::empty());
                assert(one.last() == root_id);
                assert(walk_edges(*self, *index, one.drop_last()) == Seq::<(TermId, TermId)>::empty());
                assert(Seq::<(TermId, TermId)>::empty() + edges_into(preds(*self, *index, root_id), root_id)
                    =~= edges_into(preds(*self, *index, root_id), root_id));
            }
            assert(edges@ =~= edges_into(preds(*self, *index, root_id), root_id));
            assert(seq![root_id] + order@.take(0) =~= seq![root_id]);
            assert((seq![root_id] + order@.take(0))[0] == root_id);
            assert forall|st: Set<TermId>| #[trigger] closed_set(*self, *index, root_id, st)
                implies forall|k: int| 0 <= k < order@.len() ==> st.contains(#[trigger] order@[k]) by {
                assert forall|k: int| 0 <= k < order@.len() implies st.contains(#[trigger] order@[k]) by {
                    let j = choose|j: int| 0 <= j < preds(*self, *index, root_id).len()
                        && preds(*self, *index, root_id)[j] == order@[k];
                }
            }
            lemma_distinct_terms_fit(order@, n as int);
        }
        let mut head: usize = 0;
        while head < order.len()
            invariant
                self.wf(),
                n == self.terms@.len(),
                index.within(n as nat),
                root_id.0 < n,
                marks(visited@, order@, n as int),
                order@.len() <= n,
                head <= order@.len(),
                stopped@.len() == frontier@.len(),
                forall|j: int| 0 <= j < preds(*self, *index, root_id).len()
                    ==> order@.contains(#[trigger] preds(*self, *index, root_id)[j]),
                forall|k: int, j: int| 0 <= k < head && 0 <= j < preds(*self, *index, order@[k]).len()
                    ==> order@.contains(#[trigger] preds(*self, *index, order@[k])[j]),
                forall|st: Set<TermId>| #[trigger] closed_set(*self, *index, root_id, st)
                    ==> forall|k: int| 0 <= k < order@.len() ==> st.contains(#[trigger] order@[k]),
                edges@ == walk_edges(*self, *index, seq![root_id] + order@.take(head as int)),
                frontier@.len() == 0 <==> forall|k: int| 0 <= k < head + 1
                    ==> quiet(*self, *index, #[trigger] (seq![root_id] + order@.take(head as int))[k]),
                forall|k: int| 0 <= k < frontier@.len()
                    ==> (seq![root_id] + order@.take(head as int)).contains((#[trigger] frontier@[k]).read_term)
                    && stop_at(*self, *index, frontier@[k], frontier@[k].read_term),
                forall|k: int| 0 <= k < stopped@.len() ==> (#[trigger] stopped@[k]).0 == frontier@[k].read_term,
                forall|k: int| 0 <= k < head + 1 && !quiet(*self, *index, #[trigger] (seq![root_id] + order@.take(head as int))[k])
                    ==> exists|m: int| 0 <= m < frontier@.len() && (#[trigger] frontier@[m]).read_term
                        == (seq![root_id] + order@.take(head as int))[k],
            decreases n - head,
        {
            let y = order[head];
            let ghost order0 = order@;
            let ghost frontier0 = frontier@;
            let ghost visited_before = seq![root_id] + order0.take(head as int);
            self.push_term_inputs(index, y, &mut visited, &mut order, &mut edges, &mut frontier, &mut stopped);
            proof {
                let visited_after = seq![root_id] + order@.take((head + 1) as int);
                assert(order@.take(head as int) =~= order0.take(head as int)) by {
                    assert(order@.take(order0.len() as int) == order0);
                }
                assert(order@[head as int] == y) by {
                    assert(order@.take(order0.len() as int)[head as int] == order0[head as int]);
                }
                assert(visited_after =~= visited_before.push(y));
                assert(visited_after.drop_last() =~= visited_before);
                lemma_distinct_terms_fit(order@, n as int);
                assert forall|j: int| 0 <= j < preds(*self, *index, root_id).len()
                    implies order@.contains(#[trigger] preds(*self, *index, root_id)[j]) by {
                    let x = preds(*self, *index, root_id)[j];
                    let k = choose|k: int| 0 <= k < order0.len() && order0[k] == x;
                    assert(order@[k] == order0[k]);
                }
                assert forall|k: int, j: int| 0 <= k < head + 1 && 0 <= j < preds(*self, *index, order@[k]).len()
                    implies order@.contains(#[trigger] preds(*self, *index, order@[k])[j]) by {
                    if k < head {
                        assert(order@[k] == order0[k]);
                        let x = preds(*self, *index, order0[k])[j];
                        assert(order0.contains(x));
                        let m = choose|m: int| 0 <= m < order0.len() && order0[m] == x;
                        assert(order@[m] == order0[m]);
                    }
                }
                assert forall|st: Set<TermId>| #[trigger] closed_set(*self, *index, root_id, st)
                    implies forall|k: int| 0 <= k < order@.len() ==> st.contains(#[trigger] order@[k]) by {
                    assert(st.contains(order0[head as int]));
                    assert forall|k: int| 0 <= k < order@.len() implies st.contains(#[trigger] order@[k]) by {
                        if k < order0.len() {
                            assert(order@[k] == order0[k]);
                        } else {
                            let j = choose|j: int| 0 <= j < preds(*self, *index, y).len()
                                && preds(*self, *index, y)[j] == order@[k];
                        }
                    }
                }
                assert forall|k: int| 0 <= k < head + 2 implies
                    (#[trigger] visited_after[k]) == (if k < head + 1 { visited_before[k] } else { y }) by {}
                if frontier@.len() == 0 {
                    assert(frontier0.len() == 0) by {
                        if frontier0.len() > 0 {
                            assert(frontier@.take(frontier0.len() as int).len() == frontier0.len());
                        }
                    }
                    assert(quiet(*self, *index, y));
                    assert forall|k: int| 0 <= k < head + 2 implies quiet(*self, *index, #[trigger] visited_after[k]) by {
                        if k < head + 1 {
                            assert(quiet(*self, *index, visited_before[k]));
                        }
                    }
                }
                if forall|k: int| 0 <= k < head + 2 ==> quiet(*self, *index, #[trigger] visited_after[k]) {
                    assert(quiet(*self, *index, visited_after[head + 1]));
                    assert forall|k: int| 0 <= k < head + 1 implies quiet(*self, *index, #[trigger] visited_before[k]) by {
                        assert(quiet(*self, *index, visited_after[k]));
                    }
                    assert(frontier0.len() == 0);
                    assert(frontier@.len() == 0);
                }
                assert forall|k: int| 0 <= k < frontier@.len() implies visited_after.contains((#[trigger] frontier@[k]).read_term)
                    && stop_at(*self, *index, frontier@[k], frontier@[k].read_term) by {
                    if k < frontier0.len() {
                        assert(frontier@[k] == frontier0[k]);
                        let m = choose|m: int| 0 <= m < visited_before.len() && visited_before[m] == frontier0[k].read_term;
                        assert(visited_after[m] == visited_before[m]);
                    } else {
                        assert(visited_after[head + 1] == y);
                    }
                }
                assert forall|k: int| 0 <= k < head + 2 && !quiet(*self, *index, #[trigger] visited_after[k])
                    implies exists|m: int| 0 <= m < frontier@.len() && (#[trigger] frontier@[m]).read_term == visited_after[k] by {
                    if k < head + 1 {
                        assert(visited_after[k] == visited_before[k]);
                        let m = choose|m: int| 0 <= m < frontier0.len() && (#[trigger] frontier0[m]).read_term == visited_before[k];
                        assert(frontier@[m] == frontier0[m]);
                    } else {
                        assert(visited_after[k] == y);
                    }
                }
            }
            head = head + 1;
        }
        proof {
            assert(order@.take(head as int) == order@);
            assert forall|x: TermId| order@.to_set().contains(x) <==> order@.contains(x) by {}
        }
        Provenance { ancestors: order, edges, frontier }
    }
}

// ---------------------------------------------------------------------------
// The forward walk
// ---------------------------------------------------------------------------

/// `u` consumes `y` through one of its value inputs.
pub open spec fn value_user(p: Program, idx: CellIndex, y: TermId, u: int) -> bool {
    let term = p.terms@[u];
    let ins = input_items(term.inputs);
    exists|pos: int| 0 <= pos < ins.len() && !identity_at(idx.decl_map(), term.op, ins, pos) && #[trigger] ins[pos] == y
}

/// `u` is a method call that may dispatch to the function term `y`.
pub open spec fn dispatch_user(p: Program, idx: CellIndex, y: TermId, u: int) -> bool {
    idx.dispatch_inputs_spec(p.terms@[u].op).contains(y)
}

/// A cell reaches `u` from `y`: a declaration reaches its writes and reads,
/// and every write reaches every read of the same cell.
pub open spec fn cell_user(idx: CellIndex, y: TermId, u: TermId) -> bool {
    exists|j: int| 0 <= j < idx.decl_list().len() && #[trigger] cell_step(idx, idx.decl_list()[j], y, u)
}

/// Declaration `d`'s cell reaches `u` from `y`.
pub open spec fn cell_step(idx: CellIndex, d: TermId, y: TermId, u: TermId) -> bool {
    ||| y == d && (idx.writes_spec(d.0).contains(u) || idx.reads_spec(d.0).contains(u))
    ||| idx.writes_spec(d.0).contains(y) && idx.reads_spec(d.0).contains(u)
}

/// `u` is a user of `y` by an edge of kind `k`.
pub open spec fn is_user(p: Program, idx: CellIndex, y: TermId, u: TermId, k: EdgeKind) -> bool {
    match k {
        EdgeKind::Dataflow => u.0 < p.terms@.len() && value_user(p, idx, y, u.0 as int),
        EdgeKind::DispatchMay => u.0 < p.terms@.len() && dispatch_user(p, idx, y, u.0 as int),
        EdgeKind::CellMay => cell_user(idx, y, u),
    }
}

/// Whether `s` holds every user of `root` and every user of any of them.
pub open spec fn forward_closed(p: Program, idx: CellIndex, root: TermId, s: Set<TermId>) -> bool {
    &&& forall|u: TermId, k: EdgeKind| #[trigger] is_user(p, idx, root, u, k) ==> s.contains(u)
    &&& forall|y: TermId, u: TermId, k: EdgeKind| #![trigger s.contains(y), is_user(p, idx, y, u, k)]
        s.contains(y) && is_user(p, idx, y, u, k) ==> s.contains(u)
}

/// What a forward walk from `root` answers: its dependents are exactly the
/// terms that depend on `root` through one or more user edges (the least
/// set closed under them), each once; every edge it reports is a user edge
/// out of a visited term, and every user edge out of a visited term is
/// reported.
pub open spec fn dependents_of(p: Program, idx: CellIndex, root: TermId, r: Dependents) -> bool {
    let deps = r.dependents@;
    let visited = seq![root] + deps;
    &&& deps.no_duplicates()
    &&& forward_closed(p, idx, root, deps.to_set())
    &&& forall|s: Set<TermId>| #[trigger] forward_closed(p, idx, root, s) ==> deps.to_set().subset_of(s)
    &&& forall|k: int| 0 <= k < r.edges@.len() ==> visited.contains((#[trigger] r.edges@[k]).0)
        && is_user(p, idx, r.edges@[k].0, r.edges@[k].1, r.edges@[k].2)
    &&& forall|y: TermId, u: TermId, k: EdgeKind| visited.contains(y) && #[trigger] is_user(p, idx, y, u, k)
        ==> r.edges@.contains((y, u, k))
}

/// The users the list table `m` holds for `y`.
pub open spec fn users_of(m: Map<u32, Vec<(TermId, EdgeKind)>>, y: u32) -> Seq<(TermId, EdgeKind)> {
    if m.contains_key(y) { m[y]@ } else { seq![] }
}

proof fn lemma_seq_push_contains<A>(s: Seq<A>, x: A, e: A)
    ensures
        s.push(x).contains(e) <==> (s.contains(e) || e == x),
{
    let t = s.push(x);
    if t.contains(e) {
        let j = choose|j: int| 0 <= j < t.len() && t[j] == e;
        if j < s.len() {
            assert(s[j] == e);
        }
    }
    if s.contains(e) {
        let j = choose|j: int| 0 <= j < s.len() && s[j] == e;
        assert(t[j] == e);
    }
    if e == x {
        assert(t[s.len() as int] == e);
    }
}

/// Record `u` as a user of `y` by an edge of kind `k`.
fn add_user(m: &mut HashMap<u32, Vec<(TermId, EdgeKind)>>, y: TermId, u: TermId, k: EdgeKind)
    ensures
        forall|z: u32| #[trigger] users_of(final(m)@, z)
            == if z == y.0 { users_of(old(m)@, z).push((u, k)) } else { users_of(old(m)@, z) },
        forall|z: u32, e: (TermId, EdgeKind)| #[trigger] users_of(final(m)@, z).contains(e)
            <==> users_of(old(m)@, z).contains(e) || (z == y.0 && e == (u, k)),
{
    let mut v = match m.remove(&y.0) {
        Some(v) => v,
        None => Vec::new(),
    };
    v.push((u, k));
    m.insert(y.0, v);
    proof {
        assert forall|z: u32, e: (TermId, EdgeKind)| #[trigger] users_of(m@, z).contains(e)
            <==> users_of(old(m)@, z).contains(e) || (z == y.0 && e == (u, k)) by {
            if z == y.0 {
                lemma_seq_push_contains(users_of(old(m)@, z), (u, k), e);
            }
        }
    }
}

/// Every user edge through declaration `d`'s cell is in the table.
pub open spec fn cell_done(m: Map<u32, Vec<(TermId, EdgeKind)>>, idx: CellIndex, d: TermId) -> bool {
    let w = idx.writes_spec(d.0);
    let r = idx.reads_spec(d.0);
    &&& forall|a: int| 0 <= a < w.len() ==> users_of(m, d.0).contains((#[trigger] w[a], EdgeKind::CellMay))
    &&& forall|b: int| 0 <= b < r.len() ==> users_of(m, d.0).contains((#[trigger] r[b], EdgeKind::CellMay))
    &&& forall|b: int, c: int| 0 <= b < r.len() && 0 <= c < w.len()
        ==> users_of(m, (#[trigger] w[c]).0).contains((#[trigger] r[b], EdgeKind::CellMay))
}

/// Every value and dispatch user edge into a term among the first `i` is in
/// the table.
pub open spec fn terms_done(p: Program, m: Map<u32, Vec<(TermId, EdgeKind)>>, idx: CellIndex, i: int) -> bool {
    &&& forall|u: int, pos: int| 0 <= u < i && 0 <= pos < p.inputs_spec(u).len()
        && !identity_at(idx.decl_map(), p.terms@[u].op, p.inputs_spec(u), pos)
        ==> users_of(m, (#[trigger] p.inputs_spec(u)[pos]).0).contains((TermId(u as u32), EdgeKind::Dataflow))
    &&& forall|u: int, j: int| 0 <= u < i && 0 <= j < idx.dispatch_inputs_spec(p.terms@[u].op).len()
        ==> users_of(m, (#[trigger] idx.dispatch_inputs_spec(p.terms@[u].op)[j]).0).contains((TermId(u as u32), EdgeKind::DispatchMay))
}

/// Every entry of the table is a user edge.
pub open spec fn users_sound(p: Program, m: Map<u32, Vec<(TermId, EdgeKind)>>, idx: CellIndex) -> bool {
    forall|z: u32, e: (TermId, EdgeKind)| #[trigger] users_of(m, z).contains(e) ==> is_user(p, idx, TermId(z), e.0, e.1)
}

impl Program {
    /// The reverse index a forward walk follows: for each term, the terms
    /// that use it and by what kind of edge. Value edges and dispatch edges
    /// first, in term order; then, for each declaration, its may-edges to
    /// its writes and reads and from each write to each read.
    fn users_table(&self, index: &CellIndex) -> (m: HashMap<u32, Vec<(TermId, EdgeKind)>>)
        requires
            self.wf(),
            index.within(self.terms@.len()),
        ensures
            forall|z: u32, u: TermId, k: EdgeKind| #[trigger] users_of(m@, z).contains((u, k))
                <==> is_user(*self, *index, TermId(z), u, k),
    {
        let n = self.terms.len();
        let mut users: HashMap<u32, Vec<(TermId, EdgeKind)>> = HashMap::new();
        let mut i: usize = 0;
        while i < n
            invariant
                n == self.terms@.len(),
                i <= n,
                self.wf(),
                index.within(n as nat),
                users_sound(*self, users@, *index),
                terms_done(*self, users@, *index, i as int),
            decreases n - i,
        {
            let term = &self.terms[i];
            let ins = inputs_of(&term.inputs);
            proof {
                assert(term.id == TermId(i as u32));
            }
            let mut pos: usize = 0;
            while pos < ins.len()
                invariant
                    n == self.terms@.len(),
                    i < n,
                    self.wf(),
                    *term == self.terms@[i as int],
                    term.id == TermId(i as u32),
                    ins@ == self.inputs_spec(i as int),
                    pos <= ins@.len(),
                    users_sound(*self, users@, *index),
                    terms_done(*self, users@, *index, i as int),
                    forall|q: int| 0 <= q < pos && !identity_at(index.decl_map(), term.op, ins@, q)
                        ==> users_of(users@, (#[trigger] ins@[q]).0).contains((TermId(i as u32), EdgeKind::Dataflow)),
                decreases ins@.len() - pos,
            {
                if !index.is_identity_input(&term.op, &ins, pos) {
                    let ghost before = users@;
                    add_user(&mut users, ins[pos], term.id, EdgeKind::Dataflow);
                    proof {
                        assert(TermId(ins@[pos as int].0) == ins@[pos as int]);
                        assert(value_user(*self, *index, ins@[pos as int], i as int));
                        assert forall|z: u32, e: (TermId, EdgeKind)| #[trigger] users_of(users@, z).contains(e)
                            implies is_user(*self, *index, TermId(z), e.0, e.1) by {
                            if !users_of(before, z).contains(e) {
                                assert(TermId(z) == ins@[pos as int]);
                            }
                        }
                    }
                }
                pos = pos + 1;
            }
            let targets = index.dispatch_inputs(term);
            let mut j: usize = 0;
            while j < targets.len()
                invariant
                    n == self.terms@.len(),
                    i < n,
                    self.wf(),
                    *term == self.terms@[i as int],
                    term.id == TermId(i as u32),
                    ins@ == self.inputs_spec(i as int),
                    targets@ == index.dispatch_inputs_spec(term.op),
                    j <= targets@.len(),
                    users_sound(*self, users@, *index),
                    terms_done(*self, users@, *index, i as int),
                    forall|q: int| 0 <= q < ins@.len() && !identity_at(index.decl_map(), term.op, ins@, q)
                        ==> users_of(users@, (#[trigger] ins@[q]).0).contains((TermId(i as u32), EdgeKind::Dataflow)),
                    forall|q: int| 0 <= q < j
                        ==> users_of(users@, (#[trigger] targets@[q]).0).contains((TermId(i as u32), EdgeKind::DispatchMay)),
                decreases targets@.len() - j,
            {
                let ghost before = users@;
                add_user(&mut users, targets[j], term.id, EdgeKind::DispatchMay);
                proof {
                    assert(TermId(targets@[j as int].0) == targets@[j as int]);
                    assert(dispatch_user(*self, *index, targets@[j as int], i as int));
                    assert forall|z: u32, e: (TermId, EdgeKind)| #[trigger] users_of(users@, z).contains(e)
                        implies is_user(*self, *index, TermId(z), e.0, e.1) by {
                        if !users_of(before, z).contains(e) {
                            assert(TermId(z) == targets@[j as int]);
                        }
                    }
                }
                j = j + 1;
            }
            proof {
                assert forall|u: int, q: int| 0 <= u < i + 1 && 0 <= q < self.inputs_spec(u).len()
                    && !identity_at(index.decl_map(), self.terms@[u].op, self.inputs_spec(u), q)
                    implies users_of(users@, (#[trigger] self.inputs_spec(u)[q]).0).contains((TermId(u as u32), EdgeKind::Dataflow)) by {
                    if u == i {
                        assert(ins@[q] == self.inputs_spec(u)[q]);
                    }
                }
                assert forall|u: int, q: int| 0 <= u < i + 1 && 0 <= q < index.dispatch_inputs_spec(self.terms@[u].op).len()
                    implies users_of(users@, (#[trigger] index.dispatch_inputs_spec(self.terms@[u].op)[q]).0).contains((TermId(u as u32), EdgeKind::DispatchMay)) by {
                    if u == i {
                        assert(targets@[q] == index.dispatch_inputs_spec(self.terms@[u].op)[q]);
                    }
                }
            }
            i = i + 1;
        }
        let mut jd: usize = 0;
        while jd < index.decls.len()
            invariant
                n == self.terms@.len(),
                self.wf(),
                index.within(n as nat),
                jd <= index.decl_list().len(),
                users_sound(*self, users@, *index),
                terms_done(*self, users@, *index, n as int),
                forall|jj: int| 0 <= jj < jd ==> cell_done(users@, *index, #[trigger] index.decl_list()[jj]),
            decreases index.decl_list().len() - jd,
        {
            let d = index.decls[jd];
            let w = index.writes_of(d);
            let r = index.reads_of(d);
            let mut a: usize = 0;
            while a < w.len()
                invariant
                    n == self.terms@.len(),
                    self.wf(),
                    index.within(n as nat),
                    jd < index.decl_list().len(),
                    d == index.decl_list()[jd as int],
                    w@ == index.writes_spec(d.0),
                    r@ == index.reads_spec(d.0),
                    a <= w@.len(),
                    users_sound(*self, users@, *index),
                    terms_done(*self, users@, *index, n as int),
                    forall|jj: int| 0 <= jj < jd ==> cell_done(users@, *index, #[trigger] index.decl_list()[jj]),
                    forall|q: int| 0 <= q < a ==> users_of(users@, d.0).contains((#[trigger] w@[q], EdgeKind::CellMay)),
                decreases w@.len() - a,
            {
                let ghost before = users@;
                add_user(&mut users, d, w[a], EdgeKind::CellMay);
                proof {
                    assert(cell_step(*index, index.decl_list()[jd as int], d, w@[a as int])) by {
                        assert(index.writes_spec(d.0)[a as int] == w@[a as int]);
                    }
                    assert forall|z: u32, e: (TermId, EdgeKind)| #[trigger] users_of(users@, z).contains(e)
                        implies is_user(*self, *index, TermId(z), e.0, e.1) by {
                        if !users_of(before, z).contains(e) {
                            assert(TermId(z) == d);
                        }
                    }
                }
                a = a + 1;
            }
            let mut b: usize = 0;
            while b < r.len()
                invariant
                    n == self.terms@.len(),
                    self.wf(),
                    index.within(n as nat),
                    jd < index.decl_list().len(),
                    d == index.decl_list()[jd as int],
                    w@ == index.writes_spec(d.0),
                    r@ == index.reads_spec(d.0),
                    b <= r@.len(),
                    users_sound(*self, users@, *index),
                    terms_done(*self, users@, *index, n as int),
                    forall|jj: int| 0 <= jj < jd ==> cell_done(users@, *index, #[trigger] index.decl_list()[jj]),
                    forall|q: int| 0 <= q < w@.len() ==> users_of(users@, d.0).contains((#[trigger] w@[q], EdgeKind::CellMay)),
                    forall|q: int| 0 <= q < b ==> users_of(users@, d.0).contains((#[trigger] r@[q], EdgeKind::CellMay)),
                    forall|q: int, c: int| 0 <= q < b && 0 <= c < w@.len()
                        ==> users_of(users@, (#[trigger] w@[c]).0).contains((#[trigger] r@[q], EdgeKind::CellMay)),
                decreases r@.len() - b,
            {
                let ghost before = users@;
                add_user(&mut users, d, r[b], EdgeKind::CellMay);
                proof {
                    assert(cell_step(*index, index.decl_list()[jd as int], d, r@[b as int])) by {
                        assert(index.reads_spec(d.0)[b as int] == r@[b as int]);
                    }
                    assert forall|z: u32, e: (TermId, EdgeKind)| #[trigger] users_of(users@, z).contains(e)
                        implies is_user(*self, *index, TermId(z), e.0, e.1) by {
                        if !users_of(before, z).contains(e) {
                            assert(TermId(z) == d);
                        }
                    }
                }
                let mut c: usize = 0;
                while c < w.len()
                    invariant
                        n == self.terms@.len(),
                        self.wf(),
                        index.within(n as nat),
                        jd < index.decl_list().len(),
                        d == index.decl_list()[jd as int],
                        w@ == index.writes_spec(d.0),
                        r@ == index.reads_spec(d.0),
                        b < r@.len(),
                        c <= w@.len(),
                        users_sound(*self, users@, *index),
                        terms_done(*self, users@, *index, n as int),
                        forall|jj: int| 0 <= jj < jd ==> cell_done(users@, *index, #[trigger] index.decl_list()[jj]),
                        forall|q: int| 0 <= q < w@.len() ==> users_of(users@, d.0).contains((#[trigger] w@[q], EdgeKind::CellMay)),
                        forall|q: int| 0 <= q <= b ==> users_of(users@, d.0).contains((#[trigger] r@[q], EdgeKind::CellMay)),
                        forall|q: int, cc: int| 0 <= q < b && 0 <= cc < w@.len()
                            ==> users_of(users@, (#[trigger] w@[cc]).0).contains((#[trigger] r@[q], EdgeKind::CellMay)),
                        forall|cc: int| 0 <= cc < c
                            ==> users_of(users@, (#[trigger] w@[cc]).0).contains((r@[b as int], EdgeKind::CellMay)),
                    decreases w@.len() - c,
                {
                    let ghost before2 = users@;
                    add_user(&mut users, w[c], r[b], EdgeKind::CellMay);
                    proof {
                        assert(cell_step(*index, index.decl_list()[jd as int], w@[c as int], r@[b as int])) by {
                            assert(index.writes_spec(d.0)[c as int] == w@[c as int]);
                            assert(index.reads_spec(d.0)[b as int] == r@[b as int]);
                        }
                        assert forall|z: u32, e: (TermId, EdgeKind)| #[trigger] users_of(users@, z).contains(e)
                            implies is_user(*self, *index, TermId(z), e.0, e.1) by {
                            if !users_of(before2, z).contains(e) {
                                assert(TermId(z) == w@[c as int]);
                            }
                        }
                    }
                    c = c + 1;
                }
                proof {
                    assert forall|q: int, cc: int| 0 <= q < b + 1 && 0 <= cc < w@.len()
                        implies users_of(users@, (#[trigger] w@[cc]).0).contains((#[trigger] r@[q], EdgeKind::CellMay)) by {
                        if q == b {
                            assert(users_of(users@, w@[cc].0).contains((r@[b as int], EdgeKind::CellMay)));
                        }
                    }
                }
                b = b + 1;
            }
            proof {
                assert(cell_done(users@, *index, d));
                assert forall|jj: int| 0 <= jj < jd + 1 implies cell_done(users@, *index, #[trigger] index.decl_list()[jj]) by {
                    if jj == jd {
                        assert(index.decl_list()[jj] == d);
                    }
                }
            }
            jd = jd + 1;
        }
        proof {
            assert forall|z: u32, u: TermId, k: EdgeKind| is_user(*self, *index, TermId(z), u, k)
                implies #[trigger] users_of(users@, z).contains((u, k)) by {
                match k {
                    EdgeKind::Dataflow => {
                        let ins = self.inputs_spec(u.0 as int);
                        let pos = choose|pos: int| 0 <= pos < ins.len()
                            && !identity_at(index.decl_map(), self.terms@[u.0 as int].op, ins, pos) && #[trigger] ins[pos] == TermId(z);
                        assert(TermId(u.0 as u32) == u);
                        assert(users_of(users@, ins[pos].0).contains((TermId(u.0 as u32), EdgeKind::Dataflow)));
                    },
                    EdgeKind::DispatchMay => {
                        let ts = index.dispatch_inputs_spec(self.terms@[u.0 as int].op);
                        let q = choose|q: int| 0 <= q < ts.len() && ts[q] == TermId(z);
                        assert(TermId(u.0 as u32) == u);
                        assert(users_of(users@, ts[q].0).contains((TermId(u.0 as u32), EdgeKind::DispatchMay)));
                    },
                    EdgeKind::CellMay => {
                        let j = choose|j: int| 0 <= j < index.decl_list().len() && #[trigger] cell_step(*index, index.decl_list()[j], TermId(z), u);
                        let d = index.decl_list()[j];
                        assert(cell_done(users@, *index, d));
                        let wd = index.writes_spec(d.0);
                        let rd = index.reads_spec(d.0);
                        if TermId(z) == d && wd.contains(u) {
                            let a = choose|a: int| 0 <= a < wd.len() && wd[a] == u;
                            assert(users_of(users@, d.0).contains((wd[a], EdgeKind::CellMay)));
                        } else if TermId(z) == d && rd.contains(u) {
                            let b = choose|b: int| 0 <= b < rd.len() && rd[b] == u;
                            assert(users_of(users@, d.0).contains((rd[b], EdgeKind::CellMay)));
                        } else {
                            let c = choose|c: int| 0 <= c < wd.len() && wd[c] == TermId(z);
                            let b = choose|b: int| 0 <= b < rd.len() && rd[b] == u;
                            assert(users_of(users@, wd[c].0).contains((rd[b], EdgeKind::CellMay)));
                        }
                    },
                }
            }
        }
        users
    }
}

/// The edges `(y, u, k)` for each user `(u, k)` of `list`, in order.
pub open spec fn edges_from(list: Seq<(TermId, EdgeKind)>, y: TermId) -> Seq<(TermId, TermId, EdgeKind)> {
    list.map_values(|e: (TermId, EdgeKind)| (y, e.0, e.1))
}

/// Every user is one of the program's terms.
proof fn lemma_user_within(p: Program, idx: CellIndex, y: TermId, u: TermId, k: EdgeKind)
    requires
        idx.within(p.terms@.len()),
        is_user(p, idx, y, u, k),
    ensures
        u.0 < p.terms@.len(),
{
    if k == EdgeKind::CellMay {
        let j = choose|j: int| 0 <= j < idx.decl_list().len() && #[trigger] cell_step(idx, idx.decl_list()[j], y, u);
        let d = idx.decl_list()[j];
        if idx.reads_spec(d.0).contains(u) {
            let b = choose|b: int| 0 <= b < idx.reads_spec(d.0).len() && idx.reads_spec(d.0)[b] == u;
            assert(idx.reads_spec(d.0)[b].0 < p.terms@.len());
        } else {
            let a = choose|a: int| 0 <= a < idx.writes_spec(d.0).len() && idx.writes_spec(d.0)[a] == u;
            assert(idx.writes_spec(d.0)[a].0 < p.terms@.len());
        }
    }
}

/// The user terms of `list`, in order.
pub open spec fn user_terms(list: Seq<(TermId, EdgeKind)>) -> Seq<TermId> {
    list.map_values(|e: (TermId, EdgeKind)| e.0)
}

/// Record the edge `(y, u, k)` for each user `(u, k)` of `list`, and queue
/// each `u` not yet visited.
fn visit_users(
    list: &Vec<(TermId, EdgeKind)>,
    y: TermId,
    n: usize,
    visited: &mut Vec<bool>,
    order: &mut Vec<TermId>,
    edges: &mut Vec<(TermId, TermId, EdgeKind)>,
)
    requires
        marks(old(visited)@, old(order)@, n as int),
        forall|j: int| 0 <= j < list@.len() ==> (#[trigger] list@[j]).0.0 < n,
    ensures
        marks(final(visited)@, final(order)@, n as int),
        final(edges)@ == old(edges)@ + edges_from(list@, y),
        final(order)@.len() >= old(order)@.len(),
        final(order)@.take(old(order)@.len() as int) == old(order)@,
        forall|j: int| 0 <= j < list@.len() ==> final(order)@.contains((#[trigger] list@[j]).0),
        forall|k: int| old(order)@.len() <= k < final(order)@.len()
            ==> user_terms(list@).contains(#[trigger] final(order)@[k]),
{
    let ghost edges0 = edges@;
    let mut j: usize = 0;
    while j < list.len()
        invariant
            j <= list@.len(),
            edges@ == edges0 + edges_from(list@.take(j as int), y),
        decreases list@.len() - j,
    {
        edges.push((y, list[j].0, list[j].1));
        proof {
            assert(edges_from(list@.take((j + 1) as int), y) =~= edges_from(list@.take(j as int), y).push((y, list@[j as int].0, list@[j as int].1)));
        }
        j = j + 1;
    }
    proof {
        assert(list@.take(list@.len() as int) == list@);
    }
    let mut xs: Vec<TermId> = Vec::new();
    let mut i: usize = 0;
    while i < list.len()
        invariant
            i <= list@.len(),
            xs@.len() == i,
            forall|j: int| 0 <= j < i ==> (#[trigger] xs@[j]) == list@[j].0,
        decreases list@.len() - i,
    {
        xs.push(list[i].0);
        i = i + 1;
    }
    let mut scratch: Vec<(TermId, TermId)> = Vec::new();
    let ghost order_pre = order@;
    assert(order_pre == old(order)@);
    visit_all(&xs, y, n, visited, order, &mut scratch);
    proof {
        assert(list@.take(list@.len() as int) == list@);
        assert forall|j: int| 0 <= j < list@.len() implies order@.contains((#[trigger] list@[j]).0) by {
            assert(xs@[j] == list@[j].0);
        }
        assert(xs@ =~= user_terms(list@));
    }
}

impl Program {
    /// Collect every term that transitively depends on `root_id`. Not the
    /// mirror image of the backward walk: "what could this affect" is a
    /// may-question, so the graph includes the may-edges through cells and
    /// through method dispatch. The cell index comes from
    /// [`Program::cell_index`].
    pub fn trace_dependents(&self, root_id: TermId) -> (r: Dependents)
        requires
            self.wf(),
            root_id.0 < self.terms@.len(),
        ensures
            exists|idx: CellIndex| #[trigger] dependents_of(*self, idx, root_id, r) && decls_indexed(*self, idx, self.terms@.len() as int)
                && sites_indexed(*self, idx, self.terms@.len() as int),
    {
        let index = self.cell_index();
        let r = self.dependents_with(&index, root_id);
        proof {
            assert(dependents_of(*self, index, root_id, r));
        }
        r
    }

    fn dependents_with(&self, index: &CellIndex, root_id: TermId) -> (r: Dependents)
        requires
            self.wf(),
            index.within(self.terms@.len()),
            root_id.0 < self.terms@.len(),
        ensures
            dependents_of(*self, *index, root_id, r),
    {
        let n = self.terms.len();
        let users = self.users_table(index);
        let mut visited = no_marks(n);
        let mut order: Vec<TermId> = Vec::new();
        let mut edges: Vec<(TermId, TermId, EdgeKind)> = Vec::new();
        proof {
            assert(marks(visited@, order@, n as int));
        }
        let empty: Vec<(TermId, EdgeKind)> = Vec::new();
        let first = match users.get(&root_id.0) {
            Some(v) => v,
            None => &empty,
        };
        proof {
            assert(first@ == users_of(users@, root_id.0));
            assert forall|j: int| 0 <= j < first@.len() implies (#[trigger] first@[j]).0.0 < n by {
                assert(users_of(users@, root_id.0).contains(first@[j]));
                assert(TermId(root_id.0) == root_id);
                lemma_user_within(*self, *index, root_id, first@[j].0, first@[j].1);
            }
        }
        visit_users(first, root_id, n, &mut visited, &mut order, &mut edges);
        proof {
            assert(TermId(root_id.0) == root_id);
            lemma_distinct_terms_fit(order@, n as int);
            assert forall|u: TermId, k: EdgeKind| #[trigger] is_user(*self, *index, root_id, u, k) implies order@.contains(u) by {
                assert(users_of(users@, root_id.0).contains((u, k)));
                let j = choose|j: int| 0 <= j < first@.len() && first@[j] == (u, k);
                assert(order@.contains(first@[j].0));
            }
            assert forall|st: Set<TermId>| #[trigger] forward_closed(*self, *index, root_id, st)
                implies forall|k: int| 0 <= k < order@.len() ==> st.contains(#[trigger] order@[k]) by {
                assert forall|k: int| 0 <= k < order@.len() implies st.contains(#[trigger] order@[k]) by {
                    let j = choose|j: int| 0 <= j < first@.len() && user_terms(first@)[j] == order@[k];
                    assert(user_terms(first@)[j] == first@[j].0);
                    assert(users_of(users@, root_id.0).contains(first@[j]));
                    assert(is_user(*self, *index, root_id, first@[j].0, first@[j].1));
                }
            }
            assert(seq![root_id] + order@.take(0) =~= seq![root_id]);
            assert forall|q: int| 0 <= q < edges@.len() implies (seq![root_id] + order@.take(0)).contains((#[trigger] edges@[q]).0)
                && is_user(*self, *index, edges@[q].0, edges@[q].1, edges@[q].2) by {
                assert(edges@[q] == (root_id, first@[q].0, first@[q].1));
                assert(users_of(users@, root_id.0).contains(first@[q]));
                assert((seq![root_id] + order@.take(0))[0] == root_id);
            }
            assert forall|y: TermId, u: TermId, k: EdgeKind| (seq![root_id] + order@.take(0)).contains(y)
                && #[trigger] is_user(*self, *index, y, u, k) implies edges@.contains((y, u, k)) by {
                assert(y == root_id);
                assert(users_of(users@, root_id.0).contains((u, k)));
                let j = choose|j: int| 0 <= j < first@.len() && first@[j] == (u, k);
                assert(edges@[j] == (y, u, k));
            }
        }
        let mut head: usize = 0;
        while head < order.len()
            invariant
                self.wf(),
                n == self.terms@.len(),
                index.within(n as nat),
                root_id.0 < n,
                empty@.len() == 0,
                forall|z: u32, u: TermId, k: EdgeKind| #[trigger] users_of(users@, z).contains((u, k))
                    <==> is_user(*self, *index, TermId(z), u, k),
                marks(visited@, order@, n as int),
                order@.len() <= n,
                head <= order@.len(),
                forall|u: TermId, k: EdgeKind| #[trigger] is_user(*self, *index, root_id, u, k) ==> order@.contains(u),
                forall|q: int, u: TermId, k: EdgeKind| 0 <= q < head && #[trigger] is_user(*self, *index, order@[q], u, k)
                    ==> order@.contains(u),
                forall|st: Set<TermId>| #[trigger] forward_closed(*self, *index, root_id, st)
                    ==> forall|k: int| 0 <= k < order@.len() ==> st.contains(#[trigger] order@[k]),
                forall|q: int| 0 <= q < edges@.len() ==> (seq![root_id] + order@.take(head as int)).contains((#[trigger] edges@[q]).0)
                    && is_user(*self, *index, edges@[q].0, edges@[q].1, edges@[q].2),
                forall|y: TermId, u: TermId, k: EdgeKind| (seq![root_id] + order@.take(head as int)).contains(y)
                    && #[trigger] is_user(*self, *index, y, u, k) ==> edges@.contains((y, u, k)),
            decreases n - head,
        {
            let y = order[head];
            let list = match users.get(&y.0) {
                Some(v) => v,
                None => &empty,
            };
            let ghost order0 = order@;
            let ghost edges0 = edges@;
            let ghost v0 = seq![root_id] + order0.take(head as int);
            proof {
                assert(list@ == users_of(users@, y.0));
                assert(TermId(y.0) == y);
                assert forall|j: int| 0 <= j < list@.len() implies (#[trigger] list@[j]).0.0 < n by {
                    assert(users_of(users@, y.0).contains(list@[j]));
                    lemma_user_within(*self, *index, y, list@[j].0, list@[j].1);
                }
            }
            visit_users(list, y, n, &mut visited, &mut order, &mut edges);
            proof {
                let v1 = seq![root_id] + order@.take((head + 1) as int);
                assert(order@.take(head as int) =~= order0.take(head as int)) by {
                    assert(order@.take(order0.len() as int) == order0);
                }
                assert(order@[head as int] == y) by {
                    assert(order@.take(order0.len() as int)[head as int] == order0[head as int]);
                }
                assert(v1 =~= v0.push(y));
                lemma_distinct_terms_fit(order@, n as int);
                assert forall|z: TermId| v0.contains(z) implies v1.contains(z) by {
                    let m = choose|m: int| 0 <= m < v0.len() && v0[m] == z;
                    assert(v1[m] == v0[m]);
                }
                assert forall|z: TermId| order0.contains(z) implies order@.contains(z) by {
                    let m = choose|m: int| 0 <= m < order0.len() && order0[m] == z;
                    assert(order@[m] == order0[m]);
                }
                assert forall|q: int, u: TermId, k: EdgeKind| 0 <= q < head + 1 && #[trigger] is_user(*self, *index, order@[q], u, k)
                    implies order@.contains(u) by {
                    if q < head {
                        assert(order@[q] == order0[q]);
                        assert(order0.contains(u));
                    } else {
                        assert(users_of(users@, y.0).contains((u, k)));
                        let j = choose|j: int| 0 <= j < list@.len() && list@[j] == (u, k);
                        assert(order@.contains(list@[j].0));
                    }
                }
                assert forall|st: Set<TermId>| #[trigger] forward_closed(*self, *index, root_id, st)
                    implies forall|k: int| 0 <= k < order@.len() ==> st.contains(#[trigger] order@[k]) by {
                    assert(st.contains(order0[head as int]));
                    assert forall|k: int| 0 <= k < order@.len() implies st.contains(#[trigger] order@[k]) by {
                        if k < order0.len() {
                            assert(order@[k] == order0[k]);
                        } else {
                            let j = choose|j: int| 0 <= j < list@.len() && user_terms(list@)[j] == order@[k];
                            assert(user_terms(list@)[j] == list@[j].0);
                            assert(users_of(users@, y.0).contains(list@[j]));
                            assert(is_user(*self, *index, y, list@[j].0, list@[j].1));
                        }
                    }
                }
                assert forall|q: int| 0 <= q < edges@.len() implies v1.contains((#[trigger] edges@[q]).0)
                    && is_user(*self, *index, edges@[q].0, edges@[q].1, edges@[q].2) by {
                    if q < edges0.len() {
                        assert(edges@[q] == edges0[q]);
                        assert(v0.contains(edges0[q].0));
                    } else {
                        let j = q - edges0.len();
                        assert(edges@[q] == (y, list@[j].0, list@[j].1));
                        assert(users_of(users@, y.0).contains(list@[j]));
                        assert(v1[head + 1] == y);
                    }
                }
                assert forall|z: TermId, u: TermId, k: EdgeKind| v1.contains(z) && #[trigger] is_user(*self, *index, z, u, k)
                    implies edges@.contains((z, u, k)) by {
                    let m = choose|m: int| 0 <= m < v1.len() && v1[m] == z;
                    if m < v0.len() {
                        assert(v0[m] == z);
                        assert(edges0.contains((z, u, k)));
                        let e = choose|e: int| 0 <= e < edges0.len() && edges0[e] == (z, u, k);
                        assert(edges@[e] == edges0[e]);
                    } else {
                        assert(z == y);
                        assert(users_of(users@, y.0).contains((u, k)));
                        let j = choose|j: int| 0 <= j < list@.len() && list@[j] == (u, k);
                        assert(edges@[edges0.len() + j] == (y, u, k));
                    }
                }
            }
            head = head + 1;
        }
        proof {
            assert(order@.take(head as int) == order@);
            assert forall|x: TermId| order@.to_set().contains(x) <==> order@.contains(x) by {}
        }
        Dependents { dependents: order, edges }
    }
}

// ---------------------------------------------------------------------------
// Slices
// ---------------------------------------------------------------------------

/// `x` is `t` or an ancestor of it: in every set closed under stepping back
/// from `t`.
pub open spec fn in_slice(p: Program, idx: CellIndex, t: TermId, x: TermId) -> bool {
    x == t || forall|s: Set<TermId>| #[trigger] closed_set(p, idx, t, s) ==> s.contains(x)
}

/// Strictly increasing term ids: program order.
pub open spec fn ascending(s: Seq<TermId>) -> bool {
    forall|i: int, j: int| 0 <= i < j < s.len() ==> (#[trigger] s[i]).0 < (#[trigger] s[j]).0
}

/// Every term `m` marks has every term it steps back to marked too.
pub open spec fn marks_closed(p: Program, idx: CellIndex, m: Seq<bool>) -> bool {
    forall|x: int, j: int| 0 <= x < m.len() && m[x] && 0 <= j < preds(p, idx, TermId(x as u32)).len()
        ==> #[trigger] m[(#[trigger] preds(p, idx, TermId(x as u32))[j]).0 as int]
}

/// What a slice of `targets` answers. The minimal slice holds exactly the
/// targets and their ancestors, in program order, and its frontier is empty
/// exactly when none of them stops at a cell, each entry a stop at one of
/// them. The conservative slice holds the minimal one, in program order,
/// closed under stepping back; its frontier extends the minimal one, holds
/// a stop for each of its terms that stops at a cell and nothing else, and
/// the declaration each stop resolves to is in it with all its writes.
pub open spec fn slice_of(p: Program, idx: CellIndex, targets: Seq<TermId>, r: SliceResult) -> bool {
    let t = r.terms_spec();
    let c = r.conservative_terms_spec();
    let mf = r.minimal_frontier_spec();
    let cf = r.conservative_frontier_spec();
    &&& ascending(t)
    &&& forall|x: TermId| #[trigger] t.contains(x)
        <==> exists|j: int| 0 <= j < targets.len() && #[trigger] in_slice(p, idx, targets[j], x)
    &&& (mf.len() == 0 <==> forall|k: int| 0 <= k < t.len() ==> quiet(p, idx, #[trigger] t[k]))
    &&& forall|k: int| 0 <= k < mf.len() ==> t.contains((#[trigger] mf[k]).read_term)
        && stop_at(p, idx, mf[k], mf[k].read_term)
    &&& ascending(c)
    &&& forall|x: TermId| t.contains(x) ==> #[trigger] c.contains(x)
    &&& forall|k: int, j: int| 0 <= k < c.len() && 0 <= j < preds(p, idx, c[k]).len()
        ==> c.contains(#[trigger] preds(p, idx, #[trigger] c[k])[j])
    &&& cf.len() >= mf.len() && cf.take(mf.len() as int) == mf
    &&& forall|k: int| 0 <= k < cf.len() ==> c.contains((#[trigger] cf[k]).read_term)
        && stop_at(p, idx, cf[k], cf[k].read_term)
    &&& forall|k: int| 0 <= k < cf.len() ==> decl_covered(idx, c, (#[trigger] cf[k]).cell_decl)
    &&& forall|k: int| 0 <= k < c.len() && !quiet(p, idx, #[trigger] c[k])
        ==> exists|m: int| 0 <= m < cf.len() && (#[trigger] cf[m]).read_term == c[k]
}

/// The declaration `d`, when there is one, is in `c` with all its writes.
pub open spec fn decl_covered(idx: CellIndex, c: Seq<TermId>, d: Option<TermId>) -> bool {
    match d {
        Some(d) => c.contains(d) && forall|w: int| 0 <= w < idx.writes_spec(d.0).len()
            ==> c.contains(#[trigger] idx.writes_spec(d.0)[w]),
        None => true,
    }
}

/// A walk's answer, read as a set: `x` was visited exactly when it is in the
/// slice of the root.
proof fn lemma_visited_is_slice(p: Program, idx: CellIndex, root: TermId, r: Provenance, x: TermId)
    requires
        provenance_of(p, idx, root, r),
    ensures
        (x == root || r.ancestors@.contains(x)) <==> in_slice(p, idx, root, x),
{
    let anc = r.ancestors@;
    if anc.contains(x) {
        assert forall|s: Set<TermId>| #[trigger] closed_set(p, idx, root, s) implies s.contains(x) by {
            assert(anc.to_set().subset_of(s));
            assert(anc.to_set().contains(x));
        }
    }
    if in_slice(p, idx, root, x) && x != root {
        assert(closed_set(p, idx, root, anc.to_set()));
        assert(anc.to_set().contains(x));
    }
}

/// Collect the marked terms, in program order.
fn collect_marked(m: &Vec<bool>) -> (r: Vec<TermId>)
    requires
        m@.len() <= u32::MAX,
    ensures
        ascending(r@),
        forall|x: TermId| #[trigger] r@.contains(x) <==> (x.0 < m@.len() && m@[x.0 as int]),
{
    let mut r: Vec<TermId> = Vec::new();
    let mut i: usize = 0;
    while i < m.len()
        invariant
            i <= m@.len(),
            m@.len() <= u32::MAX,
            ascending(r@),
            forall|k: int| 0 <= k < r@.len() ==> (#[trigger] r@[k]).0 < i,
            forall|x: TermId| #[trigger] r@.contains(x) <==> (x.0 < i && m@[x.0 as int]),
        decreases m@.len() - i,
    {
        if m[i] {
            let ghost before = r@;
            r.push(TermId(i as u32));
            proof {
                assert forall|x: TermId| #[trigger] r@.contains(x) <==> (x.0 < i + 1 && m@[x.0 as int]) by {
                    lemma_push_contains(before, TermId(i as u32), x);
                }
            }
        } else {
            proof {
                assert forall|x: TermId| #[trigger] r@.contains(x) <==> (x.0 < i + 1 && m@[x.0 as int]) by {
                    if x.0 == i {
                        assert(!m@[x.0 as int]);
                    }
                }
            }
        }
        i = i + 1;
    }
    r
}

/// The declaration a stop resolves to is one of the program's terms.
proof fn lemma_stop_decl_within(p: Program, idx: CellIndex, f: CellFrontier, y: TermId)
    requires
        idx.within(p.terms@.len()),
        stop_at(p, idx, f, y),
    ensures
        f.cell_decl matches Some(d) ==> d.0 < p.terms@.len(),
{
    let term = p.terms@[y.0 as int];
    let ops = idx.cell_operands_spec(term.op, input_items(term.inputs));
    let o = choose|o: int| 0 <= o < ops.len() && #[trigger] frontier_is(f, idx, y, ops[o], term.op is MakeClosure);
    if idx.decl_map().contains_key(ops[o].0) {
        assert(idx.decl_map()[ops[o].0].0 < p.terms@.len());
    }
}

/// The declaration `d`, when there is one, is in `pending`.
pub open spec fn decl_pending(pending: Seq<TermId>, d: Option<TermId>) -> bool {
    match d {
        Some(d) => pending.contains(d),
        None => true,
    }
}

impl Program {
    /// Walk back from `root`: mark it and its ancestors, append the walk's
    /// frontier to `out`, and queue the declaration of each stop.
    fn absorb(
        &self,
        index: &CellIndex,
        root: TermId,
        m: &mut Vec<bool>,
        out: &mut Vec<CellFrontier>,
        pending: &mut Vec<TermId>,
    )
        requires
            self.wf(),
            index.within(self.terms@.len()),
            root.0 < self.terms@.len(),
            old(m)@.len() == self.terms@.len(),
            forall|k: int| 0 <= k < old(pending)@.len() ==> (#[trigger] old(pending)@[k]).0 < self.terms@.len(),
        ensures
            final(m)@.len() == self.terms@.len(),
            forall|x: int| 0 <= x < self.terms@.len() ==> (#[trigger] final(m)@[x]
                <==> old(m)@[x] || in_slice(*self, *index, root, TermId(x as u32))),
            marks_closed(*self, *index, old(m)@) ==> marks_closed(*self, *index, final(m)@),
            final(out)@.len() >= old(out)@.len(),
            final(out)@.take(old(out)@.len() as int) == old(out)@,
            forall|k: int| old(out)@.len() <= k < final(out)@.len()
                ==> in_slice(*self, *index, root, (#[trigger] final(out)@[k]).read_term)
                && stop_at(*self, *index, final(out)@[k], final(out)@[k].read_term),
            (final(out)@.len() == old(out)@.len()) <==> forall|x: TermId| #[trigger] in_slice(*self, *index, root, x)
                ==> quiet(*self, *index, x),
            forall|x: TermId| #[trigger] in_slice(*self, *index, root, x) && !quiet(*self, *index, x)
                ==> exists|k: int| old(out)@.len() <= k < final(out)@.len() && (#[trigger] final(out)@[k]).read_term == x,
            final(pending)@.len() >= old(pending)@.len(),
            final(pending)@.take(old(pending)@.len() as int) == old(pending)@,
            forall|k: int| old(out)@.len() <= k < final(out)@.len()
                ==> decl_pending(final(pending)@, (#[trigger] final(out)@[k]).cell_decl),
            forall|k: int| 0 <= k < final(pending)@.len() ==> (#[trigger] final(pending)@[k]).0 < self.terms@.len(),
    {
        let n = self.terms.len();
        let prov = self.trace_provenance_with(index, root);
        let ghost m0 = m@;
        let ghost out0 = out@;
        let ghost pending0 = pending@;
        let ghost anc = prov.ancestors@;
        let ghost fr = prov.frontier@;
        let start = out.len();
        m.set(root.0 as usize, true);
        let mut i: usize = 0;
        while i < prov.ancestors.len()
            invariant
                n == self.terms@.len(),
                n <= u32::MAX,
                self.wf(),
                index.within(n as nat),
                anc == prov.ancestors@,
                provenance_of(*self, *index, root, prov),
                root.0 < n,
                i <= anc.len(),
                m@.len() == n,
                forall|x: int| 0 <= x < n ==> (#[trigger] m@[x] <==> m0[x] || x == root.0
                    || anc.take(i as int).contains(TermId(x as u32))),
            decreases anc.len() - i,
        {
            let a = prov.ancestors[i];
            proof {
                assert(closed_set(*self, *index, root, anc.to_set()));
                assert(anc.to_set().contains(a));
                assert(in_slice(*self, *index, root, a)) by {
                    lemma_visited_is_slice(*self, *index, root, prov, a);
                }
                lemma_in_slice_within(*self, *index, root, prov, a);
            }
            m.set(a.0 as usize, true);
            proof {
                assert forall|x: int| 0 <= x < n implies (#[trigger] m@[x] <==> m0[x] || x == root.0
                    || anc.take((i + 1) as int).contains(TermId(x as u32))) by {
                    assert(anc.take((i + 1) as int) == anc.take(i as int).push(a));
                    lemma_push_contains(anc.take(i as int), a, TermId(x as u32));
                    if x == a.0 {
                        assert(TermId(x as u32) == a);
                    }
                }
            }
            i = i + 1;
        }
        let mut fr_owned = prov.frontier;
        out.append(&mut fr_owned);
        let mut k: usize = start;
        while k < out.len()
            invariant
                n == self.terms@.len(),
                index.within(n as nat),
                out@ == out0 + fr,
                provenance_of(*self, *index, root, prov),
                fr == prov.frontier@,
                start == out0.len(),
                out0.len() <= k <= out@.len(),
                pending@.len() >= pending0.len(),
                pending@.take(pending0.len() as int) == pending0,
                forall|q: int| out0.len() <= q < k ==> decl_pending(pending@, (#[trigger] out@[q]).cell_decl),
                forall|q: int| 0 <= q < pending@.len() ==> (#[trigger] pending@[q]).0 < n,
            decreases out@.len() - k,
        {
            let ghost pb = pending@;
            proof {
                assert(out@[k as int] == fr[k - out0.len()]);
                lemma_stop_decl_within(*self, *index, out@[k as int], out@[k as int].read_term);
            }
            match out[k].cell_decl {
                Some(d) => {
                    pending.push(d);
                    proof {
                        assert(pending@.take(pending0.len() as int) =~= pb.take(pending0.len() as int));
                        assert forall|q: int| out0.len() <= q < k + 1 implies decl_pending(pending@, (#[trigger] out@[q]).cell_decl) by {
                            if let Some(e) = out@[q].cell_decl {
                                if q < k {
                                    assert(pb.contains(e));
                                    lemma_push_contains(pb, d, e);
                                } else {
                                    lemma_push_contains(pb, d, e);
                                }
                            }
                        }
                        assert forall|q: int| 0 <= q < pending@.len() implies (#[trigger] pending@[q]).0 < n by {
                            if q < pb.len() {
                                assert(pending@[q] == pb[q]);
                            }
                        }
                    }
                },
                None => {},
            }
            k = k + 1;
        }
        proof {
            assert(anc.take(anc.len() as int) == anc);
            assert forall|x: int| 0 <= x < n implies (#[trigger] m@[x]
                <==> m0[x] || in_slice(*self, *index, root, TermId(x as u32))) by {
                lemma_visited_is_slice(*self, *index, root, prov, TermId(x as u32));
                if x == root.0 {
                    assert(TermId(x as u32) == root);
                }
            }
            assert(out@.take(out0.len() as int) =~= out0);
            let visited = seq![root] + anc;
            assert forall|x: TermId| visited.contains(x) <==> (x == root || anc.contains(x)) by {
                if visited.contains(x) {
                    let j = choose|j: int| 0 <= j < visited.len() && visited[j] == x;
                    if j > 0 {
                        assert(anc[j - 1] == x);
                    }
                }
                if anc.contains(x) {
                    let j = choose|j: int| 0 <= j < anc.len() && anc[j] == x;
                    assert(visited[j + 1] == x);
                }
                if x == root {
                    assert(visited[0] == x);
                }
            }
            assert forall|q: int| out0.len() <= q < out@.len() implies in_slice(*self, *index, root, (#[trigger] out@[q]).read_term)
                && stop_at(*self, *index, out@[q], out@[q].read_term) by {
                assert(out@[q] == fr[q - out0.len()]);
                lemma_visited_is_slice(*self, *index, root, prov, out@[q].read_term);
            }
            if out@.len() == out0.len() {
                assert forall|x: TermId| #[trigger] in_slice(*self, *index, root, x) implies quiet(*self, *index, x) by {
                    lemma_visited_is_slice(*self, *index, root, prov, x);
                    assert(visited.contains(x));
                    let j = choose|j: int| 0 <= j < visited.len() && visited[j] == x;
                    assert(fr.len() == 0);
                    assert(quiet(*self, *index, visited[j]));
                }
            }
            if forall|x: TermId| #[trigger] in_slice(*self, *index, root, x) ==> quiet(*self, *index, x) {
                assert forall|j: int| 0 <= j < visited.len() implies quiet(*self, *index, #[trigger] visited[j]) by {
                    lemma_visited_is_slice(*self, *index, root, prov, visited[j]);
                }
                assert(fr.len() == 0);
            }
            assert forall|x: TermId| #[trigger] in_slice(*self, *index, root, x) && !quiet(*self, *index, x)
                implies exists|q: int| out0.len() <= q < out@.len() && (#[trigger] out@[q]).read_term == x by {
                lemma_visited_is_slice(*self, *index, root, prov, x);
                assert(visited.contains(x));
                let j = choose|j: int| 0 <= j < visited.len() && visited[j] == x;
                assert(!quiet(*self, *index, visited[j]));
                assert(exists|mm: int| 0 <= mm < fr.len() && (#[trigger] fr[mm]).read_term == visited[j]);
                let mm = choose|mm: int| 0 <= mm < fr.len() && (#[trigger] fr[mm]).read_term == visited[j];
                assert(out@ == out0 + fr);
                assert(out@[out0.len() + mm] == fr[mm]);
                assert(out@[out0.len() + mm].read_term == x);
            }
            if marks_closed(*self, *index, m0) {
                assert forall|x: int, j: int| 0 <= x < m@.len() && m@[x] && 0 <= j < preds(*self, *index, TermId(x as u32)).len()
                    implies #[trigger] m@[(#[trigger] preds(*self, *index, TermId(x as u32))[j]).0 as int] by {
                    let y = TermId(x as u32);
                    let z = preds(*self, *index, y)[j];
                    lemma_preds_within(*self, *index, y, j);
                    if m0[x] {
                        assert(m0[z.0 as int]);
                    } else {
                        assert(in_slice(*self, *index, root, y));
                        lemma_visited_is_slice(*self, *index, root, prov, y);
                        assert(closed_set(*self, *index, root, anc.to_set()));
                        if y == root {
                            assert(anc.to_set().contains(z));
                        } else {
                            assert(anc.to_set().contains(y));
                            assert(anc.to_set().contains(z));
                        }
                        lemma_visited_is_slice(*self, *index, root, prov, z);
                        assert(TermId(z.0 as u32) == z);
                    }
                }
            }
        }
    }
}

/// Every ancestor a walk returns is one of the program's terms.
proof fn lemma_in_slice_within(p: Program, idx: CellIndex, root: TermId, r: Provenance, a: TermId)
    requires
        p.wf(),
        idx.within(p.terms@.len()),
        root.0 < p.terms@.len(),
        provenance_of(p, idx, root, r),
        r.ancestors@.contains(a),
    ensures
        a.0 < p.terms@.len(),
{
    let within = Set::new(|t: TermId| t.0 < p.terms@.len());
    assert(closed_set(p, idx, root, within)) by {
        assert forall|j: int| 0 <= j < preds(p, idx, root).len() implies within.contains(#[trigger] preds(p, idx, root)[j]) by {
            lemma_preds_within(p, idx, root, j);
        }
        assert forall|y: TermId, j: int| within.contains(y) && 0 <= j < preds(p, idx, y).len()
            implies within.contains(#[trigger] preds(p, idx, y)[j]) by {
            lemma_preds_within(p, idx, y, j);
        }
    }
    assert(r.ancestors@.to_set().subset_of(within));
    assert(r.ancestors@.to_set().contains(a));
}

/// `x` is in the slice of one of the first `j` targets.
pub open spec fn in_any(p: Program, idx: CellIndex, targets: Seq<TermId>, j: int, x: TermId) -> bool {
    exists|jj: int| 0 <= jj < j && #[trigger] in_slice(p, idx, targets[jj], x)
}

/// The declaration `d`, when there is one, has been handled or is pending.
pub open spec fn decl_handled(seen: Seq<bool>, pending: Seq<TermId>, d: Option<TermId>) -> bool {
    match d {
        Some(d) => (d.0 < seen.len() && seen[d.0 as int]) || pending.contains(d),
        None => true,
    }
}

/// Everything in the slice of a term of the program is a term of it.
proof fn lemma_in_slice_bounded(p: Program, idx: CellIndex, t: TermId, x: TermId)
    requires
        p.wf(),
        idx.within(p.terms@.len()),
        t.0 < p.terms@.len(),
        in_slice(p, idx, t, x),
    ensures
        x.0 < p.terms@.len(),
{
    if x != t {
        let within = Set::new(|u: TermId| u.0 < p.terms@.len());
        assert(closed_set(p, idx, t, within)) by {
            assert forall|j: int| 0 <= j < preds(p, idx, t).len() implies within.contains(#[trigger] preds(p, idx, t)[j]) by {
                lemma_preds_within(p, idx, t, j);
            }
            assert forall|y: TermId, j: int| within.contains(y) && 0 <= j < preds(p, idx, y).len()
                implies within.contains(#[trigger] preds(p, idx, y)[j]) by {
                lemma_preds_within(p, idx, y, j);
            }
        }
    }
}

/// A copy of the marks `m`.
fn copy_marks(m: &Vec<bool>) -> (r: Vec<bool>)
    ensures
        r@ == m@,
{
    let mut r: Vec<bool> = Vec::new();
    let mut i: usize = 0;
    while i < m.len()
        invariant
            i <= m@.len(),
            r@ == m@.take(i as int),
        decreases m@.len() - i,
    {
        r.push(m[i]);
        proof {
            assert(m@.take((i + 1) as int) == m@.take(i as int).push(m@[i as int]));
        }
        i = i + 1;
    }
    proof {
        assert(m@.take(m@.len() as int) == m@);
    }
    r
}

impl Program {
    /// A dataflow slice of `targets`: the subgraph needed to compute them
    /// from their transitive inputs, in program order (topological for a
    /// well-formed IR). See [`SliceResult`] for why the caller chooses
    /// between the minimal and the conservative reading. The cell index
    /// comes from [`Program::cell_index`].
    pub fn slice(&self, targets: &[TermId]) -> (r: SliceResult)
        requires
            self.wf(),
            forall|j: int| 0 <= j < targets@.len() ==> (#[trigger] targets@[j]).0 < self.terms@.len(),
        ensures
            exists|idx: CellIndex| #[trigger] slice_of(*self, idx, targets@, r) && decls_indexed(*self, idx, self.terms@.len() as int)
                && sites_indexed(*self, idx, self.terms@.len() as int),
    {
        let index = self.cell_index();
        let r = self.slice_with(&index, targets);
        proof {
            assert(slice_of(*self, index, targets@, r));
        }
        r
    }

    fn slice_with(&self, index: &CellIndex, targets: &[TermId]) -> (r: SliceResult)
        requires
            self.wf(),
            index.within(self.terms@.len()),
            forall|j: int| 0 <= j < targets@.len() ==> (#[trigger] targets@[j]).0 < self.terms@.len(),
        ensures
            slice_of(*self, *index, targets@, r),
    {
        let n = self.terms.len();
        let mut needed = no_marks(n);
        let mut minimal: Vec<CellFrontier> = Vec::new();
        let mut pending: Vec<TermId> = Vec::new();
        let mut j: usize = 0;
        while j < targets.len()
            invariant
                n == self.terms@.len(),
                self.wf(),
                index.within(n as nat),
                forall|q: int| 0 <= q < targets@.len() ==> (#[trigger] targets@[q]).0 < n,
                j <= targets@.len(),
                needed@.len() == n,
                forall|x: int| 0 <= x < n ==> (#[trigger] needed@[x] <==> in_any(*self, *index, targets@, j as int, TermId(x as u32))),
                marks_closed(*self, *index, needed@),
                minimal@.len() == 0 <==> forall|x: TermId| #[trigger] in_any(*self, *index, targets@, j as int, x) ==> quiet(*self, *index, x),
                forall|k: int| 0 <= k < minimal@.len() ==> in_any(*self, *index, targets@, j as int, (#[trigger] minimal@[k]).read_term)
                    && stop_at(*self, *index, minimal@[k], minimal@[k].read_term),
                forall|x: TermId| #[trigger] in_any(*self, *index, targets@, j as int, x) && !quiet(*self, *index, x)
                    ==> exists|k: int| 0 <= k < minimal@.len() && (#[trigger] minimal@[k]).read_term == x,
                forall|k: int| 0 <= k < minimal@.len() ==> decl_pending(pending@, (#[trigger] minimal@[k]).cell_decl),
                forall|k: int| 0 <= k < pending@.len() ==> (#[trigger] pending@[k]).0 < n,
            decreases targets@.len() - j,
        {
            let ghost m0 = minimal@;
            let ghost p0 = pending@;
            let t = targets[j];
            self.absorb(index, t, &mut needed, &mut minimal, &mut pending);
            proof {
                assert forall|x: TermId| #[trigger] in_any(*self, *index, targets@, (j + 1) as int, x)
                    <==> in_any(*self, *index, targets@, j as int, x) || in_slice(*self, *index, t, x) by {
                    if in_any(*self, *index, targets@, (j + 1) as int, x) {
                        let jj = choose|jj: int| 0 <= jj < j + 1 && #[trigger] in_slice(*self, *index, targets@[jj], x);
                        if jj < j {
                            assert(in_any(*self, *index, targets@, j as int, x));
                        }
                    }
                    if in_any(*self, *index, targets@, j as int, x) {
                        let jj = choose|jj: int| 0 <= jj < j && #[trigger] in_slice(*self, *index, targets@[jj], x);
                        assert(in_slice(*self, *index, targets@[jj], x));
                    }
                    if in_slice(*self, *index, t, x) {
                        assert(in_slice(*self, *index, targets@[j as int], x));
                    }
                }
                assert forall|k: int| 0 <= k < minimal@.len() implies decl_pending(pending@, (#[trigger] minimal@[k]).cell_decl) by {
                    if k < m0.len() {
                        assert(minimal@[k] == m0[k]);
                        if let Some(d) = m0[k].cell_decl {
                            let q = choose|q: int| 0 <= q < p0.len() && p0[q] == d;
                            assert(pending@[q] == p0[q]);
                        }
                    }
                }
                assert forall|k: int| 0 <= k < minimal@.len() implies in_any(*self, *index, targets@, (j + 1) as int, (#[trigger] minimal@[k]).read_term)
                    && stop_at(*self, *index, minimal@[k], minimal@[k].read_term) by {
                    if k < m0.len() {
                        assert(minimal@[k] == m0[k]);
                    }
                }
                assert forall|x: TermId| #[trigger] in_any(*self, *index, targets@, (j + 1) as int, x) && !quiet(*self, *index, x)
                    implies exists|k: int| 0 <= k < minimal@.len() && (#[trigger] minimal@[k]).read_term == x by {
                    if in_any(*self, *index, targets@, j as int, x) {
                        let k = choose|k: int| 0 <= k < m0.len() && (#[trigger] m0[k]).read_term == x;
                        assert(minimal@[k] == m0[k]);
                    }
                }
                if minimal@.len() == 0 {
                    assert(m0.len() == 0);
                }
                if forall|x: TermId| #[trigger] in_any(*self, *index, targets@, (j + 1) as int, x) ==> quiet(*self, *index, x) {
                    assert forall|x: TermId| #[trigger] in_any(*self, *index, targets@, j as int, x) implies quiet(*self, *index, x) by {
                        assert(in_any(*self, *index, targets@, (j + 1) as int, x));
                    }
                    assert forall|x: TermId| #[trigger] in_slice(*self, *index, t, x) implies quiet(*self, *index, x) by {
                        assert(in_any(*self, *index, targets@, (j + 1) as int, x));
                    }
                }
            }
            j = j + 1;
        }
        let terms = collect_marked(&needed);
        proof {
            assert forall|x: TermId| #[trigger] terms@.contains(x) <==> in_any(*self, *index, targets@, targets@.len() as int, x) by {
                if in_any(*self, *index, targets@, targets@.len() as int, x) {
                    let jj = choose|jj: int| 0 <= jj < targets@.len() && #[trigger] in_slice(*self, *index, targets@[jj], x);
                    lemma_in_slice_bounded(*self, *index, targets@[jj], x);
                    assert(TermId(x.0 as u32) == x);
                    assert(needed@[x.0 as int]);
                }
                if terms@.contains(x) {
                    assert(TermId(x.0 as u32) == x);
                }
            }
            assert(minimal@.len() == 0 <==> forall|k: int| 0 <= k < terms@.len() ==> quiet(*self, *index, #[trigger] terms@[k])) by {
                if forall|k: int| 0 <= k < terms@.len() ==> quiet(*self, *index, #[trigger] terms@[k]) {
                    assert forall|x: TermId| #[trigger] in_any(*self, *index, targets@, targets@.len() as int, x) implies quiet(*self, *index, x) by {
                        assert(terms@.contains(x));
                        let k = choose|k: int| 0 <= k < terms@.len() && terms@[k] == x;
                        assert(quiet(*self, *index, terms@[k]));
                    }
                }
                if minimal@.len() == 0 {
                    assert forall|k: int| 0 <= k < terms@.len() implies quiet(*self, *index, #[trigger] terms@[k]) by {
                        assert(terms@.contains(terms@[k]));
                        assert(in_any(*self, *index, targets@, targets@.len() as int, terms@[k]));
                    }
                }
            }
        }
        let mut cons = copy_marks(&needed);
        let mut extra: Vec<CellFrontier> = Vec::new();
        let mut seen = no_marks(n);
        let mut seen_list: Vec<TermId> = Vec::new();
        let ghost mf = minimal@;
        proof {
            assert(marks(seen@, seen_list@, n as int));
            assert forall|k: int| 0 <= k < (mf + extra@).len() implies decl_handled(seen@, pending@, (#[trigger] (mf + extra@)[k]).cell_decl) by {
                assert((mf + extra@)[k] == mf[k]);
            }
            assert forall|x: int| 0 <= x < n && cons@[x] && !quiet(*self, *index, TermId(x as u32))
                implies exists|m: int| 0 <= m < (mf + extra@).len() && (#[trigger] (mf + extra@)[m]).read_term == TermId(x as u32) by {
                assert(in_any(*self, *index, targets@, targets@.len() as int, TermId(x as u32)));
                let k = choose|k: int| 0 <= k < minimal@.len() && (#[trigger] minimal@[k]).read_term == TermId(x as u32);
                assert((mf + extra@)[k] == mf[k]);
            }
            assert forall|k: int| 0 <= k < mf.len() implies (#[trigger] mf[k]).read_term.0 < n && cons@[mf[k].read_term.0 as int] by {
                let rt = mf[k].read_term;
                let jj = choose|jj: int| 0 <= jj < targets@.len() && #[trigger] in_slice(*self, *index, targets@[jj], rt);
                lemma_in_slice_bounded(*self, *index, targets@[jj], rt);
                assert(TermId(rt.0 as u32) == rt);
            }
        }
        while pending.len() > 0
            invariant
                n == self.terms@.len(),
                self.wf(),
                index.within(n as nat),
                minimal@ == mf,
                cons@.len() == n,
                forall|x: int| 0 <= x < n && needed@[x] ==> #[trigger] cons@[x],
                marks_closed(*self, *index, cons@),
                marks(seen@, seen_list@, n as int),
                seen_list@.len() <= n,
                forall|x: int| 0 <= x < n && #[trigger] seen@[x] ==> cons@[x]
                    && forall|w: int| 0 <= w < index.writes_spec(x as u32).len()
                        ==> cons@[(#[trigger] index.writes_spec(x as u32)[w]).0 as int],
                forall|k: int| 0 <= k < (mf + extra@).len() ==> decl_handled(seen@, pending@, (#[trigger] (mf + extra@)[k]).cell_decl),
                forall|k: int| 0 <= k < mf.len() ==> (#[trigger] mf[k]).read_term.0 < n && cons@[mf[k].read_term.0 as int],
                forall|k: int| 0 <= k < extra@.len() ==> (#[trigger] extra@[k]).read_term.0 < n && cons@[extra@[k].read_term.0 as int]
                    && stop_at(*self, *index, extra@[k], extra@[k].read_term),
                forall|x: int| 0 <= x < n && cons@[x] && !quiet(*self, *index, TermId(x as u32))
                    ==> exists|m: int| 0 <= m < (mf + extra@).len() && (#[trigger] (mf + extra@)[m]).read_term == TermId(x as u32),
                forall|k: int| 0 <= k < pending@.len() ==> (#[trigger] pending@[k]).0 < n,
            decreases n - seen_list@.len(), pending@.len(),
        {
            let ghost pb = pending@;
            let decl = pending.pop().unwrap();
            proof {
                assert(pb == pending@.push(decl));
                assert(decl == pb[pb.len() - 1]);
                assert forall|d: TermId| pb.contains(d) implies pending@.contains(d) || d == decl by {
                    lemma_push_contains(pending@, decl, d);
                }
            }
            if seen[decl.0 as usize] {
                proof {
                    assert forall|k: int| 0 <= k < (mf + extra@).len() implies decl_handled(seen@, pending@, (#[trigger] (mf + extra@)[k]).cell_decl) by {
                        if let Some(d) = (mf + extra@)[k].cell_decl {
                            if pb.contains(d) && d != decl {
                                assert(pending@.contains(d));
                            }
                        }
                    }
                }
                continue;
            }
            let ghost seen_before = seen@;
            let ghost list_before = seen_list@;
            seen.set(decl.0 as usize, true);
            seen_list.push(decl);
            proof {
                assert(TermId(decl.0 as u32) == decl);
                assert(!list_before.contains(decl));
                assert forall|z: TermId| #[trigger] seen_list@.contains(z) <==> (list_before.contains(z) || z == decl) by {
                    lemma_push_contains(list_before, decl, z);
                }
                assert(seen_list@.no_duplicates()) by {
                    assert forall|a: int, b: int| 0 <= a < seen_list@.len() && 0 <= b < seen_list@.len() && a != b
                        implies seen_list@[a] != seen_list@[b] by {
                        if a == list_before.len() {
                            assert(seen_list@[b] == list_before[b]);
                        } else if b == list_before.len() {
                            assert(seen_list@[a] == list_before[a]);
                        } else {
                            assert(seen_list@[a] == list_before[a]);
                            assert(seen_list@[b] == list_before[b]);
                        }
                    }
                }
                assert forall|k: int| 0 <= k < seen_list@.len() implies (#[trigger] seen_list@[k]).0 < n by {
                    if k < list_before.len() {
                        assert(seen_list@[k] == list_before[k]);
                    }
                }
                assert forall|x: int| 0 <= x < n implies (#[trigger] seen@[x] <==> seen_list@.contains(TermId(x as u32))) by {
                    if x == decl.0 {
                        assert(TermId(x as u32) == decl);
                    }
                }
                lemma_distinct_terms_fit(seen_list@, n as int);
            }
            let ghost extra_before = extra@;
            let ghost cons_before = cons@;
            let ghost pending_before = pending@;
            self.absorb(index, decl, &mut cons, &mut extra, &mut pending);
            proof {
                lemma_absorb_keeps(*self, *index, mf, extra_before, extra@, cons_before, cons@, pending_before, pending@, seen@, decl);
                assert(cons@[decl.0 as int]) by {
                    assert(in_slice(*self, *index, decl, TermId(decl.0 as u32)));
                }
            }
            let writes = index.writes_of(decl);
            let mut q: usize = 0;
            while q < writes.len()
                invariant
                    n == self.terms@.len(),
                    self.wf(),
                    index.within(n as nat),
                    minimal@ == mf,
                    writes@ == index.writes_spec(decl.0),
                    decl.0 < n,
                    q <= writes@.len(),
                    cons@.len() == n,
                    cons@[decl.0 as int],
                    forall|w: int| 0 <= w < q ==> cons@[(#[trigger] writes@[w]).0 as int],
                    forall|x: int| 0 <= x < n && needed@[x] ==> #[trigger] cons@[x],
                    marks_closed(*self, *index, cons@),
                    marks(seen@, seen_list@, n as int),
                    seen_list@.len() <= n,
                    seen@[decl.0 as int],
                    forall|x: int| 0 <= x < n && x != decl.0 && #[trigger] seen@[x] ==> cons@[x]
                        && forall|w: int| 0 <= w < index.writes_spec(x as u32).len()
                            ==> cons@[(#[trigger] index.writes_spec(x as u32)[w]).0 as int],
                    forall|k: int| 0 <= k < (mf + extra@).len() ==> decl_handled(seen@, pending@, (#[trigger] (mf + extra@)[k]).cell_decl),
                    forall|k: int| 0 <= k < mf.len() ==> (#[trigger] mf[k]).read_term.0 < n && cons@[mf[k].read_term.0 as int],
                    forall|k: int| 0 <= k < extra@.len() ==> (#[trigger] extra@[k]).read_term.0 < n && cons@[extra@[k].read_term.0 as int]
                        && stop_at(*self, *index, extra@[k], extra@[k].read_term),
                    forall|x: int| 0 <= x < n && cons@[x] && !quiet(*self, *index, TermId(x as u32))
                        ==> exists|m: int| 0 <= m < (mf + extra@).len() && (#[trigger] (mf + extra@)[m]).read_term == TermId(x as u32),
                    forall|k: int| 0 <= k < pending@.len() ==> (#[trigger] pending@[k]).0 < n,
                decreases writes@.len() - q,
            {
                let w = writes[q];
                proof {
                    assert(index.writes_spec(decl.0)[q as int].0 < n);
                }
                let ghost extra_before2 = extra@;
                let ghost cons_before2 = cons@;
                let ghost pending_before2 = pending@;
                self.absorb(index, w, &mut cons, &mut extra, &mut pending);
                proof {
                    lemma_absorb_keeps(*self, *index, mf, extra_before2, extra@, cons_before2, cons@, pending_before2, pending@, seen@, w);
                    assert(cons@[w.0 as int]) by {
                        assert(in_slice(*self, *index, w, TermId(w.0 as u32)));
                    }
                }
                q = q + 1;
            }
        }
        let conservative_terms = collect_marked(&cons);
        proof {
            let c = conservative_terms@;
            assert forall|k: int, j: int| 0 <= k < c.len() && 0 <= j < preds(*self, *index, c[k]).len()
                implies c.contains(#[trigger] preds(*self, *index, #[trigger] c[k])[j]) by {
                let x = c[k];
                assert(c.contains(x));
                assert(cons@[x.0 as int]);
                assert(TermId(x.0 as u32) == x);
                let z = preds(*self, *index, x)[j];
                lemma_preds_within(*self, *index, x, j);
                assert(cons@[z.0 as int]);
                assert(TermId(z.0 as u32) == z);
            }
            assert((mf + extra@).take(mf.len() as int) =~= mf);
            assert forall|k: int| 0 <= k < c.len() && !quiet(*self, *index, #[trigger] c[k])
                implies exists|m: int| 0 <= m < (mf + extra@).len() && (#[trigger] (mf + extra@)[m]).read_term == c[k] by {
                let x = c[k];
                assert(c.contains(x));
                assert(TermId(x.0 as u32) == x);
                assert(cons@[x.0 as int]);
            }
            assert forall|k: int| 0 <= k < (mf + extra@).len() implies decl_covered(*index, conservative_terms@, (#[trigger] (mf + extra@)[k]).cell_decl) by {
                assert(decl_handled(seen@, pending@, (mf + extra@)[k].cell_decl));
                if let Some(d) = (mf + extra@)[k].cell_decl {
                    assert(seen@[d.0 as int]);
                    assert(TermId(d.0 as u32) == d);
                    assert(conservative_terms@.contains(d));
                    assert forall|w: int| 0 <= w < index.writes_spec(d.0).len()
                        implies conservative_terms@.contains(#[trigger] index.writes_spec(d.0)[w]) by {
                        let wt = index.writes_spec(d.0)[w];
                        assert(cons@[wt.0 as int]);
                        assert(TermId(wt.0 as u32) == wt);
                    }
                }
            }
        }
        let ghost t = terms@;
        let ghost c = conservative_terms@;
        let ghost e = extra@;
        let r = SliceResult { terms, minimal_frontier: minimal, conservative_terms, extra_frontier: extra };
        proof {
            assert(r.terms_spec() == t);
            assert(r.conservative_terms_spec() == c);
            assert(r.minimal_frontier_spec() == mf);
            assert(r.conservative_frontier_spec() == mf + e);
            assert forall|x: TermId| t.contains(x) implies #[trigger] c.contains(x) by {
                assert(TermId(x.0 as u32) == x);
            }
            assert forall|k: int| 0 <= k < (mf + e).len() implies c.contains((#[trigger] (mf + e)[k]).read_term)
                && stop_at(*self, *index, (mf + e)[k], (mf + e)[k].read_term) by {
                let rt = (mf + e)[k].read_term;
                if k < mf.len() {
                    assert((mf + e)[k] == mf[k]);
                } else {
                    assert((mf + e)[k] == e[k - mf.len()]);
                }
                assert(TermId(rt.0 as u32) == rt);
            }
        }
        r
    }
}

/// What an `absorb` into the conservative slice keeps of its invariants.
proof fn lemma_absorb_keeps(
    p: Program,
    idx: CellIndex,
    mf: Seq<CellFrontier>,
    extra0: Seq<CellFrontier>,
    extra1: Seq<CellFrontier>,
    cons0: Seq<bool>,
    cons1: Seq<bool>,
    pending0: Seq<TermId>,
    pending1: Seq<TermId>,
    seen: Seq<bool>,
    root: TermId,
)
    requires
        p.wf(),
        idx.within(p.terms@.len()),
        root.0 < p.terms@.len(),
        cons0.len() == p.terms@.len(),
        cons1.len() == p.terms@.len(),
        forall|x: int| 0 <= x < p.terms@.len() ==> (#[trigger] cons1[x] <==> cons0[x] || in_slice(p, idx, root, TermId(x as u32))),
        extra1.len() >= extra0.len(),
        extra1.take(extra0.len() as int) == extra0,
        forall|k: int| extra0.len() <= k < extra1.len()
            ==> in_slice(p, idx, root, (#[trigger] extra1[k]).read_term) && stop_at(p, idx, extra1[k], extra1[k].read_term),
        forall|x: TermId| #[trigger] in_slice(p, idx, root, x) && !quiet(p, idx, x)
            ==> exists|k: int| extra0.len() <= k < extra1.len() && (#[trigger] extra1[k]).read_term == x,
        pending1.len() >= pending0.len(),
        pending1.take(pending0.len() as int) == pending0,
        forall|k: int| extra0.len() <= k < extra1.len() ==> decl_pending(pending1, (#[trigger] extra1[k]).cell_decl),
        forall|k: int| 0 <= k < (mf + extra0).len() ==> decl_handled(seen, pending0, (#[trigger] (mf + extra0)[k]).cell_decl),
        forall|k: int| 0 <= k < extra0.len() ==> (#[trigger] extra0[k]).read_term.0 < p.terms@.len()
            && cons0[extra0[k].read_term.0 as int] && stop_at(p, idx, extra0[k], extra0[k].read_term),
        forall|x: int| 0 <= x < p.terms@.len() && cons0[x] && !quiet(p, idx, TermId(x as u32))
            ==> exists|m: int| 0 <= m < (mf + extra0).len() && (#[trigger] (mf + extra0)[m]).read_term == TermId(x as u32),
    ensures
        forall|k: int| 0 <= k < (mf + extra1).len() ==> decl_handled(seen, pending1, (#[trigger] (mf + extra1)[k]).cell_decl),
        forall|k: int| 0 <= k < extra1.len() ==> (#[trigger] extra1[k]).read_term.0 < p.terms@.len()
            && cons1[extra1[k].read_term.0 as int] && stop_at(p, idx, extra1[k], extra1[k].read_term),
        forall|x: int| 0 <= x < p.terms@.len() && cons1[x] && !quiet(p, idx, TermId(x as u32))
            ==> exists|m: int| 0 <= m < (mf + extra1).len() && (#[trigger] (mf + extra1)[m]).read_term == TermId(x as u32),
        forall|x: int| 0 <= x < p.terms@.len() && cons0[x] ==> #[trigger] cons1[x],
{
    let n = p.terms@.len();
    assert forall|k: int| 0 <= k < (mf + extra1).len() implies decl_handled(seen, pending1, (#[trigger] (mf + extra1)[k]).cell_decl) by {
        if k < mf.len() + extra0.len() {
            assert((mf + extra1)[k] == (mf + extra0)[k]) by {
                if k >= mf.len() {
                    assert(extra1[k - mf.len()] == extra0[k - mf.len()]);
                }
            }
            if let Some(d) = (mf + extra0)[k].cell_decl {
                if pending0.contains(d) {
                    let q = choose|q: int| 0 <= q < pending0.len() && pending0[q] == d;
                    assert(pending1[q] == pending0[q]);
                }
            }
        } else {
            assert((mf + extra1)[k] == extra1[k - mf.len()]);
        }
    }
    assert forall|k: int| 0 <= k < extra1.len() implies (#[trigger] extra1[k]).read_term.0 < n
        && cons1[extra1[k].read_term.0 as int] && stop_at(p, idx, extra1[k], extra1[k].read_term) by {
        if k < extra0.len() {
            assert(extra1[k] == extra0[k]);
        } else {
            let rt = extra1[k].read_term;
            lemma_in_slice_bounded(p, idx, root, rt);
            assert(TermId(rt.0 as u32) == rt);
        }
    }
    assert forall|x: int| 0 <= x < n && cons1[x] && !quiet(p, idx, TermId(x as u32))
        implies exists|m: int| 0 <= m < (mf + extra1).len() && (#[trigger] (mf + extra1)[m]).read_term == TermId(x as u32) by {
        if cons0[x] {
            let m = choose|m: int| 0 <= m < (mf + extra0).len() && (#[trigger] (mf + extra0)[m]).read_term == TermId(x as u32);
            if m >= mf.len() {
                assert(extra1[m - mf.len()] == extra0[m - mf.len()]);
            }
            assert((mf + extra1)[m] == (mf + extra0)[m]);
        } else {
            let k = choose|k: int| extra0.len() <= k < extra1.len() && (#[trigger] extra1[k]).read_term == TermId(x as u32);
            assert((mf + extra1)[mf.len() + k] == extra1[k]);
        }
    }
}

// ---------------------------------------------------------------------------
// Term lookup
// ---------------------------------------------------------------------------

/// The value of a run of decimal digits.
pub open spec fn decimal_value(s: Seq<char>) -> nat
    decreases s.len(),
{
    if s.len() == 0 {
        0
    } else {
        decimal_value(s.drop_last()) * 10 + (s.last() as nat - '0' as nat) as nat
    }
}

/// Every character of `s` is an ASCII digit.
pub open spec fn digits_only(s: Seq<char>) -> bool {
    forall|i: int| 0 <= i < s.len() ==> '0' <= #[trigger] s[i] <= '9'
}

/// What `str::parse::<u32>` accepts: an optional `+`, then one or more
/// digits whose value fits in `u32`.
pub open spec fn parse_u32_spec(s: Seq<char>) -> Option<nat> {
    let digits = if s.len() > 0 && s[0] == '+' { s.drop_first() } else { s };
    if digits.len() > 0 && digits_only(digits) && decimal_value(digits) <= u32::MAX {
        Some(decimal_value(digits))
    } else {
        None
    }
}

proof fn lemma_decimal_grows(s: Seq<char>, k: int)
    requires
        0 <= k <= s.len(),
        digits_only(s),
    ensures
        decimal_value(s.take(k)) <= decimal_value(s),
    decreases s.len() - k,
{
    if k < s.len() {
        lemma_decimal_grows(s, k + 1);
        assert(s.take(k + 1).drop_last() =~= s.take(k));
    } else {
        assert(s.take(k) =~= s);
    }
}

/// `str::parse::<u32>`.
fn parse_u32(s: &[char]) -> (r: Option<u32>)
    ensures
        match r {
            Some(v) => parse_u32_spec(s@) == Some(v as nat),
            None => parse_u32_spec(s@) is None,
        },
{
    let start: usize = if s.len() > 0 && s[0] == '+' { 1 } else { 0 };
    let ghost digits = if s@.len() > 0 && s@[0] == '+' { s@.drop_first() } else { s@ };
    proof {
        assert(digits =~= s@.subrange(start as int, s@.len() as int));
    }
    if start >= s.len() {
        return None;
    }
    let mut value: u64 = 0;
    let mut i = start;
    while i < s.len()
        invariant
            start <= i <= s@.len(),
            start < s@.len(),
            digits == s@.subrange(start as int, s@.len() as int),
            digits == (if s@.len() > 0 && s@[0] == '+' { s@.drop_first() } else { s@ }),
            forall|j: int| 0 <= j < i - start ==> '0' <= #[trigger] digits[j] <= '9',
            value as nat == decimal_value(digits.take(i - start)),
            value <= u32::MAX,
        decreases s@.len() - i,
    {
        let c = s[i];
        if !('0' <= c && c <= '9') {
            proof {
                assert(digits[i - start] == c);
                assert(!digits_only(digits));
            }
            return None;
        }
        proof {
            assert(digits.take(i - start + 1).drop_last() =~= digits.take(i - start));
            assert(digits.take(i - start + 1).last() == c);
        }
        let d = (c as u32 - '0' as u32) as u64;
        value = value * 10 + d;
        proof {
            assert(value as nat == decimal_value(digits.take(i - start + 1)));
        }
        if value > 0xFFFF_FFFF {
            proof {
                if digits_only(digits) {
                    lemma_decimal_grows(digits, i - start + 1);
                }
                assert(!(digits_only(digits) && decimal_value(digits) <= u32::MAX));
            }
            return None;
        }
        i = i + 1;
    }
    proof {
        assert(digits.take(s@.len() - start) =~= digits);
    }
    Some(value as u32)
}

/// The last of the first `k` terms named `q`.
pub open spec fn last_named(terms: Seq<Term>, q: Seq<char>, k: int) -> Option<int>
    decreases k,
{
    if k <= 0 {
        None
    } else if terms[k - 1].name matches Some(nm) && nm@ == q {
        Some(k - 1)
    } else {
        last_named(terms, q, k - 1)
    }
}

/// What [`Program::find_term`] finds for `q` among `n` terms: the id `tN`,
/// else the bare number `N`, when it names a term; else the last term named
/// `q`, the way a later binding shadows an earlier one.
pub open spec fn find_term_spec(terms: Seq<Term>, q: Seq<char>) -> Option<TermId> {
    let n = terms.len();
    let by_id = if q.len() > 0 && q[0] == 't' { parse_u32_spec(q.drop_first()) } else { None };
    let by_number = parse_u32_spec(q);
    if by_id is Some && by_id->0 < n {
        Some(TermId(by_id->0 as u32))
    } else if by_number is Some && by_number->0 < n {
        Some(TermId(by_number->0 as u32))
    } else {
        match last_named(terms, q, n as int) {
            Some(t) => Some(TermId(t as u32)),
            None => None,
        }
    }
}

impl Program {
    /// Find a term by id string (`t24`), by bare number (`24`), or by name.
    pub fn find_term(&self, query: &str) -> (r: Option<TermId>)
        requires
            self.wf(),
        ensures
            r == find_term_spec(self.terms@, query@),
    {
        let q = crate::text::chars_of(query);
        let n = self.terms.len();
        if q.len() > 0 && q[0] == 't' {
            let rest = crate::text::slice_chars(q.as_slice(), 1, q.len());
            proof {
                assert(rest@ =~= query@.drop_first());
            }
            if let Some(id) = parse_u32(rest.as_slice()) {
                if (id as usize) < n {
                    return Some(TermId(id));
                }
            }
        }
        if let Some(id) = parse_u32(q.as_slice()) {
            if (id as usize) < n {
                return Some(TermId(id));
            }
        }
        let mut found: Option<TermId> = None;
        let mut i: usize = 0;
        while i < n
            invariant
                i <= n,
                n == self.terms@.len(),
                self.wf(),
                found == (match last_named(self.terms@, query@, i as int) {
                    Some(t) => Some(TermId(t as u32)),
                    None => None::<TermId>,
                }),
            decreases n - i,
        {
            let term = &self.terms[i];
            match &term.name {
                Some(nm) => {
                    if crate::text::str_eq(nm.as_str(), query) {
                        found = Some(term.id);
                    }
                },
                None => {},
            }
            i = i + 1;
        }
        found
    }
}

/// Names in strictly increasing order.
pub open spec fn names_sorted(v: Seq<String>) -> bool {
    forall|i: int, j: int| 0 <= i < j < v.len() ==> crate::package::seq_lt((#[trigger] v[i])@, (#[trigger] v[j])@)
}

/// Some name of `v` spells `s`.
pub open spec fn has_name(v: Seq<String>, s: Seq<char>) -> bool {
    exists|i: int| 0 <= i < v.len() && (#[trigger] v[i])@ == s
}

/// Insert `name` into the sorted names `v`, unless it is there.
pub(crate) fn insert_name(v: &mut Vec<String>, name: &str)
    requires
        names_sorted(old(v)@),
    ensures
        names_sorted(final(v)@),
        forall|s: Seq<char>| #[trigger] has_name(final(v)@, s) <==> has_name(old(v)@, s) || s == name@,
{
    let key = crate::text::chars_of(name);
    let mut i: usize = 0;
    while i < v.len()
        invariant
            i <= v@.len(),
            names_sorted(v@),
            key@ == name@,
            forall|j: int| 0 <= j < i ==> crate::package::seq_lt((#[trigger] v@[j])@, key@),
        ensures
            i <= v@.len(),
            names_sorted(v@),
            key@ == name@,
            forall|j: int| 0 <= j < i ==> crate::package::seq_lt((#[trigger] v@[j])@, key@),
            i < v@.len() ==> !crate::package::seq_lt(v@[i as int]@, key@),
        decreases v@.len() - i,
    {
        let cur = crate::text::chars_of(v[i].as_str());
        if !crate::package::chars_lt(cur.as_slice(), key.as_slice()) {
            break;
        }
        i = i + 1;
    }
    if i < v.len() {
        let cur = crate::text::chars_of(v[i].as_str());
        if crate::text::chars_eq(cur.as_slice(), key.as_slice()) {
            proof {
                assert forall|s: Seq<char>| #[trigger] has_name(v@, s) <==> has_name(v@, s) || s == name@ by {
                    if s == name@ {
                        assert(v@[i as int]@ == s);
                    }
                }
            }
            return;
        }
    }
    let ghost before = v@;
    proof {
        if i < before.len() {
            let c = before[i as int]@;
            assert(!crate::package::seq_lt(c, key@));
            assert(c != key@);
            crate::package::lemma_seq_lt_total(c, key@);
        }
    }
    v.insert(i, crate::text::string_from(name));
    proof {
        assert forall|a: int, b: int| 0 <= a < b < v@.len() implies crate::package::seq_lt((#[trigger] v@[a])@, (#[trigger] v@[b])@) by {
            if b < i {
                assert(v@[a] == before[a]);
                assert(v@[b] == before[b]);
            } else if b == i {
                assert(v@[a] == before[a]);
            } else if a == i {
                assert(v@[b] == before[b - 1]);
                if b - 1 > i {
                    assert(crate::package::seq_lt(before[i as int]@, before[b - 1]@));
                    crate::package::lemma_seq_lt_trans(name@, before[i as int]@, before[b - 1]@);
                }
            } else if a < i {
                assert(v@[a] == before[a]);
                assert(v@[b] == before[b - 1]);
                if b - 1 > i {
                    assert(crate::package::seq_lt(before[i as int]@, before[b - 1]@));
                    crate::package::lemma_seq_lt_trans(name@, before[i as int]@, before[b - 1]@);
                }
                crate::package::lemma_seq_lt_trans(before[a]@, name@, before[b - 1]@);
            } else {
                assert(v@[a] == before[a - 1]);
                assert(v@[b] == before[b - 1]);
            }
        }
        assert forall|s: Seq<char>| #[trigger] has_name(v@, s) <==> has_name(before, s) || s == name@ by {
            if has_name(v@, s) {
                let j = choose|j: int| 0 <= j < v@.len() && (#[trigger] v@[j])@ == s;
                if j < i {
                    assert(v@[j] == before[j]);
                } else if j > i {
                    assert(v@[j] == before[j - 1]);
                }
            }
            if has_name(before, s) {
                let j = choose|j: int| 0 <= j < before.len() && (#[trigger] before[j])@ == s;
                if j < i {
                    assert(v@[j] == before[j]);
                } else {
                    assert(v@[j + 1] == before[j]);
                }
            }
            if s == name@ {
                assert(v@[i as int]@ == s);
            }
        }
    }
}

/// Term `t` carries the name `s` and a real source position (line > 0).
pub open spec fn user_named(p: Program, t: int, s: Seq<char>) -> bool {
    &&& p.terms@[t].name matches Some(nm) && nm@ == s
    &&& p.source_map.spans().contains_key(t as u32)
    &&& p.source_map.spans()[t as u32].start.line > 0
}

impl Program {
    /// The distinct user-visible names bound to terms, sorted: a phantom
    /// builtin term, which has no real source span, does not count. Used for
    /// "did you mean?" hints on a term lookup that misses.
    pub fn named_terms(&self) -> (r: Vec<String>)
        requires
            self.wf(),
        ensures
            names_sorted(r@),
            forall|s: Seq<char>| #[trigger] has_name(r@, s)
                <==> exists|t: int| 0 <= t < self.terms@.len() && #[trigger] user_named(*self, t, s),
    {
        let mut names: Vec<String> = Vec::new();
        let mut i: usize = 0;
        while i < self.terms.len()
            invariant
                i <= self.terms@.len(),
                self.wf(),
                names_sorted(names@),
                forall|s: Seq<char>| #[trigger] has_name(names@, s)
                    <==> exists|t: int| 0 <= t < i && #[trigger] user_named(*self, t, s),
            decreases self.terms@.len() - i,
        {
            let term = &self.terms[i];
            let ghost before = names@;
            proof {
                assert(term.id.0 == i);
            }
            if let Some(name) = &term.name {
                match self.source_map.get(term.id) {
                    Some(span) => {
                        if span.start.line > 0 {
                            insert_name(&mut names, name.as_str());
                        }
                    },
                    None => {},
                }
            }
            proof {
                assert forall|s: Seq<char>| #[trigger] has_name(names@, s)
                    <==> exists|t: int| 0 <= t < i + 1 && #[trigger] user_named(*self, t, s) by {
                    if exists|t: int| 0 <= t < i + 1 && #[trigger] user_named(*self, t, s) {
                        let t = choose|t: int| 0 <= t < i + 1 && #[trigger] user_named(*self, t, s);
                        if t < i {
                            assert(has_name(before, s));
                        }
                    }
                    if has_name(names@, s) && !has_name(before, s) {
                        assert(user_named(*self, i as int, s));
                    }
                    if has_name(before, s) {
                        let t = choose|t: int| 0 <= t < i && #[trigger] user_named(*self, t, s);
                        assert(user_named(*self, t, s));
                    }
                }
            }
            i = i + 1;
        }
        names
    }
}

/// Every input an `inputs_where` keeps sits at a position whose identity
/// flag is the one asked for.
proof fn lemma_inputs_where_flag(decl_of: Map<u32, TermId>, op: TermOp, ins: Seq<TermId>, n: int, want: bool, j: int)
    requires
        0 <= n <= ins.len(),
        0 <= j < inputs_where(decl_of, op, ins, n, want).len(),
    ensures
        exists|pos: int| 0 <= pos < n && identity_at(decl_of, op, ins, pos) == want
            && #[trigger] ins[pos] == inputs_where(decl_of, op, ins, n, want)[j],
    decreases n,
{
    let before = inputs_where(decl_of, op, ins, n - 1, want);
    if j < before.len() {
        lemma_inputs_where_flag(decl_of, op, ins, n - 1, want, j);
        assert(inputs_where(decl_of, op, ins, n, want)[j] == before[j]);
        let pos = choose|pos: int| 0 <= pos < n - 1 && identity_at(decl_of, op, ins, pos) == want
            && #[trigger] ins[pos] == before[j];
        assert(ins[pos] == inputs_where(decl_of, op, ins, n, want)[j]);
    } else {
        assert(inputs_where(decl_of, op, ins, n, want)[j] == ins[n - 1]);
    }
}

/// The forward walk takes every value step of the backward walk in
/// reverse: when `x` is a value input of `y`, or a function a method call
/// `y` may dispatch to, then `y` is a user of `x` by a dataflow or a
/// dispatch edge. (A phi's rebind steps have no forward counterpart.)
pub proof fn law_value_steps_have_forward_edges(p: Program, idx: CellIndex, x: TermId, y: TermId)
    requires
        y.0 < p.terms@.len(),
        idx.value_inputs_spec(p.terms@[y.0 as int].op, input_items(p.terms@[y.0 as int].inputs)).contains(x),
    ensures
        is_user(p, idx, x, y, EdgeKind::Dataflow) || is_user(p, idx, x, y, EdgeKind::DispatchMay),
{
    let term = p.terms@[y.0 as int];
    let ins = input_items(term.inputs);
    let kept = inputs_where(idx.decl_map(), term.op, ins, ins.len() as int, false);
    let vi = idx.value_inputs_spec(term.op, ins);
    let j = choose|j: int| 0 <= j < vi.len() && vi[j] == x;
    if j < kept.len() {
        assert(vi[j] == kept[j]);
        lemma_inputs_where_flag(idx.decl_map(), term.op, ins, ins.len() as int, false, j);
        let pos = choose|pos: int| 0 <= pos < ins.len() && identity_at(idx.decl_map(), term.op, ins, pos) == false
            && #[trigger] ins[pos] == kept[j];
        assert(value_user(p, idx, x, y.0 as int));
    } else {
        let d = idx.dispatch_inputs_spec(term.op);
        assert(vi[j] == d[j - kept.len()]);
        assert(d.contains(x));
        assert(dispatch_user(p, idx, x, y.0 as int));
    }
}

} // verus!
