use petal::program::{
    inputs_from, Block, BlockId, ConstantId, FunctionId, Program, ProgramId, RegisterIndex, Term,
    TermId, TermOp,
};
use petal::program_analysis::{CellFrontier, EdgeKind};
use petal::static_value::StaticValueError;
use petal::source_map::{FileId, SourceMap, SourcePosition, SourceSpan};

/// Build a minimal program with the given terms, all in one block.
fn test_program(terms: Vec<Term>) -> Program {
    let root_block = BlockId(0);
    let blocks = vec![Block {
        id: root_block,
        parent_term_id: None,
        entry: terms.first().map(|t| t.id),
        terms: terms.iter().map(|t| t.id).collect(),
        param_names: vec![],
        register_count: terms.len() as u16,
        phi_outs: vec![],
    }];
    Program {
        id: ProgramId(0),
        source: String::new(),
        terms,
        blocks,
        root_block,
        string_constants: vec![None, None, None],
        source_map: SourceMap::new(),
        has_errors: false,
        functions: vec![],
    }
}

fn make_term(id: u32, op: TermOp, inputs: Vec<u32>, name: Option<&str>) -> Term {
    Term::new(
        TermId(id),
        op,
        inputs_from(inputs.into_iter().map(TermId).collect()),
        BlockId(0),
        name.map(|s| s.to_string()),
        RegisterIndex(id as u16),
    )
}

#[test]
fn method_dispatch_is_a_backward_dataflow_edge() {
    let declare = ConstantId(0);
    let class = ConstantId(1);
    let method = ConstantId(2);
    let mut prog = test_program(vec![
        // t0..t2: the declaration and its registration.
        make_term(0, TermOp::MakeClosure(FunctionId(0)), vec![], Some("Point.dist2")),
        make_term(1, TermOp::Constant(class), vec![], None),
        make_term(2, TermOp::Constant(method), vec![], None),
        make_term(3, TermOp::BuiltinCall(declare), vec![1, 2, 0], None),
        // t4: the receiver; t5: `recv.dist2()`.
        make_term(4, TermOp::Constant(class), vec![], Some("base")),
        make_term(
            5,
            TermOp::MethodCall {
                name: method,
                hint: None,
            },
            vec![4],
            Some("d"),
        ),
    ]);
    prog.string_constants = vec![
        Some("__declare_method".to_string()),
        Some("Point".to_string()),
        Some("dist2".to_string()),
    ];

    assert_eq!(
        prog.dispatch_targets().get(&method.0).map(Vec::as_slice),
        Some([TermId(0)].as_slice())
    );

    let index = prog.cell_index();
    let call = prog.get_term(TermId(5));
    assert!(
        index.value_inputs(call).contains(&TermId(0)),
        "the method's function term is a backward edge of the call"
    );
    // …and nothing else gains one.
    assert!(index.dispatch_inputs(prog.get_term(TermId(3))).is_empty());

    let prov = prog.trace_provenance(TermId(5));
    assert!(prov.ancestors.contains(&TermId(0)), "{:?}", prov.ancestors);

    let deps = prog.trace_dependents(TermId(0));
    assert!(deps.dependents.contains(&TermId(5)));
    assert!(deps
        .edges
        .iter()
        .any(|&(f, t, k)| f == TermId(0) && t == TermId(5) && k == EdgeKind::DispatchMay));
}

#[test]
fn find_term_by_name() {
    let prog = test_program(vec![
        make_term(0, TermOp::Constant(ConstantId(0)), vec![], Some("x")),
        make_term(1, TermOp::Copy, vec![0], Some("y")),
    ]);
    assert_eq!(prog.find_term("x"), Some(TermId(0)));
    assert_eq!(prog.find_term("y"), Some(TermId(1)));
    assert_eq!(prog.find_term("z"), None);
}

#[test]
fn find_term_by_id_string() {
    let prog = test_program(vec![make_term(0, TermOp::Constant(ConstantId(0)), vec![], None)]);
    assert_eq!(prog.find_term("t0"), Some(TermId(0)));
    assert_eq!(prog.find_term("t99"), None);
}

#[test]
fn find_term_last_name_wins() {
    // Like variable shadowing: last definition with same name is found
    let prog = test_program(vec![
        make_term(0, TermOp::Constant(ConstantId(0)), vec![], Some("x")),
        make_term(1, TermOp::Constant(ConstantId(1)), vec![], Some("x")),
    ]);
    assert_eq!(prog.find_term("x"), Some(TermId(1)));
}

#[test]
fn find_term_by_bare_number_and_sign() {
    let prog = test_program(vec![
        make_term(0, TermOp::Constant(ConstantId(0)), vec![], Some("12")),
        make_term(1, TermOp::Constant(ConstantId(1)), vec![], Some("t5")),
    ]);
    assert_eq!(prog.find_term("1"), Some(TermId(1)));
    assert_eq!(prog.find_term("+1"), Some(TermId(1)));
    assert_eq!(prog.find_term("t+0"), Some(TermId(0)));
    // Out of range as a number, so it is looked up as a name.
    assert_eq!(prog.find_term("12"), Some(TermId(0)));
    assert_eq!(prog.find_term("t5"), Some(TermId(1)));
    assert_eq!(prog.find_term("t"), None);
    assert_eq!(prog.find_term("99999999999"), None);
}

#[test]
fn trace_provenance_leaf_has_no_ancestors() {
    let prog = test_program(vec![make_term(0, TermOp::Constant(ConstantId(0)), vec![], Some("x"))]);
    let prov = prog.trace_provenance(TermId(0));
    assert!(prov.ancestors.is_empty());
    assert!(prov.edges.is_empty());
    assert!(prov.is_complete());
}

#[test]
fn trace_provenance_single_input() {
    let prog = test_program(vec![
        make_term(0, TermOp::Constant(ConstantId(0)), vec![], Some("a")),
        make_term(1, TermOp::Copy, vec![0], Some("b")),
    ]);
    let prov = prog.trace_provenance(TermId(1));
    assert_eq!(prov.ancestors, vec![TermId(0)]);
    assert_eq!(prov.edges, vec![(TermId(0), TermId(1))]);
}

#[test]
fn trace_provenance_diamond() {
    // c depends on a and b, both depend on const
    let prog = test_program(vec![
        make_term(0, TermOp::Constant(ConstantId(0)), vec![], None),
        make_term(1, TermOp::Copy, vec![0], Some("a")),
        make_term(2, TermOp::Copy, vec![0], Some("b")),
        make_term(3, TermOp::Add, vec![1, 2], Some("c")),
    ]);
    let prov = prog.trace_provenance(TermId(3));
    // BFS order: 1, 2, 0 (1 and 2 are direct inputs, 0 is shared ancestor)
    assert_eq!(prov.ancestors.len(), 3);
    assert!(prov.ancestors.contains(&TermId(1)));
    assert!(prov.ancestors.contains(&TermId(2)));
    assert!(prov.ancestors.contains(&TermId(0)));
    // Should have 4 edges: (1,3), (2,3), (0,1), (0,2)
    assert_eq!(prov.edges.len(), 4);
    assert_eq!(prov.ancestors, vec![TermId(1), TermId(2), TermId(0)]);
}

#[test]
fn trace_dependents_leaf_has_no_dependents() {
    // Terminal node with no users
    let prog = test_program(vec![
        make_term(0, TermOp::Constant(ConstantId(0)), vec![], Some("x")),
        make_term(1, TermOp::Copy, vec![0], Some("y")),
    ]);
    let deps = prog.trace_dependents(TermId(1));
    assert!(deps.dependents.is_empty());
    assert!(deps.edges.is_empty());
}

#[test]
fn trace_dependents_single_user() {
    let prog = test_program(vec![
        make_term(0, TermOp::Constant(ConstantId(0)), vec![], Some("a")),
        make_term(1, TermOp::Copy, vec![0], Some("b")),
    ]);
    let deps = prog.trace_dependents(TermId(0));
    assert_eq!(deps.dependents, vec![TermId(1)]);
    assert_eq!(deps.edges, vec![(TermId(0), TermId(1), EdgeKind::Dataflow)]);
}

#[test]
fn trace_dependents_transitive() {
    // a -> b -> c
    let prog = test_program(vec![
        make_term(0, TermOp::Constant(ConstantId(0)), vec![], Some("a")),
        make_term(1, TermOp::Copy, vec![0], Some("b")),
        make_term(2, TermOp::Copy, vec![1], Some("c")),
    ]);
    let deps = prog.trace_dependents(TermId(0));
    assert_eq!(deps.dependents.len(), 2);
    assert!(deps.dependents.contains(&TermId(1)));
    assert!(deps.dependents.contains(&TermId(2)));
}

#[test]
fn trace_dependents_fan_out() {
    // a used by both b and c
    let prog = test_program(vec![
        make_term(0, TermOp::Constant(ConstantId(0)), vec![], Some("a")),
        make_term(1, TermOp::Copy, vec![0], Some("b")),
        make_term(2, TermOp::Copy, vec![0], Some("c")),
    ]);
    let deps = prog.trace_dependents(TermId(0));
    assert_eq!(deps.dependents.len(), 2);
    assert!(deps.dependents.contains(&TermId(1)));
    assert!(deps.dependents.contains(&TermId(2)));
    assert_eq!(deps.edges.len(), 2);
}

#[test]
fn slice_returns_minimal_subgraph() {
    // a(0) -> b(1), c(2) -> d(3) = b + c, e(4) = unrelated
    let prog = test_program(vec![
        make_term(0, TermOp::Constant(ConstantId(0)), vec![], Some("a")),
        make_term(1, TermOp::Copy, vec![0], Some("b")),
        make_term(2, TermOp::Constant(ConstantId(1)), vec![], Some("c")),
        make_term(3, TermOp::Add, vec![1, 2], Some("d")),
        make_term(4, TermOp::Constant(ConstantId(2)), vec![], Some("e")),
    ]);
    let slice = prog.slice(&[TermId(3)]).minimal().expect("no cells");
    // Should include a, b, c, d but NOT e
    assert!(slice.contains(&TermId(0))); // a
    assert!(slice.contains(&TermId(1))); // b
    assert!(slice.contains(&TermId(2))); // c
    assert!(slice.contains(&TermId(3))); // d
    assert!(!slice.contains(&TermId(4))); // e is unrelated
    assert_eq!(slice.len(), 4);
    // Should be in topological order
    assert_eq!(slice, vec![TermId(0), TermId(1), TermId(2), TermId(3)]);
}

#[test]
fn slice_multiple_targets() {
    // a(0) -> b(1), c(2) -> d(3)
    let prog = test_program(vec![
        make_term(0, TermOp::Constant(ConstantId(0)), vec![], Some("a")),
        make_term(1, TermOp::Copy, vec![0], Some("b")),
        make_term(2, TermOp::Constant(ConstantId(1)), vec![], Some("c")),
        make_term(3, TermOp::Copy, vec![2], Some("d")),
    ]);
    let slice = prog
        .slice(&[TermId(1), TermId(3)])
        .minimal()
        .expect("no cells");
    assert_eq!(slice.len(), 4);
}

/// `var x = 0; set x = x + 1; let y = x * 2`, laid out by hand: t0 the
/// initializer, t1 the cell, t2 a read, t3 the constant 1, t4 the add, t5
/// the write, t6 a second read, t7 the constant 2, t8 `y`.
fn cell_program() -> Program {
    test_program(vec![
        make_term(0, TermOp::Constant(ConstantId(0)), vec![], None),
        make_term(1, TermOp::CellNew, vec![0], Some("x")),
        make_term(2, TermOp::CellRead, vec![1], None),
        make_term(3, TermOp::Constant(ConstantId(1)), vec![], None),
        make_term(4, TermOp::Add, vec![2, 3], None),
        make_term(5, TermOp::CellWrite, vec![1, 4], Some("x")),
        make_term(6, TermOp::CellRead, vec![1], None),
        make_term(7, TermOp::Constant(ConstantId(2)), vec![], None),
        make_term(8, TermOp::Mul, vec![6, 7], Some("y")),
    ])
}

#[test]
fn provenance_stops_at_a_cell_read_and_says_so() {
    let p = cell_program();
    let index = p.cell_index();
    assert_eq!(index.decl_of(TermId(2)), None);
    assert_eq!(index.decl_of(TermId(1)), Some(TermId(1)));
    assert!(index.is_decl(TermId(1)));
    assert_eq!(index.reads_of(TermId(1)), &[TermId(2), TermId(6)]);
    assert_eq!(index.writes_of(TermId(1)), &[TermId(5)]);
    assert_eq!(index.var_name(TermId(1)), Some("x"));
    assert!(!index.host_writable(TermId(1)));
    assert_eq!(index.decl_for_site(TermId(6)), Some(TermId(1)));

    let prov = p.trace_provenance(TermId(8));
    assert!(!prov.ancestors.contains(&TermId(1)));
    assert!(!prov.ancestors.contains(&TermId(0)));
    assert!(!prov.is_complete());
    assert_eq!(prov.frontier.len(), 1);
    assert_eq!(prov.frontier[0].read_term, TermId(6));
    assert_eq!(prov.frontier[0].cell_decl, Some(TermId(1)));
    assert_eq!(prov.frontier[0].var_name.as_deref(), Some("x"));
    assert_eq!(prov.frontier[0].writes, vec![TermId(5)]);
    assert_eq!(prov.frontier[0].describe(), "read of var 'x'");
}

#[test]
fn provenance_of_a_write_excludes_the_identity_edge() {
    let p = cell_program();
    let prov = p.trace_provenance(TermId(5));
    assert!(!prov.ancestors.contains(&TermId(1)));
    assert!(prov.ancestors.contains(&TermId(4)));
    assert!(prov.edges.contains(&(TermId(4), TermId(5))));
    assert!(!prov.edges.contains(&(TermId(1), TermId(5))));
}

#[test]
fn dependents_of_a_write_reach_later_reads() {
    let p = cell_program();
    let deps = p.trace_dependents(TermId(5));
    assert!(deps.dependents.contains(&TermId(8)));
    for r in [TermId(2), TermId(6)] {
        assert!(deps.dependents.contains(&r));
        assert!(deps.edges.contains(&(TermId(5), r, EdgeKind::CellMay)));
    }
    let from_decl = p.trace_dependents(TermId(1));
    assert!(from_decl.dependents.contains(&TermId(5)));
    assert!(from_decl.edges.contains(&(TermId(1), TermId(5), EdgeKind::CellMay)));
    assert!(from_decl.edges.iter().any(|(_, _, k)| *k == EdgeKind::Dataflow));
    assert!(from_decl.edges.contains(&(TermId(4), TermId(5), EdgeKind::Dataflow)));
}

#[test]
fn slice_minimal_errors_when_a_cell_is_crossed_and_conservative_closes_over_it() {
    let p = cell_program();
    let err = p.slice(&[TermId(8)]).minimal().err().expect("crosses a cell");
    assert_eq!(err.frontier.len(), 1);
    assert_eq!(err.frontier[0].var_name.as_deref(), Some("x"));
    let (terms, frontier) = p.slice(&[TermId(8)]).conservative();
    assert!(terms.contains(&TermId(1)));
    assert!(terms.contains(&TermId(5)));
    assert!(terms.contains(&TermId(4)));
    assert!(!frontier.is_empty());
    let mut sorted = terms.clone();
    sorted.sort_by_key(|t| t.0);
    assert_eq!(sorted, terms);
}

#[test]
fn frontier_descriptions_and_edge_names() {
    let f = CellFrontier {
        read_term: TermId(3),
        cell_decl: None,
        var_name: None,
        writes: vec![],
        host_writable: false,
        captured: true,
    };
    assert_eq!(f.describe(), "closure captures an unresolved cell");
    assert_eq!(EdgeKind::Dataflow.as_str(), "dataflow");
    assert_eq!(EdgeKind::CellMay.as_str(), "may");
    assert_eq!(EdgeKind::DispatchMay.as_str(), "dispatch");
}

#[test]
fn named_terms_are_sorted_and_distinct() {
    let p = test_program(vec![
        make_term(0, TermOp::Constant(ConstantId(0)), vec![], Some("zeta")),
        make_term(1, TermOp::Constant(ConstantId(0)), vec![], Some("alpha")),
        make_term(2, TermOp::Constant(ConstantId(0)), vec![], Some("zeta")),
    ]);
    // No term has a real source span, so none is user-visible.
    assert!(p.named_terms().is_empty());
    let mut p = p;
    let at = |line: u32| SourceSpan {
        start: SourcePosition { line, column: 1, offset: 0 },
        end: SourcePosition { line, column: 2, offset: 1 },
        file: FileId(0),
    };
    p.source_map.add(TermId(0), at(1));
    p.source_map.add(TermId(1), at(2));
    p.source_map.add(TermId(2), at(3));
    assert_eq!(p.named_terms(), vec!["alpha".to_string(), "zeta".to_string()]);
}

#[test]
fn static_value_errors_read_as_messages() {
    assert_eq!(
        StaticValueError::Parse("bad".into()).message(),
        "source did not parse: bad"
    );
    assert_eq!(
        StaticValueError::NotFound { name: "x".into() }.message(),
        "no top-level binding for `x`"
    );
    assert_eq!(
        StaticValueError::NotStatic {
            name: "y".into(),
            reason: "computed".into()
        }
        .message(),
        "`y` is not a static value: computed"
    );
}

#[test]
fn without_cells_the_minimal_slice_is_the_conservative_one() {
    // let a = 1; let b = a + 2; let y = b * 3
    let p = test_program(vec![
        make_term(0, TermOp::Constant(ConstantId(0)), vec![], Some("a")),
        make_term(1, TermOp::Constant(ConstantId(1)), vec![], None),
        make_term(2, TermOp::Add, vec![0, 1], Some("b")),
        make_term(3, TermOp::Constant(ConstantId(2)), vec![], None),
        make_term(4, TermOp::Mul, vec![2, 3], Some("y")),
    ]);
    let minimal = p.slice(&[TermId(4)]).minimal().ok().expect("no cells");
    let (conservative, frontier) = p.slice(&[TermId(4)]).conservative();
    assert!(frontier.is_empty());
    assert_eq!(minimal, conservative);
    assert!(minimal.contains(&TermId(2)));
}

#[test]
fn a_frontier_lists_every_write_in_program_order() {
    // var x = 0; set x = 1; set x = 2; let y = x * 2
    let p = test_program(vec![
        make_term(0, TermOp::Constant(ConstantId(0)), vec![], None),
        make_term(1, TermOp::CellNew, vec![0], Some("x")),
        make_term(2, TermOp::Constant(ConstantId(1)), vec![], None),
        make_term(3, TermOp::CellWrite, vec![1, 2], Some("x")),
        make_term(4, TermOp::Constant(ConstantId(2)), vec![], None),
        make_term(5, TermOp::CellWrite, vec![1, 4], Some("x")),
        make_term(6, TermOp::CellRead, vec![1], None),
        make_term(7, TermOp::Constant(ConstantId(2)), vec![], None),
        make_term(8, TermOp::Mul, vec![6, 7], Some("y")),
    ]);
    let prov = p.trace_provenance(TermId(8));
    let f = prov
        .frontier
        .iter()
        .find(|f| f.var_name.as_deref() == Some("x"))
        .expect("frontier for x");
    assert_eq!(f.writes, vec![TermId(3), TermId(5)]);
}
