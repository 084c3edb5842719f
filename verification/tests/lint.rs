use petal::lint::to_match::{apply_match_edits, Splice};
use petal::lint::{
    is_rule, map_back, rules, verify_rewrite, Finding, LintOptions, LintOutcome, RuleFilter,
    VerifyMode, VerifyVerdict, NO_REDUNDANT_CAST, PREFER_COMPOUND_ASSIGN, PREFER_LET,
    PREFER_MATCH,
};

#[test]
fn map_back_through_splices() {
    // "var x" -> "let x"; "set x = 1" -> "x = 1" (5 chars dropped at 6).
    let splices = vec![
        Splice {
            start: 0,
            end: 3,
            text: "let".into(),
        },
        Splice {
            start: 6,
            end: 10,
            text: String::new(),
        },
    ];
    assert_eq!(map_back(0, &splices), 0);
    assert_eq!(map_back(4, &splices), 4);
    assert_eq!(map_back(6, &splices), 6);
    assert_eq!(map_back(7, &splices), 11);
    assert_eq!(map_back(8, &splices), 12);
}

#[test]
fn map_back_before_a_growing_splice_and_after_it() {
    let splices = vec![Splice {
        start: 2,
        end: 3,
        text: "abcd".into(),
    }];
    assert_eq!(map_back(1, &splices), 1);
    assert_eq!(map_back(4, &splices), 2);
    assert_eq!(map_back(6, &splices), 3);
    assert_eq!(map_back(9, &splices), 6);
}

#[test]
fn splices_apply_last_first() {
    let src: Vec<char> = "var n = 0\nset n = get n + 1".chars().collect();
    let splices = vec![
        Splice {
            start: 0,
            end: 3,
            text: "let".into(),
        },
        Splice {
            start: 10,
            end: 14,
            text: String::new(),
        },
        Splice {
            start: 18,
            end: 22,
            text: String::new(),
        },
    ];
    assert_eq!(apply_match_edits(&src, &splices), "let n = 0\nn = n + 1");
    assert_eq!(apply_match_edits(&src, &[]), "var n = 0\nset n = get n + 1");
}

#[test]
fn every_rule_is_listed_in_order() {
    let names: Vec<&str> = rules().iter().map(|r| r.name).collect();
    assert_eq!(
        names,
        vec![PREFER_LET, NO_REDUNDANT_CAST, PREFER_MATCH, PREFER_COMPOUND_ASSIGN]
    );
    assert!(is_rule("prefer-let"));
    assert!(is_rule("prefer-compound-assign"));
    assert!(!is_rule("prefer-var"));
    assert!(!is_rule(""));
}

#[test]
fn rule_filter_includes_and_excludes() {
    let all = RuleFilter::default();
    assert!(all.enabled(PREFER_LET));
    let without = RuleFilter {
        only: None,
        exclude: vec![PREFER_COMPOUND_ASSIGN.to_string()],
    };
    assert!(without.enabled(PREFER_LET));
    assert!(!without.enabled(PREFER_COMPOUND_ASSIGN));
    let only = RuleFilter {
        only: Some(vec![PREFER_MATCH.to_string(), PREFER_LET.to_string()]),
        exclude: vec![PREFER_LET.to_string()],
    };
    assert!(only.enabled(PREFER_MATCH));
    assert!(!only.enabled(PREFER_LET));
    assert!(!only.enabled(NO_REDUNDANT_CAST));
    let opts = LintOptions::default();
    assert!(opts.module_dirs.is_empty() && opts.origin.is_none());
}

fn finding(rule: &'static str, line: usize) -> Finding {
    Finding {
        rule,
        line,
        column: 3,
        message: String::new(),
    }
}

#[test]
fn outcome_counts_findings_by_rule() {
    let out = LintOutcome {
        findings: vec![
            finding(PREFER_LET, 2),
            finding(PREFER_COMPOUND_ASSIGN, 3),
            finding(PREFER_LET, 4),
        ],
        output: "b".to_string(),
        pre_format: "b".to_string(),
    };
    assert_eq!(out.count(PREFER_LET), 2);
    assert_eq!(out.count(PREFER_MATCH), 0);
    assert!(out.changed("a"));
    assert!(!out.changed("b"));
    assert!(out.has_semantic_rewrite());
    let compound_only = LintOutcome {
        findings: vec![finding(PREFER_COMPOUND_ASSIGN, 3)],
        output: "x += 1\n".to_string(),
        pre_format: "x += 1\n".to_string(),
    };
    assert!(!compound_only.has_semantic_rewrite());
}

#[test]
fn verify_rewrite_decides_from_the_comparisons() {
    let semantic = LintOutcome {
        findings: vec![finding(PREFER_LET, 2)],
        output: "let n = 0\n".to_string(),
        pre_format: "let n = 0\n".to_string(),
    };
    let src = "var n = 0\n";
    let same = "let n = 0\n";
    assert!(matches!(
        verify_rewrite(same, &semantic, VerifyMode::Ir, Ok(None), Ok(None)),
        Ok(VerifyVerdict::Unchanged)
    ));
    assert!(matches!(
        verify_rewrite(src, &semantic, VerifyMode::Ir, Ok(None), Ok(None)),
        Ok(VerifyVerdict::Equal)
    ));
    match verify_rewrite(src, &semantic, VerifyMode::Ir, Ok(Some("t3".into())), Ok(None)) {
        Ok(VerifyVerdict::SemanticChange { diff }) => assert_eq!(diff, "t3"),
        _ => panic!("expected a semantic change"),
    }
    let strict = verify_rewrite(src, &semantic, VerifyMode::Strict, Ok(Some("t3".into())), Ok(None));
    match strict {
        Err(f) => {
            assert_eq!(f.message, "the rewrite is not IR-equal to the original");
            assert_eq!(f.diff.as_deref(), Some("t3"));
        }
        Ok(_) => panic!("strict mode must refuse"),
    }
    match verify_rewrite(src, &semantic, VerifyMode::Ir, Ok(Some("t3".into())), Ok(Some("t9".into()))) {
        Err(f) => {
            assert_eq!(f.message, "lint bug: formatting the rewritten source changed the IR");
            assert_eq!(f.diff.as_deref(), Some("t9"));
        }
        Ok(_) => panic!("a formatting change must be refused"),
    }
    match verify_rewrite(src, &semantic, VerifyMode::Ir, Err("no parse".into()), Ok(None)) {
        Err(f) => {
            assert_eq!(f.message, "no parse");
            assert!(f.diff.is_none());
        }
        Ok(_) => panic!("a failed comparison must be refused"),
    }
    let inert = LintOutcome {
        findings: vec![finding(PREFER_COMPOUND_ASSIGN, 1)],
        output: "x += 1\n".to_string(),
        pre_format: "x += 1\n".to_string(),
    };
    match verify_rewrite("x = x + 1\n", &inert, VerifyMode::Ir, Ok(Some("t1".into())), Ok(None)) {
        Err(f) => assert_eq!(f.message, "lint bug: an IR-invisible rewrite changed the IR"),
        Ok(_) => panic!("an IR-invisible rewrite must not move the IR"),
    }
}
