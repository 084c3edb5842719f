use petal::policy::{OptFlags, RunPolicy};

fn named() -> Vec<(&'static str, RunPolicy)> {
    vec![
        ("fast", RunPolicy::fast()),
        ("baseline", RunPolicy::baseline()),
        ("explain", RunPolicy::explain()),
        ("replay", RunPolicy::replay()),
    ]
}

#[test]
fn every_name_parses_to_itself_and_prints_back() {
    for (n, p) in named() {
        assert_eq!(RunPolicy::parse(n), Ok(p));
        assert_eq!(p.name().as_deref(), Some(n));
    }
}

#[test]
fn modifiers_switch_one_thing() {
    let gate_only = RunPolicy::parse("fast-memo").unwrap();
    assert_eq!(gate_only, RunPolicy::fast().with_memo(false));
    assert_eq!(RunPolicy::parse("fast-gate").unwrap(), RunPolicy::replay());
    assert_eq!(
        RunPolicy::parse("baseline+gate+memo").unwrap(),
        RunPolicy::baseline().with_gate(true).with_memo(true)
    );
    assert_eq!(RunPolicy::parse("fast-opt").unwrap().opts, OptFlags::none());
    assert_eq!(RunPolicy::parse("baseline+opt").unwrap().opts, OptFlags::default_on());
}

#[test]
fn opt_modifiers_keep_the_explain_preservation() {
    let p = RunPolicy::parse("explain-opt").unwrap();
    assert!(!p.opts.copy_propagation);
    assert!(p.opts.preserve_trace && p.opts.preserve_observations);
}

#[test]
fn a_modified_policy_names_itself_by_its_nearest_name() {
    assert_eq!(RunPolicy::fast().with_memo(false).name().as_deref(), Some("fast-memo"));
    assert_eq!(RunPolicy::baseline().with_gate(true).name().as_deref(), Some("baseline+gate"));
    let route_a = OptFlags { in_place_straight_line: true, ..OptFlags::none() };
    assert_eq!(RunPolicy::baseline().with_opts(route_a).name(), None);
}

#[test]
fn bad_specs_say_what_was_expected() {
    assert!(RunPolicy::parse("quick").unwrap_err().contains("fast, baseline"));
    assert!(RunPolicy::parse("fast+speed").unwrap_err().contains("gate, memo or opt"));
}

#[test]
fn whitespace_around_a_spec_is_ignored_and_the_default_is_fast() {
    assert_eq!(RunPolicy::parse("  replay+opt \n"), Ok(RunPolicy::replay()));
    assert_eq!(RunPolicy::default(), RunPolicy::fast());
    assert_eq!(RunPolicy::names(), "fast, baseline, explain, replay");
    assert_eq!(RunPolicy::explain().with_memo(true).name().as_deref(), Some("explain+memo"));
    assert_eq!(
        RunPolicy::parse("fast+memo-gate").unwrap().name().as_deref(),
        Some("replay")
    );
}
