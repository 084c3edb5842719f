use petal::import_walk::{ImportWalk, WalkAction};

/// Walk `entry_imports` against a module table, returning the load order or
/// the failure.
fn walk(entry_imports: &[&str], table: &[(&str, &[&str])]) -> Result<(Vec<String>, Vec<(String, u16, Option<String>)>), String> {
    let mut w = ImportWalk::new(entry_imports.iter().map(|s| s.to_string()).collect());
    let mut asked = Vec::new();
    loop {
        match w.step() {
            WalkAction::Load { name, file_id, importer } => {
                let imports = table
                    .iter()
                    .find(|(n, _)| *n == name)
                    .map(|(_, i)| i.iter().map(|s| s.to_string()).collect())
                    .unwrap_or_default();
                asked.push((name, file_id, importer));
                w.module_loaded(imports);
            }
            WalkAction::Done => return Ok((w.loaded().to_vec(), asked)),
            WalkAction::Failed(m) => return Err(m),
        }
    }
}

#[test]
fn imports_load_dependencies_first_and_diamonds_once() {
    // entry imports a and b; both import c.
    let (order, asked) = walk(&["a", "b"], &[("a", &["c"]), ("b", &["c"]), ("c", &[])]).unwrap();
    assert_eq!(order, vec!["c", "a", "b"]);
    assert_eq!(
        asked,
        vec![
            ("a".to_string(), 1, None),
            ("c".to_string(), 2, Some("a".to_string())),
            ("b".to_string(), 3, None),
        ]
    );
}

#[test]
fn an_import_cycle_is_an_error_naming_the_chain() {
    let err = walk(&["a"], &[("a", &["b"]), ("b", &["c"]), ("c", &["a"])]).unwrap_err();
    assert_eq!(err, "import cycle: a -> b -> c -> a");
    let err = walk(&["a"], &[("a", &["a"])]).unwrap_err();
    assert_eq!(err, "import cycle: a -> a");
}

#[test]
fn no_imports_is_done_at_once() {
    let (order, asked) = walk(&[], &[]).unwrap();
    assert!(order.is_empty());
    assert!(asked.is_empty());
}
