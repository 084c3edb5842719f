use petal::package::{
    missing_module_dir, parse_manifest, plan_module_dir, resolve_in_packages, scan_entry,
    unreadable_manifest, Manifest, ModuleDirPlan, Package, ScanEntry,
};
use petal::policy::RunPolicy;
use petal::error::LoadError;

fn manifest(text: &str) -> Result<Manifest, LoadError> {
    parse_manifest(text, "petal.toml")
}

#[test]
fn a_leading_utf8_bom_is_not_part_of_the_first_line() {
    let m = manifest("\u{feff}[package]\nname = \"bloom\"\n").unwrap();
    assert_eq!(m.name, "bloom");
}

#[test]
fn parses_a_minimal_manifest() {
    let m = manifest("[package]\nname = \"bloom\"\nversion = \"0.1.0\"\n").unwrap();
    assert_eq!(m.name, "bloom");
    assert_eq!(m.version.as_deref(), Some("0.1.0"));
    assert_eq!(m.modules, None);
}

#[test]
fn comments_and_blank_lines_are_fine() {
    let m = manifest("# a library\n\n[package]\nname = \"bloom\" # the name\n").unwrap();
    assert_eq!(m.name, "bloom");
}

#[test]
fn a_hash_inside_a_string_is_not_a_comment() {
    let m = manifest("[package]\nname = \"bloom\"\nversion = \"0.1#0\"\n").unwrap();
    assert_eq!(m.version.as_deref(), Some("0.1#0"));
}

#[test]
fn unknown_keys_and_tables_are_carried_quietly() {
    let m = manifest("[package]\nname = \"bloom\"\nauthor = \"a\"\n[meta]\nx = \"y\"\n");
    assert_eq!(m.unwrap().name, "bloom");
}

#[test]
fn malformed_lines_are_named() {
    let err = manifest("[package]\nname\n").unwrap_err().to_string();
    assert!(err.contains("line 2"), "{err}");
    assert!(err.contains("petal.toml"), "{err}");

    let err = manifest("[package]\nname = bloom\n").unwrap_err().to_string();
    assert!(err.contains("must be a quoted string"), "{err}");

    let err = manifest("[package\nname = \"b\"\n").unwrap_err().to_string();
    assert!(err.contains("unterminated section header"), "{err}");
}

#[test]
fn a_manifest_needs_a_package_name() {
    let err = manifest("[package]\nversion = \"1\"\n").unwrap_err().to_string();
    assert!(err.contains("no 'name'"), "{err}");
    let err = manifest("name = \"b\"\n").unwrap_err().to_string();
    assert!(err.contains("[package]"), "{err}");
}

#[test]
fn a_package_name_must_be_an_identifier() {
    let err = manifest("[package]\nname = \"my lib\"\n").unwrap_err().to_string();
    assert!(err.contains("is not an identifier"), "{err}");
    assert!(manifest("[package]\nname = \"bloom/menu\"\n").is_err());
    assert!(manifest("[package]\nname = \"2fast\"\n").is_err());
}

#[test]
fn in_memory_packages_index_their_modules() {
    let pkg = Package::in_memory("bloom", &[("menu.ptl", "export fn a() 1 end"), ("motion", "")])
        .unwrap();
    assert_eq!(pkg.info.modules, vec!["menu", "motion"]);
    assert!(pkg.load("menu").is_some());
    assert!(pkg.load("nope").is_none());
    assert_eq!(pkg.load("menu").unwrap().name, "bloom/menu");
}

#[test]
fn an_in_memory_module_finds_its_sibling_flat() {
    let pkg = Package::in_memory("bloom", &[("menu", "a"), ("motion", "b")]).unwrap();
    let importer = pkg.load("menu").unwrap().origin;
    let found = resolve_in_packages(std::slice::from_ref(&pkg), "motion", Some(&importer));
    assert_eq!(found.map(|m| m.name), Some("bloom/motion".to_string()));
}

#[test]
fn a_traversing_module_name_resolves_to_nothing() {
    let pkg = Package::in_memory("bloom", &[("menu", "a")]).unwrap();
    assert!(resolve_in_packages(std::slice::from_ref(&pkg), "bloom/../x", None).is_none());
    assert!(Package::in_memory("bloom", &[("../x", "a")]).is_err());
}

#[test]
fn in_memory_sources_come_back_sorted_and_replaced() {
    let pkg = Package::in_memory("lib", &[("zeta", "1"), ("alpha", "2"), ("zeta.ptl", "3")]).unwrap();
    assert_eq!(pkg.info.modules, vec!["alpha", "zeta"]);
    assert_eq!(pkg.info.root, "<package:lib>");
    let z = pkg.load("zeta").unwrap();
    assert_eq!(z.source.as_deref(), Some("3"));
    let facade = resolve_in_packages(std::slice::from_ref(&pkg), "lib/alpha", None).unwrap();
    assert_eq!(facade.source.as_deref(), Some("2"));
}

#[test]
fn in_memory_rejects_a_bad_name_and_an_empty_module() {
    let err = Package::in_memory("2fast", &[]).unwrap_err().to_string();
    assert_eq!(
        err,
        "<package:2fast>: package name '2fast' is not an identifier — a package name is the first segment of an import path (letters, digits and '_', not starting with a digit)"
    );
    let err = Package::in_memory("ok", &[("a//b", "")]).unwrap_err().to_string();
    assert_eq!(err, "package 'ok': module name 'a//b' has an empty segment");
}

#[test]
fn a_manifest_without_modules_prefers_src() {
    match plan_module_dir("pkgs/lib", "pkgs/lib/petal.toml", &None).unwrap() {
        ModuleDirPlan::Default { preferred, fallback } => {
            assert_eq!(preferred, "pkgs/lib/src");
            assert_eq!(fallback, "pkgs/lib");
        }
        other => panic!("expected the default plan, got {other:?}"),
    }
    match plan_module_dir("root/", "root/petal.toml", &None).unwrap() {
        ModuleDirPlan::Default { preferred, .. } => assert_eq!(preferred, "root/src"),
        other => panic!("expected the default plan, got {other:?}"),
    }
}

#[test]
fn a_named_modules_directory_is_joined_segment_by_segment() {
    let plan = plan_module_dir("pkgs/lib", "petal.toml", &Some("./code//lib/".to_string())).unwrap();
    match plan {
        ModuleDirPlan::Named { rel, dir } => {
            assert_eq!(rel, "./code//lib/");
            assert_eq!(dir, "pkgs/lib/code/lib");
        }
        other => panic!("expected a named plan, got {other:?}"),
    }
}

#[test]
fn a_modules_value_outside_the_root_is_refused() {
    for bad in ["", "/abs", "a/../b", "..", "x/.."] {
        let err = plan_module_dir("lib", "lib/petal.toml", &Some(bad.to_string()))
            .unwrap_err()
            .to_string();
        assert!(err.starts_with("lib/petal.toml: "), "{err}");
        assert!(err.contains("must be a relative directory under the package root"), "{err}");
    }
    // A dotted name that is not `..` is fine.
    assert!(plan_module_dir("lib", "lib/petal.toml", &Some("..x/a..".to_string())).is_ok());
}

#[test]
fn a_missing_modules_directory_is_a_named_error_message() {
    let err = missing_module_dir("lib/petal.toml", "lib", "lib/lib").to_string();
    assert!(err.contains("petal.toml"), "{err}");
    assert!(err.contains("is not a directory"), "{err}");
    assert_eq!(
        err,
        "lib/petal.toml: modules = \"lib\" names 'lib/lib', which is not a directory"
    );
    let err = unreadable_manifest("x/petal.toml", "No such file").to_string();
    assert!(err.contains("cannot read package manifest"), "{err}");
    assert_eq!(err, "x/petal.toml: cannot read package manifest: No such file");
}

#[test]
fn a_package_read_from_disk_sorts_its_modules() {
    let m = manifest("[package]\nname = \"bloom\"\nversion = \"0.1.0\"\n").unwrap();
    let pkg = Package::on_disk(
        m,
        "pkgs/lib".to_string(),
        "pkgs/lib/src".to_string(),
        vec!["motion".to_string(), "menu".to_string(), "a/b".to_string()],
    );
    assert_eq!(pkg.info.name, "bloom");
    assert_eq!(pkg.info.version.as_deref(), Some("0.1.0"));
    assert_eq!(pkg.info.modules, vec!["a/b", "menu", "motion"]);
    assert_eq!(pkg.info.module_dir, "pkgs/lib/src");
    assert!(!pkg.info.in_memory);
    assert_eq!(pkg.load("menu").unwrap().name, "bloom/menu");
}

#[test]
fn a_scan_names_modules_and_skips_hidden_entries() {
    assert!(matches!(scan_entry("", ".git", true), ScanEntry::Skip));
    assert!(matches!(scan_entry("", "notes.txt", false), ScanEntry::Skip));
    match scan_entry("", "menu.ptl", false) {
        ScanEntry::Module(m) => assert_eq!(m, "menu"),
        other => panic!("{other:?}"),
    }
    match scan_entry("ui", "menu.ptl", false) {
        ScanEntry::Module(m) => assert_eq!(m, "ui/menu"),
        other => panic!("{other:?}"),
    }
    match scan_entry("ui", "widgets", true) {
        ScanEntry::Descend(p) => assert_eq!(p, "ui/widgets"),
        other => panic!("{other:?}"),
    }
    match scan_entry("", "ui", true) {
        ScanEntry::Descend(p) => assert_eq!(p, "ui"),
        other => panic!("{other:?}"),
    }
}

#[test]
fn the_environment_selects_a_policy() {
    let (p, w) = RunPolicy::from_settings(None, None);
    assert_eq!(p, RunPolicy::fast());
    assert!(w.is_none());
    let (p, _) = RunPolicy::from_settings(None, Some("off"));
    assert_eq!(p, RunPolicy::baseline());
    let (p, _) = RunPolicy::from_settings(None, Some("0"));
    assert_eq!(p, RunPolicy::baseline());
    let (p, _) = RunPolicy::from_settings(None, Some("yes"));
    assert_eq!(p, RunPolicy::fast());
    let (p, w) = RunPolicy::from_settings(Some("explain"), Some("off"));
    assert_eq!(p, RunPolicy::explain());
    assert!(w.is_none());
    let (p, w) = RunPolicy::from_settings(Some("nonsense"), Some("none"));
    assert_eq!(p, RunPolicy::baseline());
    let w = w.expect("a warning");
    assert!(w.starts_with("PETAL_POLICY: "), "{w}");
    assert!(w.ends_with("; using fast"), "{w}");
}
