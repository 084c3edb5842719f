use petal::module::{ModuleOrigin, ModuleRegistry};

#[test]
fn memory_registrations_resolve_and_the_last_one_wins() {
    let mut r = ModuleRegistry::new();
    r.register("ui", "export fn a() 1 end");
    r.register("ui", "export fn a() 2 end");
    let m = r.resolve_memory("ui").unwrap();
    assert_eq!(m.name, "ui");
    assert_eq!(m.source, "export fn a() 2 end");
    assert!(matches!(m.origin, ModuleOrigin::Memory));
    assert!(r.resolve_memory("other").is_none());
}

#[test]
fn candidate_files_follow_the_resolution_order() {
    let mut r = ModuleRegistry::new();
    r.add_path("lib");
    r.add_path("vendor/");
    let importer = ModuleOrigin::File("app/main.ptl".to_string());
    let files = r.candidate_files("menu", Some(&importer), "/opt/petal::/usr/share/petal");
    assert_eq!(
        files,
        vec![
            "app/menu.ptl".to_string(),
            "lib/menu.ptl".to_string(),
            "vendor/menu.ptl".to_string(),
            "/opt/petal/menu.ptl".to_string(),
            "/usr/share/petal/menu.ptl".to_string(),
        ]
    );
    let bare = ModuleOrigin::File("main.ptl".to_string());
    assert_eq!(r.candidate_files("x", Some(&bare), "")[0], "x.ptl");
    assert_eq!(r.candidate_files("x", None, "").len(), 2);
}
