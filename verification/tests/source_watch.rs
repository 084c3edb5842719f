use petal::source_watch::{dedup_paths, same_stamp, FileStamp, SourceWatch};

fn stamp(modified: i128, len: u64) -> Option<FileStamp> {
    Some(FileStamp { modified, len })
}

#[test]
fn detects_a_resize_a_delete_and_a_creation_from_stamps() {
    let a = "dir/a.ptl".to_string();
    let b = "dir/b.ptl".to_string();
    let mut watch = SourceWatch::new(vec![(a.clone(), stamp(100, 1)), (b.clone(), None)]);
    assert!(!watch.is_empty());
    assert_eq!(watch.paths(), vec![a.clone(), b.clone()]);
    assert!(!watch.changed(&[stamp(100, 1), None]));

    // a is rewritten within the mtime granularity: only its length moves.
    let now = [stamp(100, 2), None];
    assert!(watch.changed(&now));
    assert_eq!(watch.changed_paths(&now), vec![a.clone()]);
    watch.refresh(&now);
    assert!(!watch.changed(&now));
    assert_eq!(watch.entries()[0].1, stamp(100, 2));

    // b appears.
    let now = [stamp(100, 2), stamp(200, 1)];
    assert_eq!(watch.changed_paths(&now), vec![b.clone()]);
    watch.refresh(&now);

    // a is deleted.
    assert!(watch.changed(&[None, stamp(200, 1)]));
    assert_eq!(watch.changed_paths(&[None, stamp(300, 1)]), vec![a, b]);
}

#[test]
fn an_empty_watch_never_changes() {
    let watch = SourceWatch::new(Vec::new());
    assert!(watch.is_empty());
    assert!(!watch.changed(&[]));
    assert!(watch.changed_paths(&[]).is_empty());
}

#[test]
fn stamps_compare_on_time_and_length() {
    assert!(same_stamp(&stamp(5, 1), &stamp(5, 1)));
    assert!(!same_stamp(&stamp(5, 1), &stamp(6, 1)));
    assert!(!same_stamp(&stamp(5, 1), &None));
    assert!(same_stamp(&None, &None));
}

#[test]
fn dedup_keeps_the_first_spelling_of_each_file() {
    let paths = vec![
        "d/a.ptl".to_string(),
        "d/./a.ptl".to_string(),
        "d/missing.ptl".to_string(),
        "d/missing.ptl".to_string(),
    ];
    let keys = vec![
        "/abs/d/a.ptl".to_string(),
        "/abs/d/a.ptl".to_string(),
        "d/missing.ptl".to_string(),
        "d/missing.ptl".to_string(),
    ];
    assert_eq!(
        dedup_paths(&paths, &keys),
        vec!["d/a.ptl".to_string(), "d/missing.ptl".to_string()]
    );
    assert!(dedup_paths(&[], &[]).is_empty());
}
