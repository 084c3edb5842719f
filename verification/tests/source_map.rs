use petal::program::TermId;
use petal::source_map::{zero_span, FileId, SourceFile, SourceMap, SourcePosition, SourceSpan};

fn span(file: u16) -> SourceSpan {
    SourceSpan {
        start: SourcePosition { line: 1, column: 2, offset: 3 },
        end: SourcePosition { line: 4, column: 5, offset: 6 },
        file: FileId(file),
    }
}

#[test]
fn span_wire_form_is_compact() {
    assert_eq!(span(0).to_wire(), vec![1, 2, 3, 4, 5, 6]);
    assert_eq!(span(2).to_wire(), vec![1, 2, 3, 4, 5, 6, 2]);
    assert_eq!(SourceSpan::from_wire(&[1, 2, 3, 4, 5, 6]), Ok(span(0)));
    assert_eq!(SourceSpan::from_wire(&[1, 2, 3, 4, 5, 6, 2]), Ok(span(2)));
}

#[test]
fn span_wire_form_rejects_short_and_long_arrays() {
    assert_eq!(
        SourceSpan::from_wire(&[1, 2, 3]),
        Err("span array missing end line".to_string())
    );
    assert_eq!(
        SourceSpan::from_wire(&[1, 2, 3, 4, 5, 6, 7, 8]),
        Err("span array has more than 7 elements".to_string())
    );
}

#[test]
fn file_names_and_sources_come_from_the_file_table() {
    let mut m = SourceMap::new();
    assert!(m.is_empty());
    m.add(TermId(7), span(1));
    assert_eq!(m.get(TermId(7)), Some(&span(1)));
    assert_eq!(m.get(TermId(8)), None);
    m.files.push(SourceFile { name: "<entry>".into(), source: "main".into(), origin: None });
    m.files.push(SourceFile { name: "ui.ptl".into(), source: "ui src".into(), origin: Some("ui.ptl".into()) });
    assert_eq!(m.file_name_for_span(&span(0)), None);
    assert_eq!(m.file_name_for_span(&span(1)), Some("ui.ptl"));
    assert_eq!(m.source_for_span(&span(1)), Some("ui src"));
    assert_eq!(m.source_for_span(&span(5)), None);
    assert_eq!(zero_span().start.line, 0);
}
