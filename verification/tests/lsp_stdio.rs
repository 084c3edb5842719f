use petal::lsp::stdio::{header_line, is_exit, method_of, HeaderLine, HeaderReader, HeaderStep};

#[test]
fn header_lines_are_read_as_the_transport_reads_them() {
    assert_eq!(header_line("\r\n"), HeaderLine::End);
    assert_eq!(header_line(""), HeaderLine::End);
    assert_eq!(header_line("Content-Length: 42\r\n"), HeaderLine::Length(Some(42)));
    assert_eq!(header_line("  content-LENGTH :  +7 \n"), HeaderLine::Length(Some(7)));
    assert_eq!(header_line("Content-Length: x\r\n"), HeaderLine::Length(None));
    assert_eq!(header_line("Content-Length: 99999999999999999999999\r\n"), HeaderLine::Length(None));
    assert_eq!(header_line("Content-Type: application/json\r\n"), HeaderLine::Other);
    assert_eq!(header_line("no colon here\r\n"), HeaderLine::Other);
}

#[test]
fn a_header_block_ends_in_a_body_length_or_a_protocol_error() {
    let mut r = HeaderReader::new();
    assert_eq!(r.on_line("Content-Type: x\r\n"), HeaderStep::More);
    assert_eq!(r.on_line("Content-Length: 12\r\n"), HeaderStep::More);
    assert_eq!(r.on_line("\r\n"), HeaderStep::Body(12));

    let mut r = HeaderReader::new();
    assert_eq!(r.on_line("Content-Type: x\r\n"), HeaderStep::More);
    assert_eq!(r.on_line("\r\n"), HeaderStep::MissingLength);

    // A later unreadable length unsets an earlier one.
    let mut r = HeaderReader::new();
    r.on_line("Content-Length: 3\r\n");
    r.on_line("Content-Length: ?\r\n");
    assert_eq!(r.on_line("\r\n"), HeaderStep::MissingLength);
}

#[test]
fn the_method_is_read_from_the_body() {
    assert_eq!(method_of(r#"{"jsonrpc":"2.0","method":"exit"}"#), Some("exit".to_string()));
    assert_eq!(method_of(r#"{"jsonrpc":"2.0","id":1,"result":null}"#), None);
    assert_eq!(method_of(r#"{"method":3}"#), None);
    assert_eq!(method_of("not json"), None);
    assert!(is_exit(r#"{"jsonrpc":"2.0","method":"exit"}"#));
    assert!(!is_exit(r#"{"jsonrpc":"2.0","method":"shutdown","id":2}"#));
}
