use petal::lsp::protocol::{
    decode_lsp_messages, encode_lsp_message, JsonValue, RpcError, RpcMessage, RpcNotification,
    RpcResponse, INVALID_PARAMS, METHOD_NOT_FOUND, SERVER_NOT_INITIALIZED,
};

#[test]
fn encoding_prefixes_the_byte_length() {
    let framed = encode_lsp_message(br#"{"id":1}"#);
    assert_eq!(framed, b"Content-Length: 8\r\n\r\n{\"id\":1}".to_vec());
}

#[test]
fn two_frames_decode_in_order_with_their_end_offsets() {
    let mut buf = encode_lsp_message(b"{}");
    let first_end = buf.len();
    buf.extend(encode_lsp_message("{\"a\":\"é\"}".as_bytes()));
    let frames = decode_lsp_messages(&buf);
    assert_eq!(frames.len(), 2);
    assert_eq!(frames[0], (b"{}".to_vec(), first_end));
    assert_eq!(frames[1].0, "{\"a\":\"é\"}".as_bytes().to_vec());
    assert_eq!(frames[1].1, buf.len());
}

#[test]
fn an_incomplete_frame_is_left_for_later() {
    let mut buf = encode_lsp_message(b"{}");
    buf.extend(b"Content-Length: 10\r\n\r\n{\"x\"");
    let frames = decode_lsp_messages(&buf);
    assert_eq!(frames.len(), 1);
    assert!(decode_lsp_messages(b"Content-Length: 2\r\n").is_empty());
}

#[test]
fn the_length_header_is_case_insensitive_and_trimmed() {
    let frames = decode_lsp_messages(b"X-Other: 1\r\ncontent-LENGTH:   3  \r\n\r\nabc");
    assert_eq!(frames, vec![(b"abc".to_vec(), 40)]);
    assert!(decode_lsp_messages(b"Content-Length: x\r\n\r\nabc").is_empty());
    assert!(decode_lsp_messages(b"Content-Type: y\r\n\r\nabc").is_empty());
}

#[test]
fn error_codes_are_the_json_rpc_ones() {
    let e = RpcError { code: METHOD_NOT_FOUND, message: "no".to_string() };
    assert_eq!(e.code, -32601);
    assert_eq!(INVALID_PARAMS, -32602);
    assert_eq!(SERVER_NOT_INITIALIZED, -32002);
}

#[test]
fn requests_and_notifications_are_told_apart_by_id() {
    let request = RpcMessage {
        id: Some(JsonValue(serde_json::Value::from(1))),
        method: Some("initialize".to_string()),
        params: None,
    };
    assert!(request.is_request());
    assert!(!request.is_notification());
    let note = RpcMessage { id: None, method: Some("initialized".to_string()), params: None };
    assert!(note.is_notification());
    assert!(!note.is_request());
    let reply = RpcMessage { id: Some(JsonValue(serde_json::Value::from(7))), method: None, params: None };
    assert!(!reply.is_request());
    assert!(!reply.is_notification());
}

#[test]
fn responses_carry_a_result_or_an_error() {
    let ok = RpcResponse::ok(JsonValue(serde_json::Value::from(3)), JsonValue(serde_json::Value::Null));
    assert_eq!(ok.jsonrpc, "2.0");
    assert_eq!(ok.id, JsonValue(serde_json::Value::from(3)));
    assert_eq!(ok.result, Some(JsonValue(serde_json::Value::Null)));
    assert!(ok.error.is_none());
    let err = RpcResponse::err(JsonValue(serde_json::Value::from(4)), METHOD_NOT_FOUND, "no such method".to_string());
    assert!(err.result.is_none());
    let e = err.error.unwrap();
    assert_eq!(e.code, -32601);
    assert_eq!(e.message, "no such method");
    let n = RpcNotification::new("window/logMessage", JsonValue(serde_json::Value::from("hi")));
    assert_eq!(n.jsonrpc, "2.0");
    assert_eq!(n.method, "window/logMessage");
    assert_eq!(n.params, JsonValue(serde_json::Value::from("hi")));
}

#[test]
fn whole_frames_before_a_cut_frame_all_decode() {
    let mut buf = encode_lsp_message(b"[1]");
    let first_end = buf.len();
    buf.extend(encode_lsp_message(b"[2]"));
    let second_end = buf.len();
    let third = encode_lsp_message(b"[3]");
    buf.extend(&third[..third.len() - 1]);
    let frames = decode_lsp_messages(&buf);
    assert_eq!(frames, vec![(b"[1]".to_vec(), first_end), (b"[2]".to_vec(), second_end)]);
}
