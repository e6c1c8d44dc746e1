use umber::json::Json;
use umber::lsp::{
    did_change, did_open, encode_message, header_line, initialize_request, initialized_notification,
    parse_publish_diagnostics, path_to_uri, read_message, Diagnostic, HeaderLine, LspState, ReadError,
    Severity,
};

fn text(s: &str) -> Json {
    Json::Str(s.to_string())
}

fn object(pairs: Vec<(&str, Json)>) -> Json {
    Json::Object(pairs.into_iter().map(|(k, v)| (k.to_string(), v)).collect())
}

fn read(input: &[u8], from: usize) -> (String, usize) {
    let (value, end) = read_message(input, from).unwrap().unwrap();
    (format!("{value:?}"), end)
}

#[test]
fn framing_round_trips() {
    let msg = object(vec![
        ("jsonrpc", text("2.0")),
        ("method", text("initialized")),
        ("params", object(vec![])),
    ]);
    let bytes = encode_message(&msg);
    let shown = String::from_utf8_lossy(&bytes);
    assert!(shown.starts_with("Content-Length: "));
    assert!(shown.contains("\r\n\r\n"));
    let (got, end) = read(&bytes, 0);
    assert_eq!(got, format!("{msg:?}"));
    assert_eq!(end, bytes.len());
}

#[test]
fn two_framed_messages_read_in_sequence() {
    let a = object(vec![("a", Json::UInt(1))]);
    let b = object(vec![("b", Json::UInt(2))]);
    let mut buf = Vec::new();
    buf.extend_from_slice(&encode_message(&a));
    buf.extend_from_slice(&encode_message(&b));
    let (first, at) = read(&buf, 0);
    assert_eq!(first, format!("{a:?}"));
    let (second, end) = read(&buf, at);
    assert_eq!(second, format!("{b:?}"));
    assert!(read_message(&buf, end).unwrap().is_none());
}

fn diagnostics(severity: u64) -> Json {
    let start = object(vec![("line", Json::UInt(4)), ("character", Json::UInt(8))]);
    let end = object(vec![("line", Json::UInt(4)), ("character", Json::UInt(15))]);
    let item = object(vec![
        ("range", object(vec![("start", start), ("end", end)])),
        ("severity", Json::UInt(severity)),
        ("message", text("cannot find value `foo`")),
    ]);
    object(vec![
        ("jsonrpc", text("2.0")),
        ("method", text("textDocument/publishDiagnostics")),
        (
            "params",
            object(vec![
                ("uri", text("file:///tmp/x.rs")),
                ("diagnostics", Json::Array(vec![item])),
            ]),
        ),
    ])
}

#[test]
fn parses_publish_diagnostics() {
    let (uri, diags) = parse_publish_diagnostics(&diagnostics(1)).unwrap();
    assert_eq!(uri, "file:///tmp/x.rs");
    assert_eq!(diags.len(), 1);
    assert_eq!(diags[0].line, 4);
    assert_eq!(diags[0].col, 8);
    assert_eq!(diags[0].severity, Severity::Error);
    assert_eq!(diags[0].message, "cannot find value `foo`");
}

#[test]
fn non_diagnostic_messages_ignored() {
    assert!(parse_publish_diagnostics(&object(vec![("method", text("other"))])).is_none());
    assert!(parse_publish_diagnostics(&object(vec![("result", object(vec![]))])).is_none());
}

#[test]
fn path_uri_encoding() {
    assert_eq!(path_to_uri("/home/a/x.rs"), "file:///home/a/x.rs");
    assert_eq!(path_to_uri("/a b/c.rs"), "file:///a%20b/c.rs");
}

fn at<'a>(j: &'a Json, path: &[&str]) -> &'a Json {
    path.iter().fold(j, |j, key| j.get(key).unwrap())
}

#[test]
fn builders_have_required_jsonrpc_shape() {
    let init = initialize_request(1, "file:///r", 77);
    assert_eq!(init.get_str("method"), Some("initialize"));
    assert_eq!(init.get_u64("id"), Some(1));
    assert_eq!(at(&init, &["params"]).get_str("rootUri"), Some("file:///r"));
    let open = did_open("file:///x", "rust", 1, "fn main(){}");
    assert_eq!(open.get_str("method"), Some("textDocument/didOpen"));
    assert_eq!(
        at(&open, &["params", "textDocument"]).get_str("languageId"),
        Some("rust")
    );
}

#[test]
fn the_header_counts_bytes() {
    let bytes = encode_message(&text("\u{e9}"));
    assert_eq!(bytes, b"Content-Length: 4\r\n\r\n\"\xc3\xa9\"");
}

#[test]
fn changes_and_the_first_notification_are_sent_whole() {
    let change = did_change("file:///x", 2, "new");
    assert_eq!(change.get_str("method"), Some("textDocument/didChange"));
    assert_eq!(at(&change, &["params", "textDocument"]).get_u64("version"), Some(2));
    let changes = at(&change, &["params", "contentChanges"]).as_array().unwrap();
    assert_eq!(changes[0].get_str("text"), Some("new"));
    assert_eq!(initialized_notification().get_str("method"), Some("initialized"));
}

fn refusal(input: &[u8]) -> ReadError {
    match read_message(input, 0) {
        Err(e) => e,
        Ok(_) => panic!("read"),
    }
}

#[test]
fn broken_frames_are_refused() {
    assert_eq!(refusal(b"Content-Length: 9\r\n\r\n{}"), ReadError::Truncated);
    assert_eq!(refusal(b"Other: 1\r\n\r\n{}"), ReadError::NoLength);
    let words = "key must be a string at line 1 column 2";
    assert_eq!(refusal(b"Content-Length: 2\r\n\r\n{x"), ReadError::NotJson(words.to_string()));
    assert_eq!(ReadError::NotJson(words.to_string()).message(), words);
    assert_eq!(ReadError::NotText.message(), "stream did not contain valid UTF-8");
    assert_eq!(refusal(b"\xff\r\n\r\n{}"), ReadError::NotText);
    assert!(matches!(read_message(b"", 0), Ok(None)));
    assert_eq!(ReadError::NoLength.message(), "LSP message without Content-Length");
}

#[test]
fn header_lines_are_told_apart() {
    assert_eq!(header_line("Content-Length: 12\r\n"), HeaderLine::Length(Some(12)));
    assert_eq!(header_line("\r\n"), HeaderLine::End);
    assert_eq!(header_line("Content-Type: x\r\n"), HeaderLine::Other);
    assert_eq!(header_line("Content-Length: x\r\n"), HeaderLine::Length(None));
}

#[test]
fn severities_go_by_their_numbers() {
    assert_eq!(Severity::from_lsp(1), Severity::Error);
    assert_eq!(Severity::from_lsp(2), Severity::Warning);
    assert_eq!(Severity::from_lsp(3), Severity::Information);
    assert_eq!(Severity::from_lsp(9), Severity::Hint);
}

#[test]
fn the_newest_diagnostics_of_a_file_count() {
    let mut state = LspState::new();
    let one = |m: &str| Diagnostic {
        line: 1,
        col: 2,
        end_line: 1,
        end_col: 3,
        severity: Severity::Warning,
        message: m.to_string(),
    };
    state.publish("u".to_string(), vec![one("a")]);
    state.publish("u".to_string(), vec![one("b"), one("c")]);
    let now = state.for_uri("u");
    assert_eq!(now.len(), 2);
    assert_eq!(now[0].message, "b");
    assert!(state.for_uri("v").is_empty());
}
