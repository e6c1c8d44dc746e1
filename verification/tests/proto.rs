use umber::json::Json;
use umber::messages::{write_request, write_response};
use umber::proto::{
    read_message, write_message, DirEntry, ErrorKind, Request, Response, StatInfo, PROTOCOL_VERSION,
};
use umber::remote::{dir_reply, file_reply, hello, hello_reply, stat_reply, write_reply, RemoteError};

fn text(line: &[u8]) -> String {
    String::from_utf8(line.to_vec()).unwrap()
}

fn tree(v: serde_json::Value) -> Json {
    match v {
        serde_json::Value::Null => Json::Null,
        serde_json::Value::Bool(b) => Json::Bool(b),
        serde_json::Value::Number(n) => match (n.as_u64(), n.as_i64()) {
            (Some(u), _) => Json::UInt(u),
            (None, Some(i)) => Json::Int(i),
            (None, None) => Json::Real(n.to_string()),
        },
        serde_json::Value::String(s) => Json::Str(s),
        serde_json::Value::Array(a) => Json::Array(a.into_iter().map(tree).collect()),
        serde_json::Value::Object(m) => {
            Json::Object(m.into_iter().map(|(k, v)| (k, tree(v))).collect())
        }
    }
}

fn value(text: &str) -> Json {
    tree(serde_json::from_str(text).unwrap())
}

fn next_request(buf: &[u8], from: usize) -> Option<(Request, usize)> {
    let (end, to) = read_message(buf, from)?;
    let value = tree(serde_json::from_slice(&buf[from..end]).unwrap());
    Some((Request::from_json(&value).unwrap(), to))
}

fn next_response(buf: &[u8], from: usize) -> Option<(Response, usize)> {
    let (end, to) = read_message(buf, from)?;
    let value = tree(serde_json::from_slice(&buf[from..end]).unwrap());
    Some((Response::from_json(&value).unwrap(), to))
}

#[test]
fn request_round_trips_through_jsonl() {
    let req = Request::WriteFile {
        path: "/tmp/x".to_string(),
        contents: "line1\nline2".to_string(),
    };
    let buf = write_request(&req);
    assert_eq!(buf.iter().filter(|&&b| b == b'\n').count(), 1);
    let (got, end) = next_request(&buf, 0).unwrap();
    assert_eq!(end, buf.len());
    assert_eq!(got, req);
}

#[test]
fn response_tag_shape_is_stable() {
    let r = Response::Error {
        kind: ErrorKind::NotFound,
        message: "nope".to_string(),
    };
    let s = text(&write_response(&r));
    assert!(s.contains(r#""ok":"error""#));
    assert!(s.contains(r#""kind":"not_found""#));
}

#[test]
fn clean_eof_returns_none() {
    assert!(next_request(b"", 0).is_none());
    assert!(read_message(b"", 0).is_none());
}

#[test]
fn two_messages_read_in_sequence() {
    let mut buf = write_request(&Request::Ping);
    buf.extend(write_request(&Request::ReadFile { path: "a".to_string() }));
    let (a, first) = next_request(&buf, 0).unwrap();
    let (b, second) = next_request(&buf, first).unwrap();
    assert_eq!(a, Request::Ping);
    assert_eq!(b, Request::ReadFile { path: "a".to_string() });
    assert!(next_request(&buf, second).is_none());
}

#[test]
fn the_tag_comes_first_and_then_the_fields() {
    let s = |t: &str| t.to_string();
    let sent = |q: Request| text(&write_request(&q));
    assert_eq!(sent(Request::Hello { version: 1 }), "{\"op\":\"hello\",\"version\":1}\n");
    assert_eq!(sent(Request::Ping), "{\"op\":\"ping\"}\n");
    assert_eq!(
        sent(Request::WriteFile { path: s("p"), contents: s("c") }),
        "{\"op\":\"write_file\",\"path\":\"p\",\"contents\":\"c\"}\n"
    );
    let told = |a: Response| text(&write_response(&a));
    assert_eq!(
        told(Response::Hello { version: 1, cwd: s("/") }),
        "{\"ok\":\"hello\",\"version\":1,\"cwd\":\"/\"}\n"
    );
    assert_eq!(
        told(Response::Stat(StatInfo { is_dir: false, size: 3, exists: true })),
        "{\"ok\":\"stat\",\"is_dir\":false,\"size\":3,\"exists\":true}\n"
    );
    assert_eq!(
        told(Response::Dir { entries: vec![DirEntry { name: s("a"), is_dir: true, size: 0 }] }),
        "{\"ok\":\"dir\",\"entries\":[{\"name\":\"a\",\"is_dir\":true,\"size\":0}]}\n"
    );
    assert_eq!(
        told(Response::Error { kind: ErrorKind::Io, message: s("m") }),
        "{\"ok\":\"error\",\"kind\":\"io\",\"message\":\"m\"}\n"
    );
    assert_eq!(told(Response::Written { bytes: 7 }), "{\"ok\":\"written\",\"bytes\":7}\n");
    assert_eq!(told(Response::File { contents: s("x") }), "{\"ok\":\"file\",\"contents\":\"x\"}\n");
}

#[test]
fn every_message_reads_back() {
    let odd = "\u{0}\n\r\t\"\\\u{e9}\u{1f600}\u{2028}".to_string();
    let requests = vec![
        Request::Hello { version: u32::MAX },
        Request::Ping,
        Request::ListDir { path: odd.clone() },
        Request::ReadFile { path: String::new() },
        Request::WriteFile { path: odd.clone(), contents: odd.clone() },
        Request::Stat { path: odd.clone() },
        Request::Shutdown,
    ];
    let mut buf: Vec<u8> = requests.iter().flat_map(write_request).collect();
    assert_eq!(buf.iter().filter(|&&b| b == b'\n').count(), requests.len());
    let mut at: usize = 0;
    for want in &requests {
        let (got, next) = next_request(&buf, at).unwrap();
        assert_eq!(&got, want);
        at = next;
    }
    assert_eq!(at, buf.len());

    let entry = |name: &str, is_dir: bool| DirEntry { name: name.to_string(), is_dir, size: u64::MAX };
    let kinds = [
        ErrorKind::NotFound,
        ErrorKind::PermissionDenied,
        ErrorKind::NotUtf8,
        ErrorKind::VersionMismatch,
        ErrorKind::Protocol,
        ErrorKind::Io,
    ];
    let mut responses = vec![
        Response::Hello { version: 1, cwd: odd.clone() },
        Response::Pong,
        Response::Dir { entries: Vec::new() },
        Response::Dir { entries: vec![entry("a", true), entry(&odd, false)] },
        Response::File { contents: odd.clone() },
        Response::Written { bytes: 7 },
        Response::Stat(StatInfo { is_dir: false, size: 3, exists: true }),
    ];
    for kind in kinds {
        responses.push(Response::Error { kind, message: odd.clone() });
    }
    buf = responses.iter().flat_map(write_response).collect();
    at = 0;
    for want in &responses {
        let (got, next) = next_response(&buf, at).unwrap();
        assert_eq!(&got, want);
        at = next;
    }
    assert!(next_response(&buf, at).is_none());
}

#[test]
fn messages_are_read_whatever_else_they_hold() {
    let got = Request::from_json(&value("{\"path\": \"a\", \"more\": [1], \"op\": \"stat\"}"));
    assert_eq!(got, Some(Request::Stat { path: "a".to_string() }));
}

#[test]
fn other_forms_of_an_answer_are_read_too() {
    let got = Response::from_json(&value("{\"ok\":\"dir\",\"entries\":[[\"a\",true,3]]}"));
    let entry = DirEntry { name: "a".to_string(), is_dir: true, size: 3 };
    assert_eq!(got, Some(Response::Dir { entries: vec![entry] }));
    for kind in ["{\"io\":null}", "{\"io\":{}}", "\"io\""] {
        let line = format!("{{\"ok\":\"error\",\"kind\":{kind},\"message\":\"m\"}}");
        let want = Response::Error { kind: ErrorKind::Io, message: "m".to_string() };
        assert_eq!(Response::from_json(&value(&line)), Some(want));
    }
    for bad in [
        "{\"ok\":\"dir\",\"entries\":[[\"a\",true]]}",
        "{\"ok\":\"dir\",\"entries\":[[\"a\",true,3,4]]}",
        "{\"ok\":\"error\",\"kind\":{\"io\":1},\"message\":\"m\"}",
        "{\"ok\":\"error\",\"kind\":{\"io\":null,\"protocol\":null},\"message\":\"m\"}",
    ] {
        assert_eq!(Response::from_json(&value(bad)), None, "{bad}");
    }
}

#[test]
fn repeated_fields_are_refused() {
    let s = |t: &str| Json::Str(t.to_string());
    let object = |members: Vec<(&str, Json)>| {
        Json::Object(members.into_iter().map(|(k, v)| (k.to_string(), v)).collect())
    };
    let twice = object(vec![("op", s("stat")), ("path", s("a")), ("path", s("a"))]);
    assert_eq!(Request::from_json(&twice), None);
    let tags = object(vec![("op", s("ping")), ("op", s("ping"))]);
    assert_eq!(Request::from_json(&tags), None);
    let others = object(vec![("x", Json::Null), ("op", s("ping")), ("x", Json::Null)]);
    assert_eq!(Request::from_json(&others), Some(Request::Ping));
    let entry = object(vec![
        ("name", s("a")),
        ("is_dir", Json::Bool(true)),
        ("size", Json::UInt(1)),
        ("name", s("a")),
    ]);
    let dir = object(vec![("ok", s("dir")), ("entries", Json::Array(vec![entry]))]);
    assert_eq!(Response::from_json(&dir), None);
}

#[test]
fn values_that_are_no_messages_are_refused() {
    for bad in [
        "{}",
        "[]",
        "null",
        "{\"op\":\"dance\"}",
        "{\"op\":\"stat\"}",
        "{\"op\":\"write_file\",\"path\":\"a\"}",
        "{\"op\":\"hello\",\"version\":4294967296}",
        "{\"op\":\"hello\",\"version\":-1}",
    ] {
        assert_eq!(Request::from_json(&value(bad)), None, "{bad}");
    }
    for bad in [
        "{\"ok\":\"error\",\"kind\":\"odd\",\"message\":\"\"}",
        "{\"ok\":\"dir\",\"entries\":[{\"name\":\"a\"}]}",
        "{\"ok\":\"file\",\"contents\":1}",
    ] {
        assert_eq!(Response::from_json(&value(bad)), None, "{bad}");
    }
}

#[test]
fn a_message_without_its_line_feed_goes_to_the_end() {
    assert_eq!(read_message(b"{}", 0), Some((2, 2)));
    assert_eq!(read_message(b"{}\n{}", 0), Some((2, 3)));
    assert_eq!(read_message(b"{}\n{}", 3), Some((5, 5)));
    assert_eq!(read_message(b"\n", 0), Some((0, 1)));
    assert_eq!(text(&write_message(&value("[1, \"a\"]"))), "[1,\"a\"]\n");
}

#[test]
fn the_greeting_names_the_version() {
    match hello() {
        Request::Hello { version } => assert_eq!(version, PROTOCOL_VERSION),
        other => panic!("{other:?}"),
    }
}

#[test]
fn replies_are_taken_for_what_they_answer() {
    assert_eq!(
        file_reply(Response::File { contents: "x".to_string() }),
        Ok("x".to_string())
    );
    assert_eq!(write_reply(Response::Written { bytes: 3 }), Ok(3));
    let refused = file_reply(Response::Error {
        kind: ErrorKind::NotFound,
        message: "nope".to_string(),
    });
    assert_eq!(refused, Err(RemoteError::Refused("nope".to_string())));
    assert!(matches!(file_reply(Response::Pong), Err(RemoteError::Unexpected(_))));
    assert!(hello_reply(Response::Pong).is_err());
    assert!(stat_reply(Response::Pong).is_err());
    let entry = DirEntry { name: "a".to_string(), is_dir: false, size: 1 };
    assert_eq!(dir_reply(Response::Dir { entries: vec![entry] }).unwrap().len(), 1);
}
