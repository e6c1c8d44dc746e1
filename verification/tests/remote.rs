use std::collections::BTreeMap;
use umber::daemon::{
    confine, handle, io_error, list_dir, malformed, path_below, read_file, stat, write_file, Failure, Found, Task,
};
use umber::proto::{DirEntry, ErrorKind, Request, Response, PROTOCOL_VERSION};
use umber::remote::{dir_reply, file_reply, hello, hello_reply, stat_reply, write_reply, RemoteError};

/// A workspace whose files are held in memory.
struct Workspace {
    files: BTreeMap<String, String>,
}

impl Workspace {
    fn new() -> Workspace {
        Workspace { files: BTreeMap::new() }
    }

    fn is_dir(&self, path: &str) -> bool {
        path == "/w" || self.files.keys().any(|k| k.starts_with(&format!("{path}/")))
    }

    fn answer(&mut self, req: Request) -> Response {
        match handle("/w", req) {
            Task::Reply(r) => r,
            Task::Stop => panic!("stopped"),
            Task::ListDir(dir) => {
                let mut entries = Vec::new();
                for (k, v) in &self.files {
                    if let Some(name) = k.strip_prefix(&format!("{dir}/")) {
                        if !name.contains('/') {
                            entries.push(DirEntry {
                                name: name.to_string(),
                                is_dir: false,
                                size: v.len() as u64,
                            });
                        }
                    }
                }
                list_dir(entries)
            }
            Task::ReadFile(path) => match self.files.get(&path) {
                Some(text) => read_file(text.clone().into_bytes()),
                None => io_error(Failure::NotFound, "no such file".to_string()),
            },
            Task::WriteFile(path, contents) => {
                let r = write_file(&contents);
                self.files.insert(path, contents);
                r
            }
            Task::Stat(path) => stat(match self.files.get(&path) {
                Some(text) => Found::There { is_dir: false, size: text.len() as u64 },
                None if self.is_dir(&path) => Found::There { is_dir: true, size: 0 },
                None => Found::Failed(Failure::NotFound, "no such file".to_string()),
            }),
        }
    }

    fn write(&mut self, path: &str, contents: &str) -> Result<usize, RemoteError> {
        write_reply(self.answer(Request::WriteFile {
            path: path.to_string(),
            contents: contents.to_string(),
        }))
    }

    fn read(&mut self, path: &str) -> Result<String, RemoteError> {
        file_reply(self.answer(Request::ReadFile { path: path.to_string() }))
    }
}

#[test]
fn write_read_list_roundtrip() {
    let mut ws = Workspace::new();
    let n = ws.write("hello.txt", "remote edit\nsecond line\n").unwrap();
    assert_eq!(n, "remote edit\nsecond line\n".len());

    let contents = ws.read("hello.txt").unwrap();
    assert_eq!(contents, "remote edit\nsecond line\n");

    let entries = dir_reply(ws.answer(Request::ListDir { path: ".".to_string() })).unwrap();
    assert!(entries.iter().any(|e| e.name == "hello.txt" && !e.is_dir));

    let st = stat_reply(ws.answer(Request::Stat { path: "hello.txt".to_string() })).unwrap();
    assert!(st.exists && !st.is_dir);
    let missing = stat_reply(ws.answer(Request::Stat { path: "nope.txt".to_string() })).unwrap();
    assert!(!missing.exists);
}

#[test]
fn nested_write_creates_parent_dirs() {
    let mut ws = Workspace::new();
    ws.write("sub/dir/deep.txt", "deep").unwrap();
    assert_eq!(ws.read("sub/dir/deep.txt").unwrap(), "deep");
}

#[test]
fn path_escape_is_rejected() {
    let mut ws = Workspace::new();
    match ws.read("../../../../../../etc/passwd") {
        Err(RemoteError::Refused(err)) => assert!(
            err.to_lowercase().contains("escape"),
            "expected an escape rejection, got: {err}"
        ),
        other => panic!("{other:?}"),
    }
}

#[test]
fn a_connection_begins_with_a_greeting() {
    let mut ws = Workspace::new();
    assert_eq!(hello_reply(ws.answer(hello())), Ok("/w".to_string()));
    let refused = ws.answer(Request::Hello { version: PROTOCOL_VERSION + 1 });
    assert_eq!(
        refused,
        Response::Error {
            kind: ErrorKind::VersionMismatch,
            message: "client protocol v2, daemon v1".to_string(),
        }
    );
    assert_eq!(ws.answer(Request::Ping), Response::Pong);
    assert!(matches!(handle("/w", Request::Shutdown), Task::Stop));
}

#[test]
fn paths_are_resolved_under_the_root() {
    assert_eq!(confine("/w", "a/../b"), Ok("/w/b".to_string()));
    assert_eq!(confine("/w", "."), Ok("/w".to_string()));
    assert_eq!(confine("/w", "/w/x"), Ok("/w/x".to_string()));
    assert!(confine("/w", "/etc").is_err());
    assert!(confine("/w", "..").is_err());
    assert!(confine("/w", "/wx").is_err());
}

#[test]
fn directories_come_first() {
    let entry = |name: &str, is_dir: bool| DirEntry { name: name.to_string(), is_dir, size: 0 };
    match list_dir(vec![entry("b", false), entry("z", true), entry("a", false), entry("y", true)]) {
        Response::Dir { entries } => {
            let names: Vec<String> = entries.into_iter().map(|e| e.name).collect();
            assert_eq!(names, vec!["y", "z", "a", "b"]);
        }
        other => panic!("{other:?}"),
    }
}

#[test]
fn failures_are_reported_by_kind() {
    let kind = |r: Response| match r {
        Response::Error { kind, .. } => kind,
        other => panic!("{other:?}"),
    };
    assert_eq!(kind(io_error(Failure::NotFound, String::new())), ErrorKind::NotFound);
    assert_eq!(
        kind(io_error(Failure::PermissionDenied, String::new())),
        ErrorKind::PermissionDenied
    );
    assert_eq!(kind(io_error(Failure::Other, String::new())), ErrorKind::Io);
    assert_eq!(kind(read_file(vec![0xff])), ErrorKind::NotUtf8);
    assert_eq!(kind(malformed("x")), ErrorKind::Protocol);
    assert_eq!(
        malformed("x"),
        Response::Error {
            kind: ErrorKind::Protocol,
            message: "malformed request: x".to_string(),
        }
    );
    assert_eq!(
        kind(stat(Found::Failed(Failure::Other, "m".to_string()))),
        ErrorKind::Io
    );
}

#[test]
fn paths_below_a_directory_are_told_by_their_parts() {
    assert_eq!(path_below("/w//x", "/w"), "x");
    assert_eq!(path_below("/wx/y", "/w"), "/wx/y");
    let texts = [
        "", "/", "//", ".", "./", "./.", "..", "a", "a/", "a/.", "./a", "/a", "//a", "/a/", "/a//b", "/a/./b/",
        "a/b", "a//b/./c//", "/a/b//c/", "/a/../b", "../a", "./a/b", "/./a/b", "a/./", "/.",
    ];
    for path in texts {
        for dir in texts {
            let expected = std::path::Path::new(path)
                .strip_prefix(dir)
                .unwrap_or(std::path::Path::new(path))
                .to_string_lossy()
                .into_owned();
            assert_eq!(path_below(path, dir), expected, "{path:?} below {dir:?}");
        }
    }
}
