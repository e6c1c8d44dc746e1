//! The messages of the workspace protocol as JSON: how each is written, and which values are read
//! as which message.

use vstd::prelude::*;
use crate::json::{canonical, depth, items_view, json_text, lemma_array_depth, lemma_items, lemma_object_depth, lemma_pairs, member, members_are_found_by_name, only_member, pairs_view, Json, Tree};
use crate::proto::{carries, message_bytes, write_message, DirEntry, ErrorKind, Request, Response, StatInfo};
use crate::text::same;

verus! {

// --- what messages say ---

/// What a [`Request`] says.
pub enum Asked {
    Hello { version: u32 },
    Ping,
    ListDir { path: Seq<char> },
    ReadFile { path: Seq<char> },
    WriteFile { path: Seq<char>, contents: Seq<char> },
    Stat { path: Seq<char> },
    Shutdown,
}

impl View for Request {
    type V = Asked;

    open spec fn view(&self) -> Asked {
        match *self {
            Request::Hello { version } => Asked::Hello { version },
            Request::Ping => Asked::Ping,
            Request::ListDir { path } => Asked::ListDir { path: path@ },
            Request::ReadFile { path } => Asked::ReadFile { path: path@ },
            Request::WriteFile { path, contents } => Asked::WriteFile { path: path@, contents: contents@ },
            Request::Stat { path } => Asked::Stat { path: path@ },
            Request::Shutdown => Asked::Shutdown,
        }
    }
}

/// What a [`DirEntry`] says.
pub struct Entry {
    pub name: Seq<char>,
    pub is_dir: bool,
    pub size: u64,
}

impl View for DirEntry {
    type V = Entry;

    open spec fn view(&self) -> Entry {
        Entry { name: self.name@, is_dir: self.is_dir, size: self.size }
    }
}

/// What a list of entries says.
pub open spec fn entry_views(v: Seq<DirEntry>) -> Seq<Entry> {
    Seq::new(v.len(), |i: int| v[i]@)
}

/// What a [`Response`] says.
pub enum Answered {
    Hello { version: u32, cwd: Seq<char> },
    Pong,
    Dir { entries: Seq<Entry> },
    File { contents: Seq<char> },
    Written { bytes: usize },
    Stat(StatInfo),
    Error { kind: ErrorKind, message: Seq<char> },
}

impl View for Response {
    type V = Answered;

    open spec fn view(&self) -> Answered {
        match *self {
            Response::Hello { version, cwd } => Answered::Hello { version, cwd: cwd@ },
            Response::Pong => Answered::Pong,
            Response::Dir { entries } => Answered::Dir { entries: entry_views(entries@) },
            Response::File { contents } => Answered::File { contents: contents@ },
            Response::Written { bytes } => Answered::Written { bytes },
            Response::Stat(info) => Answered::Stat(info),
            Response::Error { kind, message } => Answered::Error { kind, message: message@ },
        }
    }
}

// --- requests ---

/// The value that writes a request: an object that names it under `op`.
pub open spec fn request_tree(a: Asked) -> Tree {
    Tree::Object(
        match a {
            Asked::Hello { version } => seq![
                ("op"@, Tree::Str("hello"@)),
                ("version"@, Tree::UInt(version as u64)),
            ],
            Asked::Ping => seq![("op"@, Tree::Str("ping"@))],
            Asked::ListDir { path } => seq![("op"@, Tree::Str("list_dir"@)), ("path"@, Tree::Str(path))],
            Asked::ReadFile { path } => seq![("op"@, Tree::Str("read_file"@)), ("path"@, Tree::Str(path))],
            Asked::WriteFile { path, contents } => seq![
                ("op"@, Tree::Str("write_file"@)),
                ("path"@, Tree::Str(path)),
                ("contents"@, Tree::Str(contents)),
            ],
            Asked::Stat { path } => seq![("op"@, Tree::Str("stat"@)), ("path"@, Tree::Str(path))],
            Asked::Shutdown => seq![("op"@, Tree::Str("shutdown"@))],
        },
    )
}

/// The text of the one member under `key`.
pub open spec fn text_in(t: Tree, key: Seq<char>) -> Option<Seq<char>> {
    match t.only(key) {
        Some(Tree::Str(s)) => Some(s),
        _ => None,
    }
}

/// The number of the one member under `key`.
pub open spec fn number_in(t: Tree, key: Seq<char>) -> Option<u64> {
    match t.only(key) {
        Some(Tree::UInt(n)) => Some(n),
        _ => None,
    }
}

/// The number of the one member under `key`, where it fits in 32 bits.
pub open spec fn small_in(t: Tree, key: Seq<char>) -> Option<u32> {
    match number_in(t, key) {
        Some(n) => if n <= u32::MAX {
            Some(n as u32)
        } else {
            None
        },
        None => None,
    }
}

/// The request that a value is read as: what stands under `op` names it, each of its fields must be
/// there, neither may be there twice, and whatever else is there does not count.
pub open spec fn request_in(t: Tree) -> Option<Asked> {
    let path = text_in(t, "path"@);
    match text_in(t, "op"@) {
        None => None,
        Some(op) => if op == "hello"@ {
            match small_in(t, "version"@) {
                Some(version) => Some(Asked::Hello { version }),
                None => None,
            }
        } else if op == "ping"@ {
            Some(Asked::Ping)
        } else if op == "list_dir"@ {
            match path {
                Some(path) => Some(Asked::ListDir { path }),
                None => None,
            }
        } else if op == "read_file"@ {
            match path {
                Some(path) => Some(Asked::ReadFile { path }),
                None => None,
            }
        } else if op == "write_file"@ {
            match (path, text_in(t, "contents"@)) {
                (Some(path), Some(contents)) => Some(Asked::WriteFile { path, contents }),
                _ => None,
            }
        } else if op == "stat"@ {
            match path {
                Some(path) => Some(Asked::Stat { path }),
                None => None,
            }
        } else if op == "shutdown"@ {
            Some(Asked::Shutdown)
        } else {
            None
        },
    }
}

fn text_member(name: &str, text: &str) -> (r: (String, Json))
    ensures
        r.0@ == name@,
        r.1@ == Tree::Str(text@),
{
    (name.to_owned(), Json::Str(text.to_owned()))
}

fn number_member(name: &str, n: u64) -> (r: (String, Json))
    ensures
        r.0@ == name@,
        r.1@ == Tree::UInt(n),
{
    (name.to_owned(), Json::UInt(n))
}

fn bool_member(name: &str, b: bool) -> (r: (String, Json))
    ensures
        r.0@ == name@,
        r.1@ == Tree::Bool(b),
{
    (name.to_owned(), Json::Bool(b))
}

fn number_of(j: &Json, key: &str) -> (r: Option<u64>)
    ensures
        r == number_in(j@, key@),
{
    match j.only(key) {
        Some(v) => v.as_u64(),
        None => None,
    }
}

fn small_of(j: &Json, key: &str) -> (r: Option<u32>)
    ensures
        r == small_in(j@, key@),
{
    match number_of(j, key) {
        Some(n) => if n <= u32::MAX as u64 {
            Some(n as u32)
        } else {
            None
        },
        None => None,
    }
}

fn text_under(j: &Json, key: &str) -> (r: Option<String>)
    ensures
        match r {
            Some(s) => text_in(j@, key@) == Some(s@),
            None => text_in(j@, key@) is None,
        },
{
    match j.only(key) {
        Some(v) => match v.as_str() {
            Some(s) => Some(s.to_owned()),
            None => None,
        },
        None => None,
    }
}

impl Request {
    /// The value that writes the request.
    pub fn to_json(&self) -> (r: Json)
        ensures
            r@ == request_tree(self@),
    {
        let mut pairs: Vec<(String, Json)> = Vec::new();
        match self {
            Request::Hello { version } => {
                pairs.push(text_member("op", "hello"));
                pairs.push(number_member("version", *version as u64));
            },
            Request::Ping => {
                pairs.push(text_member("op", "ping"));
            },
            Request::ListDir { path } => {
                pairs.push(text_member("op", "list_dir"));
                pairs.push(text_member("path", path));
            },
            Request::ReadFile { path } => {
                pairs.push(text_member("op", "read_file"));
                pairs.push(text_member("path", path));
            },
            Request::WriteFile { path, contents } => {
                pairs.push(text_member("op", "write_file"));
                pairs.push(text_member("path", path));
                pairs.push(text_member("contents", contents));
            },
            Request::Stat { path } => {
                pairs.push(text_member("op", "stat"));
                pairs.push(text_member("path", path));
            },
            Request::Shutdown => {
                pairs.push(text_member("op", "shutdown"));
            },
        }
        proof {
            lemma_pairs(pairs);
        }
        let r = Json::Object(pairs);
        assert(r@->Object_0 =~= request_tree(self@)->Object_0);
        r
    }

    /// The request that a value is read as.
    pub fn from_json(j: &Json) -> (r: Option<Request>)
        ensures
            match r {
                Some(q) => request_in(j@) == Some(q@),
                None => request_in(j@) is None,
            },
    {
        let named = match text_under(j, "op") {
            Some(op) => op,
            None => return None,
        };
        let op = named.as_str();
        let path = text_under(j, "path");
        if same(op, "hello") {
            match small_of(j, "version") {
                Some(version) => Some(Request::Hello { version }),
                None => None,
            }
        } else if same(op, "ping") {
            Some(Request::Ping)
        } else if same(op, "list_dir") {
            match path {
                Some(path) => Some(Request::ListDir { path }),
                None => None,
            }
        } else if same(op, "read_file") {
            match path {
                Some(path) => Some(Request::ReadFile { path }),
                None => None,
            }
        } else if same(op, "write_file") {
            match (path, text_under(j, "contents")) {
                (Some(path), Some(contents)) => Some(Request::WriteFile { path, contents }),
                _ => None,
            }
        } else if same(op, "stat") {
            match path {
                Some(path) => Some(Request::Stat { path }),
                None => None,
            }
        } else if same(op, "shutdown") {
            Some(Request::Shutdown)
        } else {
            None
        }
    }
}

// --- answers ---

/// The name of a kind of errors.
pub open spec fn kind_name(k: ErrorKind) -> Seq<char> {
    match k {
        ErrorKind::NotFound => "not_found"@,
        ErrorKind::PermissionDenied => "permission_denied"@,
        ErrorKind::NotUtf8 => "not_utf8"@,
        ErrorKind::VersionMismatch => "version_mismatch"@,
        ErrorKind::Protocol => "protocol"@,
        ErrorKind::Io => "io"@,
    }
}

/// The kind of errors with a name.
pub open spec fn kind_named(name: Seq<char>) -> Option<ErrorKind> {
    if name == "not_found"@ {
        Some(ErrorKind::NotFound)
    } else if name == "permission_denied"@ {
        Some(ErrorKind::PermissionDenied)
    } else if name == "not_utf8"@ {
        Some(ErrorKind::NotUtf8)
    } else if name == "version_mismatch"@ {
        Some(ErrorKind::VersionMismatch)
    } else if name == "protocol"@ {
        Some(ErrorKind::Protocol)
    } else if name == "io"@ {
        Some(ErrorKind::Io)
    } else {
        None
    }
}

fn name_kind(k: ErrorKind) -> (r: &'static str)
    ensures
        r@ == kind_name(k),
{
    match k {
        ErrorKind::NotFound => "not_found",
        ErrorKind::PermissionDenied => "permission_denied",
        ErrorKind::NotUtf8 => "not_utf8",
        ErrorKind::VersionMismatch => "version_mismatch",
        ErrorKind::Protocol => "protocol",
        ErrorKind::Io => "io",
    }
}

fn read_kind(name: &str) -> (r: Option<ErrorKind>)
    ensures
        r == kind_named(name@),
{
    if same(name, "not_found") {
        Some(ErrorKind::NotFound)
    } else if same(name, "permission_denied") {
        Some(ErrorKind::PermissionDenied)
    } else if same(name, "not_utf8") {
        Some(ErrorKind::NotUtf8)
    } else if same(name, "version_mismatch") {
        Some(ErrorKind::VersionMismatch)
    } else if same(name, "protocol") {
        Some(ErrorKind::Protocol)
    } else if same(name, "io") {
        Some(ErrorKind::Io)
    } else {
        None
    }
}

/// The value that writes a directory entry.
pub open spec fn entry_tree(e: Entry) -> Tree {
    Tree::Object(
        seq![
            ("name"@, Tree::Str(e.name)),
            ("is_dir"@, Tree::Bool(e.is_dir)),
            ("size"@, Tree::UInt(e.size)),
        ],
    )
}

/// The truth value of the one member under `key`.
pub open spec fn bool_in(t: Tree, key: Seq<char>) -> Option<bool> {
    match t.only(key) {
        Some(Tree::Bool(b)) => Some(b),
        _ => None,
    }
}

/// The directory entry that a value is read as: an object with its fields, or an array of them.
pub open spec fn entry_in(t: Tree) -> Option<Entry> {
    match t {
        Tree::Array(a) => if a.len() == 3 {
            match (a[0], a[1], a[2]) {
                (Tree::Str(name), Tree::Bool(is_dir), Tree::UInt(size)) => Some(
                    Entry { name, is_dir, size },
                ),
                _ => None,
            }
        } else {
            None
        },
        _ => match (text_in(t, "name"@), bool_in(t, "is_dir"@), number_in(t, "size"@)) {
            (Some(name), Some(is_dir), Some(size)) => Some(Entry { name, is_dir, size }),
            _ => None,
        },
    }
}

/// The kind of errors that a value is read as: its name, or an object with nothing under its name.
pub open spec fn kind_in(t: Tree) -> Option<ErrorKind> {
    match t {
        Tree::Str(name) => kind_named(name),
        Tree::Object(p) => if p.len() == 1 && (p[0].1 is Null || p[0].1 == Tree::Object(Seq::empty())) {
            kind_named(p[0].0)
        } else {
            None
        },
        _ => None,
    }
}

/// The directory entries that the first `n` values are read as, if each is one.
pub open spec fn entries_in(a: Seq<Tree>, n: nat) -> Option<Seq<Entry>>
    decreases n,
{
    if n == 0 {
        Some(Seq::empty())
    } else {
        match (entries_in(a, (n - 1) as nat), entry_in(a[n - 1])) {
            (Some(before), Some(e)) => Some(before.push(e)),
            _ => None,
        }
    }
}

/// The value that writes an answer: an object that names it under `ok`.
pub open spec fn response_tree(a: Answered) -> Tree {
    Tree::Object(
        match a {
            Answered::Hello { version, cwd } => seq![
                ("ok"@, Tree::Str("hello"@)),
                ("version"@, Tree::UInt(version as u64)),
                ("cwd"@, Tree::Str(cwd)),
            ],
            Answered::Pong => seq![("ok"@, Tree::Str("pong"@))],
            Answered::Dir { entries } => seq![
                ("ok"@, Tree::Str("dir"@)),
                ("entries"@, Tree::Array(Seq::new(entries.len(), |i: int| entry_tree(entries[i])))),
            ],
            Answered::File { contents } => seq![
                ("ok"@, Tree::Str("file"@)),
                ("contents"@, Tree::Str(contents)),
            ],
            Answered::Written { bytes } => seq![
                ("ok"@, Tree::Str("written"@)),
                ("bytes"@, Tree::UInt(bytes as u64)),
            ],
            Answered::Stat(info) => seq![
                ("ok"@, Tree::Str("stat"@)),
                ("is_dir"@, Tree::Bool(info.is_dir)),
                ("size"@, Tree::UInt(info.size)),
                ("exists"@, Tree::Bool(info.exists)),
            ],
            Answered::Error { kind, message } => seq![
                ("ok"@, Tree::Str("error"@)),
                ("kind"@, Tree::Str(kind_name(kind))),
                ("message"@, Tree::Str(message)),
            ],
        },
    )
}

/// The answer that a value is read as: what stands under `ok` names it, each of its fields must be
/// there, neither may be there twice, and whatever else is there does not count.
pub open spec fn response_in(t: Tree) -> Option<Answered> {
    match text_in(t, "ok"@) {
        None => None,
        Some(ok) => if ok == "hello"@ {
            match (small_in(t, "version"@), text_in(t, "cwd"@)) {
                (Some(version), Some(cwd)) => Some(Answered::Hello { version, cwd }),
                _ => None,
            }
        } else if ok == "pong"@ {
            Some(Answered::Pong)
        } else if ok == "dir"@ {
            match t.only("entries"@) {
                Some(Tree::Array(a)) => match entries_in(a, a.len()) {
                    Some(entries) => Some(Answered::Dir { entries }),
                    None => None,
                },
                _ => None,
            }
        } else if ok == "file"@ {
            match text_in(t, "contents"@) {
                Some(contents) => Some(Answered::File { contents }),
                None => None,
            }
        } else if ok == "written"@ {
            match number_in(t, "bytes"@) {
                Some(n) => if n <= usize::MAX {
                    Some(Answered::Written { bytes: n as usize })
                } else {
                    None
                },
                None => None,
            }
        } else if ok == "stat"@ {
            match (bool_in(t, "is_dir"@), number_in(t, "size"@), bool_in(t, "exists"@)) {
                (Some(is_dir), Some(size), Some(exists)) => Some(
                    Answered::Stat(StatInfo { is_dir, size, exists }),
                ),
                _ => None,
            }
        } else if ok == "error"@ {
            match (t.only("kind"@), text_in(t, "message"@)) {
                (Some(k), Some(message)) => match kind_in(k) {
                    Some(kind) => Some(Answered::Error { kind, message }),
                    None => None,
                },
                _ => None,
            }
        } else {
            None
        },
    }
}

fn bool_under(j: &Json, key: &str) -> (r: Option<bool>)
    ensures
        r == bool_in(j@, key@),
{
    match j.only(key) {
        Some(v) => v.as_bool(),
        None => None,
    }
}

fn entry_json(e: &DirEntry) -> (r: Json)
    ensures
        r@ == entry_tree(e@),
{
    let mut pairs: Vec<(String, Json)> = Vec::new();
    pairs.push(text_member("name", &e.name));
    pairs.push(bool_member("is_dir", e.is_dir));
    pairs.push(number_member("size", e.size));
    proof {
        lemma_pairs(pairs);
    }
    let r = Json::Object(pairs);
    assert(r@->Object_0 =~= entry_tree(e@)->Object_0);
    r
}

fn read_entry(j: &Json) -> (r: Option<DirEntry>)
    ensures
        match r {
            Some(e) => entry_in(j@) == Some(e@),
            None => entry_in(j@) is None,
        },
{
    if let Json::Array(a) = j {
        proof {
            lemma_items(*a);
        }
        if a.len() != 3 {
            return None;
        }
        return match (a[0].as_str(), a[1].as_bool(), a[2].as_u64()) {
            (Some(name), Some(is_dir), Some(size)) => Some(DirEntry { name: name.to_owned(), is_dir, size }),
            _ => None,
        };
    }
    match (text_under(j, "name"), bool_under(j, "is_dir"), number_of(j, "size")) {
        (Some(name), Some(is_dir), Some(size)) => Some(DirEntry { name, is_dir, size }),
        _ => None,
    }
}

fn kind_of(j: &Json) -> (r: Option<ErrorKind>)
    ensures
        r == kind_in(j@),
{
    match j {
        Json::Str(name) => read_kind(name),
        Json::Object(p) => {
            proof {
                lemma_pairs(*p);
            }
            if p.len() != 1 {
                return None;
            }
            let bare = match &p[0].1 {
                Json::Null => true,
                Json::Object(q) => {
                    proof {
                        lemma_pairs(*q);
                        if q@.len() == 0 {
                            assert(pairs_view(*q) =~= Seq::<(Seq<char>, Tree)>::empty());
                        }
                    }
                    q.len() == 0
                },
                _ => false,
            };
            if bare {
                read_kind(&p[0].0)
            } else {
                None
            }
        },
        _ => None,
    }
}

proof fn lemma_entries_none(a: Seq<Tree>, k: nat, n: nat)
    requires
        k <= n,
        entries_in(a, k) is None,
    ensures
        entries_in(a, n) is None,
    decreases n,
{
    if k < n {
        lemma_entries_none(a, k, (n - 1) as nat);
    }
}

fn read_entries(a: &Vec<Json>) -> (r: Option<Vec<DirEntry>>)
    ensures
        match r {
            Some(v) => entries_in(items_view(*a), a@.len()) == Some(entry_views(v@)),
            None => entries_in(items_view(*a), a@.len()) is None,
        },
{
    let ghost all = items_view(*a);
    proof {
        lemma_items(*a);
    }
    let mut out: Vec<DirEntry> = Vec::new();
    assert(entry_views(out@) =~= Seq::<Entry>::empty());
    for i in 0..a.len()
        invariant
            all == items_view(*a),
            all.len() == a@.len(),
            forall|k: int| 0 <= k < a@.len() ==> #[trigger] all[k] == a[k]@,
            entries_in(all, i as nat) == Some(entry_views(out@)),
    {
        let ghost before = entry_views(out@);
        assert(all[i as int] == a[i as int]@);
        match read_entry(&a[i]) {
            Some(e) => {
                out.push(e);
                assert(entry_views(out@) =~= before.push(e@));
            },
            None => {
                proof {
                    lemma_entries_none(all, (i + 1) as nat, all.len());
                }
                return None;
            },
        }
    }
    Some(out)
}

fn entries_json(entries: &Vec<DirEntry>) -> (r: Json)
    ensures
        r@ == Tree::Array(Seq::new(entries@.len(), |i: int| entry_tree(entry_views(entries@)[i]))),
{
    let mut out: Vec<Json> = Vec::new();
    let ghost want = Seq::new(entries@.len(), |i: int| entry_tree(entry_views(entries@)[i]));
    for i in 0..entries.len()
        invariant
            want == Seq::new(entries@.len(), |i: int| entry_tree(entry_views(entries@)[i])),
            out@.len() == i,
            forall|k: int| 0 <= k < i ==> (#[trigger] out@[k])@ == want[k],
    {
        out.push(entry_json(&entries[i]));
    }
    proof {
        lemma_items(out);
    }
    let r = Json::Array(out);
    assert(r@->Array_0 =~= want);
    r
}

impl Response {
    /// The value that writes the answer.
    pub fn to_json(&self) -> (r: Json)
        ensures
            r@ == response_tree(self@),
    {
        let mut pairs: Vec<(String, Json)> = Vec::new();
        match self {
            Response::Hello { version, cwd } => {
                pairs.push(text_member("ok", "hello"));
                pairs.push(number_member("version", *version as u64));
                pairs.push(text_member("cwd", cwd));
            },
            Response::Pong => {
                pairs.push(text_member("ok", "pong"));
            },
            Response::Dir { entries } => {
                pairs.push(text_member("ok", "dir"));
                pairs.push(("entries".to_owned(), entries_json(entries)));
            },
            Response::File { contents } => {
                pairs.push(text_member("ok", "file"));
                pairs.push(text_member("contents", contents));
            },
            Response::Written { bytes } => {
                pairs.push(text_member("ok", "written"));
                pairs.push(number_member("bytes", *bytes as u64));
            },
            Response::Stat(info) => {
                pairs.push(text_member("ok", "stat"));
                pairs.push(bool_member("is_dir", info.is_dir));
                pairs.push(number_member("size", info.size));
                pairs.push(bool_member("exists", info.exists));
            },
            Response::Error { kind, message } => {
                pairs.push(text_member("ok", "error"));
                pairs.push(text_member("kind", name_kind(*kind)));
                pairs.push(text_member("message", message));
            },
        }
        proof {
            lemma_pairs(pairs);
        }
        let r = Json::Object(pairs);
        assert(r@->Object_0 =~= response_tree(self@)->Object_0);
        r
    }

    /// The answer that a value is read as.
    pub fn from_json(j: &Json) -> (r: Option<Response>)
        ensures
            match r {
                Some(a) => response_in(j@) == Some(a@),
                None => response_in(j@) is None,
            },
    {
        let named = match text_under(j, "ok") {
            Some(ok) => ok,
            None => return None,
        };
        let ok = named.as_str();
        if same(ok, "hello") {
            match (small_of(j, "version"), text_under(j, "cwd")) {
                (Some(version), Some(cwd)) => Some(Response::Hello { version, cwd }),
                _ => None,
            }
        } else if same(ok, "pong") {
            Some(Response::Pong)
        } else if same(ok, "dir") {
            match j.only("entries") {
                Some(v) => match v.as_array() {
                    Some(a) => {
                        proof {
                            lemma_items(*a);
                        }
                        match read_entries(a) {
                            Some(entries) => Some(Response::Dir { entries }),
                            None => None,
                        }
                    },
                    None => None,
                },
                None => None,
            }
        } else if same(ok, "file") {
            match text_under(j, "contents") {
                Some(contents) => Some(Response::File { contents }),
                None => None,
            }
        } else if same(ok, "written") {
            match number_of(j, "bytes") {
                Some(n) => if n <= usize::MAX as u64 {
                    Some(Response::Written { bytes: n as usize })
                } else {
                    None
                },
                None => None,
            }
        } else if same(ok, "stat") {
            match (bool_under(j, "is_dir"), number_of(j, "size"), bool_under(j, "exists")) {
                (Some(is_dir), Some(size), Some(exists)) => Some(
                    Response::Stat(StatInfo { is_dir, size, exists }),
                ),
                _ => None,
            }
        } else if same(ok, "error") {
            match (j.only("kind"), text_under(j, "message")) {
                (Some(k), Some(message)) => match kind_of(k) {
                    Some(kind) => Some(Response::Error { kind, message }),
                    None => None,
                },
                _ => None,
            }
        } else {
            None
        }
    }
}

// --- what is written is read back ---

/// No two names of an object are the same.
spec fn names_differ(p: Seq<(Seq<char>, Tree)>) -> bool {
    forall|i: int, j: int| 0 <= i < j < p.len() ==> #[trigger] p[i].0 != #[trigger] p[j].0
}

proof fn lemma_member_none(p: Seq<(Seq<char>, Tree)>, key: Seq<char>)
    requires
        forall|i: int| 0 <= i < p.len() ==> #[trigger] p[i].0 != key,
    ensures
        member(p, key) is None,
    decreases p.len(),
{
    if p.len() > 0 {
        let t = p.skip(1);
        assert(p[0].0 != key);
        assert forall|i: int| 0 <= i < t.len() implies #[trigger] t[i].0 != key by {
            assert(p[i + 1].0 != key);
        }
        lemma_member_none(t, key);
    }
}

/// A member is found under its name, where the names differ.
proof fn lemma_member_at(p: Seq<(Seq<char>, Tree)>, i: int)
    requires
        names_differ(p),
        0 <= i < p.len(),
    ensures
        only_member(p, p[i].0) == Some(p[i].1),
        Tree::Object(p).only(p[i].0) == Some(p[i].1),
    decreases p.len(),
{
    let t = p.skip(1);
    if i > 0 {
        assert(p[0].0 != p[i].0);
        assert forall|a: int, b: int| 0 <= a < b < t.len() implies #[trigger] t[a].0 != #[trigger] t[b].0 by {
            assert(p[a + 1].0 != p[b + 1].0);
        }
        lemma_member_at(t, i - 1);
        assert(t[i - 1] == p[i]);
    } else {
        assert forall|k: int| 0 <= k < t.len() implies #[trigger] t[k].0 != p[0].0 by {
            assert(p[0].0 != p[k + 1].0);
        }
        lemma_member_none(t, p[0].0);
    }
}

/// A flat object whose names differ has one way to write it.
proof fn lemma_flat(p: Seq<(Seq<char>, Tree)>, d: nat)
    requires
        names_differ(p),
        forall|i: int| 0 <= i < p.len() ==> canonical((#[trigger] p[i]).1) && depth(p[i].1) <= d,
    ensures
        canonical(Tree::Object(p)),
        depth(Tree::Object(p)) <= d + 1,
{
    lemma_object_depth(p, d);
}

proof fn lemma_request_names()
    ensures
        "op"@ != "version"@ && "op"@ != "path"@ && "op"@ != "contents"@ && "path"@ != "contents"@,
{
    reveal_strlit("op");
    reveal_strlit("version");
    reveal_strlit("path");
    reveal_strlit("contents");
    assert("op"@.len() == 2 && "path"@.len() == 4 && "version"@.len() == 7 && "contents"@.len() == 8);
}

/// The names of the requests differ.
proof fn lemma_ops()
    ensures
        "ping"@ != "hello"@,
        "list_dir"@ != "hello"@ && "list_dir"@ != "ping"@,
        "read_file"@ != "hello"@ && "read_file"@ != "ping"@ && "read_file"@ != "list_dir"@,
        "write_file"@ != "hello"@ && "write_file"@ != "ping"@ && "write_file"@ != "list_dir"@ && "write_file"@
            != "read_file"@,
        "stat"@ != "hello"@ && "stat"@ != "ping"@ && "stat"@ != "list_dir"@ && "stat"@ != "read_file"@
            && "stat"@ != "write_file"@,
        "shutdown"@ != "hello"@ && "shutdown"@ != "ping"@ && "shutdown"@ != "list_dir"@ && "shutdown"@
            != "read_file"@ && "shutdown"@ != "write_file"@ && "shutdown"@ != "stat"@,
{
    reveal_strlit("hello");
    reveal_strlit("ping");
    reveal_strlit("list_dir");
    reveal_strlit("read_file");
    reveal_strlit("write_file");
    reveal_strlit("stat");
    reveal_strlit("shutdown");
    assert("hello"@.len() == 5);
    assert("ping"@.len() == 4);
    assert("list_dir"@.len() == 8);
    assert("read_file"@.len() == 9);
    assert("write_file"@.len() == 10);
    assert("stat"@.len() == 4);
    assert("shutdown"@.len() == 8);
    assert("ping"@[0] == 'p' && "stat"@[0] == 's' && "list_dir"@[0] == 'l' && "shutdown"@[0] == 's');
}

/// A request reads back from the value that writes it, and that value has one way to write it.
pub proof fn requests_read_back(a: Asked)
    ensures
        request_in(request_tree(a)) == Some(a),
        canonical(request_tree(a)),
        depth(request_tree(a)) <= 1,
{
    lemma_request_names();
    lemma_ops();
    let p = request_tree(a)->Object_0;
    assert(names_differ(p));
    lemma_flat(p, 0);
    match a {
        Asked::WriteFile { path, contents } => {
            lemma_member_at(p, 0);
            lemma_member_at(p, 1);
            lemma_member_at(p, 2);
        },
        Asked::Ping | Asked::Shutdown => {
            lemma_member_at(p, 0);
        },
        _ => {
            lemma_member_at(p, 0);
            lemma_member_at(p, 1);
        },
    }
}

proof fn lemma_response_names()
    ensures
        "ok"@ != "version"@ && "ok"@ != "cwd"@ && "version"@ != "cwd"@,
        "ok"@ != "entries"@ && "ok"@ != "contents"@ && "ok"@ != "bytes"@,
        "ok"@ != "is_dir"@ && "ok"@ != "size"@ && "ok"@ != "exists"@,
        "is_dir"@ != "size"@ && "is_dir"@ != "exists"@ && "size"@ != "exists"@,
        "ok"@ != "kind"@ && "ok"@ != "message"@ && "kind"@ != "message"@,
        "name"@ != "is_dir"@ && "name"@ != "size"@,
{
    reveal_strlit("ok");
    reveal_strlit("version");
    reveal_strlit("cwd");
    reveal_strlit("entries");
    reveal_strlit("contents");
    reveal_strlit("bytes");
    reveal_strlit("is_dir");
    reveal_strlit("size");
    reveal_strlit("exists");
    reveal_strlit("kind");
    reveal_strlit("message");
    reveal_strlit("name");
    assert("ok"@.len() == 2 && "version"@.len() == 7 && "cwd"@.len() == 3 && "entries"@.len() == 7);
    assert("contents"@.len() == 8 && "bytes"@.len() == 5 && "is_dir"@.len() == 6 && "size"@.len() == 4);
    assert("exists"@.len() == 6 && "kind"@.len() == 4 && "message"@.len() == 7 && "name"@.len() == 4);
    assert("is_dir"@[0] == 'i' && "exists"@[0] == 'e' && "name"@[0] == 'n' && "size"@[0] == 's');
}

/// The names of the answers differ.
proof fn lemma_oks()
    ensures
        "pong"@ != "hello"@,
        "dir"@ != "hello"@ && "dir"@ != "pong"@,
        "file"@ != "hello"@ && "file"@ != "pong"@ && "file"@ != "dir"@,
        "written"@ != "hello"@ && "written"@ != "pong"@ && "written"@ != "dir"@ && "written"@ != "file"@,
        "stat"@ != "hello"@ && "stat"@ != "pong"@ && "stat"@ != "dir"@ && "stat"@ != "file"@ && "stat"@
            != "written"@,
        "error"@ != "hello"@ && "error"@ != "pong"@ && "error"@ != "dir"@ && "error"@ != "file"@ && "error"@
            != "written"@ && "error"@ != "stat"@,
{
    reveal_strlit("hello");
    reveal_strlit("pong");
    reveal_strlit("dir");
    reveal_strlit("file");
    reveal_strlit("written");
    reveal_strlit("stat");
    reveal_strlit("error");
    assert("hello"@.len() == 5);
    assert("pong"@.len() == 4);
    assert("dir"@.len() == 3);
    assert("file"@.len() == 4);
    assert("written"@.len() == 7);
    assert("stat"@.len() == 4);
    assert("error"@.len() == 5);
    assert("pong"@[0] == 'p' && "file"@[0] == 'f' && "stat"@[0] == 's');
    assert("hello"@[0] == 'h' && "error"@[0] == 'e');
}

/// The names of the kinds of errors differ.
proof fn lemma_kinds(k: ErrorKind)
    ensures
        kind_named(kind_name(k)) == Some(k),
{
    reveal_strlit("not_found");
    reveal_strlit("permission_denied");
    reveal_strlit("not_utf8");
    reveal_strlit("version_mismatch");
    reveal_strlit("protocol");
    reveal_strlit("io");
    assert("not_found"@.len() == 9);
    assert("permission_denied"@.len() == 17);
    assert("not_utf8"@.len() == 8);
    assert("version_mismatch"@.len() == 16);
    assert("protocol"@.len() == 8);
    assert("io"@.len() == 2);
    assert("not_utf8"@[0] == 'n' && "protocol"@[0] == 'p');
}

proof fn lemma_entry_reads_back(e: Entry)
    ensures
        entry_in(entry_tree(e)) == Some(e),
        canonical(entry_tree(e)),
        depth(entry_tree(e)) <= 1,
{
    lemma_response_names();
    let p = entry_tree(e)->Object_0;
    assert(names_differ(p));
    lemma_flat(p, 0);
    lemma_member_at(p, 0);
    lemma_member_at(p, 1);
    lemma_member_at(p, 2);
}

proof fn lemma_entries_read_back(entries: Seq<Entry>, n: nat)
    requires
        n <= entries.len(),
    ensures
        entries_in(Seq::new(entries.len(), |i: int| entry_tree(entries[i])), n) == Some(
            entries.take(n as int),
        ),
    decreases n,
{
    if n == 0 {
        assert(entries.take(0) =~= Seq::<Entry>::empty());
    } else {
        lemma_entries_read_back(entries, (n - 1) as nat);
        lemma_entry_reads_back(entries[n - 1]);
        assert(entries.take(n as int) =~= entries.take(n - 1).push(entries[n - 1]));
    }
}

/// An answer reads back from the value that writes it, and that value has one way to write it.
pub proof fn responses_read_back(a: Answered)
    ensures
        response_in(response_tree(a)) == Some(a),
        canonical(response_tree(a)),
        depth(response_tree(a)) <= 3,
{
    lemma_response_names();
    lemma_oks();
    let p = response_tree(a)->Object_0;
    assert(names_differ(p));
    match a {
        Answered::Dir { entries } => {
            let items = Seq::new(entries.len(), |i: int| entry_tree(entries[i]));
            lemma_entries_read_back(entries, entries.len());
            assert(entries.take(entries.len() as int) =~= entries);
            assert forall|i: int| 0 <= i < items.len() implies canonical(#[trigger] items[i]) && depth(
                items[i],
            ) <= 1 by {
                lemma_entry_reads_back(entries[i]);
            }
            lemma_array_depth(items, 1);
            assert(canonical(p[1].1) && depth(p[1].1) <= 2);
            lemma_flat(p, 2);
            lemma_member_at(p, 0);
            lemma_member_at(p, 1);
        },
        Answered::Error { kind, message } => {
            lemma_kinds(kind);
            lemma_flat(p, 0);
            lemma_member_at(p, 0);
            lemma_member_at(p, 1);
            lemma_member_at(p, 2);
        },
        Answered::Stat(info) => {
            lemma_flat(p, 0);
            lemma_member_at(p, 0);
            lemma_member_at(p, 1);
            lemma_member_at(p, 2);
            lemma_member_at(p, 3);
        },
        Answered::Hello { version, cwd } => {
            lemma_flat(p, 0);
            lemma_member_at(p, 0);
            lemma_member_at(p, 1);
            lemma_member_at(p, 2);
        },
        Answered::Pong => {
            lemma_flat(p, 0);
            lemma_member_at(p, 0);
        },
        Answered::File { contents } => {
            lemma_flat(p, 0);
            lemma_member_at(p, 0);
            lemma_member_at(p, 1);
        },
        Answered::Written { bytes } => {
            lemma_flat(p, 0);
            lemma_member_at(p, 0);
            lemma_member_at(p, 1);
        },
    }
}

// --- lines ---

/// The line that sends a request: it holds one line feed, at its end, and whatever follows it, what is
/// read in it is the value that is read as the request.
pub fn write_request(q: &Request) -> (r: Vec<u8>)
    ensures
        r@ == message_bytes(json_text(request_tree(q@))),
        forall|i: int| 0 <= i < r@.len() - 1 ==> r@[i] != 10,
        forall|rest: Seq<u8>| #[trigger] carries(r@ + rest, request_tree(q@), rest),
        request_in(request_tree(q@)) == Some(q@),
{
    let value = q.to_json();
    proof {
        requests_read_back(q@);
    }
    write_message(&value)
}

/// The line that sends an answer: it holds one line feed, at its end, and whatever follows it, what is
/// read in it is the value that is read as the answer.
pub fn write_response(a: &Response) -> (r: Vec<u8>)
    ensures
        r@ == message_bytes(json_text(response_tree(a@))),
        forall|i: int| 0 <= i < r@.len() - 1 ==> r@[i] != 10,
        forall|rest: Seq<u8>| #[trigger] carries(r@ + rest, response_tree(a@), rest),
        response_in(response_tree(a@)) == Some(a@),
{
    let value = a.to_json();
    proof {
        responses_read_back(a@);
    }
    write_message(&value)
}

/// The first message in `b` is a request, and this stands behind it.
pub open spec fn asks(b: Seq<u8>, a: Asked, rest: Seq<u8>) -> bool {
    exists|t: Tree| #[trigger] carries(b, t, rest) && request_in(t) == Some(a)
}

/// Requests sent one after the other are read in sequence, each from its own line, and then the
/// input ends.
pub proof fn requests_read_in_sequence(x: Seq<u8>, a: Asked, y: Seq<u8>, b: Asked)
    requires
        forall|rest: Seq<u8>| #[trigger] carries(x + rest, request_tree(a), rest),
        forall|rest: Seq<u8>| #[trigger] carries(y + rest, request_tree(b), rest),
    ensures
        asks(x + y, a, y),
        asks(y, b, Seq::empty()),
{
    requests_read_back(a);
    requests_read_back(b);
    assert(carries(x + y, request_tree(a), y));
    assert(y + Seq::<u8>::empty() =~= y);
    assert(carries(y + Seq::<u8>::empty(), request_tree(b), Seq::empty()));
}

/// A request names what it asks for, and says the path, the contents and the version that it is about.
pub proof fn requests_are_named(path: Seq<char>, contents: Seq<char>, version: u32)
    ensures
        request_tree(Asked::Ping).get_text("op"@) == Some("ping"@),
        request_tree(Asked::Shutdown).get_text("op"@) == Some("shutdown"@),
        request_tree(Asked::Hello { version }).get_text("op"@) == Some("hello"@),
        request_tree(Asked::Hello { version }).get_uint("version"@) == Some(version as u64),
        request_tree(Asked::ListDir { path }).get_text("op"@) == Some("list_dir"@),
        request_tree(Asked::ListDir { path }).get_text("path"@) == Some(path),
        request_tree(Asked::ReadFile { path }).get_text("op"@) == Some("read_file"@),
        request_tree(Asked::ReadFile { path }).get_text("path"@) == Some(path),
        request_tree(Asked::Stat { path }).get_text("op"@) == Some("stat"@),
        request_tree(Asked::Stat { path }).get_text("path"@) == Some(path),
        request_tree(Asked::WriteFile { path, contents }).get_text("op"@) == Some("write_file"@),
        request_tree(Asked::WriteFile { path, contents }).get_text("path"@) == Some(path),
        request_tree(Asked::WriteFile { path, contents }).get_text("contents"@) == Some(contents),
{
    reveal_strlit("op");
    reveal_strlit("path");
    reveal_strlit("contents");
    reveal_strlit("version");
    assert("op"@.len() == 2 && "path"@.len() == 4 && "contents"@.len() == 8 && "version"@.len() == 7);
    members_are_found_by_name(request_tree(Asked::Hello { version })->Object_0, "version"@, 1);
    members_are_found_by_name(request_tree(Asked::ListDir { path })->Object_0, "path"@, 1);
    members_are_found_by_name(request_tree(Asked::ReadFile { path })->Object_0, "path"@, 1);
    members_are_found_by_name(request_tree(Asked::Stat { path })->Object_0, "path"@, 1);
    members_are_found_by_name(request_tree(Asked::WriteFile { path, contents })->Object_0, "path"@, 1);
    members_are_found_by_name(request_tree(Asked::WriteFile { path, contents })->Object_0, "contents"@, 2);
}

/// A response names what it is, and says what was found.
pub proof fn responses_are_named(
    version: u32,
    cwd: Seq<char>,
    contents: Seq<char>,
    info: StatInfo,
    kind: ErrorKind,
    message: Seq<char>,
    e: Entry,
)
    ensures
        response_tree(Answered::Pong).get_text("ok"@) == Some("pong"@),
        response_tree(Answered::Hello { version, cwd }).get_text("ok"@) == Some("hello"@),
        response_tree(Answered::Hello { version, cwd }).get_text("cwd"@) == Some(cwd),
        response_tree(Answered::File { contents }).get_text("ok"@) == Some("file"@),
        response_tree(Answered::File { contents }).get_text("contents"@) == Some(contents),
        response_tree(Answered::Stat(info)).get_text("ok"@) == Some("stat"@),
        response_tree(Answered::Stat(info)).get("is_dir"@) == Some(Tree::Bool(info.is_dir)),
        response_tree(Answered::Stat(info)).get("size"@) == Some(Tree::UInt(info.size)),
        response_tree(Answered::Stat(info)).get("exists"@) == Some(Tree::Bool(info.exists)),
        response_tree(Answered::Error { kind, message }).get_text("ok"@) == Some("error"@),
        response_tree(Answered::Error { kind, message }).get_text("kind"@) == Some(kind_name(kind)),
        response_tree(Answered::Error { kind, message }).get_text("message"@) == Some(message),
        entry_tree(e).get_text("name"@) == Some(e.name),
        entry_tree(e).get("is_dir"@) == Some(Tree::Bool(e.is_dir)),
        entry_tree(e).get("size"@) == Some(Tree::UInt(e.size)),
{
    reveal_strlit("ok");
    reveal_strlit("version");
    reveal_strlit("cwd");
    reveal_strlit("contents");
    reveal_strlit("is_dir");
    reveal_strlit("size");
    reveal_strlit("exists");
    reveal_strlit("kind");
    reveal_strlit("message");
    reveal_strlit("name");
    assert("ok"@.len() == 2 && "version"@.len() == 7 && "cwd"@.len() == 3 && "contents"@.len() == 8);
    assert("is_dir"@.len() == 6 && "size"@.len() == 4 && "exists"@.len() == 6 && "kind"@.len() == 4);
    assert("message"@.len() == 7 && "name"@.len() == 4);
    assert("is_dir"@[0] == 'i' && "exists"@[0] == 'e' && "size"@[0] == 's' && "name"@[0] == 'n');
    members_are_found_by_name(response_tree(Answered::Hello { version, cwd })->Object_0, "cwd"@, 2);
    members_are_found_by_name(response_tree(Answered::File { contents })->Object_0, "contents"@, 1);
    let st = response_tree(Answered::Stat(info))->Object_0;
    members_are_found_by_name(st, "is_dir"@, 1);
    members_are_found_by_name(st, "size"@, 2);
    members_are_found_by_name(st, "exists"@, 3);
    let er = response_tree(Answered::Error { kind, message })->Object_0;
    members_are_found_by_name(er, "kind"@, 1);
    members_are_found_by_name(er, "message"@, 2);
    let en = entry_tree(e)->Object_0;
    members_are_found_by_name(en, "name"@, 0);
    members_are_found_by_name(en, "is_dir"@, 1);
    members_are_found_by_name(en, "size"@, 2);
}

} // verus!
