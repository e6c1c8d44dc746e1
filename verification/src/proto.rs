//! The workspace protocol: what an editor asks of a workspace and what it is answered, one
//! JSON object a line.

use vstd::prelude::*;
use vstd::utf8::encode_utf8;
use crate::bytes::push_bytes;
use crate::json::{canonical, depth, json_in_bytes, json_text, write_text, Json, Tree};

verus! {

/// The version of the protocol.
pub const PROTOCOL_VERSION: u32 = 1;

/// What an editor asks of a workspace.
#[derive(Debug, PartialEq)]
pub enum Request {
    /// The first request: the version that the editor speaks.
    Hello { version: u32 },
    /// A sign of life.
    Ping,
    /// What is in a directory.
    ListDir { path: String },
    /// The text of a file.
    ReadFile { path: String },
    /// A new text for a file.
    WriteFile { path: String, contents: String },
    /// What a path is.
    Stat { path: String },
    /// The end.
    Shutdown,
}

/// What a workspace answers.
#[derive(Debug, PartialEq)]
pub enum Response {
    Hello { version: u32, cwd: String },
    Pong,
    Dir { entries: Vec<DirEntry> },
    File { contents: String },
    Written { bytes: usize },
    Stat(StatInfo),
    /// The request failed: a kind to go by and a message to show.
    Error { kind: ErrorKind, message: String },
}

/// Something in a directory.
#[derive(Debug, PartialEq)]
pub struct DirEntry {
    pub name: String,
    pub is_dir: bool,
    pub size: u64,
}

/// What a path is; nothing else counts where it does not exist.
#[derive(Clone, Copy, Debug, PartialEq, Eq, Structural)]
pub struct StatInfo {
    pub is_dir: bool,
    pub size: u64,
    pub exists: bool,
}

/// The kinds of errors.
#[derive(Clone, Copy, Debug, PartialEq, Eq, Structural)]
pub enum ErrorKind {
    NotFound,
    PermissionDenied,
    NotUtf8,
    VersionMismatch,
    Protocol,
    Io,
}

/// The bytes of a message: its JSON and a line feed.
pub open spec fn message_bytes(json: Seq<char>) -> Seq<u8> {
    encode_utf8(json).push(10)
}

/// The bytes that send a message with this value.
pub fn write_message(value: &Json) -> (r: Vec<u8>)
    ensures
        r@ == message_bytes(json_text(value@)),
        forall|i: int| 0 <= i < r@.len() - 1 ==> r@[i] != 10,
        canonical(value@) && depth(value@) <= 127 ==> forall|rest: Seq<u8>| #[trigger]
            carries(r@ + rest, value@, rest),
{
    let json = write_text(value);
    let mut out: Vec<u8> = Vec::new();
    push_bytes(&mut out, &json);
    assert(out@ =~= encode_utf8(json@));
    out.push(10);
    proof {
        if canonical(value@) && depth(value@) <= 127 {
            assert forall|rest: Seq<u8>| #[trigger] carries(out@ + rest, value@, rest) by {
                messages_read_back(json@, value@, rest);
            }
        }
    }
    out
}

/// How many bytes the first message in `b` has, its line feed counted: up to the first line
/// feed, or to the end.
pub open spec fn message_len(b: Seq<u8>) -> int
    decreases b.len(),
{
    if b.len() == 0 {
        0
    } else if b[0] == 10 {
        1
    } else {
        1 + message_len(b.skip(1))
    }
}

/// The first message in `b` without its line feed.
pub open spec fn line_in(b: Seq<u8>) -> Seq<u8> {
    let n = message_len(b);
    if n > 0 && b[n - 1] == 10 {
        b.take(n - 1)
    } else {
        b.take(n)
    }
}

/// The first message in `b` is JSON with this value, and this stands behind it.
pub open spec fn carries(b: Seq<u8>, value: Tree, rest: Seq<u8>) -> bool {
    &&& b.len() > 0
    &&& json_in_bytes(line_in(b)) == Some(value)
    &&& b.skip(message_len(b)) == rest
}

/// Finds the message that begins at `from`: where it ends, its line feed left out, and where the
/// next one begins; `None` at the end of the input.
pub fn read_message(input: &[u8], from: usize) -> (r: Option<(usize, usize)>)
    requires
        from <= input@.len(),
    ensures
        match r {
            Some((end, to)) => {
                &&& from <= end <= to <= input@.len()
                &&& from < to
                &&& input@.subrange(from as int, end as int) == line_in(input@.skip(from as int))
                &&& to - from == message_len(input@.skip(from as int))
            },
            None => from == input@.len(),
        },
{
    if from == input.len() {
        return None;
    }
    let mut at: usize = from;
    let ghost all = input@.skip(from as int);
    while at < input.len() && input[at] != 10
        invariant
            from <= at <= input@.len(),
            all == input@.skip(from as int),
            message_len(all) == (at - from) + message_len(input@.skip(at as int)),
            forall|i: int| from <= i < at ==> input@[i] != 10,
        decreases input@.len() - at,
    {
        assert(input@.skip(at as int)[0] == input@[at as int]);
        assert(input@.skip(at as int).skip(1) =~= input@.skip(at + 1));
        at += 1;
    }
    let to: usize = if at < input.len() {
        at + 1
    } else {
        at
    };
    proof {
        if at < input@.len() {
            assert(input@.skip(at as int)[0] == input@[at as int]);
            assert(all[at - from] == 10);
        } else {
            assert(input@.skip(at as int).len() == 0);
            assert(all[at - from - 1] == input@[at - 1]);
        }
        assert(message_len(all) == to - from);
        assert(input@.subrange(from as int, at as int) =~= line_in(all));
    }
    Some((at, to))
}

proof fn lemma_message_len(b: Seq<u8>, k: int)
    requires
        0 <= k < b.len(),
        b[k] == 10,
        forall|i: int| 0 <= i < k ==> b[i] != 10,
    ensures
        message_len(b) == k + 1,
    decreases b.len(),
{
    if k > 0 {
        let t = b.skip(1);
        assert forall|i: int| 0 <= i < k - 1 implies t[i] != 10 by {
            assert(t[i] == b[i + 1]);
        }
        assert(t[k - 1] == b[k]);
        lemma_message_len(t, k - 1);
    }
}

/// A message whose JSON holds no line feed is read back as the value in it, whatever follows it, and
/// what follows is left: messages written one after the other are read in sequence.
pub proof fn messages_read_back(json: Seq<char>, value: Tree, rest: Seq<u8>)
    requires
        forall|i: int| 0 <= i < encode_utf8(json).len() ==> encode_utf8(json)[i] != 10,
        json_in_bytes(encode_utf8(json)) == Some(value),
    ensures
        carries(message_bytes(json) + rest, value, rest),
{
    let m = message_bytes(json);
    let b = m + rest;
    let k = encode_utf8(json).len() as int;
    assert(b[k] == 10);
    assert forall|i: int| 0 <= i < k implies b[i] != 10 by {
        assert(b[i] == encode_utf8(json)[i]);
    }
    lemma_message_len(b, k);
    assert(b.take(k) =~= encode_utf8(json));
    assert(b.skip(k + 1) =~= rest);
}

} // verus!
