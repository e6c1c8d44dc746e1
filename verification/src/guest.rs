//! The interface between the host and a guest: strings in the guest's memory, the calls
//! the guest may make, and how its runs end.

use vstd::prelude::*;
use vstd::utf8::{decode_utf8, encode_utf8, encode_utf8_decode_utf8, encode_utf8_valid_utf8, valid_utf8};
use crate::bytes::{decode, push_bytes};
use crate::host::{pair_views, HostError};
use crate::number::{signed_decimal, signed_decimal_text};
use crate::table::Table;
use crate::text::{chars_of, find_text, occurrence, push_text, same};

verus! {

/// Why a string in a guest's memory cannot be read.
#[derive(Clone, Copy, Debug, PartialEq, Eq, Structural)]
pub enum GuestError {
    /// Its place or its length is negative.
    Negative,
    /// It does not lie in the memory.
    OutOfBounds,
    /// It is not UTF-8.
    NotText,
}

impl GuestError {
    /// The error in words.
    pub open spec fn words(self) -> Seq<char> {
        match self {
            GuestError::Negative => "negative ptr/len"@,
            GuestError::OutOfBounds => "string out of bounds"@,
            GuestError::NotText => "string not UTF-8"@,
        }
    }

    /// The error in words.
    pub fn message(self) -> (r: &'static str)
        ensures
            r@ == self.words(),
    {
        match self {
            GuestError::Negative => "negative ptr/len",
            GuestError::OutOfBounds => "string out of bounds",
            GuestError::NotText => "string not UTF-8",
        }
    }
}

/// The string of `len` bytes at `ptr` in a guest's memory.
pub open spec fn text_at(data: Seq<u8>, ptr: i32, len: i32) -> Result<Seq<char>, GuestError> {
    if ptr < 0 || len < 0 {
        Err(GuestError::Negative)
    } else if ptr + len > data.len() {
        Err(GuestError::OutOfBounds)
    } else if !valid_utf8(data.subrange(ptr as int, ptr + len)) {
        Err(GuestError::NotText)
    } else {
        Ok(decode_utf8(data.subrange(ptr as int, ptr + len)))
    }
}

/// Reads the string of `len` bytes at `ptr` in a guest's memory.
pub fn read_utf8(data: &[u8], ptr: i32, len: i32) -> (r: Result<String, GuestError>)
    ensures
        match r {
            Ok(s) => text_at(data@, ptr, len) == Ok::<Seq<char>, GuestError>(s@),
            Err(e) => text_at(data@, ptr, len) == Err::<Seq<char>, GuestError>(e),
        },
{
    if ptr < 0 || len < 0 {
        return Err(GuestError::Negative);
    }
    let from: usize = ptr as usize;
    let count: usize = len as usize;
    if from > data.len() || count > data.len() - from {
        return Err(GuestError::OutOfBounds);
    }
    let mut bytes: Vec<u8> = Vec::new();
    let mut i: usize = 0;
    while i < count
        invariant
            from <= data.len(),
            i <= count <= data.len() - from,
            bytes@ == data@.subrange(from as int, from + i),
        decreases count - i,
    {
        bytes.push(data[from + i]);
        assert(data@.subrange(from as int, from + i + 1) =~= data@.subrange(from as int, from + i).push(
            data@[from + i],
        ));
        i += 1;
    }
    match decode(bytes) {
        Some(s) => Ok(s),
        None => Err(GuestError::NotText),
    }
}

/// What a guest registers: the two texts in its memory, or why one of them cannot be read.
pub open spec fn registration_at(data: Seq<u8>, id_ptr: i32, id_len: i32, title_ptr: i32, title_len: i32) -> Result<
    (Seq<char>, Seq<char>),
    GuestError,
> {
    match text_at(data, id_ptr, id_len) {
        Err(e) => Err(e),
        Ok(id) => match text_at(data, title_ptr, title_len) {
            Err(e) => Err(e),
            Ok(title) => Ok((id, title)),
        },
    }
}

/// A guest registers a command: its id and its title.
pub fn register(
    data: &[u8],
    id_ptr: i32,
    id_len: i32,
    title_ptr: i32,
    title_len: i32,
    registered: &mut Vec<(String, String)>,
) -> (r: Result<(), GuestError>)
    ensures
        match registration_at(data@, id_ptr, id_len, title_ptr, title_len) {
            Ok(pair) => r is Ok && pair_views(final(registered)@) == pair_views(old(registered)@).push(pair),
            Err(e) => r == Err::<(), GuestError>(e) && *final(registered) == *old(registered),
        },
{
    let id = match read_utf8(data, id_ptr, id_len) {
        Ok(s) => s,
        Err(e) => return Err(e),
    };
    let title = match read_utf8(data, title_ptr, title_len) {
        Ok(s) => s,
        Err(e) => return Err(e),
    };
    let ghost before = pair_views(registered@);
    let ghost pair = (id@, title@);
    registered.push((id, title));
    assert(pair_views(registered@) =~= before.push(pair));
    Ok(())
}

/// A guest adds to the output of its command.
pub fn emit(data: &[u8], ptr: i32, len: i32, output: &mut String) -> (r: Result<(), GuestError>)
    ensures
        match text_at(data@, ptr, len) {
            Ok(s) => r is Ok && final(output)@ == old(output)@ + s,
            Err(e) => r == Err::<(), GuestError>(e) && final(output)@ == old(output)@,
        },
{
    match read_utf8(data, ptr, len) {
        Ok(s) => {
            push_text(output, &s);
            Ok(())
        },
        Err(e) => Err(e),
    }
}

/// What a guest is told of a configuration key.
#[derive(Debug, PartialEq)]
pub enum ConfigReply {
    /// There is no such key.
    Absent,
    /// The value does not fit.
    TooLong,
    /// The bytes of the value.
    Value(Vec<u8>),
}

impl ConfigReply {
    /// The number that the guest gets: the length of the value, or why there is none.
    pub open spec fn number(self) -> int {
        match self {
            ConfigReply::Absent => -1,
            ConfigReply::TooLong => -2,
            ConfigReply::Value(b) => b@.len() as int,
        }
    }

    /// The number that the guest gets.
    pub fn code(&self) -> (r: i32)
        requires
            self.number() <= i32::MAX,
        ensures
            r == self.number(),
    {
        match self {
            ConfigReply::Absent => -1,
            ConfigReply::TooLong => -2,
            ConfigReply::Value(b) => b.len() as i32,
        }
    }
}

/// What is replied for a value, where `cap` bytes have room.
pub open spec fn replies(value: Seq<char>, cap: i32, reply: ConfigReply) -> bool {
    if encode_utf8(value).len() > (if cap > 0 {
        cap as int
    } else {
        0
    }) {
        reply is TooLong
    } else {
        reply matches ConfigReply::Value(b) && b@ == encode_utf8(value)
    }
}

/// A guest asks for the value of a configuration key, with room for `out_cap` bytes.
pub fn config_get(config: &Table<String>, data: &[u8], key_ptr: i32, key_len: i32, out_cap: i32) -> (r: Result<
    ConfigReply,
    GuestError,
>)
    requires
        config.wf(),
    ensures
        match text_at(data@, key_ptr, key_len) {
            Err(e) => r == Err::<ConfigReply, GuestError>(e),
            Ok(key) => r matches Ok(reply) && reply.number() <= i32::MAX && (if !config@.dom().contains(key) {
                reply is Absent
            } else {
                replies(config@[key]@, out_cap, reply)
            }),
        },
{
    let key = match read_utf8(data, key_ptr, key_len) {
        Ok(k) => k,
        Err(e) => return Err(e),
    };
    match config.get(&key) {
        None => Ok(ConfigReply::Absent),
        Some(value) => {
            let mut bytes: Vec<u8> = Vec::new();
            push_bytes(&mut bytes, value);
            assert(bytes@ =~= encode_utf8(value@));
            let room: usize = if out_cap > 0 {
                out_cap as usize
            } else {
                0
            };
            if bytes.len() > room {
                Ok(ConfigReply::TooLong)
            } else {
                Ok(ConfigReply::Value(bytes))
            }
        },
    }
}

/// The place of the last command with the id `id` among those registered.
pub open spec fn last_index(registered: Seq<(Seq<char>, Seq<char>)>, id: Seq<char>) -> Option<int>
    decreases registered.len(),
{
    if registered.len() == 0 {
        None
    } else if registered.last().0 == id {
        Some(registered.len() - 1)
    } else {
        last_index(registered.drop_last(), id)
    }
}

/// The number by which a guest knows its command `id`.
pub fn command_index(registered: &Vec<(String, String)>, id: &str) -> (r: Result<i32, HostError>)
    requires
        registered@.len() <= i32::MAX,
    ensures
        match last_index(pair_views(registered@), id@) {
            Some(i) => r == Ok::<i32, HostError>(i as i32),
            None => r matches Err(HostError::NoSuchCommand(n)) && n@ == id@,
        },
{
    let ghost all = pair_views(registered@);
    let mut i: usize = registered.len();
    assert(all.take(i as int) =~= all);
    while i > 0
        invariant
            i <= registered@.len() <= i32::MAX,
            all == pair_views(registered@),
            last_index(all.take(i as int), id@) == last_index(all, id@),
        decreases i,
    {
        i -= 1;
        assert(all.take(i + 1).last() == all[i as int]);
        assert(all.take(i + 1).drop_last() =~= all.take(i as int));
        if same(&registered[i].0, id) {
            return Ok(i as i32);
        }
    }
    Err(HostError::NoSuchCommand(id.to_owned()))
}

/// Judges the version that a guest says it speaks; it need not say one.
pub fn check_abi(version: Option<i32>) -> (r: Result<(), HostError>)
    ensures
        match version {
            Some(v) if v != 1 => r matches Err(HostError::Abi(m)) && m@ == "unsupported ABI version "@
                + signed_decimal(v as int) + " (host speaks v1)"@,
            _ => r is Ok,
        },
{
    match version {
        Some(v) => if v != 1 {
            let mut m = "unsupported ABI version ".to_owned();
            push_text(&mut m, &signed_decimal_text(v));
            push_text(&mut m, " (host speaks v1)");
            Err(HostError::Abi(m))
        } else {
            Ok(())
        },
        None => Ok(()),
    }
}

/// The error for a guest that lacks an export.
pub fn missing_export(name: &str) -> (r: HostError)
    ensures
        r matches HostError::Abi(m) && m@ == "module does not export `"@ + name@ + "`"@,
{
    let mut m = "module does not export `".to_owned();
    push_text(&mut m, name);
    push_text(&mut m, "`");
    HostError::Abi(m)
}

/// How a run of a guest ended.
#[derive(Debug)]
pub enum GuestEnd {
    /// By itself.
    Done,
    /// At its deadline.
    Interrupted,
    /// With an error.
    Failed(String),
}

/// What comes of a run that ended in this way.
pub open spec fn outcome_of(end: GuestEnd, output: String) -> Result<String, HostError> {
    match end {
        GuestEnd::Done => Ok(output),
        GuestEnd::Interrupted => Err(HostError::Timeout),
        GuestEnd::Failed(e) => Err(HostError::Invoke(e)),
    }
}

/// What comes of a run: the output, or why there is none.
pub fn invoke_outcome(end: GuestEnd, output: String) -> (r: Result<String, HostError>)
    ensures
        r == outcome_of(end, output),
{
    match end {
        GuestEnd::Done => Ok(output),
        GuestEnd::Interrupted => Err(HostError::Timeout),
        GuestEnd::Failed(e) => Err(HostError::Invoke(e)),
    }
}

/// What a script is stopped with at its deadline.
pub const TIMEOUT_MARK: &'static str = "umber-host:deadline";

/// How a script ended that stopped with this error.
pub open spec fn ended(error: Option<String>) -> GuestEnd {
    match error {
        None => GuestEnd::Done,
        Some(e) => if occurrence(e@, TIMEOUT_MARK@) is Some {
            GuestEnd::Interrupted
        } else {
            GuestEnd::Failed(e)
        },
    }
}

/// How a script's run ended, given the error it ended with: at its deadline where the error
/// carries the mark.
pub fn script_end(error: Option<String>) -> (r: GuestEnd)
    ensures
        r == ended(error),
{
    match error {
        None => GuestEnd::Done,
        Some(e) => {
            let at = find_text(&chars_of(&e), &chars_of(TIMEOUT_MARK));
            if at.is_some() {
                GuestEnd::Interrupted
            } else {
                GuestEnd::Failed(e)
            }
        },
    }
}

/// What runs a script's command.
#[derive(Clone, Copy, Debug, PartialEq, Eq, Structural)]
pub enum Handler {
    /// The function registered with it.
    Own,
    /// The function for all commands.
    Fallback,
}

/// Chooses what runs the command `id`; the error where nothing does.
pub fn choose_handler(own: bool, fallback: bool, id: &str) -> (r: Result<Handler, String>)
    ensures
        own ==> r == Ok::<Handler, String>(Handler::Own),
        !own && fallback ==> r == Ok::<Handler, String>(Handler::Fallback),
        !own && !fallback ==> (r matches Err(m) && m@ == "no handler for command `"@ + id@
            + "` and no umber_invoke fallback"@),
{
    if own {
        Ok(Handler::Own)
    } else if fallback {
        Ok(Handler::Fallback)
    } else {
        let mut m = "no handler for command `".to_owned();
        push_text(&mut m, id);
        push_text(&mut m, "` and no umber_invoke fallback");
        Err(m)
    }
}

/// A command is known by the place at which it was registered last, and one that never was by none.
pub proof fn the_last_registration_counts(registered: Seq<(Seq<char>, Seq<char>)>, id: Seq<char>, title: Seq<char>)
    ensures
        last_index(registered.push((id, title)), id) == Some(registered.len() as int),
        last_index(registered, id) matches Some(i) ==> {
            &&& 0 <= i < registered.len()
            &&& registered[i].0 == id
            &&& forall|j: int| i < j < registered.len() ==> (#[trigger] registered[j]).0 != id
        },
        last_index(registered, id) is None ==> forall|j: int|
            0 <= j < registered.len() ==> (#[trigger] registered[j]).0 != id,
    decreases registered.len(),
{
    if registered.len() > 0 {
        let r = registered.drop_last();
        the_last_registration_counts(r, id, title);
        assert(forall|j: int| 0 <= j < r.len() ==> r[j] == registered[j]);
        assert forall|j: int| 0 <= j < registered.len() && last_index(registered, id) is None implies (
        #[trigger] registered[j]).0 != id by {
            if j < r.len() {
                assert(r[j].0 != id);
            }
        }
        if let Some(i) = last_index(registered, id) {
            assert forall|j: int| i < j < registered.len() implies (#[trigger] registered[j]).0 != id by {
                if j < r.len() {
                    assert(r[j].0 != id);
                }
            }
        }
    }
}

/// A string is refused where its bounds are negative or outside the memory, and what is read depends on
/// the bytes within them only.
pub proof fn strings_are_read_within_bounds(data: Seq<u8>, ptr: i32, len: i32, before: Seq<u8>, after: Seq<u8>)
    requires
        0 <= ptr,
        0 <= len,
        ptr + len <= data.len(),
        before.len() == ptr,
    ensures
        text_at(before + data.subrange(ptr as int, ptr + len) + after, ptr, len) == text_at(data, ptr, len),
        !(text_at(data, ptr, len) matches Err(GuestError::Negative)),
        !(text_at(data, ptr, len) matches Err(GuestError::OutOfBounds)),
        ptr > 0 ==> text_at(data.take(ptr + len - 1), ptr, len) == Err::<Seq<char>, GuestError>(
            GuestError::OutOfBounds,
        ),
{
    let all = before + data.subrange(ptr as int, ptr + len) + after;
    assert(all.subrange(ptr as int, ptr + len) =~= data.subrange(ptr as int, ptr + len));
}

/// A guest that writes an id and a title into its memory registers the two, wherever they stand.
pub proof fn written_texts_are_registered(a: Seq<u8>, id: Seq<char>, b: Seq<u8>, title: Seq<char>, c: Seq<u8>)
    requires
        (a + encode_utf8(id) + b + encode_utf8(title) + c).len() <= i32::MAX,
    ensures
        ({
            let data = a + encode_utf8(id) + b + encode_utf8(title) + c;
            let at = a.len() as i32;
            let n = encode_utf8(id).len() as i32;
            let to = (a.len() + encode_utf8(id).len() + b.len()) as i32;
            let m = encode_utf8(title).len() as i32;
            &&& registration_at(data, at, n, to, m) == Ok::<(Seq<char>, Seq<char>), GuestError>((id, title))
            &&& registration_at(data, to, m, at, n) == Ok::<(Seq<char>, Seq<char>), GuestError>((title, id))
            &&& registration_at(data, -1i32, n, to, m) is Err
            &&& registration_at(data, at, n, to, -1i32) is Err
        }),
{
    let data = a + encode_utf8(id) + b + encode_utf8(title) + c;
    let at = a.len() as int;
    let n = encode_utf8(id).len() as int;
    let to = at + n + b.len();
    let m = encode_utf8(title).len() as int;
    assert(data.subrange(at, at + n) =~= encode_utf8(id));
    assert(data.subrange(to, to + m) =~= encode_utf8(title));
    encode_utf8_valid_utf8(id);
    encode_utf8_valid_utf8(title);
    encode_utf8_decode_utf8(id);
    encode_utf8_decode_utf8(title);
}

/// A guest gets a whole value or none of it: it is told the length that it needs, and room for just
/// that many bytes is enough.
pub proof fn values_come_whole(value: Seq<char>, cap: i32, reply: ConfigReply)
    requires
        replies(value, cap, reply),
    ensures
        reply.number() >= 0 ==> reply.number() == encode_utf8(value).len() && reply.number() <= (if cap > 0 {
            cap
        } else {
            0
        }),
        cap == encode_utf8(value).len() ==> reply.number() == cap,
        0 <= cap < encode_utf8(value).len() ==> reply.number() < 0 && reply.number()
            != ConfigReply::Absent.number(),
        reply matches ConfigReply::Value(b) ==> decode_utf8(b@) == value && valid_utf8(b@),
{
    encode_utf8_valid_utf8(value);
    encode_utf8_decode_utf8(value);
}

/// A run without an error gives its output; one that was stopped at its deadline is told apart from
/// one that failed, and what failed keeps its message.
pub proof fn runs_end_in_one_way(error: Option<String>, output: String)
    ensures
        outcome_of(ended(error), output) is Ok <==> error is None,
        outcome_of(ended(error), output) matches Ok(o) ==> o == output,
        outcome_of(ended(error), output) matches Err(e) ==> {
            &&& e is Timeout <==> occurrence(error->0@, TIMEOUT_MARK@) is Some
            &&& !(e is Timeout) ==> e == HostError::Invoke(error->0)
        },
{
}

} // verus!
