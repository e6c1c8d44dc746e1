//! The language server protocol: framing, the messages that are sent, and the
//! diagnostics that come back.

use vstd::prelude::*;
use vstd::utf8::{decode_utf8, encode_utf8, encode_utf8_decode_utf8, encode_utf8_valid_utf8, is_ascii_chars, is_ascii_chars_encode_utf8, valid_utf8};
use crate::bytes::{byte_len, decode, lemma_byte_len, lemma_encode_concat, len_of, push_bytes};
use crate::json::{bytes_read, canonical, depth, items_view, json_in_bytes, json_text, lemma_array_depth, lemma_items, lemma_object_depth, lemma_pairs, members_are_found_by_name, pairs_view, parse_bytes, write_text, Json, Tree};
use crate::number::{decimal, decimal_reads_back, decimal_text, lemma_decimal_digits, parse_number, parsed_to};
use crate::table::Table;
use crate::text::{chars_of, push_text, same, starts_with, text_or, trim, trimmed, trimmed_start};

verus! {

/// How bad a diagnostic is.
#[derive(Clone, Copy, Debug, PartialEq, Eq, Structural)]
pub enum Severity {
    Error,
    Warning,
    Information,
    Hint,
}

impl Severity {
    /// The severity for a protocol number.
    pub open spec fn numbered(n: u64) -> Severity {
        if n == 1 {
            Severity::Error
        } else if n == 2 {
            Severity::Warning
        } else if n == 3 {
            Severity::Information
        } else {
            Severity::Hint
        }
    }

    /// The severity for a protocol number: 1 to 3, and anything else is a hint.
    pub fn from_lsp(n: u64) -> (r: Severity)
        ensures
            r == Severity::numbered(n),
    {
        match n {
            1 => Severity::Error,
            2 => Severity::Warning,
            3 => Severity::Information,
            _ => Severity::Hint,
        }
    }
}

/// One diagnostic; lines and columns count from 0.
#[derive(Debug, PartialEq)]
pub struct Diagnostic {
    pub line: usize,
    pub col: usize,
    pub end_line: usize,
    pub end_col: usize,
    pub severity: Severity,
    pub message: String,
}

/// What a [`Diagnostic`] says.
pub struct Finding {
    pub line: usize,
    pub col: usize,
    pub end_line: usize,
    pub end_col: usize,
    pub severity: Severity,
    pub message: Seq<char>,
}

impl View for Diagnostic {
    type V = Finding;

    open spec fn view(&self) -> Finding {
        Finding {
            line: self.line,
            col: self.col,
            end_line: self.end_line,
            end_col: self.end_col,
            severity: self.severity,
            message: self.message@,
        }
    }
}

impl Clone for Diagnostic {
    fn clone(&self) -> (r: Self)
        ensures
            r@ == self@,
    {
        Diagnostic {
            line: self.line,
            col: self.col,
            end_line: self.end_line,
            end_col: self.end_col,
            severity: self.severity,
            message: self.message.clone(),
        }
    }
}

/// What a list of diagnostics says.
pub open spec fn findings(v: Seq<Diagnostic>) -> Seq<Finding> {
    Seq::new(v.len(), |i: int| v[i]@)
}

// --- framing ---

/// A body behind its header.
pub open spec fn frame(body: Seq<char>) -> Seq<u8> {
    encode_utf8("Content-Length: "@ + decimal(byte_len(body)) + "\r\n\r\n"@) + encode_utf8(body)
}

/// A value as a message: the length of its text in bytes, an empty line, its text.
pub fn encode_message(value: &Json) -> (r: Vec<u8>)
    ensures
        r@ == frame(json_text(value@)),
        canonical(value@) && depth(value@) <= 127 ==> forall|rest: Seq<u8>| #[trigger]
            message_in(r@ + rest) == Ok::<Option<(Tree, Seq<u8>)>, Unread>(Some((value@, rest))),
{
    let body = write_text(value);
    let mut head = String::new();
    push_text(&mut head, "Content-Length: ");
    let n = decimal_text(len_of(&body) as u64);
    push_text(&mut head, &n);
    push_text(&mut head, "\r\n\r\n");
    assert(head@ =~= "Content-Length: "@ + decimal(byte_len(body@)) + "\r\n\r\n"@);
    let mut out: Vec<u8> = Vec::new();
    push_bytes(&mut out, &head);
    push_bytes(&mut out, &body);
    assert(out@ =~= frame(body@));
    assert(canonical(value@) && depth(value@) <= 127 ==> forall|rest: Seq<u8>| #[trigger]
        message_in(out@ + rest) == Ok::<Option<(Tree, Seq<u8>)>, Unread>(Some((value@, rest)))) by {
        if canonical(value@) && depth(value@) <= 127 {
            assert forall|rest: Seq<u8>| #[trigger] message_in(out@ + rest) == Ok::<
                Option<(Tree, Seq<u8>)>,
                Unread,
            >(Some((value@, rest))) by {
                frame_reads_back(body@, value@, rest);
            }
        }
    }
    out
}

/// Why no message could be read.
#[derive(Debug, PartialEq)]
pub enum ReadError {
    /// A header line is not text.
    NotText,
    /// The headers name no length.
    NoLength,
    /// The input ends before the body does.
    Truncated,
    /// The body is not JSON, with these words.
    NotJson(String),
}

/// What a [`ReadError`] says.
pub enum Unread {
    NotText,
    NoLength,
    Truncated,
    NotJson(Seq<char>),
}

impl View for ReadError {
    type V = Unread;

    open spec fn view(&self) -> Unread {
        match *self {
            ReadError::NotText => Unread::NotText,
            ReadError::NoLength => Unread::NoLength,
            ReadError::Truncated => Unread::Truncated,
            ReadError::NotJson(e) => Unread::NotJson(e@),
        }
    }
}

impl Unread {
    /// The error in words.
    pub open spec fn words(self) -> Seq<char> {
        match self {
            Unread::NotText => "stream did not contain valid UTF-8"@,
            Unread::NoLength => "LSP message without Content-Length"@,
            Unread::Truncated => "failed to fill whole buffer"@,
            Unread::NotJson(e) => e,
        }
    }
}

impl ReadError {
    /// The error in words.
    pub fn message(&self) -> (r: String)
        ensures
            r@ == self@.words(),
    {
        match self {
            ReadError::NotText => "stream did not contain valid UTF-8".to_owned(),
            ReadError::NoLength => "LSP message without Content-Length".to_owned(),
            ReadError::Truncated => "failed to fill whole buffer".to_owned(),
            ReadError::NotJson(e) => e.clone(),
        }
    }
}

/// What one header line says.
#[derive(Clone, Copy, Debug, PartialEq, Eq, Structural)]
pub enum HeaderLine {
    /// The headers end here.
    End,
    /// The body's length; `None` where it is no number.
    Length(Option<usize>),
    /// Some other header.
    Other,
}

/// `s` without the line ends behind it.
pub open spec fn without_line_end(s: Seq<char>) -> Seq<char>
    decreases s.len(),
{
    if s.len() > 0 && (s.last() == '\r' || s.last() == '\n') {
        without_line_end(s.drop_last())
    } else {
        s
    }
}

/// What a header line says.
pub open spec fn header_meaning(line: Seq<char>) -> HeaderLine {
    let t = without_line_end(line);
    let name = "Content-Length:"@;
    if t.len() == 0 {
        HeaderLine::End
    } else if name.is_prefix_of(t) {
        HeaderLine::Length(
            match parsed_to(trimmed(t.skip(name.len() as int)), usize::MAX as nat) {
                Some(n) => Some(n as usize),
                None => None,
            },
        )
    } else {
        HeaderLine::Other
    }
}

/// Reads one header line.
pub fn header_line(line: &str) -> (r: HeaderLine)
    ensures
        r == header_meaning(line@),
{
    let cs = chars_of(line);
    let mut end: usize = cs.len();
    assert(cs@.take(end as int) =~= cs@);
    while end > 0 && (cs[end - 1] == '\r' || cs[end - 1] == '\n')
        invariant
            end <= cs.len(),
            without_line_end(cs@.take(end as int)) == without_line_end(cs@),
        decreases end,
    {
        assert(cs@.take(end as int).drop_last() =~= cs@.take(end - 1));
        end -= 1;
    }
    let t = &cs.as_slice()[0..end];
    assert(t@ =~= cs@.take(end as int));
    if t.len() == 0 {
        return HeaderLine::End;
    }
    if starts_with(t, "Content-Length:") {
        proof {
            reveal_strlit("Content-Length:");
        }
        let rest = &t[15..t.len()];
        assert(rest@ =~= t@.skip(15));
        match parse_number(trim(rest), usize::MAX as u64) {
            Some(n) => HeaderLine::Length(Some(n as usize)),
            None => HeaderLine::Length(None),
        }
    } else {
        HeaderLine::Other
    }
}

/// How many bytes the first line of `b` has, its line feed counted.
pub open spec fn line_len(b: Seq<u8>) -> int
    decreases b.len(),
{
    if b.len() == 0 {
        0
    } else if b[0] == 10 {
        1
    } else {
        1 + line_len(b.skip(1))
    }
}

pub proof fn lemma_line_len(b: Seq<u8>)
    ensures
        0 <= line_len(b) <= b.len(),
        b.len() > 0 ==> line_len(b) > 0,
    decreases b.len(),
{
    if b.len() > 0 {
        lemma_line_len(b.skip(1));
    }
}

/// Where the headers of a message end.
pub enum Headers {
    /// The input ends first.
    Eof,
    /// A line is not text.
    NotText,
    /// The length they name, and what stands behind them.
    Done(Option<usize>, Seq<u8>),
}

/// Reads headers, `len` being the length named so far.
pub open spec fn headers(b: Seq<u8>, len: Option<usize>) -> Headers
    decreases b.len(),
{
    proof {
        lemma_line_len(b);
    }
    let k = line_len(b);
    if b.len() == 0 {
        Headers::Eof
    } else if !valid_utf8(b.take(k)) {
        Headers::NotText
    } else {
        match header_meaning(decode_utf8(b.take(k))) {
            HeaderLine::End => Headers::Done(len, b.skip(k)),
            HeaderLine::Length(l) => headers(b.skip(k), l),
            HeaderLine::Other => headers(b.skip(k), len),
        }
    }
}

/// The message at the start of `b` and what stands behind it; `None` at the end.
pub open spec fn message_in(b: Seq<u8>) -> Result<Option<(Tree, Seq<u8>)>, Unread> {
    match headers(b, None) {
        Headers::Eof => Ok(None),
        Headers::NotText => Err(Unread::NotText),
        Headers::Done(None, _) => Err(Unread::NoLength),
        Headers::Done(Some(n), rest) => if rest.len() < n {
            Err(Unread::Truncated)
        } else {
            match bytes_read(rest.take(n as int)) {
                Ok(v) => Ok(Some((v, rest.skip(n as int)))),
                Err(e) => Err(Unread::NotJson(e)),
            }
        },
    }
}

/// A copy of the bytes `from..to`.
fn copy_bytes(b: &[u8], from: usize, to: usize) -> (r: Vec<u8>)
    requires
        from <= to <= b@.len(),
    ensures
        r@ == b@.subrange(from as int, to as int),
{
    let mut out: Vec<u8> = Vec::new();
    let mut i: usize = from;
    while i < to
        invariant
            from <= i <= to <= b@.len(),
            out@ == b@.subrange(from as int, i as int),
        decreases to - i,
    {
        out.push(b[i]);
        assert(b@.subrange(from as int, i + 1) =~= b@.subrange(from as int, i as int).push(b@[i as int]));
        i += 1;
    }
    out
}

proof fn lemma_line_len_is(b: Seq<u8>, k: int)
    requires
        0 <= k <= b.len(),
        forall|i: int| 0 <= i < k - 1 ==> b[i] != 10,
        k == 0 ==> b.len() == 0,
        k > 0 ==> b[k - 1] == 10 || k == b.len(),
    ensures
        line_len(b) == k,
    decreases b.len(),
{
    if b.len() > 0 && k > 1 {
        let t = b.skip(1);
        assert forall|i: int| 0 <= i < k - 2 implies t[i] != 10 by {
            assert(t[i] == b[i + 1]);
        }
        assert(t[k - 2] == b[k - 1]);
        lemma_line_len_is(t, k - 1);
        assert(b[0] != 10);
    } else if b.len() == 1 && k == 1 {
        assert(line_len(b.skip(1)) == 0);
    } else if k == 1 {
        assert(b[0] == 10);
    }
}

/// Reads the message that begins at `from`: its value and where the next one begins.
/// `None` where the input ends before its headers do.
pub fn read_message(input: &[u8], from: usize) -> (r: Result<Option<(Json, usize)>, ReadError>)
    requires
        from <= input@.len(),
    ensures
        match r {
            Ok(Some((v, to))) => {
                &&& from <= to <= input@.len()
                &&& message_in(input@.skip(from as int)) == Ok::<Option<(Tree, Seq<u8>)>, Unread>(
                    Some((v@, input@.skip(to as int))),
                )
            },
            Ok(None) => message_in(input@.skip(from as int)) == Ok::<Option<(Tree, Seq<u8>)>, Unread>(None),
            Err(e) => message_in(input@.skip(from as int)) == Err::<Option<(Tree, Seq<u8>)>, Unread>(e@),
        },
{
    let mut at: usize = from;
    let mut len: Option<usize> = None;
    let ghost all = headers(input@.skip(from as int), None);
    loop
        invariant_except_break
            headers(input@.skip(at as int), len) == all,
        invariant
            from <= at <= input@.len(),
            all == headers(input@.skip(from as int), None),
        ensures
            from <= at <= input@.len(),
            all == Headers::Done(len, input@.skip(at as int)),
        decreases input@.len() - at,
    {
        let ghost rest = input@.skip(at as int);
        if at == input.len() {
            return Ok(None);
        }
        let mut k: usize = 0;
        while k < input.len() - at && input[at + k] != 10
            invariant
                at <= input.len(),
                k <= input.len() - at,
                rest == input@.skip(at as int),
                forall|i: int| 0 <= i < k ==> rest[i] != 10,
            decreases input@.len() - at - k,
        {
            k += 1;
        }
        let end: usize = if at + k < input.len() {
            at + k + 1
        } else {
            at + k
        };
        proof {
            lemma_line_len_is(rest, end - at);
        }
        let line = copy_bytes(input, at, end);
        assert(line@ =~= rest.take(end - at));
        assert(rest.skip(end - at) =~= input@.skip(end as int));
        at = end;
        match decode(line) {
            None => {
                return Err(ReadError::NotText);
            },
            Some(text) => match header_line(&text) {
                HeaderLine::End => {
                    break;
                },
                HeaderLine::Length(l) => {
                    len = l;
                },
                HeaderLine::Other => {},
            },
        }
    }
    match len {
        None => Err(ReadError::NoLength),
        Some(n) => if input.len() - at < n {
            Err(ReadError::Truncated)
        } else {
            let body = copy_bytes(input, at, at + n);
            assert(body@ =~= input@.skip(at as int).take(n as int));
            assert(input@.skip(at as int).skip(n as int) =~= input@.skip(at + n));
            match parse_bytes(&body) {
                Ok(v) => Ok(Some((v, at + n))),
                Err(e) => Err(ReadError::NotJson(e)),
            }
        },
    }
}

proof fn lemma_header_text(n: nat)
    requires
        n <= usize::MAX,
    ensures
        header_meaning("Content-Length: "@ + decimal(n) + seq!['\r', '\n']) == HeaderLine::Length(
            Some(n as usize),
        ),
        is_ascii_chars("Content-Length: "@ + decimal(n)),
        forall|i: int|
            0 <= i < ("Content-Length: "@ + decimal(n)).len() ==> #[trigger] ("Content-Length: "@ + decimal(
                n,
            ))[i] != '\n',
{
    let name = "Content-Length: "@;
    let d = decimal(n);
    let t = name + d;
    let line = t + seq!['\r', '\n'];
    lemma_decimal_digits(n);
    decimal_reads_back(n);
    reveal_strlit("Content-Length: ");
    reveal_strlit("Content-Length:");
    assert(line =~= "Content-Length: "@ + decimal(n) + seq!['\r', '\n']);
    assert(line.drop_last() =~= t.push('\r'));
    assert(line.drop_last().drop_last() =~= t);
    assert(t.last() == d.last());
    assert('0' <= d[d.len() - 1] <= '9');
    assert(without_line_end(t) == t);
    assert(without_line_end(line.drop_last()) == t);
    assert(without_line_end(line) == t);
    assert("Content-Length:"@.is_prefix_of(t)) by {
        assert(t.subrange(0, 15) =~= "Content-Length:"@);
    }
    let v = t.skip(15);
    assert(v =~= seq![' '] + d);
    assert(v.skip(1) =~= d);
    assert('0' <= d[0] <= '9');
    assert(trimmed_start(d) == d);
    assert(trimmed_start(v) == d);
    assert(trimmed(v) == d);
    assert forall|i: int| 0 <= i < t.len() implies #[trigger] t[i] != '\n' && '\0' <= t[i] <= '\u{7f}' by {
        if i >= 16 {
            assert(t[i] == d[i - 16]);
        }
    }
}

/// A framed body reads back as the value in it, whatever stands behind the frame, and
/// what stands behind is left: messages framed one after the other are read in sequence.
pub proof fn frame_reads_back(body: Seq<char>, v: Tree, rest: Seq<u8>)
    requires
        byte_len(body) <= usize::MAX,
        json_in_bytes(encode_utf8(body)) == Some(v),
    ensures
        message_in(frame(body) + rest) == Ok::<Option<(Tree, Seq<u8>)>, Unread>(Some((v, rest))),
{
    let n = byte_len(body);
    let t = "Content-Length: "@ + decimal(n);
    let crlf = seq!['\r', '\n'];
    let line = t + crlf;
    reveal_strlit("\r\n\r\n");
    assert(t + "\r\n\r\n"@ =~= line + crlf);
    lemma_header_text(n);
    let b = frame(body) + rest;
    lemma_encode_concat(line, crlf);
    assert(is_ascii_chars(line)) by {
        assert forall|i: int| 0 <= i < line.len() implies '\0' <= #[trigger] line[i] <= '\u{7f}' by {
            if i < t.len() {
                assert(line[i] == t[i]);
            }
        }
    }
    assert(is_ascii_chars(crlf));
    is_ascii_chars_encode_utf8(line);
    is_ascii_chars_encode_utf8(crlf);
    let h1 = encode_utf8(line);
    let h2 = encode_utf8(crlf);
    let tail = encode_utf8(body) + rest;
    assert(b =~= h1 + (h2 + tail));
    assert(h1.len() == line.len() && h2.len() == 2);
    assert forall|i: int| 0 <= i < h1.len() - 1 implies b[i] != 10 by {
        assert(h1[i] == line[i] as u8);
        if i < t.len() {
            assert(t[i] != '\n');
            assert(line[i] == t[i]);
        } else {
            assert(line[i] == '\r');
        }
    }
    assert(b[h1.len() - 1] == 10) by {
        assert(line[line.len() - 1] == '\n');
    }
    lemma_line_len_is(b, h1.len() as int);
    assert(b.take(h1.len() as int) =~= h1);
    assert(b.skip(h1.len() as int) =~= h2 + tail);
    encode_utf8_valid_utf8(line);
    encode_utf8_decode_utf8(line);
    let b2 = h2 + tail;
    assert(b2[0] == 13) by {
        assert(h2[0] == crlf[0] as u8);
    }
    assert(b2[1] == 10) by {
        assert(h2[1] == crlf[1] as u8);
    }
    lemma_line_len_is(b2, 2);
    assert(b2.take(2) =~= h2);
    assert(b2.skip(2) =~= tail);
    encode_utf8_valid_utf8(crlf);
    encode_utf8_decode_utf8(crlf);
    assert(header_meaning(crlf) == HeaderLine::End) by {
        assert(crlf.drop_last() =~= seq!['\r']);
        assert(seq!['\r'].drop_last() =~= Seq::<char>::empty());
        assert(without_line_end(Seq::<char>::empty()) =~= Seq::<char>::empty());
        assert(without_line_end(seq!['\r']) =~= Seq::<char>::empty());
    }
    assert(headers(b2, Some(n as usize)) == Headers::Done(Some(n as usize), tail));
    assert(headers(b, None) == headers(b2, Some(n as usize)));
    lemma_byte_len(body);
    assert(tail.take(n as int) =~= encode_utf8(body));
    assert(tail.skip(n as int) =~= rest);
}

/// Two messages framed one after the other are read in sequence, and then the input ends.
pub proof fn frames_read_in_sequence(first: Seq<char>, v: Tree, second: Seq<char>, w: Tree)
    requires
        byte_len(first) <= usize::MAX,
        byte_len(second) <= usize::MAX,
        json_in_bytes(encode_utf8(first)) == Some(v),
        json_in_bytes(encode_utf8(second)) == Some(w),
    ensures
        message_in(frame(first) + frame(second)) == Ok::<Option<(Tree, Seq<u8>)>, Unread>(
            Some((v, frame(second))),
        ),
        message_in(frame(second)) == Ok::<Option<(Tree, Seq<u8>)>, Unread>(Some((w, Seq::empty()))),
        message_in(Seq::empty()) == Ok::<Option<(Tree, Seq<u8>)>, Unread>(None),
{
    frame_reads_back(first, v, frame(second));
    frame_reads_back(second, w, Seq::empty());
    assert(frame(second) + Seq::<u8>::empty() =~= frame(second));
}

// --- the messages that are sent ---

/// A signed number as JSON has it.
pub open spec fn int_value(n: i64) -> Tree {
    if n >= 0 {
        Tree::UInt(n as u64)
    } else {
        Tree::Int(n)
    }
}

fn int_json(n: i64) -> (r: Json)
    ensures
        r@ == int_value(n),
{
    if n >= 0 {
        Json::UInt(n as u64)
    } else {
        Json::Int(n)
    }
}

fn text_json(s: &str) -> (r: Json)
    ensures
        r@ == Tree::Str(s@),
{
    Json::Str(s.to_owned())
}

fn object1(k: &str, v: Json) -> (r: Json)
    ensures
        r@ == Tree::Object(seq![(k@, v@)]),
{
    let mut p: Vec<(String, Json)> = Vec::new();
    p.push((k.to_owned(), v));
    proof {
        lemma_pairs(p);
    }
    assert(pairs_view(p) =~= seq![(k@, v@)]);
    Json::Object(p)
}

fn object2(k: &str, v: Json, l: &str, w: Json) -> (r: Json)
    ensures
        r@ == Tree::Object(seq![(k@, v@), (l@, w@)]),
{
    let mut p: Vec<(String, Json)> = Vec::new();
    p.push((k.to_owned(), v));
    p.push((l.to_owned(), w));
    proof {
        lemma_pairs(p);
    }
    assert(pairs_view(p) =~= seq![(k@, v@), (l@, w@)]);
    Json::Object(p)
}

fn object3(k: &str, v: Json, l: &str, w: Json, m: &str, x: Json) -> (r: Json)
    ensures
        r@ == Tree::Object(seq![(k@, v@), (l@, w@), (m@, x@)]),
{
    let mut p: Vec<(String, Json)> = Vec::new();
    p.push((k.to_owned(), v));
    p.push((l.to_owned(), w));
    p.push((m.to_owned(), x));
    proof {
        lemma_pairs(p);
    }
    assert(pairs_view(p) =~= seq![(k@, v@), (l@, w@), (m@, x@)]);
    Json::Object(p)
}

fn object4(k: &str, v: Json, l: &str, w: Json, m: &str, x: Json, n: &str, y: Json) -> (r: Json)
    ensures
        r@ == Tree::Object(seq![(k@, v@), (l@, w@), (m@, x@), (n@, y@)]),
{
    let mut p: Vec<(String, Json)> = Vec::new();
    p.push((k.to_owned(), v));
    p.push((l.to_owned(), w));
    p.push((m.to_owned(), x));
    p.push((n.to_owned(), y));
    proof {
        lemma_pairs(p);
    }
    assert(pairs_view(p) =~= seq![(k@, v@), (l@, w@), (m@, x@), (n@, y@)]);
    Json::Object(p)
}

/// A notification: a method and its parameters.
pub open spec fn notification(method: Seq<char>, params: Tree) -> Tree {
    Tree::Object(
        seq![("jsonrpc"@, Tree::Str("2.0"@)), ("method"@, Tree::Str(method)), ("params"@, params)],
    )
}

/// What the client tells the server that it can do.
pub open spec fn client_capabilities() -> Tree {
    Tree::Object(
        seq![
            (
                "textDocument"@,
                Tree::Object(
                    seq![
                        (
                            "publishDiagnostics"@,
                            Tree::Object(seq![("relatedInformation"@, Tree::Bool(false))]),
                        ),
                        (
                            "synchronization"@,
                            Tree::Object(
                                seq![
                                    ("didSave"@, Tree::Bool(true)),
                                    ("dynamicRegistration"@, Tree::Bool(false)),
                                ],
                            ),
                        ),
                    ],
                ),
            ),
        ],
    )
}

/// The `initialize` request of the process `process_id`.
pub open spec fn initialize_value(id: i64, root_uri: Seq<char>, process_id: u32) -> Tree {
    Tree::Object(
        seq![
            ("id"@, int_value(id)),
            ("jsonrpc"@, Tree::Str("2.0"@)),
            ("method"@, Tree::Str("initialize"@)),
            (
                "params"@,
                Tree::Object(
                    seq![
                        ("capabilities"@, client_capabilities()),
                        ("processId"@, Tree::UInt(process_id as u64)),
                        ("rootUri"@, Tree::Str(root_uri)),
                    ],
                ),
            ),
        ],
    )
}

/// The `initialize` request; `root_uri` is a `file://` URI, `process_id` the client's process.
pub fn initialize_request(id: i64, root_uri: &str, process_id: u32) -> (r: Json)
    ensures
        r@ == initialize_value(id, root_uri@, process_id),
{
    let capabilities = object1(
        "textDocument",
        object2(
            "publishDiagnostics",
            object1("relatedInformation", Json::Bool(false)),
            "synchronization",
            object2("didSave", Json::Bool(true), "dynamicRegistration", Json::Bool(false)),
        ),
    );
    let params = object3(
        "capabilities",
        capabilities,
        "processId",
        Json::UInt(process_id as u64),
        "rootUri",
        text_json(root_uri),
    );
    object4(
        "id",
        int_json(id),
        "jsonrpc",
        text_json("2.0"),
        "method",
        text_json("initialize"),
        "params",
        params,
    )
}

fn notify(method: &str, params: Json) -> (r: Json)
    ensures
        r@ == notification(method@, params@),
{
    object3("jsonrpc", text_json("2.0"), "method", text_json(method), "params", params)
}

/// The `initialized` notification.
pub fn initialized_notification() -> (r: Json)
    ensures
        r@ == notification("initialized"@, Tree::Object(Seq::empty())),
{
    let none: Vec<(String, Json)> = Vec::new();
    proof {
        lemma_pairs(none);
    }
    assert(pairs_view(none) =~= Seq::empty());
    notify("initialized", Json::Object(none))
}

/// The parameters of a `textDocument/didOpen`.
pub open spec fn open_params(uri: Seq<char>, language_id: Seq<char>, version: i64, text: Seq<char>) -> Tree {
    Tree::Object(
        seq![
            (
                "textDocument"@,
                Tree::Object(
                    seq![
                        ("languageId"@, Tree::Str(language_id)),
                        ("text"@, Tree::Str(text)),
                        ("uri"@, Tree::Str(uri)),
                        ("version"@, int_value(version)),
                    ],
                ),
            ),
        ],
    )
}

/// The notification that a document was opened.
pub fn did_open(uri: &str, language_id: &str, version: i64, text: &str) -> (r: Json)
    ensures
        r@ == notification("textDocument/didOpen"@, open_params(uri@, language_id@, version, text@)),
{
    let document = object4(
        "languageId",
        text_json(language_id),
        "text",
        text_json(text),
        "uri",
        text_json(uri),
        "version",
        int_json(version),
    );
    notify("textDocument/didOpen", object1("textDocument", document))
}

/// The parameters of a `textDocument/didChange` that sends the whole text.
pub open spec fn change_params(uri: Seq<char>, version: i64, text: Seq<char>) -> Tree {
    Tree::Object(
        seq![
            ("contentChanges"@, Tree::Array(seq![Tree::Object(seq![("text"@, Tree::Str(text))])])),
            (
                "textDocument"@,
                Tree::Object(seq![("uri"@, Tree::Str(uri)), ("version"@, int_value(version))]),
            ),
        ],
    )
}

/// The notification that a document now reads `text`.
pub fn did_change(uri: &str, version: i64, text: &str) -> (r: Json)
    ensures
        r@ == notification("textDocument/didChange"@, change_params(uri@, version, text@)),
{
    let mut changes: Vec<Json> = Vec::new();
    changes.push(object1("text", text_json(text)));
    proof {
        lemma_items(changes);
    }
    assert(items_view(changes) =~= seq![Tree::Object(seq![("text"@, Tree::Str(text@))])]);
    let document = object2("uri", text_json(uri), "version", int_json(version));
    notify(
        "textDocument/didChange",
        object2("contentChanges", Json::Array(changes), "textDocument", document),
    )
}

/// Every message that the client builds has one way to write it, so that it reads back
/// as it was sent.
pub proof fn sent_messages_are_canonical(
    id: i64,
    process_id: u32,
    version: i64,
    uri: Seq<char>,
    language_id: Seq<char>,
    text: Seq<char>,
)
    ensures
        canonical(initialize_value(id, uri, process_id)),
        depth(initialize_value(id, uri, process_id)) <= 127,
        canonical(notification("initialized"@, Tree::Object(Seq::empty()))),
        depth(notification("initialized"@, Tree::Object(Seq::empty()))) <= 127,
        canonical(notification("textDocument/didOpen"@, open_params(uri, language_id, version, text))),
        depth(notification("textDocument/didOpen"@, open_params(uri, language_id, version, text))) <= 127,
        canonical(notification("textDocument/didChange"@, change_params(uri, version, text))),
        depth(notification("textDocument/didChange"@, change_params(uri, version, text))) <= 127,
{
    reveal_strlit("id");
    reveal_strlit("jsonrpc");
    reveal_strlit("method");
    reveal_strlit("params");
    reveal_strlit("capabilities");
    reveal_strlit("processId");
    reveal_strlit("rootUri");
    reveal_strlit("publishDiagnostics");
    reveal_strlit("synchronization");
    reveal_strlit("didSave");
    reveal_strlit("dynamicRegistration");
    reveal_strlit("languageId");
    reveal_strlit("text");
    reveal_strlit("uri");
    reveal_strlit("version");
    reveal_strlit("contentChanges");
    reveal_strlit("textDocument");
    assert("id"@.len() == 2);
    assert("jsonrpc"@.len() == 7);
    assert("method"@.len() == 6);
    assert("params"@.len() == 6);
    assert("capabilities"@.len() == 12);
    assert("processId"@.len() == 9);
    assert("rootUri"@.len() == 7);
    assert("publishDiagnostics"@.len() == 18);
    assert("synchronization"@.len() == 15);
    assert("didSave"@.len() == 7);
    assert("dynamicRegistration"@.len() == 19);
    assert("languageId"@.len() == 10);
    assert("text"@.len() == 4);
    assert("uri"@.len() == 3);
    assert("version"@.len() == 7);
    assert("contentChanges"@.len() == 14);
    assert("textDocument"@.len() == 12);
    assert("method"@[0] != "params"@[0]);
    reveal_with_fuel(canonical, 6);
    let publish = Tree::Object(seq![("relatedInformation"@, Tree::Bool(false))]);
    lemma_object_depth(publish->Object_0, 0);
    let sync = Tree::Object(
        seq![("didSave"@, Tree::Bool(true)), ("dynamicRegistration"@, Tree::Bool(false))],
    );
    lemma_object_depth(sync->Object_0, 0);
    let document = Tree::Object(seq![("publishDiagnostics"@, publish), ("synchronization"@, sync)]);
    lemma_object_depth(document->Object_0, 1);
    lemma_object_depth(client_capabilities()->Object_0, 2);
    let params = initialize_value(id, uri, process_id)->Object_0[3].1;
    lemma_object_depth(params->Object_0, 3);
    lemma_object_depth(initialize_value(id, uri, process_id)->Object_0, 4);
    lemma_object_depth(Seq::empty(), 0);
    lemma_object_depth(notification("initialized"@, Tree::Object(Seq::empty()))->Object_0, 1);
    let open = open_params(uri, language_id, version, text);
    lemma_object_depth(open->Object_0[0].1->Object_0, 0);
    lemma_object_depth(open->Object_0, 1);
    lemma_object_depth(notification("textDocument/didOpen"@, open)->Object_0, 2);
    let change = change_params(uri, version, text);
    let item = change->Object_0[0].1->Array_0[0];
    lemma_object_depth(item->Object_0, 0);
    lemma_array_depth(change->Object_0[0].1->Array_0, 1);
    lemma_object_depth(change->Object_0[1].1->Object_0, 0);
    lemma_object_depth(change->Object_0, 2);
    lemma_object_depth(notification("textDocument/didChange"@, change)->Object_0, 3);
}

// --- the diagnostics that come back ---

/// The number under `key`, 0 where there is none.
pub open spec fn place_in(t: Tree, key: Seq<char>) -> usize {
    match t.get_uint(key) {
        Some(n) => n as usize,
        None => 0,
    }
}

/// The diagnostic that a value describes; it must have a range with both its ends.
pub open spec fn finding_of(d: Tree) -> Option<Finding> {
    match (d.get_in("range"@, "start"@), d.get_in("range"@, "end"@)) {
        (Some(start), Some(end)) => Some(
            Finding {
                line: place_in(start, "line"@),
                col: place_in(start, "character"@),
                end_line: place_in(end, "line"@),
                end_col: place_in(end, "character"@),
                severity: match d.get_uint("severity"@) {
                    Some(n) => Severity::numbered(n),
                    None => Severity::Information,
                },
                message: text_or(d.get_text("message"@), Seq::empty()),
            },
        ),
        _ => None,
    }
}

/// The diagnostics that the first `n` values describe, if each describes one.
pub open spec fn findings_of(a: Seq<Tree>, n: nat) -> Option<Seq<Finding>>
    decreases n,
{
    if n == 0 {
        Some(Seq::empty())
    } else {
        match (findings_of(a, (n - 1) as nat), finding_of(a[n - 1])) {
            (Some(before), Some(f)) => Some(before.push(f)),
            _ => None,
        }
    }
}

/// The document and the diagnostics that a message publishes.
pub open spec fn published(msg: Tree) -> Option<(Seq<char>, Seq<Finding>)> {
    if msg.get_text("method"@) != Some("textDocument/publishDiagnostics"@) {
        None
    } else {
        match msg.get("params"@) {
            Some(params) => match (params.get_text("uri"@), params.get("diagnostics"@)) {
                (Some(uri), Some(Tree::Array(a))) => match findings_of(a, a.len()) {
                    Some(f) => Some((uri, f)),
                    None => None,
                },
                _ => None,
            },
            None => None,
        }
    }
}

fn to_place(n: u64) -> (r: usize)
    ensures
        r == n as usize,
{
    #[verifier::truncate]
    (n as usize)
}

fn read_place(t: &Json, key: &str) -> (r: usize)
    ensures
        r == place_in(t@, key@),
{
    match t.get_u64(key) {
        Some(n) => to_place(n),
        None => 0,
    }
}

fn read_finding(d: &Json) -> (r: Option<Diagnostic>)
    ensures
        match r {
            Some(f) => finding_of(d@) == Some(f@),
            None => finding_of(d@) is None,
        },
{
    let range = match d.get("range") {
        Some(r) => r,
        None => return None,
    };
    let start = match range.get("start") {
        Some(s) => s,
        None => return None,
    };
    let end = match range.get("end") {
        Some(e) => e,
        None => return None,
    };
    let severity = match d.get_u64("severity") {
        Some(n) => Severity::from_lsp(n),
        None => Severity::Information,
    };
    let message = match d.get_str("message") {
        Some(m) => m.to_owned(),
        None => String::new(),
    };
    Some(
        Diagnostic {
            line: read_place(start, "line"),
            col: read_place(start, "character"),
            end_line: read_place(end, "line"),
            end_col: read_place(end, "character"),
            severity,
            message,
        },
    )
}

proof fn lemma_findings_none(a: Seq<Tree>, k: nat, n: nat)
    requires
        k <= n,
        findings_of(a, k) is None,
    ensures
        findings_of(a, n) is None,
    decreases n,
{
    if k < n {
        lemma_findings_none(a, k, (n - 1) as nat);
    }
}

/// Reads a `textDocument/publishDiagnostics` notification: the document's URI and its
/// diagnostics. `None` for any other message.
pub fn parse_publish_diagnostics(msg: &Json) -> (r: Option<(String, Vec<Diagnostic>)>)
    ensures
        match r {
            Some((uri, ds)) => published(msg@) == Some((uri@, findings(ds@))),
            None => published(msg@) is None,
        },
{
    let publishes = match msg.get_str("method") {
        Some(m) => same(m, "textDocument/publishDiagnostics"),
        None => false,
    };
    if !publishes {
        return None;
    }
    let params = match msg.get("params") {
        Some(p) => p,
        None => return None,
    };
    let uri = match params.get_str("uri") {
        Some(u) => u.to_owned(),
        None => return None,
    };
    let list = match params.get("diagnostics") {
        Some(d) => match d.as_array() {
            Some(a) => a,
            None => return None,
        },
        None => return None,
    };
    let ghost trees = items_view(*list);
    proof {
        lemma_items(*list);
    }
    let mut out: Vec<Diagnostic> = Vec::new();
    assert(findings(out@) =~= Seq::<Finding>::empty());
    for i in 0..list.len()
        invariant
            trees == items_view(*list),
            trees.len() == list@.len(),
            forall|k: int| 0 <= k < list@.len() ==> #[trigger] trees[k] == list[k]@,
            published(msg@) == (match findings_of(trees, trees.len()) {
                Some(f) => Some((uri@, f)),
                None => None,
            }),
            findings_of(trees, i as nat) == Some(findings(out@)),
    {
        let ghost before = findings(out@);
        match read_finding(&list[i]) {
            Some(f) => {
                let ghost v = f@;
                out.push(f);
                assert(findings(out@) =~= before.push(v));
            },
            None => {
                proof {
                    lemma_findings_none(trees, (i + 1) as nat, trees.len());
                }
                return None;
            },
        }
    }
    Some((uri, out))
}

/// `s` with each space written as a URI has it.
pub open spec fn spaces_encoded(s: Seq<char>) -> Seq<char>
    decreases s.len(),
{
    if s.len() == 0 {
        Seq::empty()
    } else {
        spaces_encoded(s.drop_last()) + if s.last() == ' ' {
            "%20"@
        } else {
            seq![s.last()]
        }
    }
}

/// The `file://` URI of a path; only spaces are encoded.
pub open spec fn uri_of(path: Seq<char>) -> Seq<char> {
    if path.len() > 0 && path[0] == '/' {
        "file://"@ + spaces_encoded(path)
    } else {
        "file:///"@ + spaces_encoded(path)
    }
}

/// The `file://` URI of `path`.
pub fn path_to_uri(path: &str) -> (r: String)
    ensures
        r@ == uri_of(path@),
{
    let cs = chars_of(path);
    let mut out = if cs.len() > 0 && cs[0] == '/' {
        "file://".to_owned()
    } else {
        "file:///".to_owned()
    };
    let ghost head = out@;
    assert(head + spaces_encoded(cs@.take(0)) =~= head);
    for i in 0..cs.len()
        invariant
            out@ == head + spaces_encoded(cs@.take(i as int)),
    {
        assert(cs@.take(i + 1).drop_last() =~= cs@.take(i as int));
        if cs[i] == ' ' {
            push_text(&mut out, "%20");
        } else {
            out.push(cs[i]);
        }
        assert(out@ =~= head + spaces_encoded(cs@.take(i + 1)));
    }
    assert(cs@.take(cs@.len() as int) =~= cs@);
    out
}

/// The diagnostics of each document, by its URI.
pub struct LspState {
    pub diagnostics: Table<Vec<Diagnostic>>,
}

impl LspState {
    /// No document has diagnostics.
    pub fn new() -> (r: Self)
        ensures
            r.diagnostics.wf(),
            r.diagnostics@ == Map::<Seq<char>, Vec<Diagnostic>>::empty(),
    {
        LspState { diagnostics: Table::new() }
    }

    /// What is known of a document.
    pub open spec fn known(&self, uri: Seq<char>) -> Seq<Finding> {
        if self.diagnostics@.dom().contains(uri) {
            findings(self.diagnostics@[uri]@)
        } else {
            Seq::empty()
        }
    }

    /// Takes in what a server published for a document, in place of what was known of it.
    pub fn publish(&mut self, uri: String, diagnostics: Vec<Diagnostic>)
        requires
            old(self).diagnostics.wf(),
        ensures
            final(self).diagnostics.wf(),
            final(self).diagnostics@ == old(self).diagnostics@.insert(uri@, diagnostics),
            forall|u: Seq<char>| #[trigger]
                final(self).known(u) == if u == uri@ {
                    findings(diagnostics@)
                } else {
                    old(self).known(u)
                },
    {
        self.diagnostics.insert(uri, diagnostics);
    }

    /// The diagnostics of the document at `uri`.
    pub fn for_uri(&self, uri: &str) -> (r: Vec<Diagnostic>)
        requires
            self.diagnostics.wf(),
        ensures
            findings(r@) == self.known(uri@),
    {
        let mut out: Vec<Diagnostic> = Vec::new();
        match self.diagnostics.get(uri) {
            Some(ds) => {
                for i in 0..ds.len()
                    invariant
                        findings(out@) == findings(ds@).take(i as int),
                {
                    let ghost before = findings(out@);
                    let d = ds[i].clone();
                    out.push(d);
                    assert(findings(out@) =~= before.push(ds@[i as int]@));
                    assert(findings(ds@).take(i + 1) =~= findings(ds@).take(i as int).push(
                        ds@[i as int]@,
                    ));
                }
                assert(findings(ds@).take(ds@.len() as int) =~= findings(ds@));
            },
            None => {
                assert(findings(out@) =~= Seq::<Finding>::empty());
            },
        }
        out
    }
}

// --- what the messages say ---

/// A place in a document, as servers give it.
pub open spec fn place_tree(line: u64, col: u64) -> Tree {
    Tree::Object(seq![("character"@, Tree::UInt(col)), ("line"@, Tree::UInt(line))])
}

/// A diagnostic, as servers give it.
pub open spec fn finding_tree(line: u64, col: u64, end_line: u64, end_col: u64, severity: u64, message: Seq<char>) -> Tree {
    Tree::Object(
        seq![
            ("message"@, Tree::Str(message)),
            (
                "range"@,
                Tree::Object(seq![("end"@, place_tree(end_line, end_col)), ("start"@, place_tree(line, col))]),
            ),
            ("severity"@, Tree::UInt(severity)),
        ],
    )
}

proof fn lemma_place(line: u64, col: u64)
    ensures
        place_tree(line, col).get_uint("line"@) == Some(line),
        place_tree(line, col).get_uint("character"@) == Some(col),
{
    reveal_strlit("line");
    reveal_strlit("character");
    assert("line"@.len() == 4 && "character"@.len() == 9);
    let ps = seq![("character"@, Tree::UInt(col)), ("line"@, Tree::UInt(line))];
    members_are_found_by_name(ps, "character"@, 0);
    members_are_found_by_name(ps, "line"@, 1);
}

/// A diagnostic is read as it was given: where it begins, where it ends, how grave it is, and what it
/// says.
pub proof fn diagnostics_read_back(
    line: usize,
    col: usize,
    end_line: usize,
    end_col: usize,
    severity: u64,
    message: Seq<char>,
)
    ensures
        finding_of(
            finding_tree(line as u64, col as u64, end_line as u64, end_col as u64, severity, message),
        ) == Some(
            Finding { line, col, end_line, end_col, severity: Severity::numbered(severity), message },
        ),
        Severity::numbered(severity) is Error <==> severity == 1,
        Severity::numbered(severity) is Warning <==> severity == 2,
        Severity::numbered(severity) is Information <==> severity == 3,
        Severity::numbered(4) is Hint,
{
    reveal_strlit("message");
    reveal_strlit("range");
    reveal_strlit("severity");
    reveal_strlit("start");
    reveal_strlit("end");
    assert("message"@.len() == 7 && "range"@.len() == 5 && "severity"@.len() == 8);
    assert("start"@.len() == 5 && "end"@.len() == 3);
    let a = place_tree(line as u64, col as u64);
    let b = place_tree(end_line as u64, end_col as u64);
    let range = seq![("end"@, b), ("start"@, a)];
    let ps = seq![
        ("message"@, Tree::Str(message)),
        ("range"@, Tree::Object(range)),
        ("severity"@, Tree::UInt(severity)),
    ];
    members_are_found_by_name(ps, "message"@, 0);
    members_are_found_by_name(ps, "range"@, 1);
    members_are_found_by_name(ps, "severity"@, 2);
    members_are_found_by_name(range, "end"@, 0);
    members_are_found_by_name(range, "start"@, 1);
    lemma_place(line as u64, col as u64);
    lemma_place(end_line as u64, end_col as u64);
}

/// All diagnostics of a document are taken, in order, or none where one of them cannot be read.
pub proof fn diagnostics_are_taken_together(a: Seq<Tree>, n: nat)
    requires
        n <= a.len(),
    ensures
        findings_of(a, n) matches Some(fs) ==> {
            &&& fs.len() == n
            &&& forall|i: int| 0 <= i < n ==> finding_of(#[trigger] a[i]) == Some(fs[i])
        },
        findings_of(a, n) is None <==> exists|i: int| 0 <= i < n && finding_of(#[trigger] a[i]) is None,
    decreases n,
{
    if n > 0 {
        diagnostics_are_taken_together(a, (n - 1) as nat);
        let last = finding_of(a[n - 1]);
        if findings_of(a, (n - 1) as nat) is None {
            let i = choose|i: int| 0 <= i < n - 1 && finding_of(#[trigger] a[i]) is None;
            assert(finding_of(a[i]) is None);
        }
        if findings_of(a, n) is Some {
            assert forall|i: int| 0 <= i < n implies finding_of(#[trigger] a[i]) == Some(
                findings_of(a, n)->0[i],
            ) by {
                if i < n - 1 {
                    assert(findings_of(a, n)->0[i] == findings_of(a, (n - 1) as nat)->0[i]);
                }
            }
        }
    }
}

/// What is published counts only under its own name, and for the document that it names.
pub proof fn publications_are_read_back(uri: Seq<char>, a: Seq<Tree>)
    ensures
        published(
            notification(
                "textDocument/publishDiagnostics"@,
                Tree::Object(seq![("diagnostics"@, Tree::Array(a)), ("uri"@, Tree::Str(uri))]),
            ),
        ) == match findings_of(a, a.len()) {
            Some(fs) => Some((uri, fs)),
            None => None,
        },
        forall|method: Seq<char>, params: Tree|
            method != "textDocument/publishDiagnostics"@ ==> published(
                #[trigger] notification(method, params),
            ) is None,
{
    reveal_strlit("diagnostics");
    reveal_strlit("uri");
    assert("diagnostics"@.len() == 11 && "uri"@.len() == 3);
    let ps = seq![("diagnostics"@, Tree::Array(a)), ("uri"@, Tree::Str(uri))];
    members_are_found_by_name(ps, "diagnostics"@, 0);
    members_are_found_by_name(ps, "uri"@, 1);
    assert forall|method: Seq<char>, params: Tree| #[trigger] notification(method, params).get_text("method"@)
        == Some(method) && notification(method, params).get("params"@) == Some(params) by {
        notifications_say_their_method(method, params);
    }
    let params = Tree::Object(ps);
    assert(notification("textDocument/publishDiagnostics"@, params).get("params"@) == Some(params)) by {
        notifications_say_their_method("textDocument/publishDiagnostics"@, params);
    }
}

/// A notification says its method and what goes with it.
pub proof fn notifications_say_their_method(method: Seq<char>, params: Tree)
    ensures
        notification(method, params).get_text("method"@) == Some(method),
        notification(method, params).get("params"@) == Some(params),
        notification(method, params).get_text("jsonrpc"@) == Some("2.0"@),
        notification(method, params).get("id"@) is None,
{
    reveal_strlit("jsonrpc");
    reveal_strlit("method");
    reveal_strlit("params");
    reveal_strlit("id");
    assert("jsonrpc"@.len() == 7 && "method"@.len() == 6 && "params"@.len() == 6 && "id"@.len() == 2);
    assert("method"@[0] == 'm' && "params"@[0] == 'p');
    let ps = seq![("jsonrpc"@, Tree::Str("2.0"@)), ("method"@, Tree::Str(method)), ("params"@, params)];
    members_are_found_by_name(ps, "jsonrpc"@, 0);
    members_are_found_by_name(ps, "method"@, 1);
    members_are_found_by_name(ps, "params"@, 2);
    members_are_found_by_name(ps, "id"@, 3);
}

/// A document that is opened or changed is told with its address, its version and its whole text.
pub proof fn documents_are_told_whole(uri: Seq<char>, language_id: Seq<char>, version: i64, text: Seq<char>)
    ensures
        ({
            let doc = open_params(uri, language_id, version, text).get("textDocument"@);
            &&& doc is Some
            &&& doc->0.get_text("uri"@) == Some(uri)
            &&& doc->0.get_text("languageId"@) == Some(language_id)
            &&& doc->0.get_text("text"@) == Some(text)
            &&& doc->0.get("version"@) == Some(int_value(version))
        }),
        ({
            let doc = change_params(uri, version, text).get("textDocument"@);
            let changes = change_params(uri, version, text).get("contentChanges"@);
            &&& doc is Some
            &&& doc->0.get_text("uri"@) == Some(uri)
            &&& doc->0.get("version"@) == Some(int_value(version))
            &&& changes matches Some(Tree::Array(a)) && a.len() == 1 && a[0].get_text("text"@) == Some(text)
                && a[0].get("range"@) is None
        }),
{
    reveal_strlit("textDocument");
    reveal_strlit("contentChanges");
    reveal_strlit("languageId");
    reveal_strlit("text");
    reveal_strlit("uri");
    reveal_strlit("version");
    reveal_strlit("range");
    assert("textDocument"@.len() == 12 && "contentChanges"@.len() == 14 && "languageId"@.len() == 10);
    assert("text"@.len() == 4 && "uri"@.len() == 3 && "version"@.len() == 7 && "range"@.len() == 5);
    let d = seq![
        ("languageId"@, Tree::Str(language_id)),
        ("text"@, Tree::Str(text)),
        ("uri"@, Tree::Str(uri)),
        ("version"@, int_value(version)),
    ];
    let o = seq![("textDocument"@, Tree::Object(d))];
    members_are_found_by_name(d, "languageId"@, 0);
    members_are_found_by_name(d, "text"@, 1);
    members_are_found_by_name(d, "uri"@, 2);
    members_are_found_by_name(d, "version"@, 3);
    members_are_found_by_name(o, "textDocument"@, 0);
    let one = seq![("text"@, Tree::Str(text))];
    let v = seq![("uri"@, Tree::Str(uri)), ("version"@, int_value(version))];
    let c = seq![
        ("contentChanges"@, Tree::Array(seq![Tree::Object(one)])),
        ("textDocument"@, Tree::Object(v)),
    ];
    members_are_found_by_name(one, "text"@, 0);
    members_are_found_by_name(one, "range"@, 1);
    members_are_found_by_name(v, "uri"@, 0);
    members_are_found_by_name(v, "version"@, 1);
    members_are_found_by_name(c, "contentChanges"@, 0);
    members_are_found_by_name(c, "textDocument"@, 1);
}

/// The first message gives its number, the root of the project and the process that asks.
pub proof fn servers_are_told_the_root(id: i64, root_uri: Seq<char>, process_id: u32)
    ensures
        ({
            let m = initialize_value(id, root_uri, process_id);
            &&& m.get_text("method"@) == Some("initialize"@)
            &&& m.get("id"@) == Some(int_value(id))
            &&& m.get_in("params"@, "rootUri"@) == Some(Tree::Str(root_uri))
            &&& m.get_in("params"@, "processId"@) == Some(Tree::UInt(process_id as u64))
        }),
{
    reveal_strlit("id");
    reveal_strlit("jsonrpc");
    reveal_strlit("method");
    reveal_strlit("params");
    reveal_strlit("capabilities");
    reveal_strlit("processId");
    reveal_strlit("rootUri");
    assert("id"@.len() == 2 && "jsonrpc"@.len() == 7 && "method"@.len() == 6 && "params"@.len() == 6);
    assert("method"@[0] == 'm' && "params"@[0] == 'p');
    assert("capabilities"@.len() == 12 && "processId"@.len() == 9 && "rootUri"@.len() == 7);
    let p = seq![
        ("capabilities"@, client_capabilities()),
        ("processId"@, Tree::UInt(process_id as u64)),
        ("rootUri"@, Tree::Str(root_uri)),
    ];
    let m = seq![
        ("id"@, int_value(id)),
        ("jsonrpc"@, Tree::Str("2.0"@)),
        ("method"@, Tree::Str("initialize"@)),
        ("params"@, Tree::Object(p)),
    ];
    members_are_found_by_name(p, "processId"@, 1);
    members_are_found_by_name(p, "rootUri"@, 2);
    members_are_found_by_name(m, "id"@, 0);
    members_are_found_by_name(m, "method"@, 2);
    members_are_found_by_name(m, "params"@, 3);
}

/// A path is encoded piece by piece: a blank as its number, and anything else as it is.
pub proof fn blanks_are_encoded(a: Seq<char>, b: Seq<char>, c: char)
    ensures
        spaces_encoded(a + b) == spaces_encoded(a) + spaces_encoded(b),
        spaces_encoded(seq![' ']) == seq!['%', '2', '0'],
        c != ' ' ==> spaces_encoded(seq![c]) == seq![c],
        forall|i: int| 0 <= i < spaces_encoded(b).len() ==> #[trigger] spaces_encoded(b)[i] != ' ',
    decreases b.len(),
{
    reveal_strlit("%20");
    assert("%20"@ =~= seq!['%', '2', '0']);
    let one = seq![c];
    assert(one.drop_last() =~= Seq::<char>::empty());
    assert(seq![' '].drop_last() =~= Seq::<char>::empty());
    assert(spaces_encoded(Seq::<char>::empty()) =~= Seq::empty());
    assert(spaces_encoded(one) =~= if c == ' ' {
        "%20"@
    } else {
        seq![c]
    });
    assert(spaces_encoded(seq![' ']) =~= "%20"@);
    if b.len() > 0 {
        let d = b.drop_last();
        blanks_are_encoded(a, d, c);
        assert((a + b).drop_last() =~= a + d);
        assert((a + b).last() == b.last());
        assert(spaces_encoded(a + b) =~= spaces_encoded(a) + spaces_encoded(b));
    } else {
        assert(a + b =~= a);
        assert(spaces_encoded(a) + spaces_encoded(b) =~= spaces_encoded(a));
    }
}

/// The address of a file is that of its path from the root, with the leading slash or without it.
pub proof fn addresses_are_rooted(path: Seq<char>)
    requires
        path.len() == 0 || path[0] != '/',
    ensures
        uri_of(seq!['/'] + path) == uri_of(path),
        "file:///"@.is_prefix_of(uri_of(path)),
{
    let p = seq!['/'] + path;
    assert(p[0] == '/');
    blanks_are_encoded(seq!['/'], path, '/');
    reveal_strlit("file://");
    reveal_strlit("file:///");
    assert("file:///"@ =~= "file://"@ + seq!['/']);
    assert(uri_of(p) =~= uri_of(path));
    assert(uri_of(path).subrange(0, 8) =~= "file:///"@);
}

} // verus!
