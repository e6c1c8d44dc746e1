//! The text of a file, by lines.

use vstd::prelude::*;
use crate::bytes::byte_len;
use crate::text::{chars_of, push_text};

verus! {

/// Whether a character ends a line by itself.
pub open spec fn ends_line(c: char) -> bool {
    '\u{a}' <= c <= '\u{d}' || c == '\u{85}' || c == '\u{2028}' || c == '\u{2029}'
}

/// Where the first line of `s` ends, the characters that end it counted: a carriage return
/// and a line feed end it together. The length of `s` where nothing ends it.
pub open spec fn line_end(s: Seq<char>) -> int
    decreases s.len(),
{
    if s.len() == 0 {
        0
    } else if s[0] == '\r' && s.len() > 1 && s[1] == '\n' {
        2
    } else if ends_line(s[0]) {
        1
    } else {
        1 + line_end(s.skip(1))
    }
}

/// Whether anything in `s` ends a line.
pub open spec fn has_break(s: Seq<char>) -> bool {
    exists|i: int| 0 <= i < s.len() && ends_line(#[trigger] s[i])
}

pub proof fn lemma_line_end(s: Seq<char>)
    ensures
        0 <= line_end(s) <= s.len(),
        s.len() > 0 ==> line_end(s) > 0,
    decreases s.len(),
{
    if s.len() > 0 {
        lemma_line_end(s.skip(1));
    }
}

/// The lines of `s`, each with what ends it. Behind the last end there is one line more,
/// which may be empty.
pub open spec fn text_lines(s: Seq<char>) -> Seq<Seq<char>>
    decreases s.len(),
{
    if has_break(s) {
        let k = line_end(s);
        proof {
            lemma_line_end(s);
        }
        seq![s.take(k)] + text_lines(s.skip(k))
    } else {
        seq![s]
    }
}

/// Texts one after the other.
pub open spec fn concat(parts: Seq<Seq<char>>) -> Seq<char>
    decreases parts.len(),
{
    if parts.len() == 0 {
        Seq::empty()
    } else {
        concat(parts.drop_last()) + parts.last()
    }
}

fn is_line_end(c: char) -> (r: bool)
    ensures
        r == ends_line(c),
{
    ('\u{a}' <= c && c <= '\u{d}') || c == '\u{85}' || c == '\u{2028}' || c == '\u{2029}'
}

/// The outside rope: text in pieces, so that a large file is not one allocation.
#[verifier::external_type_specification]
#[verifier::external_body]
pub struct ExRope(ropey::Rope);

/// The characters that a rope holds.
pub uninterp spec fn rope_chars(rope: ropey::Rope) -> Seq<char>;

/// `Rope::new` makes a rope that holds nothing.
pub assume_specification[ ropey::Rope::new ]() -> (r: ropey::Rope)
    ensures
        rope_chars(r) == Seq::<char>::empty(),
;

/// `Rope::len_bytes` counts the bytes of the text in UTF-8.
pub assume_specification[ ropey::Rope::len_bytes ](rope: &ropey::Rope) -> (r: usize)
    ensures
        r == byte_len(rope_chars(*rope)),
;

/// `Rope::len_lines` counts the line ends, and one line more: a line ends at a line feed, a
/// vertical tab, a form feed, a carriage return, the two together, U+0085, U+2028 or U+2029.
pub assume_specification[ ropey::Rope::len_lines ](rope: &ropey::Rope) -> (r: usize)
    ensures
        r == text_lines(rope_chars(*rope)).len(),
;

/// Where a line begins, in characters.
pub open spec fn line_start(ls: Seq<Seq<char>>, line: int) -> nat
    decreases line,
{
    if line <= 0 {
        0
    } else {
        line_start(ls, line - 1) + ls[line - 1].len()
    }
}

/// The line that a character stands on; the end of the text is on the last.
pub open spec fn line_at(ls: Seq<Seq<char>>, at: int) -> int
    decreases ls.len(),
{
    if ls.len() <= 1 || at < ls[0].len() {
        0
    } else {
        1 + line_at(ls.skip(1), at - ls[0].len())
    }
}

/// How many characters of a line are shown: those before what ends it.
pub open spec fn visual_len(line: Seq<char>) -> nat {
    let n = line.len();
    if n >= 2 && line[n - 2] == '\r' && line[n - 1] == '\n' {
        (n - 2) as nat
    } else if n >= 1 && ends_line(line[n - 1]) {
        (n - 1) as nat
    } else {
        n
    }
}

/// `Rope::len_chars` counts the characters.
pub assume_specification[ ropey::Rope::len_chars ](rope: &ropey::Rope) -> (r: usize)
    ensures
        r == rope_chars(*rope).len(),
;

/// `Rope::char_to_line` counts the line ends before a character; the end of the text is on the
/// last line. It panics past the end.
pub assume_specification[ ropey::Rope::char_to_line ](rope: &ropey::Rope, char_idx: usize) -> (r: usize)
    requires
        char_idx <= rope_chars(*rope).len(),
    ensures
        r == line_at(text_lines(rope_chars(*rope)), char_idx as int),
;

/// `Rope::line_to_char` is where a line begins, in characters; one past the last line is the end
/// of the text. It panics further on.
pub assume_specification[ ropey::Rope::line_to_char ](rope: &ropey::Rope, line_idx: usize) -> (r: usize)
    requires
        line_idx <= text_lines(rope_chars(*rope)).len(),
    ensures
        r == line_start(text_lines(rope_chars(*rope)), line_idx as int),
;

/// `Rope::insert` puts a text in before a character. It panics past the end.
pub assume_specification[ ropey::Rope::insert ](rope: &mut ropey::Rope, char_idx: usize, text: &str)
    requires
        char_idx <= rope_chars(*old(rope)).len(),
    ensures
        rope_chars(*final(rope)) == rope_chars(*old(rope)).take(char_idx as int) + text@ + rope_chars(
            *old(rope),
        ).skip(char_idx as int),
;

/// `Rope::remove` takes the characters `from..to` out. It panics where they are not there.
#[verifier::external_body]
fn rope_remove(rope: &mut ropey::Rope, from: usize, to: usize)
    requires
        from <= to <= rope_chars(*old(rope)).len(),
    ensures
        rope_chars(*final(rope)) == rope_chars(*old(rope)).take(from as int) + rope_chars(*old(rope)).skip(
            to as int,
        ),
{
    rope.remove(from..to);
}

/// `Rope::slice`, copied by `RopeSlice`'s `to_string`: the characters `from..to`. It panics where
/// they are not there.
#[verifier::external_body]
fn rope_slice(rope: &ropey::Rope, from: usize, to: usize) -> (r: String)
    requires
        from <= to <= rope_chars(*rope).len(),
    ensures
        r@ == rope_chars(*rope).subrange(from as int, to as int),
{
    rope.slice(from..to).to_string()
}

/// `Rope::line`, copied by `RopeSlice`'s `to_string`: the line with what ends it. The outside
/// function panics past the last line.
#[verifier::external_body]
fn rope_line(rope: &ropey::Rope, line: usize) -> (r: String)
    requires
        line < text_lines(rope_chars(*rope)).len(),
    ensures
        r@ == text_lines(rope_chars(*rope))[line as int],
{
    rope.line(line).to_string()
}

/// The text of a file, or of none.
pub struct TextBuffer {
    rope: ropey::Rope,
    path: Option<String>,
}

impl View for TextBuffer {
    type V = Seq<char>;

    closed spec fn view(&self) -> Seq<char> {
        rope_chars(self.rope)
    }
}

impl TextBuffer {
    /// The file that the text was read from.
    pub closed spec fn file(&self) -> Option<String> {
        self.path
    }

    /// No text and no file.
    pub fn empty() -> (r: Self)
        ensures
            r@ == Seq::<char>::empty(),
            r.file() is None,
    {
        TextBuffer { rope: ropey::Rope::new(), path: None }
    }

    /// The text that was read from the file `path`.
    pub fn from_rope(rope: ropey::Rope, path: Option<String>) -> (r: Self)
        ensures
            r@ == rope_chars(rope),
            r.file() == path,
    {
        TextBuffer { rope, path }
    }

    /// A text and no file.
    pub fn from_text(text: &str) -> (r: Self)
        ensures
            r@ == text@,
            r.file() is None,
    {
        let mut r = TextBuffer::empty();
        r.insert_str(0, text);
        assert(r@ =~= text@);
        r
    }

    /// Another text for the same file.
    pub fn set_rope(&mut self, rope: ropey::Rope)
        ensures
            final(self)@ == rope_chars(rope),
            final(self).file() == old(self).file(),
    {
        self.rope = rope;
    }

    /// The file that the text was read from.
    pub fn path(&self) -> (r: &Option<String>)
        ensures
            *r == self.file(),
    {
        &self.path
    }

    /// The number of lines.
    pub fn len_lines(&self) -> (r: usize)
        ensures
            r == text_lines(self@).len(),
    {
        self.rope.len_lines()
    }

    /// The number of bytes.
    pub fn len_bytes(&self) -> (r: usize)
        ensures
            r == byte_len(self@),
    {
        self.rope.len_bytes()
    }

    /// The number of characters.
    pub fn len_chars(&self) -> (r: usize)
        ensures
            r == self@.len(),
    {
        self.rope.len_chars()
    }

    /// The line that the character at `at` stands on.
    pub fn char_to_line(&self, at: usize) -> (r: usize)
        requires
            at <= self@.len(),
        ensures
            r == line_at(text_lines(self@), at as int),
            r < text_lines(self@).len(),
            line_start(text_lines(self@), r as int) <= at,
    {
        proof {
            lemma_line_at_text(self@, at as int);
        }
        self.rope.char_to_line(at)
    }

    /// Where a line begins.
    pub fn line_to_char(&self, line: usize) -> (r: usize)
        requires
            line <= text_lines(self@).len(),
        ensures
            r == line_start(text_lines(self@), line as int),
            r <= self@.len(),
    {
        proof {
            lemma_line_start_text(self@, line as int);
        }
        self.rope.line_to_char(line)
    }

    /// How many characters of a line are shown.
    pub fn visual_line_len_chars(&self, line: usize) -> (r: usize)
        requires
            line < text_lines(self@).len(),
        ensures
            r == visual_len(text_lines(self@)[line as int]),
            line_start(text_lines(self@), line as int) + r <= self@.len(),
    {
        proof {
            lemma_line_start_text(self@, line + 1);
        }
        let cs = chars_of(&rope_line(&self.rope, line));
        let n = cs.len();
        if n >= 2 && cs[n - 2] == '\r' && cs[n - 1] == '\n' {
            n - 2
        } else if n >= 1 && is_line_end(cs[n - 1]) {
            n - 1
        } else {
            n
        }
    }

    /// The characters `from..to`.
    pub fn slice_chars(&self, from: usize, to: usize) -> (r: String)
        requires
            from <= to <= self@.len(),
        ensures
            r@ == self@.subrange(from as int, to as int),
    {
        rope_slice(&self.rope, from, to)
    }

    /// Puts `text` in before the character at `at`.
    pub fn insert_str(&mut self, at: usize, text: &str)
        requires
            at <= old(self)@.len(),
        ensures
            final(self)@ == old(self)@.take(at as int) + text@ + old(self)@.skip(at as int),
            final(self).file() == old(self).file(),
    {
        self.rope.insert(at, text);
    }

    /// Takes the characters `from..to` out.
    pub fn remove_char_range(&mut self, from: usize, to: usize)
        requires
            from <= to <= old(self)@.len(),
        ensures
            final(self)@ == old(self)@.take(from as int) + old(self)@.skip(to as int),
            final(self).file() == old(self).file(),
    {
        rope_remove(&mut self.rope, from, to);
    }

    /// The rope that holds the text.
    pub fn rope(&self) -> (r: &ropey::Rope)
        ensures
            rope_chars(*r) == self@,
    {
        &self.rope
    }

    /// Up to `count` lines from the line `start` on, which counts from 0.
    pub fn visible_text(&self, start: usize, count: usize) -> (r: String)
        ensures
            r@ == window(text_lines(self@), start as int, count as int),
    {
        let last = self.rope.len_lines();
        let from: usize = if start < last {
            start
        } else {
            last
        };
        let end: usize = if count < last - from {
            from + count
        } else {
            last
        };
        let ghost all = text_lines(self@);
        let mut out = String::new();
        let mut line: usize = from;
        assert(all.subrange(from as int, from as int) =~= Seq::<Seq<char>>::empty());
        while line < end
            invariant
                from <= line <= end <= last,
                last == all.len(),
                all == text_lines(rope_chars(self.rope)),
                out@ == concat(all.subrange(from as int, line as int)),
            decreases end - line,
        {
            let text = rope_line(&self.rope, line);
            push_text(&mut out, &text);
            assert(all.subrange(from as int, line + 1).drop_last() =~= all.subrange(from as int, line as int));
            line += 1;
        }
        out
    }
}

impl Default for TextBuffer {
    fn default() -> (r: Self)
        ensures
            r@ == Seq::<char>::empty(),
            r.file() is None,
    {
        TextBuffer::empty()
    }
}

/// The text of the `count` lines from `start` on, as far as there are so many.
pub open spec fn window(ls: Seq<Seq<char>>, start: int, count: int) -> Seq<char> {
    let from = if start < ls.len() {
        start
    } else {
        ls.len() as int
    };
    let end = if from + count < ls.len() {
        from + count
    } else {
        ls.len() as int
    };
    concat(ls.subrange(from, end))
}

pub proof fn lemma_concat(a: Seq<Seq<char>>, b: Seq<Seq<char>>)
    ensures
        concat(a + b) == concat(a) + concat(b),
    decreases b.len(),
{
    if b.len() == 0 {
        assert(a + b =~= a);
        assert(concat(a) + concat(b) =~= concat(a));
    } else {
        lemma_concat(a, b.drop_last());
        assert((a + b).drop_last() =~= a + b.drop_last());
        assert(concat(a + b) =~= concat(a) + concat(b));
    }
}

proof fn lemma_lines_concat(s: Seq<char>)
    ensures
        concat(text_lines(s)) == s,
        text_lines(s).len() > 0,
    decreases s.len(),
{
    let whole = text_lines(s);
    if has_break(s) {
        let k = line_end(s);
        lemma_line_end(s);
        assert(s.len() > 0);
        lemma_lines_concat(s.skip(k));
        let head = seq![s.take(k)];
        lemma_concat(head, text_lines(s.skip(k)));
        assert(head.drop_last() =~= Seq::<Seq<char>>::empty());
        assert(concat(head.drop_last()) =~= Seq::<char>::empty());
        assert(concat(head) =~= s.take(k));
        assert(concat(whole) =~= s);
    } else {
        assert(whole.drop_last() =~= Seq::<Seq<char>>::empty());
        assert(concat(whole.drop_last()) =~= Seq::<char>::empty());
        assert(concat(whole) =~= s);
    }
}

/// The window over all lines is the whole text, and a window that is cut in two shows what
/// its two parts show.
pub proof fn windows_tile_the_text(s: Seq<char>, start: int, a: int, b: int)
    requires
        0 <= start,
        0 <= a,
        0 <= b,
    ensures
        window(text_lines(s), 0, text_lines(s).len() as int) == s,
        window(text_lines(s), start, a + b) == window(text_lines(s), start, a) + window(
            text_lines(s),
            start + a,
            b,
        ),
{
    let ls = text_lines(s);
    lemma_lines_concat(s);
    assert(ls.subrange(0, ls.len() as int) =~= ls);
    let n = ls.len() as int;
    let from = if start < n {
        start
    } else {
        n
    };
    let mid = if from + a < n {
        from + a
    } else {
        n
    };
    let end = if from + a + b < n {
        from + a + b
    } else {
        n
    };
    lemma_concat(ls.subrange(from, mid), ls.subrange(mid, end));
    assert(ls.subrange(from, mid) + ls.subrange(mid, end) =~= ls.subrange(from, end));
}

/// A line begins where the lines before it end.
proof fn lemma_line_start(ls: Seq<Seq<char>>, line: int)
    requires
        0 <= line <= ls.len(),
    ensures
        line_start(ls, line) == concat(ls.take(line)).len(),
        line_start(ls, line) <= concat(ls).len(),
    decreases line,
{
    if line > 0 {
        lemma_line_start(ls, line - 1);
        assert(ls.take(line).drop_last() =~= ls.take(line - 1));
    }
    lemma_concat(ls.take(line), ls.skip(line));
    assert(ls.take(line) + ls.skip(line) =~= ls);
}

/// Every line of a text begins within it.
pub proof fn lemma_line_start_text(s: Seq<char>, line: int)
    requires
        0 <= line <= text_lines(s).len(),
    ensures
        line_start(text_lines(s), line) <= s.len(),
        line_start(text_lines(s), text_lines(s).len() as int) == s.len(),
        text_lines(s).len() > 0,
{
    lemma_lines_concat(s);
    lemma_line_start(text_lines(s), line);
    lemma_line_start(text_lines(s), text_lines(s).len() as int);
    assert(text_lines(s).take(text_lines(s).len() as int) =~= text_lines(s));
}

proof fn lemma_line_start_shift(ls: Seq<Seq<char>>, line: int)
    requires
        0 < line <= ls.len(),
    ensures
        line_start(ls, line) == ls[0].len() + line_start(ls.skip(1), line - 1),
    decreases line,
{
    if line > 1 {
        lemma_line_start_shift(ls, line - 1);
        assert(ls.skip(1)[line - 2] == ls[line - 1]);
    } else {
        assert(line_start(ls, 0) == 0);
        assert(line_start(ls.skip(1), 0) == 0);
    }
}

proof fn lemma_line_at(ls: Seq<Seq<char>>, at: int)
    requires
        ls.len() > 0,
        0 <= at <= line_start(ls, ls.len() as int),
    ensures
        0 <= line_at(ls, at) < ls.len(),
        line_start(ls, line_at(ls, at)) <= at,
        at <= line_start(ls, line_at(ls, at) + 1),
        line_at(ls, at) + 1 < ls.len() ==> at < line_start(ls, line_at(ls, at) + 1),
    decreases ls.len(),
{
    assert(line_start(ls, 0) == 0);
    assert(line_start(ls, 1) == ls[0].len());
    if ls.len() > 1 && at >= ls[0].len() {
        let rest = ls.skip(1);
        lemma_line_start_shift(ls, ls.len() as int);
        lemma_line_at(rest, at - ls[0].len());
        let k = line_at(rest, at - ls[0].len());
        lemma_line_start_shift(ls, k + 1);
        lemma_line_start_shift(ls, k + 2);
    }
}

/// The line of a character is the one that it stands on: it begins there or before, and the next
/// line begins further on.
pub proof fn lemma_line_at_text(s: Seq<char>, at: int)
    requires
        0 <= at <= s.len(),
    ensures
        0 <= line_at(text_lines(s), at) < text_lines(s).len(),
        line_start(text_lines(s), line_at(text_lines(s), at)) <= at,
        at <= line_start(text_lines(s), line_at(text_lines(s), at) + 1),
        line_at(text_lines(s), at) + 1 < text_lines(s).len() ==> at < line_start(
            text_lines(s),
            line_at(text_lines(s), at) + 1,
        ),
{
    lemma_line_start_text(s, 0);
    lemma_line_at(text_lines(s), at);
}

/// A line of a text is the characters from where it begins.
pub proof fn lemma_line_slice(s: Seq<char>, line: int)
    requires
        0 <= line < text_lines(s).len(),
    ensures
        line_start(text_lines(s), line) + text_lines(s)[line].len() <= s.len(),
        text_lines(s)[line] == s.subrange(
            line_start(text_lines(s), line) as int,
            (line_start(text_lines(s), line) + text_lines(s)[line].len()) as int,
        ),
{
    let ls = text_lines(s);
    lemma_lines_concat(s);
    lemma_line_start(ls, line);
    lemma_line_start_text(s, line + 1);
    assert(ls =~= ls.take(line) + ls.skip(line));
    lemma_concat(ls.take(line), ls.skip(line));
    assert(ls.skip(line) =~= seq![ls[line]] + ls.skip(line + 1));
    lemma_concat(seq![ls[line]], ls.skip(line + 1));
    assert(seq![ls[line]].drop_last() =~= Seq::<Seq<char>>::empty());
    assert(concat(Seq::<Seq<char>>::empty()) == Seq::<char>::empty());
    assert(concat(seq![ls[line]]) =~= ls[line]);
    let start = line_start(ls, line) as int;
    assert(s =~= concat(ls.take(line)) + (ls[line] + concat(ls.skip(line + 1))));
    assert(s.subrange(start, start + ls[line].len()) =~= ls[line]);
}

/// What a first line ends with: a line feed behind a carriage return, or one character that ends lines,
/// and none before.
proof fn lemma_line_end_shape(s: Seq<char>)
    requires
        has_break(s),
    ensures
        ({
            let k = line_end(s);
            &&& 0 < k <= s.len()
            &&& ends_line(s[k - 1])
            &&& {
                ||| k >= 2 && s[k - 2] == '\r' && s[k - 1] == '\n' && forall|j: int|
                    0 <= j < k - 2 ==> !ends_line(#[trigger] s[j])
                ||| forall|j: int| 0 <= j < k - 1 ==> !ends_line(#[trigger] s[j])
            }
        }),
    decreases s.len(),
{
    let i = choose|i: int| 0 <= i < s.len() && ends_line(#[trigger] s[i]);
    if s[0] == '\r' && s.len() > 1 && s[1] == '\n' {
    } else if ends_line(s[0]) {
    } else {
        let t = s.skip(1);
        assert(t[i - 1] == s[i]);
        lemma_line_end_shape(t);
        let m = line_end(t);
        assert(s[m] == t[m - 1]);
        if m >= 2 {
            assert(s[m - 1] == t[m - 2]);
        }
        assert forall|j: int| 0 < j < s.len() implies #[trigger] s[j] == t[j - 1] by {}
    }
}

proof fn lemma_lines_shape(s: Seq<char>, i: int)
    requires
        0 <= i < text_lines(s).len(),
    ensures
        ({
            let line = text_lines(s)[i];
            let n = visual_len(line) as int;
            &&& n <= line.len()
            &&& forall|j: int| 0 <= j < n ==> !ends_line(#[trigger] line[j])
            &&& i < text_lines(s).len() - 1 ==> n < line.len() && ends_line(line.last())
            &&& i == text_lines(s).len() - 1 ==> n == line.len()
        }),
    decreases s.len(),
{
    if has_break(s) {
        lemma_line_end(s);
        lemma_line_end_shape(s);
        let k = line_end(s);
        let (head, rest) = (s.take(k), s.skip(k));
        assert(text_lines(s) == seq![head] + text_lines(rest));
        lemma_lines_concat(rest);
        if i == 0 {
            assert(head.last() == s[k - 1]);
            if k >= 2 {
                assert(head[k - 2] == s[k - 2]);
            }
            assert forall|j: int| 0 <= j < visual_len(head) implies !ends_line(#[trigger] head[j]) by {
                assert(head[j] == s[j]);
            }
        } else {
            lemma_lines_shape(rest, i - 1);
            assert(text_lines(s)[i] == text_lines(rest)[i - 1]);
        }
    } else {
        assert(text_lines(s)[0] == s);
        assert forall|j: int| 0 <= j < s.len() implies !ends_line(#[trigger] s[j]) by {}
    }
}

/// The lines of a text: what is shown of one holds nothing that ends lines, every line but the last ends
/// with such a character, and the last with none.
pub proof fn lines_end_at_breaks(s: Seq<char>, i: int)
    requires
        0 <= i < text_lines(s).len(),
    ensures
        concat(text_lines(s)) == s,
        ({
            let line = text_lines(s)[i];
            let n = visual_len(line) as int;
            &&& n <= line.len()
            &&& forall|j: int| 0 <= j < n ==> !ends_line(#[trigger] line[j])
            &&& i < text_lines(s).len() - 1 ==> n < line.len() && ends_line(line.last())
            &&& i == text_lines(s).len() - 1 ==> n == line.len()
        }),
{
    lemma_lines_concat(s);
    lemma_lines_shape(s, i);
}

/// A later line begins no earlier.
pub proof fn lemma_line_start_mono(ls: Seq<Seq<char>>, a: int, b: int)
    requires
        0 <= a <= b <= ls.len(),
    ensures
        line_start(ls, a) <= line_start(ls, b),
    decreases b - a,
{
    if a < b {
        lemma_line_start_mono(ls, a, b - 1);
    }
}

/// A place on a line is on that line: its line and its column lead to it and back.
pub proof fn places_are_on_their_lines(s: Seq<char>, line: int, col: int)
    requires
        0 <= line < text_lines(s).len(),
        0 <= col <= visual_len(text_lines(s)[line]),
    ensures
        line_start(text_lines(s), line) + col <= s.len(),
        line_at(text_lines(s), line_start(text_lines(s), line) + col) == line,
{
    let ls = text_lines(s);
    let at = line_start(ls, line) + col;
    lemma_lines_shape(s, line);
    lemma_line_slice(s, line);
    lemma_line_at_text(s, at);
    let k = line_at(ls, at);
    if k < line {
        lemma_line_start_mono(ls, k + 1, line);
    } else if k > line {
        lemma_line_start_mono(ls, line + 1, k);
    }
}

/// The lines `from..to` of a text are its characters from where the first begins to where the last ends.
pub proof fn lemma_window_slice(s: Seq<char>, from: int, to: int)
    requires
        0 <= from <= to <= text_lines(s).len(),
    ensures
        concat(text_lines(s).subrange(from, to)) == s.subrange(
            line_start(text_lines(s), from) as int,
            line_start(text_lines(s), to) as int,
        ),
        line_start(text_lines(s), from) <= line_start(text_lines(s), to) <= s.len(),
{
    let ls = text_lines(s);
    lemma_lines_concat(s);
    lemma_line_start(ls, from);
    lemma_line_start(ls, to);
    lemma_line_start_mono(ls, from, to);
    lemma_concat(ls.take(from), ls.subrange(from, to));
    assert(ls.take(from) + ls.subrange(from, to) =~= ls.take(to));
    lemma_concat(ls.take(to), ls.skip(to));
    assert(ls.take(to) + ls.skip(to) =~= ls);
    assert(s.subrange(line_start(ls, from) as int, line_start(ls, to) as int) =~= concat(ls.subrange(from, to)));
}

} // verus!
