//! The caret: moving it, selecting with it, and what a key does to the text at it.

use vstd::prelude::*;
use crate::buffer::{ends_line, lemma_line_at_text, lemma_line_slice, lemma_line_start_text, line_at, line_start, lines_end_at_breaks, places_are_on_their_lines, text_lines, visual_len, TextBuffer};
use crate::case::{lower_text, text_lower};
use crate::number::{decimal, decimal_reads_back, lemma_decimal_digits, parse_number, parsed_to};
use crate::text::{chars, chars_of, same, trim, trimmed, trimmed_start};

verus! {

/// Whether a character is one of control.
pub open spec fn is_control_char(c: char) -> bool {
    c <= '\u{1f}' || '\u{7f}' <= c <= '\u{9f}'
}

/// [`char::is_control`] tells whether the character is in the Unicode category `Cc`, which is
/// U+0000 to U+001F and U+007F to U+009F.
pub assume_specification[ char::is_control ](c: char) -> (r: bool)
    ensures
        r == is_control_char(c),
;

/// Where the caret is in a text, the column that it keeps to on its way up or down, where the
/// selection began, and the first line in view.
#[derive(Clone, Copy, Debug, PartialEq, Eq, Structural)]
pub struct Caret {
    pub cursor: usize,
    pub goal_col: usize,
    pub anchor: Option<usize>,
    pub first_line: usize,
}

impl Caret {
    /// The start of a text.
    pub fn start() -> (r: Caret)
        ensures
            r == (Caret { cursor: 0, goal_col: 0, anchor: None, first_line: 0 }),
    {
        Caret { cursor: 0, goal_col: 0, anchor: None, first_line: 0 }
    }

    /// The caret and the start of the selection are in a text of `len` characters.
    pub open spec fn fits(self, len: nat) -> bool {
        &&& self.cursor <= len
        &&& self.anchor matches Some(a) ==> a <= len
    }

    /// What is selected, where anything is.
    pub open spec fn selection(self) -> Option<(usize, usize)> {
        match self.anchor {
            Some(a) => if a < self.cursor {
                Some((a, self.cursor))
            } else if self.cursor < a {
                Some((self.cursor, a))
            } else {
                None
            },
            None => None,
        }
    }

    /// What is selected, where anything is.
    pub fn selection_range(&self) -> (r: Option<(usize, usize)>)
        ensures
            r == self.selection(),
    {
        match self.anchor {
            Some(a) => if a < self.cursor {
                Some((a, self.cursor))
            } else if self.cursor < a {
                Some((self.cursor, a))
            } else {
                None
            },
            None => None,
        }
    }
}

/// The column of a place in a text.
pub open spec fn column(text: Seq<char>, at: int) -> int {
    at - line_start(text_lines(text), line_at(text_lines(text), at))
}

/// The caret at a place, keeping to that column.
pub open spec fn placed(c: Caret, text: Seq<char>, at: int) -> Caret {
    Caret { cursor: at as usize, goal_col: column(text, at) as usize, ..c }
}

/// The line `n` lines above or below a line, as far as there are so many.
pub open spec fn line_off(line: int, up: bool, n: int, last: int) -> int {
    if up {
        if n > line {
            0
        } else {
            line - n
        }
    } else if line + n > last {
        last
    } else {
        line + n
    }
}

/// The caret some lines up or down, in the column it keeps to or at the end of a shorter line.
pub open spec fn lines_away(c: Caret, text: Seq<char>, up: bool, n: int) -> Caret {
    let ls = text_lines(text);
    let target = line_off(line_at(ls, c.cursor as int), up, n, ls.len() - 1);
    let shown = visual_len(ls[target]);
    let col = if c.goal_col <= shown {
        c.goal_col as int
    } else {
        shown as int
    };
    Caret { cursor: (line_start(ls, target) + col) as usize, ..c }
}

/// The caret before a move: one that selects begins where the caret is, unless something is
/// selected already; another ends the selection.
pub open spec fn begun(c: Caret, shift: bool) -> Caret {
    Caret {
        anchor: if !shift {
            None
        } else if c.anchor is Some {
            c.anchor
        } else {
            Some(c.cursor)
        },
        ..c
    }
}

/// A text and the caret in it.
pub struct Editing {
    pub text: Seq<char>,
    pub caret: Caret,
}

/// The text with `from..to` replaced, the caret behind what was put in and nothing selected.
pub open spec fn replaced(e: Editing, from: int, to: int, with: Seq<char>) -> Editing {
    let text = e.text.take(from) + with + e.text.skip(to);
    let at = from + with.len();
    Editing { text, caret: Caret { anchor: None, ..placed(e.caret, text, at) } }
}

/// The text with the selection, or nothing at the caret, replaced.
pub open spec fn typed(e: Editing, with: Seq<char>) -> Editing {
    match e.caret.selection() {
        Some((from, to)) => replaced(e, from as int, to as int, with),
        None => replaced(e, e.caret.cursor as int, e.caret.cursor as int, with),
    }
}

/// Everything selected, the caret at the end.
pub open spec fn all_selected(e: Editing) -> Editing {
    Editing {
        caret: Caret { anchor: Some(0), ..placed(e.caret, e.text, e.text.len() as int) },
        ..e
    }
}

/// A key as far as the editor knows it apart.
#[derive(Debug, PartialEq)]
pub enum EditKey {
    Backspace,
    Delete,
    Enter,
    Tab,
    Left,
    Right,
    Up,
    Down,
    Home,
    End,
    PageUp,
    PageDown,
    Escape,
    F1,
    F11,
    Character(String),
    Other,
}

/// What a key that is no character does, and whether it counts as a change.
pub open spec fn key_pressed(e: Editing, key: EditKey, ctrl: bool, shift: bool, page: int) -> (Editing, bool) {
    let c = e.caret;
    let len = e.text.len() as int;
    let b = begun(c, shift);
    let ls = text_lines(e.text);
    let line = line_at(ls, c.cursor as int);
    match key {
        EditKey::Backspace => if c.selection() is Some {
            (typed(e, Seq::empty()), true)
        } else if c.cursor > 0 {
            let (from, to) = (c.cursor - 1, c.cursor as int);
            let text = e.text.take(from) + e.text.skip(to);
            (Editing { text, caret: placed(c, text, from) }, true)
        } else {
            (e, false)
        },
        EditKey::Delete => if c.selection() is Some {
            (typed(e, Seq::empty()), true)
        } else if c.cursor < len {
            (
                Editing {
                    text: e.text.take(c.cursor as int) + e.text.skip(c.cursor + 1),
                    caret: c,
                },
                true,
            )
        } else {
            (e, false)
        },
        EditKey::Enter => (key_typed(e, '\n'), true),
        EditKey::Tab => (key_typed(e, '\t'), true),
        EditKey::Left => {
            let at = if c.cursor > 0 {
                c.cursor - 1
            } else {
                0
            };
            (Editing { caret: placed(b, e.text, at), ..e }, true)
        },
        EditKey::Right => {
            let at = if c.cursor < len {
                c.cursor + 1
            } else {
                len
            };
            (Editing { caret: placed(b, e.text, at), ..e }, true)
        },
        EditKey::Up => (Editing { caret: lines_away(b, e.text, true, 1), ..e }, true),
        EditKey::Down => (Editing { caret: lines_away(b, e.text, false, 1), ..e }, true),
        EditKey::Home => {
            let at = if ctrl {
                0
            } else {
                line_start(ls, line) as int
            };
            (Editing { caret: placed(b, e.text, at), ..e }, true)
        },
        EditKey::End => {
            let at = if ctrl {
                len
            } else {
                (line_start(ls, line) + visual_len(ls[line])) as int
            };
            (Editing { caret: placed(b, e.text, at), ..e }, true)
        },
        EditKey::PageUp => (Editing { caret: lines_away(b, e.text, true, page), ..e }, true),
        EditKey::PageDown => (Editing { caret: lines_away(b, e.text, false, page), ..e }, true),
        _ => (e, false),
    }
}

/// A line feed or a tab put in. Without a selection, where one began stays.
pub open spec fn key_typed(e: Editing, c: char) -> Editing {
    if e.caret.selection() is Some {
        typed(e, seq![c])
    } else {
        let at = e.caret.cursor as int;
        let text = e.text.take(at) + seq![c] + e.text.skip(at);
        Editing { text, caret: placed(e.caret, text, at + 1) }
    }
}

/// The characters of a text that are none of control.
pub open spec fn printable(s: Seq<char>) -> Seq<char>
    decreases s.len(),
{
    if s.len() == 0 {
        Seq::empty()
    } else if is_control_char(s.last()) {
        printable(s.drop_last())
    } else {
        printable(s.drop_last()).push(s.last())
    }
}

/// What the text that a key produces does: its characters are put in, unless control is held.
pub open spec fn text_typed(e: Editing, ctrl: bool, text: Option<Seq<char>>) -> (Editing, bool) {
    match text {
        Some(t) => if !ctrl && printable(t).len() > 0 {
            (typed(e, printable(t)), true)
        } else {
            (e, false)
        },
        None => (e, false),
    }
}

/// What a key does in the editor: what it does by itself, and then what its text does.
pub open spec fn after_key(
    e: Editing,
    key: EditKey,
    ctrl: bool,
    shift: bool,
    text: Option<Seq<char>>,
    page: int,
) -> (Editing, bool) {
    let (a, x) = key_pressed(e, key, ctrl, shift, page);
    let (b, y) = text_typed(a, ctrl, text);
    (b, x || y)
}

/// Whether the selection is still in the text where the text of a key goes in: a key that deletes
/// leaves where a selection began, which may then be behind the end.
pub open spec fn stays_in_text(
    e: Editing,
    key: EditKey,
    ctrl: bool,
    shift: bool,
    text: Option<Seq<char>>,
    page: int,
) -> bool {
    let (a, x) = key_pressed(e, key, ctrl, shift, page);
    ctrl || text is None || printable(text->0).len() == 0 || a.caret.fits(a.text.len())
}

/// The printable characters of `s`.
pub fn keep_printable(s: &str) -> (r: String)
    ensures
        r@ == printable(s@),
{
    let cs = chars_of(s);
    let mut out = String::new();
    for i in 0..cs.len()
        invariant
            out@ == printable(cs@.take(i as int)),
    {
        assert(cs@.take(i + 1).drop_last() =~= cs@.take(i as int));
        if !cs[i].is_control() {
            out.push(cs[i]);
        }
    }
    assert(cs@.take(cs@.len() as int) =~= cs@);
    out
}

/// A buffer with the caret in it.
pub open spec fn editing(buffer: TextBuffer, caret: Caret) -> Editing {
    Editing { text: buffer@, caret }
}

impl Caret {
    /// Puts the caret at `at`, keeping to that column.
    pub fn place(&mut self, buffer: &TextBuffer, at: usize)
        requires
            at <= buffer@.len(),
        ensures
            *final(self) == placed(*old(self), buffer@, at as int),
    {
        let line = buffer.char_to_line(at);
        self.cursor = at;
        self.goal_col = at - buffer.line_to_char(line);
    }

    /// Keeps to the column that the caret is in.
    pub fn update_goal_col(&mut self, buffer: &TextBuffer)
        requires
            old(self).cursor <= buffer@.len(),
        ensures
            *final(self) == placed(*old(self), buffer@, old(self).cursor as int),
    {
        let at = self.cursor;
        self.place(buffer, at);
    }

    /// Moves the caret `n` lines up or down.
    pub fn move_vertical(&mut self, buffer: &TextBuffer, up: bool, n: usize)
        requires
            old(self).cursor <= buffer@.len(),
        ensures
            *final(self) == lines_away(*old(self), buffer@, up, n as int),
            final(self).cursor <= buffer@.len(),
    {
        let line = buffer.char_to_line(self.cursor);
        proof {
            lemma_line_start_text(buffer@, 0);
        }
        let last: usize = buffer.len_lines() - 1;
        let target: usize = if up {
            if n > line {
                0
            } else {
                line - n
            }
        } else if n > last - line {
            last
        } else {
            line + n
        };
        let shown = buffer.visual_line_len_chars(target);
        let col: usize = if self.goal_col <= shown {
            self.goal_col
        } else {
            shown
        };
        let total = buffer.len_chars();
        self.cursor = buffer.line_to_char(target) + col;
    }

    /// Begins a move, with or without selecting.
    pub fn begin_move(&mut self, shift: bool)
        ensures
            *final(self) == begun(*old(self), shift),
    {
        if shift {
            if self.anchor.is_none() {
                self.anchor = Some(self.cursor);
            }
        } else {
            self.anchor = None;
        }
    }

    /// Selects the whole text.
    pub fn select_all(&mut self, buffer: &TextBuffer)
        ensures
            editing(*buffer, *final(self)) == all_selected(editing(*buffer, *old(self))),
    {
        let len = buffer.len_chars();
        self.place(buffer, len);
        self.anchor = Some(0);
    }
}

fn replace_range(buffer: &mut TextBuffer, caret: &mut Caret, from: usize, to: usize, with: &str)
    requires
        from <= to <= old(buffer)@.len(),
    ensures
        editing(*final(buffer), *final(caret)) == replaced(
            editing(*old(buffer), *old(caret)),
            from as int,
            to as int,
            with@,
        ),
        final(buffer).file() == old(buffer).file(),
        final(caret).fits(final(buffer)@.len()),
{
    let ghost before = buffer@;
    buffer.remove_char_range(from, to);
    let ghost mid = buffer@;
    buffer.insert_str(from, with);
    assert(mid.take(from as int) =~= before.take(from as int));
    assert(mid.skip(from as int) =~= before.skip(to as int));
    let total = buffer.len_chars();
    let n = chars_of(with).len();
    caret.place(buffer, from + n);
    caret.anchor = None;
}

/// Replaces the selection with `text`, or puts it in at the caret.
pub fn replace_selection_with(buffer: &mut TextBuffer, caret: &mut Caret, text: &str)
    requires
        old(caret).fits(old(buffer)@.len()),
    ensures
        editing(*final(buffer), *final(caret)) == typed(editing(*old(buffer), *old(caret)), text@),
        final(buffer).file() == old(buffer).file(),
        final(caret).fits(final(buffer)@.len()),
{
    match caret.selection_range() {
        Some((from, to)) => replace_range(buffer, caret, from, to, text),
        None => {
            let at = caret.cursor;
            replace_range(buffer, caret, at, at, text);
        },
    }
}

/// Deletes the selection; nothing happens without one.
pub fn delete_selection(buffer: &mut TextBuffer, caret: &mut Caret) -> (r: bool)
    requires
        old(caret).fits(old(buffer)@.len()),
    ensures
        r == (old(caret).selection() is Some),
        r ==> editing(*final(buffer), *final(caret)) == typed(
            editing(*old(buffer), *old(caret)),
            Seq::empty(),
        ),
        !r ==> *final(buffer) == *old(buffer) && *final(caret) == *old(caret),
        final(buffer).file() == old(buffer).file(),
        final(caret).fits(final(buffer)@.len()),
{
    if caret.selection_range().is_none() {
        return false;
    }
    proof {
        reveal_strlit("");
        assert(""@ =~= Seq::<char>::empty());
    }
    replace_selection_with(buffer, caret, "");
    true
}

fn put_char(buffer: &mut TextBuffer, caret: &mut Caret, c: char)
    requires
        old(caret).fits(old(buffer)@.len()),
    ensures
        editing(*final(buffer), *final(caret)) == key_typed(editing(*old(buffer), *old(caret)), c),
        final(buffer).file() == old(buffer).file(),
        final(caret).fits(final(buffer)@.len()),
{
    let mut one = String::new();
    one.push(c);
    assert(one@ =~= seq![c]);
    if caret.selection_range().is_some() {
        replace_selection_with(buffer, caret, &one);
    } else {
        let at = caret.cursor;
        buffer.insert_str(at, &one);
        let total = buffer.len_chars();
        caret.place(buffer, at + 1);
    }
}

/// What a key does in the editor; `page` is how many lines fit. Whether anything changed is
/// returned: the text, or where the caret is.
pub fn edit_key(
    buffer: &mut TextBuffer,
    caret: &mut Caret,
    key: &EditKey,
    ctrl: bool,
    shift: bool,
    text: Option<&str>,
    page: usize,
) -> (r: bool)
    requires
        old(caret).fits(old(buffer)@.len()),
        stays_in_text(
            editing(*old(buffer), *old(caret)),
            *key,
            ctrl,
            shift,
            chars(text),
            page as int,
        ),
    ensures
        (editing(*final(buffer), *final(caret)), r) == after_key(
            editing(*old(buffer), *old(caret)),
            *key,
            ctrl,
            shift,
            chars(text),
            page as int,
        ),
        final(buffer).file() == old(buffer).file(),
        final(caret).cursor <= final(buffer)@.len(),
        old(caret).anchor is None ==> final(caret).fits(final(buffer)@.len()),
{
    match try_edit_key(buffer, caret, key, ctrl, shift, text, page) {
        Some(changed) => changed,
        None => false,
    }
}

/// [`edit_key`] for any key; `None` where the selection is no longer in the text where the text of
/// the key goes in: that is left out then.
pub fn try_edit_key(
    buffer: &mut TextBuffer,
    caret: &mut Caret,
    key: &EditKey,
    ctrl: bool,
    shift: bool,
    text: Option<&str>,
    page: usize,
) -> (r: Option<bool>)
    requires
        old(caret).fits(old(buffer)@.len()),
    ensures
        r is Some == stays_in_text(
            editing(*old(buffer), *old(caret)),
            *key,
            ctrl,
            shift,
            chars(text),
            page as int,
        ),
        match r {
            Some(changed) => (editing(*final(buffer), *final(caret)), changed) == after_key(
                editing(*old(buffer), *old(caret)),
                *key,
                ctrl,
                shift,
                chars(text),
                page as int,
            ),
            None => editing(*final(buffer), *final(caret)) == key_pressed(
                editing(*old(buffer), *old(caret)),
                *key,
                ctrl,
                shift,
                page as int,
            ).0,
        },
        final(buffer).file() == old(buffer).file(),
        final(caret).cursor <= final(buffer)@.len(),
        old(caret).anchor is None ==> final(caret).fits(final(buffer)@.len()),
{
    let mut changed = press_key(buffer, caret, key, ctrl, shift, page);
    if !ctrl {
        if let Some(t) = text {
            let keep = keep_printable(t);
            if !keep.as_str().is_empty() {
                if !caret.fits_in(buffer.len_chars()) {
                    return None;
                }
                replace_selection_with(buffer, caret, &keep);
                changed = true;
            }
        }
    }
    Some(changed)
}

fn press_key(
    buffer: &mut TextBuffer,
    caret: &mut Caret,
    key: &EditKey,
    ctrl: bool,
    shift: bool,
    page: usize,
) -> (r: bool)
    requires
        old(caret).fits(old(buffer)@.len()),
    ensures
        (editing(*final(buffer), *final(caret)), r) == key_pressed(
            editing(*old(buffer), *old(caret)),
            *key,
            ctrl,
            shift,
            page as int,
        ),
        final(buffer).file() == old(buffer).file(),
        final(caret).cursor <= final(buffer)@.len(),
        old(caret).anchor is None ==> final(caret).fits(final(buffer)@.len()),
{
    let len = buffer.len_chars();
    let at = caret.cursor;
    let selected = caret.selection_range().is_some();
    let line = buffer.char_to_line(at);
    match key {
        EditKey::Backspace => {
            if selected {
                delete_selection(buffer, caret)
            } else if at > 0 {
                buffer.remove_char_range(at - 1, at);
                caret.place(buffer, at - 1);
                true
            } else {
                false
            }
        },
        EditKey::Delete => {
            if selected {
                delete_selection(buffer, caret)
            } else if at < len {
                buffer.remove_char_range(at, at + 1);
                true
            } else {
                false
            }
        },
        EditKey::Enter => {
            put_char(buffer, caret, '\n');
            true
        },
        EditKey::Tab => {
            put_char(buffer, caret, '\t');
            true
        },
        EditKey::Left => {
            caret.begin_move(shift);
            caret.place(
                buffer,
                if at > 0 {
                    at - 1
                } else {
                    0
                },
            );
            true
        },
        EditKey::Right => {
            caret.begin_move(shift);
            caret.place(
                buffer,
                if at < len {
                    at + 1
                } else {
                    len
                },
            );
            true
        },
        EditKey::Up => {
            caret.begin_move(shift);
            caret.move_vertical(buffer, true, 1);
            true
        },
        EditKey::Down => {
            caret.begin_move(shift);
            caret.move_vertical(buffer, false, 1);
            true
        },
        EditKey::Home => {
            caret.begin_move(shift);
            let to: usize = if ctrl {
                0
            } else {
                buffer.line_to_char(line)
            };
            caret.place(buffer, to);
            true
        },
        EditKey::End => {
            caret.begin_move(shift);
            let shown = buffer.visual_line_len_chars(line);
            let to: usize = if ctrl {
                len
            } else {
                buffer.line_to_char(line) + shown
            };
            caret.place(buffer, to);
            true
        },
        EditKey::PageUp => {
            caret.begin_move(shift);
            caret.move_vertical(buffer, true, page);
            true
        },
        EditKey::PageDown => {
            caret.begin_move(shift);
            caret.move_vertical(buffer, false, page);
            true
        },
        _ => false,
    }
}

impl Caret {
    /// Whether the caret and the start of the selection are in a text of `len` characters.
    pub fn fits_in(&self, len: usize) -> (r: bool)
        ensures
            r == self.fits(len as nat),
    {
        match self.anchor {
            Some(a) => self.cursor <= len && a <= len,
            None => self.cursor <= len,
        }
    }

    /// Puts the caret at `at` with nothing selected.
    pub fn settle(&mut self, buffer: &TextBuffer, at: usize)
        requires
            at <= buffer@.len(),
        ensures
            *final(self) == (Caret { anchor: None, ..placed(*old(self), buffer@, at as int) }),
    {
        self.place(buffer, at);
        self.anchor = None;
    }
}

/// The line, from 0 on, that a line number from 1 on means in a text: the nearest there is.
pub open spec fn numbered_line(n: int, lines: int) -> int {
    if n < 1 {
        0
    } else if n > lines {
        lines - 1
    } else {
        n - 1
    }
}

/// The caret at the start of the line whose number is typed, or where it was.
pub open spec fn gone_to(c: Caret, text: Seq<char>, input: Seq<char>) -> Caret {
    match parsed_to(trimmed(input), usize::MAX as nat) {
        Some(n) => Caret {
            anchor: None,
            ..placed(
                c,
                text,
                line_start(text_lines(text), numbered_line(n as int, text_lines(text).len() as int)) as int,
            )
        },
        None => c,
    }
}

/// Puts the caret at the start of the line that `input` numbers; nothing happens where it writes
/// no number.
pub fn goto_line(buffer: &TextBuffer, caret: &mut Caret, input: &str)
    ensures
        *final(caret) == gone_to(*old(caret), buffer@, input@),
{
    proof {
        lemma_line_start_text(buffer@, 0);
    }
    if let Some(n) = parse_number(trim(&chars_of(input)), usize::MAX as u64) {
        let last = buffer.len_lines();
        let line: usize = if n < 1 {
            0
        } else if n as usize > last {
            last - 1
        } else {
            n as usize - 1
        };
        let at = buffer.line_to_char(line);
        caret.settle(buffer, at);
    }
}

/// The caret at a hit of a search: on its line, which is the fifth in view where there are so
/// many above it.
pub open spec fn at_hit(c: Caret, text: Seq<char>, line: int, col: int) -> Caret {
    let shown = visual_len(text_lines(text)[line]);
    let to = if col < shown {
        col
    } else {
        shown as int
    };
    Caret {
        anchor: None,
        first_line: (if line < 4 {
            0
        } else {
            line - 4
        }) as usize,
        ..placed(c, text, line_start(text_lines(text), line) + to)
    }
}

/// Puts the caret at a hit of a search; its line counts from 1.
pub fn goto_hit(buffer: &TextBuffer, caret: &mut Caret, line: usize, col: usize)
    requires
        (if line > 0 {
            line - 1
        } else {
            0
        }) < text_lines(buffer@).len(),
    ensures
        *final(caret) == at_hit(
            *old(caret),
            buffer@,
            if line > 0 {
                line - 1
            } else {
                0
            },
            col as int,
        ),
{
    let l: usize = if line > 0 {
        line - 1
    } else {
        0
    };
    let base = buffer.line_to_char(l);
    let shown = buffer.visual_line_len_chars(l);
    let to: usize = if col < shown {
        col
    } else {
        shown
    };
    let total = buffer.len_chars();
    caret.settle(buffer, base + to);
    caret.first_line = if l < 4 {
        0
    } else {
        l - 4
    };
}

/// What a chord of control and a character asks for.
#[derive(Clone, Copy, Debug, PartialEq, Eq, Structural)]
pub enum Chord {
    Palette,
    Search,
    Settings,
    Terminal,
    GotoLine,
    Sidebar,
    CloseTab,
    Quit,
    Agents,
    SelectAll,
    Copy,
    Cut,
    Paste,
    Undo,
    Redo,
    Save,
    Nothing,
}

/// What control and a character, in lower case, ask for.
pub open spec fn chord_of(c: Seq<char>, shift: bool) -> Chord {
    if c == "p"@ && shift {
        Chord::Palette
    } else if c == "f"@ && shift {
        Chord::Search
    } else if c == ","@ {
        Chord::Settings
    } else if c == "`"@ || c == "j"@ {
        Chord::Terminal
    } else if c == "g"@ {
        Chord::GotoLine
    } else if c == "b"@ {
        Chord::Sidebar
    } else if c == "w"@ {
        Chord::CloseTab
    } else if c == "q"@ {
        Chord::Quit
    } else if c == "a"@ {
        if shift {
            Chord::Agents
        } else {
            Chord::SelectAll
        }
    } else if c == "c"@ {
        Chord::Copy
    } else if c == "x"@ {
        Chord::Cut
    } else if c == "v"@ {
        Chord::Paste
    } else if c == "z"@ {
        if shift {
            Chord::Redo
        } else {
            Chord::Undo
        }
    } else if c == "y"@ {
        Chord::Redo
    } else if c == "s"@ {
        Chord::Save
    } else {
        Chord::Nothing
    }
}

/// What control and a character, in lower case, ask for.
pub fn chord_named(c: &str, shift: bool) -> (r: Chord)
    ensures
        r == chord_of(c@, shift),
{
    if same(c, "p") && shift {
        Chord::Palette
    } else if same(c, "f") && shift {
        Chord::Search
    } else if same(c, ",") {
        Chord::Settings
    } else if same(c, "`") || same(c, "j") {
        Chord::Terminal
    } else if same(c, "g") {
        Chord::GotoLine
    } else if same(c, "b") {
        Chord::Sidebar
    } else if same(c, "w") {
        Chord::CloseTab
    } else if same(c, "q") {
        Chord::Quit
    } else if same(c, "a") {
        if shift {
            Chord::Agents
        } else {
            Chord::SelectAll
        }
    } else if same(c, "c") {
        Chord::Copy
    } else if same(c, "x") {
        Chord::Cut
    } else if same(c, "v") {
        Chord::Paste
    } else if same(c, "z") {
        if shift {
            Chord::Redo
        } else {
            Chord::Undo
        }
    } else if same(c, "y") {
        Chord::Redo
    } else if same(c, "s") {
        Chord::Save
    } else {
        Chord::Nothing
    }
}

/// What control and a character ask for, whatever its case.
pub fn chord(c: &str, shift: bool) -> (r: Chord)
    ensures
        r == chord_of(text_lower(c@), shift),
{
    chord_named(&lower_text(c), shift)
}

/// Typing replaces what is selected and nothing else: what stood before it and behind it stays,
/// the caret ends up behind what was typed, and nothing is selected.
pub proof fn typing_keeps_the_rest(e: Editing, with: Seq<char>)
    requires
        e.caret.fits(e.text.len()),
        e.text.len() + with.len() <= usize::MAX,
    ensures
        ({
            let (from, to) = match e.caret.selection() {
                Some((a, b)) => (a as int, b as int),
                None => (e.caret.cursor as int, e.caret.cursor as int),
            };
            let after = typed(e, with);
            &&& after.text.take(from) == e.text.take(from)
            &&& after.text.subrange(from, from + with.len()) == with
            &&& after.text.skip(from + with.len()) == e.text.skip(to)
            &&& after.caret.cursor == from + with.len()
            &&& after.caret.selection() is None
        }),
{
    let (from, to) = match e.caret.selection() {
        Some((a, b)) => (a as int, b as int),
        None => (e.caret.cursor as int, e.caret.cursor as int),
    };
    let after = typed(e, with);
    assert(after.text.take(from) =~= e.text.take(from));
    assert(after.text.subrange(from, from + with.len()) =~= with);
    assert(after.text.skip(from + with.len()) =~= e.text.skip(to));
}

/// Backspace takes back a character that was typed where nothing was selected: the text is what it
/// was, and the caret is where it was.
pub proof fn backspace_undoes_typing(e: Editing, c: char, ctrl: bool, shift: bool, page: int)
    requires
        e.caret.fits(e.text.len()),
        e.caret.selection() is None,
        e.text.len() < usize::MAX,
    ensures
        ({
            let back = key_pressed(typed(e, seq![c]), EditKey::Backspace, ctrl, shift, page).0;
            back.text == e.text && back.caret.cursor == e.caret.cursor
        }),
{
    let at = e.caret.cursor as int;
    let mid = typed(e, seq![c]);
    assert(mid.caret.selection() is None);
    let back = key_pressed(mid, EditKey::Backspace, ctrl, shift, page).0;
    assert(back.text =~= e.text);
}

/// What is cut and pasted at once is where it was.
pub proof fn pasting_undoes_cutting(e: Editing)
    requires
        e.caret.fits(e.text.len()),
        e.text.len() <= usize::MAX,
    ensures
        e.caret.selection() matches Some((from, to)) ==> typed(
            typed(e, Seq::empty()),
            e.text.subrange(from as int, to as int),
        ).text == e.text,
{
    if let Some((from, to)) = e.caret.selection() {
        let cut = typed(e, Seq::empty());
        assert(cut.caret.selection() is None);
        let again = typed(cut, e.text.subrange(from as int, to as int));
        assert(again.text =~= e.text);
    }
}

// --- what keys do ---

/// With a selection, the backspace key and the delete key alike take it out and nothing else, put the
/// caret where it began and leave nothing selected.
pub proof fn deleting_takes_the_selection(e: Editing, ctrl: bool, shift: bool, page: int, from: usize, to: usize)
    requires
        e.caret.fits(e.text.len()),
        e.caret.selection() == Some((from, to)),
    ensures
        from < to <= e.text.len(),
        ({
            let after = key_pressed(e, EditKey::Backspace, ctrl, shift, page);
            &&& after.1
            &&& after.0.text == e.text.take(from as int) + e.text.skip(to as int)
            &&& after.0.caret.cursor == from
            &&& after.0.caret.selection() is None
        }),
        ({
            let after = key_pressed(e, EditKey::Delete, ctrl, shift, page);
            &&& after.1
            &&& after.0.text == e.text.take(from as int) + e.text.skip(to as int)
            &&& after.0.caret.cursor == from
            &&& after.0.caret.selection() is None
        }),
{
    let gone = e.text.take(from as int) + e.text.skip(to as int);
    assert(e.text.take(from as int) + Seq::<char>::empty() + e.text.skip(to as int) =~= gone);
}

/// Without a selection the backspace key takes the character before the caret, which goes back by one,
/// and the delete key the one behind the caret, which stays; where there is none, nothing happens.
pub proof fn deleting_takes_one_character(e: Editing, ctrl: bool, shift: bool, page: int)
    requires
        e.caret.fits(e.text.len()),
        e.caret.selection() is None,
    ensures
        ({
            let (after, changed) = key_pressed(e, EditKey::Backspace, ctrl, shift, page);
            let c = e.caret.cursor as int;
            &&& changed == (c > 0)
            &&& c > 0 ==> after.text == e.text.remove(c - 1) && after.caret.cursor == c - 1
            &&& c == 0 ==> after == e
        }),
        ({
            let (after, changed) = key_pressed(e, EditKey::Delete, ctrl, shift, page);
            let c = e.caret.cursor as int;
            &&& changed == (c < e.text.len())
            &&& c < e.text.len() ==> after.text == e.text.remove(c) && after.caret.cursor == c
            &&& c == e.text.len() ==> after == e
        }),
{
    let c = e.caret.cursor as int;
    if c > 0 {
        assert(e.text.take(c - 1) + e.text.skip(c) =~= e.text.remove(c - 1));
    }
    if c < e.text.len() {
        assert(e.text.take(c) + e.text.skip(c + 1) =~= e.text.remove(c));
    }
}

/// The enter key and the tab key put a line feed and a tab in, as typing does: in the place of what is
/// selected, or at the caret, which ends up behind it.
pub proof fn enter_and_tab_type(e: Editing, ctrl: bool, shift: bool, page: int)
    requires
        e.caret.fits(e.text.len()),
        e.text.len() < usize::MAX,
    ensures
        ({
            let (from, to) = match e.caret.selection() {
                Some((a, b)) => (a as int, b as int),
                None => (e.caret.cursor as int, e.caret.cursor as int),
            };
            let (enter, tab) = (
                key_pressed(e, EditKey::Enter, ctrl, shift, page),
                key_pressed(e, EditKey::Tab, ctrl, shift, page),
            );
            &&& enter.1 && tab.1
            &&& enter.0.text == e.text.take(from).push('\n') + e.text.skip(to)
            &&& tab.0.text == e.text.take(from).push('\t') + e.text.skip(to)
            &&& enter.0.caret.cursor == from + 1
            &&& tab.0.caret.cursor == from + 1
        }),
{
    let (from, to) = match e.caret.selection() {
        Some((a, b)) => (a as int, b as int),
        None => (e.caret.cursor as int, e.caret.cursor as int),
    };
    let t = e.text;
    assert(t.take(from) + seq!['\n'] + t.skip(to) =~= t.take(from).push('\n') + t.skip(to));
    assert(t.take(from) + seq!['\t'] + t.skip(to) =~= t.take(from).push('\t') + t.skip(to));
}

/// Whether a key moves the caret and does nothing else.
pub open spec fn only_moves(key: EditKey) -> bool {
    key is Left || key is Right || key is Up || key is Down || key is Home || key is End || key is PageUp
        || key is PageDown
}

/// A key that moves keeps the text. With shift held, what is selected then reaches from where the
/// selection began, or from where the caret was, to where the caret is; without it nothing is selected.
pub proof fn moving_selects(e: Editing, key: EditKey, ctrl: bool, shift: bool, page: int)
    requires
        only_moves(key),
    ensures
        ({
            let (after, changed) = key_pressed(e, key, ctrl, shift, page);
            let start = match e.caret.anchor {
                Some(a) => a,
                None => e.caret.cursor,
            };
            let now = after.caret.cursor;
            &&& changed
            &&& after.text == e.text
            &&& !shift ==> after.caret.selection() is None
            &&& shift ==> after.caret.anchor == Some(start)
            &&& shift && start < now ==> after.caret.selection() == Some((start, now))
            &&& shift && now < start ==> after.caret.selection() == Some((now, start))
            &&& shift && now == start ==> after.caret.selection() is None
            &&& after.caret.first_line == e.caret.first_line
        }),
{
}

/// The arrow keys to the sides move by one character as far as there is one, so that one undoes the other.
pub proof fn arrows_move_by_one(e: Editing, ctrl: bool, shift: bool, page: int)
    requires
        e.caret.cursor <= e.text.len(),
        e.text.len() <= usize::MAX,
    ensures
        ({
            let left = key_pressed(e, EditKey::Left, ctrl, shift, page).0;
            let right = key_pressed(e, EditKey::Right, ctrl, shift, page).0;
            let c = e.caret.cursor;
            &&& left.caret.cursor <= c <= right.caret.cursor <= e.text.len()
            &&& c > 0 ==> left.caret.cursor + 1 == c
            &&& c < e.text.len() ==> right.caret.cursor == c + 1
            &&& c > 0 ==> key_pressed(left, EditKey::Right, ctrl, shift, page).0.caret.cursor == c
            &&& c < e.text.len() ==> key_pressed(right, EditKey::Left, ctrl, shift, page).0.caret.cursor == c
            &&& left.caret.goal_col == column(e.text, left.caret.cursor as int)
            &&& right.caret.goal_col == column(e.text, right.caret.cursor as int)
        }),
{
    lemma_sideways(e, ctrl, shift, page);
    lemma_sideways(key_pressed(e, EditKey::Left, ctrl, shift, page).0, ctrl, shift, page);
    lemma_sideways(key_pressed(e, EditKey::Right, ctrl, shift, page).0, ctrl, shift, page);
}

proof fn lemma_sideways(e: Editing, ctrl: bool, shift: bool, page: int)
    requires
        e.caret.cursor <= e.text.len(),
        e.text.len() <= usize::MAX,
    ensures
        ({
            let left = key_pressed(e, EditKey::Left, ctrl, shift, page).0;
            let right = key_pressed(e, EditKey::Right, ctrl, shift, page).0;
            let c = e.caret.cursor;
            &&& left.text == e.text && right.text == e.text
            &&& left.caret.cursor == (if c > 0 {
                c - 1
            } else {
                0
            })
            &&& right.caret.cursor == (if c < e.text.len() {
                c + 1
            } else {
                c as int
            })
            &&& left.caret.goal_col == column(e.text, left.caret.cursor as int)
            &&& right.caret.goal_col == column(e.text, right.caret.cursor as int)
        }),
{
    let c = e.caret.cursor as int;
    lemma_line_at_text(e.text, c);
    if c > 0 {
        lemma_line_at_text(e.text, c - 1);
    }
    if c < e.text.len() {
        lemma_line_at_text(e.text, c + 1);
    }
}

/// The keys to a line's ends stay on the line: one goes to its first column, the other behind the last
/// character that is shown of it. With control held they go to the ends of the text.
pub proof fn line_ends_are_reached(e: Editing, shift: bool, page: int)
    requires
        e.caret.cursor <= e.text.len(),
        e.text.len() <= usize::MAX,
    ensures
        ({
            let ls = text_lines(e.text);
            let line = line_at(ls, e.caret.cursor as int);
            let home = key_pressed(e, EditKey::Home, false, shift, page).0.caret.cursor;
            let end = key_pressed(e, EditKey::End, false, shift, page).0.caret.cursor;
            &&& line_at(ls, home as int) == line
            &&& column(e.text, home as int) == 0
            &&& line_at(ls, end as int) == line
            &&& column(e.text, end as int) == visual_len(ls[line])
            &&& home <= end <= e.text.len()
            &&& forall|i: int| home <= i < end ==> !ends_line(#[trigger] e.text[i])
            &&& end < e.text.len() ==> ends_line(e.text[end as int])
        }),
        key_pressed(e, EditKey::Home, true, shift, page).0.caret.cursor == 0,
        key_pressed(e, EditKey::End, true, shift, page).0.caret.cursor == e.text.len(),
{
    let c = e.caret.cursor as int;
    let line = line_at(text_lines(e.text), c);
    lemma_line_ends(e.text, c);
    let home = line_start(text_lines(e.text), line);
    assert(key_pressed(e, EditKey::Home, false, shift, page).0.caret.cursor == home);
    assert(key_pressed(e, EditKey::End, false, shift, page).0.caret.cursor == home + visual_len(
        text_lines(e.text)[line],
    ));
}

/// Where the line of a place begins and where what is shown of it ends.
proof fn lemma_line_ends(text: Seq<char>, c: int)
    requires
        0 <= c <= text.len(),
    ensures
        ({
            let ls = text_lines(text);
            let line = line_at(ls, c);
            let home = line_start(ls, line) as int;
            let end = home + visual_len(ls[line]);
            &&& line_at(ls, home) == line
            &&& line_at(ls, end) == line
            &&& end <= text.len()
            &&& forall|i: int| home <= i < end ==> !ends_line(#[trigger] text[i])
            &&& end < text.len() ==> ends_line(text[end])
        }),
{
    let ls = text_lines(text);
    lemma_line_at_text(text, c);
    let line = line_at(ls, c);
    let shown = visual_len(ls[line]) as int;
    lines_end_at_breaks(text, line);
    places_are_on_their_lines(text, line, 0);
    places_are_on_their_lines(text, line, shown);
    lemma_line_slice(text, line);
    let home = line_start(ls, line) as int;
    let end = home + shown;
    assert forall|i: int| home <= i < end implies !ends_line(#[trigger] text[i]) by {
        assert(text[i] == ls[line][i - home]);
    }
    if end < text.len() {
        if line < ls.len() - 1 {
            lemma_visual_break(ls[line]);
            assert(text[end] == ls[line][shown]);
        } else {
            lemma_line_start_text(text, line + 1);
        }
    }
}

/// What is not shown of a line begins with what ends it.
proof fn lemma_visual_break(line: Seq<char>)
    requires
        visual_len(line) < line.len(),
    ensures
        ends_line(line[visual_len(line) as int]),
{
}

/// The keys up and down go to the line so many lines off, as far as there is one, and there to the column
/// that the caret keeps to, or to the end of a shorter line. The column that it keeps to stays.
pub proof fn lines_are_reached(e: Editing, ctrl: bool, shift: bool, page: int)
    requires
        e.caret.cursor <= e.text.len(),
        e.text.len() <= usize::MAX,
        0 <= page,
    ensures
        ({
            let ls = text_lines(e.text);
            let line = line_at(ls, e.caret.cursor as int);
            let up = key_pressed(e, EditKey::Up, ctrl, shift, page).0.caret;
            let down = key_pressed(e, EditKey::Down, ctrl, shift, page).0.caret;
            let page_up = key_pressed(e, EditKey::PageUp, ctrl, shift, page).0.caret;
            let page_down = key_pressed(e, EditKey::PageDown, ctrl, shift, page).0.caret;
            &&& is_on(e, up, if line >= 1 {
                line - 1
            } else {
                0
            })
            &&& is_on(e, down, if line + 1 < ls.len() {
                line + 1
            } else {
                line
            })
            &&& is_on(e, page_up, if line >= page {
                line - page
            } else {
                0
            })
            &&& is_on(e, page_down, if line + page < ls.len() {
                line + page
            } else {
                ls.len() - 1
            })
        }),
{
    let ls = text_lines(e.text);
    lemma_line_at_text(e.text, e.caret.cursor as int);
    let line = line_at(ls, e.caret.cursor as int);
    lemma_lines_away(e, begun(e.caret, shift), true, 1);
    lemma_lines_away(e, begun(e.caret, shift), false, 1);
    lemma_lines_away(e, begun(e.caret, shift), true, page);
    lemma_lines_away(e, begun(e.caret, shift), false, page);
}

/// A caret is on a line of a text, in the column that the caret kept to or at the line's end.
pub open spec fn is_on(e: Editing, c: Caret, line: int) -> bool {
    let ls = text_lines(e.text);
    &&& line_at(ls, c.cursor as int) == line
    &&& c.goal_col == e.caret.goal_col
    &&& e.caret.goal_col <= visual_len(ls[line]) ==> column(e.text, c.cursor as int) == e.caret.goal_col
    &&& e.caret.goal_col > visual_len(ls[line]) ==> column(e.text, c.cursor as int) == visual_len(ls[line])
}

proof fn lemma_lines_away(e: Editing, c: Caret, up: bool, n: int)
    requires
        c.cursor <= e.text.len(),
        e.text.len() <= usize::MAX,
        c.goal_col == e.caret.goal_col,
        0 <= n,
    ensures
        is_on(
            e,
            lines_away(c, e.text, up, n),
            line_off(line_at(text_lines(e.text), c.cursor as int), up, n, text_lines(e.text).len() - 1),
        ),
{
    let ls = text_lines(e.text);
    lemma_line_at_text(e.text, c.cursor as int);
    let target = line_off(line_at(ls, c.cursor as int), up, n, ls.len() - 1);
    let shown = visual_len(ls[target]) as int;
    let col = if c.goal_col <= shown {
        c.goal_col as int
    } else {
        shown
    };
    places_are_on_their_lines(e.text, target, col);
}

/// Selecting everything selects the text from its start to its end.
pub proof fn everything_is_selected(e: Editing)
    requires
        0 < e.text.len() <= usize::MAX,
    ensures
        all_selected(e).caret.selection() == Some((0usize, e.text.len() as usize)),
        all_selected(e).text == e.text,
{
}

/// A hit of a search is reached: the caret is on its line, in its column or at the end of a shorter line,
/// and the line is in view, at most four lines below the first.
pub proof fn hits_are_reached(c: Caret, text: Seq<char>, line: int, col: int)
    requires
        0 <= line < text_lines(text).len(),
        0 <= col,
        text.len() <= usize::MAX,
        text_lines(text).len() <= usize::MAX,
    ensures
        ({
            let after = at_hit(c, text, line, col);
            let shown = visual_len(text_lines(text)[line]);
            &&& line_at(text_lines(text), after.cursor as int) == line
            &&& col <= shown ==> column(text, after.cursor as int) == col
            &&& col > shown ==> column(text, after.cursor as int) == shown
            &&& after.selection() is None
            &&& after.first_line <= line <= after.first_line + 4
        }),
{
    let shown = visual_len(text_lines(text)[line]) as int;
    places_are_on_their_lines(text, line, if col <= shown {
        col
    } else {
        shown
    });
}

/// The number of a line leads to that line, and a number that there is no line for to the nearest one.
pub proof fn numbers_lead_to_lines(n: int, lines: int)
    requires
        1 <= lines,
    ensures
        1 <= n <= lines ==> numbered_line(n, lines) == n - 1,
        n > lines ==> numbered_line(n, lines) == lines - 1,
        n < 1 ==> numbered_line(n, lines) == 0,
{
}

/// The number of a line, typed, puts the caret at the start of that line, with nothing selected.
pub proof fn typed_numbers_lead_to_lines(c: Caret, text: Seq<char>, n: nat)
    requires
        1 <= n <= text_lines(text).len(),
        text_lines(text).len() <= usize::MAX,
        text.len() <= usize::MAX,
    ensures
        ({
            let after = gone_to(c, text, decimal(n));
            &&& line_at(text_lines(text), after.cursor as int) == n - 1
            &&& column(text, after.cursor as int) == 0
            &&& after.selection() is None
        }),
{
    let d = decimal(n);
    lemma_decimal_digits(n);
    decimal_reads_back(n);
    assert('0' <= d[0] <= '9' && '0' <= d[d.len() - 1] <= '9');
    assert(d.last() == d[d.len() - 1]);
    assert(trimmed_start(d) == d);
    assert(trimmed(d) == d);
    places_are_on_their_lines(text, n - 1, 0);
}

/// The text of a key goes in where nothing else is done, without what cannot be printed; with control
/// held none of it does.
pub proof fn control_keeps_the_text_out(
    e: Editing,
    key: EditKey,
    c: String,
    shift: bool,
    text: Option<Seq<char>>,
    t: Seq<char>,
    page: int,
)
    requires
        t.len() > 0,
        forall|i: int| 0 <= i < t.len() ==> !is_control_char(#[trigger] t[i]),
    ensures
        after_key(e, key, true, shift, text, page) == key_pressed(e, key, true, shift, page),
        after_key(e, key, false, shift, None, page) == key_pressed(e, key, false, shift, page),
        after_key(e, EditKey::Character(c), false, shift, Some(t), page) == (typed(e, t), true),
        printable(t) == t,
{
    lemma_printable(t);
}

proof fn lemma_printable(t: Seq<char>)
    requires
        forall|i: int| 0 <= i < t.len() ==> !is_control_char(#[trigger] t[i]),
    ensures
        printable(t) == t,
    decreases t.len(),
{
    if t.len() > 0 {
        let u = t.drop_last();
        assert forall|i: int| 0 <= i < u.len() implies !is_control_char(#[trigger] u[i]) by {
            assert(u[i] == t[i]);
        }
        lemma_printable(u);
        assert(!is_control_char(t[t.len() - 1]));
        assert(u.push(t.last()) =~= t);
    }
}

} // verus!
