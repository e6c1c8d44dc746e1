//! What a text was: the groups of edits that can be undone and redone, and whether anything changed
//! since the text was saved.
//!
//! A group is one edit, or a run of typed characters that no move of the caret and no other edit
//! breaks.

use vstd::prelude::*;
use crate::buffer::{rope_chars, TextBuffer};
use crate::caret::{after_key, delete_selection, editing, keep_printable, key_pressed, placed, printable, replace_selection_with, stays_in_text, try_edit_key, typed, Caret, EditKey, Editing};
use crate::text::chars;

verus! {

/// `Rope::clone` shares the text, which neither of the two changes in the other.
pub assume_specification[ <ropey::Rope as Clone>::clone ](rope: &ropey::Rope) -> (r: ropey::Rope)
    ensures
        rope_chars(r) == rope_chars(*rope),
;

/// A text and where the caret was in it.
pub struct Moment {
    rope: ropey::Rope,
    cursor: usize,
}

/// What a [`Moment`] stands for.
pub struct Past {
    pub text: Seq<char>,
    pub cursor: usize,
}

impl View for Moment {
    type V = Past;

    closed spec fn view(&self) -> Past {
        Past { text: rope_chars(self.rope), cursor: self.cursor }
    }
}

impl Moment {
    /// What the text is now.
    pub fn of(buffer: &TextBuffer, caret: &Caret) -> (r: Moment)
        ensures
            r@ == past_of(editing(*buffer, *caret)),
    {
        Moment { rope: buffer.rope().clone(), cursor: caret.cursor }
    }
}

/// What there is to go back to later.
pub open spec fn past_of(e: Editing) -> Past {
    Past { text: e.text, cursor: e.caret.cursor }
}

/// The groups that can be undone and redone, last first to go, whether anything changed since the
/// text was saved, and whether the next typed character joins the last group.
pub struct History {
    undo: Vec<Moment>,
    redo: Vec<Moment>,
    dirty: bool,
    typing: bool,
}

/// What a [`History`] holds: the text before each group that can be undone, the text after each that
/// can be redone.
pub struct Story {
    pub undo: Seq<Past>,
    pub redo: Seq<Past>,
    pub dirty: bool,
    pub typing: bool,
}

/// What a list of moments stands for.
pub open spec fn pasts(v: Seq<Moment>) -> Seq<Past> {
    Seq::new(v.len(), |i: int| v[i]@)
}

impl View for History {
    type V = Story;

    closed spec fn view(&self) -> Story {
        Story { undo: pasts(self.undo@), redo: pasts(self.redo@), dirty: self.dirty, typing: self.typing }
    }
}

/// Each caret was in its text.
pub open spec fn carets_fit(ps: Seq<Past>) -> bool {
    forall|i: int| 0 <= i < ps.len() ==> (#[trigger] ps[i]).cursor <= ps[i].text.len()
}

/// Each caret was in its text.
pub open spec fn sound(s: Story) -> bool {
    carets_fit(s.undo) && carets_fit(s.redo)
}

/// The history after an edit of what was `before`: nothing can be redone, and the edit is a group of
/// its own, unless it goes on with a run of typed characters.
pub open spec fn recorded(s: Story, before: Past, joins: bool) -> Story {
    Story {
        undo: if joins && s.typing {
            s.undo
        } else {
            s.undo.push(before)
        },
        redo: Seq::empty(),
        dirty: true,
        typing: joins,
    }
}

/// The history after a move of the caret: what is typed next is a group of its own.
pub open spec fn paused(s: Story) -> Story {
    Story { typing: false, ..s }
}

/// The history after the last group is undone, the text being `now`, and what the text is then.
pub open spec fn undone(s: Story, now: Past) -> Option<(Story, Past)> {
    if s.undo.len() == 0 {
        None
    } else {
        Some(
            (
                Story {
                    undo: s.undo.drop_last(),
                    redo: s.redo.push(now),
                    dirty: true,
                    typing: false,
                },
                s.undo.last(),
            ),
        )
    }
}

/// The history after the group undone last is redone, the text being `now`, and what the text is
/// then.
pub open spec fn redone(s: Story, now: Past) -> Option<(Story, Past)> {
    if s.redo.len() == 0 {
        None
    } else {
        Some(
            (
                Story {
                    undo: s.undo.push(now),
                    redo: s.redo.drop_last(),
                    dirty: true,
                    typing: false,
                },
                s.redo.last(),
            ),
        )
    }
}

/// The text and the caret as they were, nothing selected.
pub open spec fn back_at(c: Caret, p: Past) -> Editing {
    Editing { text: p.text, caret: Caret { anchor: None, ..placed(c, p.text, p.cursor as int) } }
}

/// Whether a key moves the caret by itself.
pub open spec fn moves(key: EditKey) -> bool {
    key is Left || key is Right || key is Up || key is Down || key is Home || key is End || key is PageUp
        || key is PageDown
}

/// Whether a key and its text change the text.
pub open spec fn writes(e: Editing, key: EditKey, ctrl: bool, text: Option<Seq<char>>) -> bool {
    ||| match key {
        EditKey::Backspace => e.caret.selection() is Some || e.caret.cursor > 0,
        EditKey::Delete => e.caret.selection() is Some || e.caret.cursor < e.text.len(),
        EditKey::Enter => true,
        EditKey::Tab => true,
        _ => false,
    }
    ||| !ctrl && text is Some && printable(text->0).len() > 0
}

/// Whether what a key puts in belongs to a run of typed characters: it replaces no selection, and
/// the key neither deletes nor moves.
pub open spec fn joins(e: Editing, key: EditKey) -> bool {
    e.caret.selection() is None && !(key is Backspace) && !(key is Delete) && !moves(key)
}

/// The history after a key in the editor.
pub open spec fn after_press(s: Story, e: Editing, key: EditKey, ctrl: bool, text: Option<Seq<char>>) -> Story {
    let t = if moves(key) {
        paused(s)
    } else {
        s
    };
    if writes(e, key, ctrl, text) {
        recorded(t, past_of(e), joins(e, key))
    } else {
        t
    }
}

impl History {
    /// Nothing was changed.
    pub fn new() -> (r: History)
        ensures
            r@ == (Story { undo: Seq::empty(), redo: Seq::empty(), dirty: false, typing: false }),
            sound(r@),
    {
        let r = History { undo: Vec::new(), redo: Vec::new(), dirty: false, typing: false };
        assert(r@.undo =~= Seq::<Past>::empty());
        assert(r@.redo =~= Seq::<Past>::empty());
        r
    }

    /// Whether anything changed since the text was saved.
    pub fn is_dirty(&self) -> (r: bool)
        ensures
            r == self@.dirty,
    {
        self.dirty
    }

    /// The text was saved.
    pub fn mark_saved(&mut self)
        ensures
            final(self)@ == (Story { dirty: false, ..old(self)@ }),
    {
        self.dirty = false;
    }

    /// The caret was moved: what is typed next is a group of its own.
    pub fn break_coalescing(&mut self)
        ensures
            final(self)@ == paused(old(self)@),
    {
        self.typing = false;
    }

    /// Takes in an edit of what was `before`.
    pub fn record(&mut self, before: Moment, joins: bool)
        requires
            sound(old(self)@),
            before@.cursor <= before@.text.len(),
        ensures
            final(self)@ == recorded(old(self)@, before@, joins),
            sound(final(self)@),
    {
        let ghost was = self@;
        let ghost p = before@;
        if !(joins && self.typing) {
            self.undo.push(before);
            assert(pasts(self.undo@) =~= was.undo.push(p));
        }
        self.redo = Vec::new();
        assert(pasts(self.redo@) =~= Seq::<Past>::empty());
        self.dirty = true;
        self.typing = joins;
    }

    /// Undoes the last group; whether there was one. The caret goes where it was before the group,
    /// and nothing is selected.
    pub fn undo(&mut self, buffer: &mut TextBuffer, caret: &mut Caret) -> (r: bool)
        requires
            sound(old(self)@),
            old(caret).cursor <= old(buffer)@.len(),
        ensures
            sound(final(self)@),
            final(buffer).file() == old(buffer).file(),
            match undone(old(self)@, past_of(editing(*old(buffer), *old(caret)))) {
                Some((s, p)) => {
                    &&& r
                    &&& final(self)@ == s
                    &&& editing(*final(buffer), *final(caret)) == back_at(*old(caret), p)
                },
                None => {
                    &&& !r
                    &&& *final(self) == *old(self)
                    &&& *final(buffer) == *old(buffer)
                    &&& *final(caret) == *old(caret)
                },
            },
    {
        if self.undo.len() == 0 {
            return false;
        }
        let ghost was = self@;
        let now = Moment::of(buffer, caret);
        let ghost n = now@;
        match self.undo.pop() {
            Some(m) => {
                let ghost p = m@;
                assert(p == was.undo.last());
                assert(pasts(self.undo@) =~= was.undo.drop_last());
                self.redo.push(now);
                assert(pasts(self.redo@) =~= was.redo.push(n));
                self.dirty = true;
                self.typing = false;
                buffer.set_rope(m.rope);
                caret.settle(buffer, m.cursor);
                true
            },
            None => false,
        }
    }

    /// Redoes the group undone last; whether there was one. The caret goes where it was when the
    /// group was undone, and nothing is selected.
    pub fn redo(&mut self, buffer: &mut TextBuffer, caret: &mut Caret) -> (r: bool)
        requires
            sound(old(self)@),
            old(caret).cursor <= old(buffer)@.len(),
        ensures
            sound(final(self)@),
            final(buffer).file() == old(buffer).file(),
            match redone(old(self)@, past_of(editing(*old(buffer), *old(caret)))) {
                Some((s, p)) => {
                    &&& r
                    &&& final(self)@ == s
                    &&& editing(*final(buffer), *final(caret)) == back_at(*old(caret), p)
                },
                None => {
                    &&& !r
                    &&& *final(self) == *old(self)
                    &&& *final(buffer) == *old(buffer)
                    &&& *final(caret) == *old(caret)
                },
            },
    {
        if self.redo.len() == 0 {
            return false;
        }
        let ghost was = self@;
        let now = Moment::of(buffer, caret);
        let ghost n = now@;
        match self.redo.pop() {
            Some(m) => {
                let ghost p = m@;
                assert(p == was.redo.last());
                assert(pasts(self.redo@) =~= was.redo.drop_last());
                self.undo.push(now);
                assert(pasts(self.undo@) =~= was.undo.push(n));
                self.dirty = true;
                self.typing = false;
                buffer.set_rope(m.rope);
                caret.settle(buffer, m.cursor);
                true
            },
            None => false,
        }
    }

    /// Replaces the selection with `text`, or puts it in at the caret: one group.
    pub fn replace(&mut self, buffer: &mut TextBuffer, caret: &mut Caret, text: &str)
        requires
            sound(old(self)@),
            old(caret).fits(old(buffer)@.len()),
        ensures
            sound(final(self)@),
            final(self)@ == recorded(old(self)@, past_of(editing(*old(buffer), *old(caret))), false),
            editing(*final(buffer), *final(caret)) == typed(editing(*old(buffer), *old(caret)), text@),
            final(buffer).file() == old(buffer).file(),
            final(caret).fits(final(buffer)@.len()),
    {
        let before = Moment::of(buffer, caret);
        self.record(before, false);
        replace_selection_with(buffer, caret, text);
    }

    /// Deletes the selection as one group; whether there is one.
    pub fn delete(&mut self, buffer: &mut TextBuffer, caret: &mut Caret) -> (r: bool)
        requires
            sound(old(self)@),
            old(caret).fits(old(buffer)@.len()),
        ensures
            sound(final(self)@),
            r == (old(caret).selection() is Some),
            final(self)@ == if r {
                recorded(old(self)@, past_of(editing(*old(buffer), *old(caret))), false)
            } else {
                old(self)@
            },
            editing(*final(buffer), *final(caret)) == if r {
                typed(editing(*old(buffer), *old(caret)), Seq::empty())
            } else {
                editing(*old(buffer), *old(caret))
            },
            final(buffer).file() == old(buffer).file(),
            final(caret).fits(final(buffer)@.len()),
    {
        let before = Moment::of(buffer, caret);
        let deleted = delete_selection(buffer, caret);
        if deleted {
            self.record(before, false);
        }
        deleted
    }

    /// What a key does in the editor, and whether it counts as a change; `page` is how many lines
    /// fit. `None` where the selection is no longer in the text where the text of the key goes in:
    /// that is left out then.
    pub fn press(
        &mut self,
        buffer: &mut TextBuffer,
        caret: &mut Caret,
        key: &EditKey,
        ctrl: bool,
        shift: bool,
        text: Option<&str>,
        page: usize,
    ) -> (r: Option<bool>)
        requires
            sound(old(self)@),
            old(caret).fits(old(buffer)@.len()),
        ensures
            sound(final(self)@),
            final(self)@ == after_press(
                old(self)@,
                editing(*old(buffer), *old(caret)),
                *key,
                ctrl,
                chars(text),
            ),
            r is Some == stays_in_text(
                editing(*old(buffer), *old(caret)),
                *key,
                ctrl,
                shift,
                chars(text),
                page as int,
            ),
            match r {
                Some(changed) => (editing(*final(buffer), *final(caret)), changed) == after_key(
                    editing(*old(buffer), *old(caret)),
                    *key,
                    ctrl,
                    shift,
                    chars(text),
                    page as int,
                ),
                None => editing(*final(buffer), *final(caret)) == key_pressed(
                    editing(*old(buffer), *old(caret)),
                    *key,
                    ctrl,
                    shift,
                    page as int,
                ).0,
            },
            final(buffer).file() == old(buffer).file(),
            final(caret).cursor <= final(buffer)@.len(),
    {
        let selected = caret.selection_range().is_some();
        let by_key = match key {
            EditKey::Backspace => selected || caret.cursor > 0,
            EditKey::Delete => selected || caret.cursor < buffer.len_chars(),
            EditKey::Enter => true,
            EditKey::Tab => true,
            _ => false,
        };
        let by_text = match text {
            Some(t) => !ctrl && !keep_printable(t).as_str().is_empty(),
            None => false,
        };
        let moving = match key {
            EditKey::Left => true,
            EditKey::Right => true,
            EditKey::Up => true,
            EditKey::Down => true,
            EditKey::Home => true,
            EditKey::End => true,
            EditKey::PageUp => true,
            EditKey::PageDown => true,
            _ => false,
        };
        let deleting = match key {
            EditKey::Backspace => true,
            EditKey::Delete => true,
            _ => false,
        };
        if moving {
            self.break_coalescing();
        }
        if by_key || by_text {
            let before = Moment::of(buffer, caret);
            self.record(before, !selected && !deleting && !moving);
        }
        try_edit_key(buffer, caret, key, ctrl, shift, text, page)
    }
}

// --- laws ---

/// Redoing gives back what undoing took: the text, and the caret where it was.
pub proof fn redo_undoes_undo(s: Story, now: Past)
    requires
        s.undo.len() > 0,
    ensures
        ({
            let (after, then) = undone(s, now)->0;
            &&& redone(after, then) matches Some((again, back))
            &&& back == now
            &&& again.undo == s.undo
            &&& again.redo == s.redo
        }),
{
    let (after, then) = undone(s, now)->0;
    assert(after.redo.drop_last() =~= s.redo);
    assert(after.undo.push(then) =~= s.undo);
}

/// Undoing gives back what redoing took.
pub proof fn undo_undoes_redo(s: Story, now: Past)
    requires
        s.redo.len() > 0,
    ensures
        ({
            let (after, then) = redone(s, now)->0;
            &&& undone(after, then) matches Some((again, back))
            &&& back == now
            &&& again.undo == s.undo
            &&& again.redo == s.redo
        }),
{
    let (after, then) = redone(s, now)->0;
    assert(after.undo.drop_last() =~= s.undo);
    assert(after.redo.push(then) =~= s.redo);
}

/// An edit that is a group of its own is undone to what the text was before it.
pub proof fn undo_undoes_an_edit(s: Story, before: Past, now: Past, joining: bool)
    requires
        !joining || !s.typing,
    ensures
        undone(recorded(s, before, joining), now) matches Some((after, then)) && then == before && after.undo
            == s.undo,
{
    assert(s.undo.push(before).drop_last() =~= s.undo);
}

/// After an edit nothing can be redone.
pub proof fn edits_clear_redo(s: Story, before: Past, joining: bool, now: Past)
    ensures
        redone(recorded(s, before, joining), now) is None,
{
}

/// No change of the text goes unrecorded: a key that writes nothing leaves the text as it is.
pub proof fn unrecorded_keys_keep_the_text(
    e: Editing,
    key: EditKey,
    ctrl: bool,
    shift: bool,
    text: Option<Seq<char>>,
    page: int,
)
    requires
        !writes(e, key, ctrl, text),
    ensures
        after_key(e, key, ctrl, shift, text, page).0.text == e.text,
{
}

/// The history after some characters are typed one after the other, the text before each being given.
pub open spec fn after_typing(s: Story, befores: Seq<Past>) -> Story
    decreases befores.len(),
{
    if befores.len() == 0 {
        s
    } else {
        recorded(after_typing(s, befores.drop_last()), befores.last(), true)
    }
}

/// Characters that are typed after a move of the caret are one group until the next: undoing it goes
/// back to what the text was before the first of them.
pub proof fn typing_is_one_group(s: Story, befores: Seq<Past>, now: Past)
    requires
        befores.len() > 0,
    ensures
        after_typing(paused(s), befores).undo == s.undo.push(befores[0]),
        after_typing(paused(s), befores).typing,
        undone(paused(after_typing(paused(s), befores)), now) matches Some((after, then)) && then == befores[0]
            && after.undo == s.undo,
    decreases befores.len(),
{
    if befores.len() == 1 {
        assert(after_typing(paused(s), befores.drop_last()) == paused(s));
    } else {
        typing_is_one_group(s, befores.drop_last(), now);
    }
    assert(s.undo.push(befores[0]).drop_last() =~= s.undo);
}

/// Keys that only write characters of a run, with nothing selected, are recorded as typing.
pub proof fn typed_keys_join(s: Story, e: Editing, c: String, text: Option<Seq<char>>)
    requires
        e.caret.selection() is None,
        text is Some && printable(text->0).len() > 0,
    ensures
        after_press(s, e, EditKey::Character(c), false, text) == recorded(s, past_of(e), true),
{
}

/// A key that writes nothing leaves what can be undone and redone as it is; one that moves the caret
/// ends what is being typed.
pub proof fn keys_that_write_nothing_are_not_recorded(
    s: Story,
    e: Editing,
    key: EditKey,
    ctrl: bool,
    text: Option<Seq<char>>,
)
    requires
        !writes(e, key, ctrl, text),
    ensures
        after_press(s, e, key, ctrl, text).undo == s.undo,
        after_press(s, e, key, ctrl, text).redo == s.redo,
        after_press(s, e, key, ctrl, text).dirty == s.dirty,
        key is Left || key is Right || key is Up || key is Down || key is Home || key is End || key is PageUp
            || key is PageDown ==> !after_press(s, e, key, ctrl, text).typing,
{
}

/// Deleting is a step of its own, and so is writing over a selection: what was there before can be had
/// back by one undo, whatever was typed before it.
pub proof fn deletions_are_steps_of_their_own(
    s: Story,
    e: Editing,
    key: EditKey,
    ctrl: bool,
    text: Option<Seq<char>>,
    now: Past,
)
    requires
        writes(e, key, ctrl, text),
        key is Backspace || key is Delete || e.caret.selection() is Some,
    ensures
        after_press(s, e, key, ctrl, text).undo == s.undo.push(past_of(e)),
        after_press(s, e, key, ctrl, text).redo.len() == 0,
        after_press(s, e, key, ctrl, text).dirty,
        undone(after_press(s, e, key, ctrl, text), now) matches Some((after, then)) && then.text == e.text
            && then.cursor == e.caret.cursor && after.undo == s.undo,
{
    assert(s.undo.push(past_of(e)).drop_last() =~= s.undo);
}

/// What is undone or redone comes back with its text and its caret, and with nothing selected.
pub proof fn the_past_comes_back_whole(c: Caret, p: Past)
    requires
        p.cursor <= p.text.len(),
    ensures
        back_at(c, p).text == p.text,
        back_at(c, p).caret.cursor == p.cursor,
        back_at(c, p).caret.anchor is None,
        back_at(c, p).caret.first_line == c.first_line,
        past_of(back_at(c, p)) == p,
{
}

/// A key that deletes writes where there is something to delete: a selection, or a character on its side
/// of the caret. The keys that only move write nothing by themselves.
pub proof fn keys_write_where_they_can(e: Editing, key: EditKey, ctrl: bool)
    requires
        e.caret.cursor <= e.text.len(),
    ensures
        key is Backspace ==> (writes(e, key, ctrl, None) <==> e.caret.selection() is Some || e.caret.cursor > 0),
        key is Delete ==> (writes(e, key, ctrl, None) <==> e.caret.selection() is Some || e.caret.cursor
            < e.text.len()),
        key is Enter || key is Tab ==> writes(e, key, ctrl, None),
        key is Left || key is Right || key is Up || key is Down || key is Home || key is End || key is PageUp
            || key is PageDown || key is Escape ==> !writes(e, key, ctrl, None),
{
}

} // verus!
