//! The pointer: what a press, a move or the wheel does, and what it is over. Where the pointer is
//! among the things on the surface, in pixels, is for the caller to say. Times are in milliseconds.

use vstd::prelude::*;
use crate::buffer::{concat, lemma_line_at_text, lemma_line_slice, lemma_line_start_text, line_at, line_start, places_are_on_their_lines, text_lines, visual_len, TextBuffer};
use crate::caret::{placed, Caret};
use crate::frame::ScrollbarInfo;
use crate::overlay::Page;
use crate::text::{chars_of, is_white, lemma_first_at, lines, split_lines, string_of, views};
use crate::words::{is_span, span_is_unique, word_char, word_span_at, HoverTarget};

verus! {

/// What a held button is dragging.
#[derive(Clone, Copy, Debug, PartialEq, Eq, Structural)]
pub struct Drags {
    pub sidebar: bool,
    pub terminal: bool,
    pub scrollbar: bool,
    pub selecting: bool,
}

impl Drags {
    /// Nothing.
    pub fn none() -> (r: Drags)
        ensures
            r == (Drags { sidebar: false, terminal: false, scrollbar: false, selecting: false }),
    {
        Drags { sidebar: false, terminal: false, scrollbar: false, selecting: false }
    }
}

/// What a move of the pointer is for.
#[derive(Clone, Copy, Debug, PartialEq, Eq, Structural)]
pub enum Move {
    ResizeSidebar,
    /// The row of the open page.
    Row,
    ResizeTerminal,
    DragScrollbar,
    Select,
    /// The scrollbar is to be shown, and nothing is hovered.
    ShowScrollbar,
    Hover,
}

/// What a move of the pointer is for: what is dragged goes first, the sidebar before an open page.
pub open spec fn move_for(page: Page, d: Drags, at_scrollbar: bool) -> Move {
    if d.sidebar {
        Move::ResizeSidebar
    } else if !(page is Editor) {
        Move::Row
    } else if d.terminal {
        Move::ResizeTerminal
    } else if d.scrollbar {
        Move::DragScrollbar
    } else if d.selecting {
        Move::Select
    } else if at_scrollbar {
        Move::ShowScrollbar
    } else {
        Move::Hover
    }
}

/// What a move of the pointer is for.
pub fn pointer_moved(page: Page, d: Drags, at_scrollbar: bool) -> (r: Move)
    ensures
        r == move_for(page, d, at_scrollbar),
{
    if d.sidebar {
        Move::ResizeSidebar
    } else if !matches!(page, Page::Editor) {
        Move::Row
    } else if d.terminal {
        Move::ResizeTerminal
    } else if d.scrollbar {
        Move::DragScrollbar
    } else if d.selecting {
        Move::Select
    } else if at_scrollbar {
        Move::ShowScrollbar
    } else {
        Move::Hover
    }
}

/// A button of the pointer.
#[derive(Clone, Copy, Debug, PartialEq, Eq, Structural)]
pub enum Button {
    Left,
    Middle,
    Other,
}

/// A part of the scrollbar.
#[derive(Clone, Copy, Debug, PartialEq, Eq, Structural)]
pub enum BarPart {
    Thumb,
    Above,
    Below,
}

/// What the pointer is over.
#[derive(Clone, Copy, Debug, PartialEq, Eq, Structural)]
pub struct Hits {
    pub sidebar_edge: bool,
    pub sidebar_tab: Option<usize>,
    pub strip_tab: Option<usize>,
    /// Whether it is over the panel of the open page, and the row of it.
    pub in_panel: bool,
    pub row: Option<usize>,
    /// Whether it is near the upper border of the terminal, and whether below it.
    pub at_border: bool,
    pub below_border: bool,
    /// The part of a scrollbar that is shown.
    pub bar: Option<BarPart>,
    /// The character of the document.
    pub at: Option<usize>,
}

/// The terminal, as far as a press goes.
#[derive(Clone, Copy, Debug, PartialEq, Eq, Structural)]
pub struct Shown {
    pub open: bool,
    pub maximized: bool,
    /// How many documents are open; the tab behind them is the terminal's.
    pub docs: usize,
}

/// What a button asks for. From `HoldThumb` on, a terminal that has the focus loses it.
#[derive(Clone, Copy, Debug, PartialEq, Eq, Structural)]
pub enum Press {
    Nothing,
    KillTerminal,
    CloseTab(usize),
    HoldSidebar,
    /// The tab of the terminal, or one of a document; an open page is closed first.
    TerminalTab,
    Tab(usize),
    Strip(usize),
    ClosePage,
    Row(usize),
    HoldBorder,
    FocusTerminal,
    HoldThumb,
    PageUp,
    PageDown,
    Text(usize),
    Elsewhere,
    /// The scrollbar was let go.
    EndDrag,
}

/// What a press of the left button asks for: what lies over the document first.
pub open spec fn pressed_left(page: Page, t: Shown, h: Hits) -> Press {
    if h.sidebar_edge {
        Press::HoldSidebar
    } else if h.sidebar_tab is Some {
        if h.sidebar_tab->0 >= t.docs {
            Press::TerminalTab
        } else {
            Press::Tab(h.sidebar_tab->0)
        }
    } else if h.strip_tab is Some {
        Press::Strip(h.strip_tab->0)
    } else if !(page is Editor) {
        if !h.in_panel {
            Press::ClosePage
        } else {
            match h.row {
                Some(row) => Press::Row(row),
                None => Press::Nothing,
            }
        }
    } else if t.open && !t.maximized && h.at_border {
        Press::HoldBorder
    } else if t.open && h.below_border {
        Press::FocusTerminal
    } else {
        match h.bar {
            Some(BarPart::Thumb) => Press::HoldThumb,
            Some(BarPart::Above) => Press::PageUp,
            Some(BarPart::Below) => Press::PageDown,
            None => match h.at {
                Some(at) => Press::Text(at),
                None => Press::Elsewhere,
            },
        }
    }
}

/// What a button asks for.
pub open spec fn button_asks(button: Button, down: bool, page: Page, t: Shown, h: Hits, d: Drags) -> Press {
    match button {
        Button::Left => if down {
            pressed_left(page, t, h)
        } else if page is Editor && d.scrollbar {
            Press::EndDrag
        } else {
            Press::Nothing
        },
        Button::Middle => match h.sidebar_tab {
            Some(i) if down => if i >= t.docs {
                Press::KillTerminal
            } else {
                Press::CloseTab(i)
            },
            _ => Press::Nothing,
        },
        Button::Other => Press::Nothing,
    }
}

/// What is dragged after a button: what was taken hold of, and nothing once the left one is let go;
/// under an open page only the sidebar is let go.
pub open spec fn drags_after(button: Button, down: bool, page: Page, asked: Press, d: Drags) -> Drags {
    if button is Left && !down {
        if page is Editor {
            Drags { sidebar: false, terminal: false, scrollbar: false, selecting: false }
        } else {
            Drags { sidebar: false, ..d }
        }
    } else {
        match asked {
            Press::HoldSidebar => Drags { sidebar: true, ..d },
            Press::HoldBorder => Drags { terminal: true, ..d },
            Press::HoldThumb => Drags { scrollbar: true, ..d },
            _ => d,
        }
    }
}

fn press_left(page: Page, t: Shown, h: Hits) -> (r: Press)
    ensures
        r == pressed_left(page, t, h),
{
    if h.sidebar_edge {
        return Press::HoldSidebar;
    }
    if let Some(i) = h.sidebar_tab {
        return if i >= t.docs {
            Press::TerminalTab
        } else {
            Press::Tab(i)
        };
    }
    if let Some(i) = h.strip_tab {
        return Press::Strip(i);
    }
    if !matches!(page, Page::Editor) {
        if !h.in_panel {
            return Press::ClosePage;
        }
        return match h.row {
            Some(row) => Press::Row(row),
            None => Press::Nothing,
        };
    }
    if t.open && !t.maximized && h.at_border {
        return Press::HoldBorder;
    }
    if t.open && h.below_border {
        return Press::FocusTerminal;
    }
    match h.bar {
        Some(BarPart::Thumb) => Press::HoldThumb,
        Some(BarPart::Above) => Press::PageUp,
        Some(BarPart::Below) => Press::PageDown,
        None => match h.at {
            Some(at) => Press::Text(at),
            None => Press::Elsewhere,
        },
    }
}

/// What a button that goes down or up asks for, and what is dragged afterwards.
pub fn pointer_button(button: Button, down: bool, page: Page, t: Shown, h: Hits, d: &mut Drags) -> (r: Press)
    ensures
        r == button_asks(button, down, page, t, h, *old(d)),
        *final(d) == drags_after(button, down, page, r, *old(d)),
{
    match button {
        Button::Left => if down {
            let asked = press_left(page, t, h);
            match asked {
                Press::HoldSidebar => {
                    d.sidebar = true;
                },
                Press::HoldBorder => {
                    d.terminal = true;
                },
                Press::HoldThumb => {
                    d.scrollbar = true;
                },
                _ => {},
            }
            asked
        } else {
            d.sidebar = false;
            if !matches!(page, Page::Editor) {
                return Press::Nothing;
            }
            d.selecting = false;
            d.terminal = false;
            if d.scrollbar {
                d.scrollbar = false;
                Press::EndDrag
            } else {
                Press::Nothing
            }
        },
        Button::Middle => match h.sidebar_tab {
            Some(i) => if !down {
                Press::Nothing
            } else if i >= t.docs {
                Press::KillTerminal
            } else {
                Press::CloseTab(i)
            },
            None => Press::Nothing,
        },
        Button::Other => Press::Nothing,
    }
}

/// An open page keeps presses from the document and the terminal.
pub proof fn pages_keep_the_presses(page: Page, t: Shown, h: Hits)
    requires
        !(page is Editor),
    ensures
        !(pressed_left(page, t, h) is Text),
        !(pressed_left(page, t, h) is FocusTerminal),
        !(pressed_left(page, t, h) is HoldThumb),
        !(pressed_left(page, t, h) is HoldBorder),
{
}

/// A press of the left button goes to what lies on top there: nothing on the sidebar or the strip is
/// passed over, the document is reached only where nothing lies over it, and each answer names what
/// was hit.
pub proof fn presses_go_to_the_topmost(page: Page, t: Shown, h: Hits)
    ensures
        ({
            let side = h.sidebar_edge || h.sidebar_tab is Some || h.strip_tab is Some;
            let p = pressed_left(page, t, h);
            &&& p is HoldSidebar <==> h.sidebar_edge
            &&& p is TerminalTab || p is Tab <==> !h.sidebar_edge && h.sidebar_tab is Some
            &&& p matches Press::Tab(i) ==> h.sidebar_tab == Some(i) && i < t.docs
            &&& p is TerminalTab ==> h.sidebar_tab->0 >= t.docs
            &&& p is Strip <==> !h.sidebar_edge && h.sidebar_tab is None && h.strip_tab is Some
            &&& p matches Press::Strip(i) ==> h.strip_tab == Some(i)
            &&& p is ClosePage <==> !side && !(page is Editor) && !h.in_panel
            &&& p matches Press::Row(i) ==> h.row == Some(i)
            &&& p is Row <==> !side && !(page is Editor) && h.in_panel && h.row is Some
            &&& p is HoldBorder <==> !side && page is Editor && t.open && !t.maximized && h.at_border
            &&& p is FocusTerminal <==> !side && page is Editor && t.open && h.below_border && (
            t.maximized || !h.at_border)
            &&& p is HoldThumb || p is PageUp || p is PageDown <==> !side && page is Editor && h.bar is Some
                && !(t.open && (h.below_border || !t.maximized && h.at_border))
            &&& p is HoldThumb ==> h.bar == Some(BarPart::Thumb)
            &&& p is PageUp ==> h.bar == Some(BarPart::Above)
            &&& p is PageDown ==> h.bar == Some(BarPart::Below)
            &&& p is Text <==> !side && page is Editor && h.bar is None && h.at is Some && !(t.open && (
            h.below_border || !t.maximized && h.at_border))
            &&& p matches Press::Text(i) ==> h.at == Some(i)
            &&& !(p is KillTerminal) && !(p is CloseTab) && !(p is EndDrag)
        }),
{
}

/// The middle button closes what the left one shows: the tab of a document, or the terminal's.
pub proof fn the_middle_button_closes_tabs(page: Page, t: Shown, h: Hits, d: Drags)
    requires
        !h.sidebar_edge,
    ensures
        ({
            let p = button_asks(Button::Middle, true, page, t, h, d);
            let shown = button_asks(Button::Left, true, page, t, h, d);
            &&& p is KillTerminal <==> shown is TerminalTab
            &&& p matches Press::CloseTab(i) ==> shown == Press::Tab(i)
            &&& shown is Tab ==> p is CloseTab
            &&& button_asks(Button::Middle, false, page, t, h, d) is Nothing
            &&& button_asks(Button::Other, true, page, t, h, d) is Nothing
            &&& button_asks(Button::Other, false, page, t, h, d) is Nothing
        }),
{
}

/// What is taken hold of follows the pointer until the button is let go, and then nothing does.
pub proof fn what_is_held_follows(page: Page, t: Shown, h: Hits, d: Drags, at_scrollbar: bool)
    ensures
        ({
            let p = button_asks(Button::Left, true, page, t, h, d);
            let held = drags_after(Button::Left, true, page, p, d);
            let m = move_for(page, held, at_scrollbar);
            let gone = drags_after(
                Button::Left,
                false,
                page,
                button_asks(Button::Left, false, page, t, h, held),
                held,
            );
            &&& p is HoldSidebar ==> m is ResizeSidebar
            &&& p is HoldBorder && !d.sidebar ==> m is ResizeTerminal
            &&& p is HoldThumb && !d.sidebar && !d.terminal ==> m is DragScrollbar
            &&& !(p is HoldSidebar || p is HoldBorder || p is HoldThumb) ==> held == d
            &&& page is Editor && held.scrollbar <==> button_asks(
                Button::Left,
                false,
                page,
                t,
                h,
                held,
            ) is EndDrag
            &&& page is Editor ==> move_for(page, gone, true) is ShowScrollbar && move_for(page, gone, false)
                is Hover
            &&& !(page is Editor) ==> move_for(page, gone, at_scrollbar) is Row
        }),
{
}

// --- the document ---

/// How long after a press another one at the same place counts with it.
pub const DOUBLE_CLICK: u64 = 400;

/// Whether a press counts with the one before it.
pub open spec fn counts_with(last: Option<(u64, usize)>, now: u64, pos: usize) -> bool {
    last matches Some((at, there)) && now - at < DOUBLE_CLICK && there == pos
}

/// Whether a press counts with the one before it.
pub fn is_double(last: Option<(u64, usize)>, now: u64, pos: usize) -> (r: bool)
    ensures
        r == counts_with(last, now, pos),
{
    match last {
        Some((at, there)) => there == pos && (now <= at || now - at < DOUBLE_CLICK),
        None => false,
    }
}

/// Only a press at the same place and soon enough makes two of one; where a later press would, an
/// earlier one does too.
pub proof fn double_presses_are_close(at: u64, there: usize, now: u64, sooner: u64, pos: usize)
    ensures
        !counts_with(None, now, pos),
        there != pos ==> !counts_with(Some((at, there)), now, pos),
        now <= at ==> counts_with(Some((at, pos)), now, pos),
        sooner <= now && counts_with(Some((at, there)), now, pos) ==> counts_with(
            Some((at, there)),
            sooner,
            pos,
        ),
        counts_with(Some((at, pos)), now, pos) <==> now < at + 400,
{
}

/// What is shown of the line that a place stands on.
pub open spec fn line_text(text: Seq<char>, at: int) -> Seq<char> {
    let ls = lines(text_lines(text)[line_at(text_lines(text), at)]);
    if ls.len() > 0 {
        ls[0]
    } else {
        Seq::empty()
    }
}

/// The caret after a press at a place, and whether a drag goes on selecting from there. A press
/// with shift held selects from where the caret was, unless something is selected already.
pub open spec fn pressed_at(c: Caret, text: Seq<char>, pos: int, shift: bool) -> Caret {
    Caret {
        anchor: if !shift {
            Some(pos as usize)
        } else if c.anchor is Some {
            c.anchor
        } else {
            Some(c.cursor)
        },
        ..placed(c, text, pos)
    }
}

/// The caret with a stretch of its line selected.
pub open spec fn word_selected(c: Caret, text: Seq<char>, pos: int, from: int, to: int) -> Caret {
    let start = line_start(text_lines(text), line_at(text_lines(text), pos));
    Caret { anchor: Some((start + from) as usize), ..placed(c, text, start + to) }
}

/// What a press in the document does: the second of two selects the word there, where there is
/// one; any other puts the caret there, and a drag goes on selecting.
pub open spec fn text_pressed(
    c: Caret,
    text: Seq<char>,
    pos: int,
    shift: bool,
    double: bool,
    q: Caret,
    selecting: bool,
) -> bool {
    let col = pos - line_start(text_lines(text), line_at(text_lines(text), pos));
    exists|span: Option<(usize, usize)>|
        {
            &&& #[trigger] is_span(line_text(text, pos), col, span)
            &&& match span {
                Some((from, to)) if double => q == word_selected(c, text, pos, from as int, to as int)
                    && !selecting,
                _ => q == pressed_at(c, text, pos, shift) && selecting,
            }
        }
}

proof fn lemma_first_line_len(s: Seq<char>)
    ensures
        lines(s).len() > 0 ==> lines(s)[0].len() <= s.len(),
{
    lemma_first_at(s, '\n');
}

/// A press in the document at `pos`; whether a drag goes on selecting.
pub fn text_press(buffer: &TextBuffer, caret: &mut Caret, pos: usize, shift: bool, double: bool) -> (r: bool)
    requires
        pos <= buffer@.len(),
    ensures
        text_pressed(*old(caret), buffer@, pos as int, shift, double, *final(caret), r),
        final(caret).cursor <= buffer@.len(),
        final(caret).first_line == old(caret).first_line,
{
    let line = buffer.char_to_line(pos);
    let start = buffer.line_to_char(line);
    let shown = buffer.visible_text(line, 1);
    let cs = chars_of(&shown);
    let split = split_lines(&cs);
    let head = if split.len() > 0 {
        string_of(&split[0])
    } else {
        String::new()
    };
    let ghost all = text_lines(buffer@);
    proof {
        assert(all.subrange(line as int, line + 1) =~= seq![all[line as int]]);
        let one = seq![all[line as int]];
        assert(one.drop_last() =~= Seq::<Seq<char>>::empty());
        assert(concat(Seq::<Seq<char>>::empty()) == Seq::<char>::empty());
        assert(concat(one) =~= all[line as int]);
        assert(shown@ == all[line as int]);
        if split@.len() > 0 {
            assert(views(split@)[0] == split@[0]@);
        } else {
            assert(head@ =~= Seq::<char>::empty());
        }
        assert(head@ =~= line_text(buffer@, pos as int));
        lemma_first_line_len(all[line as int]);
        lemma_line_start_text(buffer@, line + 1);
        assert(line_start(all, line + 1) == line_start(all, line as int) + all[line as int].len());
    }
    let span = word_span_at(&head, pos - start);
    if double {
        if let Some((from, to)) = span {
            let total = buffer.len_chars();
            assert(from <= to <= head@.len());
            assert(is_span(line_text(buffer@, pos as int), pos - start, span));
            caret.place(buffer, start + to);
            caret.anchor = Some(start + from);
            return false;
        }
    }
    assert(is_span(line_text(buffer@, pos as int), pos - start, span));
    if shift {
        if caret.anchor.is_none() {
            caret.anchor = Some(caret.cursor);
        }
    } else {
        caret.anchor = Some(pos);
    }
    caret.place(buffer, pos);
    true
}

/// What a press does is determined.
pub proof fn presses_are_determined(
    c: Caret,
    text: Seq<char>,
    pos: int,
    shift: bool,
    double: bool,
    q1: Caret,
    s1: bool,
    q2: Caret,
    s2: bool,
)
    requires
        0 <= pos <= text.len() < usize::MAX,
        text_pressed(c, text, pos, shift, double, q1, s1),
        text_pressed(c, text, pos, shift, double, q2, s2),
    ensures
        q1 == q2,
        s1 == s2,
{
    let col = pos - line_start(text_lines(text), line_at(text_lines(text), pos));
    let line = line_text(text, pos);
    lemma_line_at_text(text, pos);
    let a = choose|span: Option<(usize, usize)>|
        {
            &&& #[trigger] is_span(line, col, span)
            &&& match span {
                Some((from, to)) if double => q1 == word_selected(c, text, pos, from as int, to as int)
                    && !s1,
                _ => q1 == pressed_at(c, text, pos, shift) && s1,
            }
        };
    let b = choose|span: Option<(usize, usize)>|
        {
            &&& #[trigger] is_span(line, col, span)
            &&& match span {
                Some((from, to)) if double => q2 == word_selected(c, text, pos, from as int, to as int)
                    && !s2,
                _ => q2 == pressed_at(c, text, pos, shift) && s2,
            }
        };
    span_is_unique(line, col, a, b);
}

proof fn lemma_first_line(s: Seq<char>)
    ensures
        lines(s).len() > 0 ==> lines(s)[0].is_prefix_of(s),
{
    lemma_first_at(s, '\n');
}

/// A press that is no second one puts the caret where it is, and selects nothing unless shift is
/// held; then it selects from where the selection began, or from where the caret was.
pub proof fn presses_put_the_caret(c: Caret, text: Seq<char>, pos: int, shift: bool, q: Caret, selecting: bool)
    requires
        0 <= pos <= text.len() < usize::MAX,
        text_pressed(c, text, pos, shift, false, q, selecting),
    ensures
        q.cursor == pos,
        selecting,
        q.first_line == c.first_line,
        !shift ==> q.anchor == Some(pos as usize),
        shift && c.anchor is Some ==> q.anchor == c.anchor,
        shift && c.anchor is None ==> q.anchor == Some(c.cursor),
{
}

/// The second of two presses on a word selects that word: word characters only, the one pressed
/// among them, and on its line no more of them on either side.
pub proof fn double_presses_select_words(
    c: Caret,
    text: Seq<char>,
    pos: int,
    shift: bool,
    q: Caret,
    selecting: bool,
)
    requires
        0 <= pos < text.len() < usize::MAX,
        text_pressed(c, text, pos, shift, true, q, selecting),
        pos < line_start(text_lines(text), line_at(text_lines(text), pos)) + line_text(text, pos).len(),
        !is_white(text[pos]),
        word_char(text[pos]),
    ensures
        !selecting,
        q.anchor is Some,
        q.anchor->0 <= pos < q.cursor <= text.len(),
        forall|i: int| q.anchor->0 <= i < q.cursor ==> word_char(#[trigger] text[i]),
        q.anchor->0 > line_start(text_lines(text), line_at(text_lines(text), pos)) ==> !word_char(
            text[q.anchor->0 - 1],
        ),
        q.cursor < line_start(text_lines(text), line_at(text_lines(text), pos)) + line_text(text, pos).len()
            ==> !word_char(text[q.cursor as int]),
{
    let ls = text_lines(text);
    let k = line_at(ls, pos);
    let start = line_start(ls, k) as int;
    let col = pos - start;
    let head = line_text(text, pos);
    lemma_line_at_text(text, pos);
    lemma_line_slice(text, k);
    lemma_first_line(ls[k]);
    assert forall|i: int| 0 <= i < head.len() implies head[i] == #[trigger] text[start + i] by {
        assert(head[i] == ls[k][i]);
    }
    assert(head[col] == text[pos]);
    let span = choose|span: Option<(usize, usize)>|
        {
            &&& #[trigger] is_span(head, col, span)
            &&& match span {
                Some((from, to)) if true => q == word_selected(c, text, pos, from as int, to as int)
                    && !selecting,
                _ => q == pressed_at(c, text, pos, shift) && selecting,
            }
        };
    assert(is_span(head, col, span));
    let (a, b) = span->0;
    assert forall|i: int| q.anchor->0 <= i < q.cursor implies word_char(#[trigger] text[i]) by {
        assert(word_char(head[i - start]));
        assert(text[start + (i - start)] == head[i - start]);
    }
    if a > 0 {
        assert(text[start + (a - 1)] == head[a - 1]);
    }
    if b < head.len() {
        assert(text[start + b] == head[b as int]);
    }
}

/// The caret after a drag to a place.
pub open spec fn dragged(c: Caret, text: Seq<char>, pos: int) -> Caret {
    if c.cursor != pos {
        placed(c, text, pos)
    } else {
        c
    }
}

/// A press and a drag select what lies between them.
pub proof fn drags_select_up_to_the_pointer(
    c: Caret,
    text: Seq<char>,
    from: int,
    to: int,
    q: Caret,
    selecting: bool,
)
    requires
        0 <= from <= text.len() < usize::MAX,
        0 <= to <= text.len(),
        text_pressed(c, text, from, false, false, q, selecting),
    ensures
        dragged(q, text, to).anchor == Some(from as usize),
        dragged(q, text, to).cursor == to,
        dragged(q, text, to).first_line == c.first_line,
{
}

/// A drag that selects up to `pos`; whether the caret moved.
pub fn drag_to(buffer: &TextBuffer, caret: &mut Caret, pos: usize) -> (r: bool)
    requires
        pos <= buffer@.len(),
    ensures
        r == (old(caret).cursor != pos),
        *final(caret) == dragged(*old(caret), buffer@, pos as int),
{
    if caret.cursor == pos {
        return false;
    }
    caret.place(buffer, pos);
    true
}

/// `n` as near as it can be to what it is between `0` and `last`.
pub open spec fn within(n: int, last: int) -> int {
    if n < 0 {
        0
    } else if n > last {
        last
    } else {
        n
    }
}

/// `first + by`, not before 0 and not past `last`.
pub fn moved_within(first: usize, by: i64, last: usize) -> (r: usize)
    ensures
        r == within(first + by, last as int),
{
    if by < 0 {
        let up: u64 = (-(by + 1)) as u64 + 1;
        if up >= first as u64 {
            0
        } else {
            let at: usize = first - up as usize;
            if at > last {
                last
            } else {
                at
            }
        }
    } else if first >= last || by as u64 > (last - first) as u64 {
        last
    } else {
        first + by as usize
    }
}

/// The caret with the view moved by some lines.
pub open spec fn scrolled(c: Caret, text: Seq<char>, by: int) -> Caret {
    Caret { first_line: within(c.first_line + by, text_lines(text).len() - 1) as usize, ..c }
}

/// The caret with the view moved by a page.
pub open spec fn paged(c: Caret, text: Seq<char>, up: bool, cap: usize) -> Caret {
    Caret {
        first_line: within(
            if up {
                c.first_line - page_lines(cap)
            } else {
                c.first_line + page_lines(cap)
            },
            text_lines(text).len() - 1,
        ) as usize,
        ..c
    }
}

/// Scrolling moves the view by as many lines as asked for, as far as the text goes, and nothing
/// else; a page is as many lines as are in view, and one where none are.
pub proof fn scrolling_moves_the_view(c: Caret, text: Seq<char>, by: int, cap: usize)
    requires
        c.first_line < text_lines(text).len() <= usize::MAX,
    ensures
        ({
            let last = text_lines(text).len() - 1;
            let q = scrolled(c, text, by);
            &&& q.cursor == c.cursor && q.anchor == c.anchor && q.goal_col == c.goal_col
            &&& 0 <= c.first_line + by <= last ==> q.first_line == c.first_line + by && scrolled(
                q,
                text,
                -by,
            ) == c
            &&& c.first_line + by < 0 ==> q.first_line == 0
            &&& c.first_line + by > last ==> q.first_line == last
            &&& cap > 0 ==> paged(c, text, false, cap) == scrolled(c, text, cap as int)
            &&& cap > 0 ==> paged(c, text, true, cap) == scrolled(c, text, -cap)
            &&& paged(c, text, false, 0) == scrolled(c, text, 1)
            &&& paged(c, text, true, 0) == scrolled(c, text, -1)
        }),
{
}

/// Scrolls by some lines, to the first line at most, or the last.
pub fn scroll_by(buffer: &TextBuffer, caret: &mut Caret, by: i64)
    ensures
        *final(caret) == scrolled(*old(caret), buffer@, by as int),
{
    proof {
        lemma_line_start_text(buffer@, 0);
    }
    caret.first_line = moved_within(caret.first_line, by, buffer.len_lines() - 1);
}

/// Scrolls a page towards a press above or below the thumb.
pub fn scroll_page(buffer: &TextBuffer, caret: &mut Caret, up: bool, cap: usize)
    ensures
        *final(caret) == paged(*old(caret), buffer@, up, cap),
{
    proof {
        lemma_line_start_text(buffer@, 0);
    }
    let last: usize = buffer.len_lines() - 1;
    let n: usize = if cap == 0 {
        1
    } else {
        cap
    };
    let first = caret.first_line;
    caret.first_line = if up {
        if n >= first {
            0
        } else if first - n > last {
            last
        } else {
            first - n
        }
    } else if first >= last || n > last - first {
        last
    } else {
        first + n
    };
}

/// How many lines a page has: at least one.
pub open spec fn page_lines(cap: usize) -> int {
    if cap == 0 {
        1
    } else {
        cap as int
    }
}

/// The character at a row of the view and a column: the last line or the end of the line where
/// there are not so many.
pub open spec fn char_at(text: Seq<char>, first: int, row: int, col: int) -> int {
    let ls = text_lines(text);
    let line = within(first + row, ls.len() - 1);
    line_start(ls, line) + if col <= visual_len(ls[line]) {
        col
    } else {
        visual_len(ls[line]) as int
    }
}

/// The character at a row of the view and a column.
pub fn pointer_to_char(buffer: &TextBuffer, first: usize, row: i64, col: usize) -> (r: usize)
    ensures
        r == char_at(buffer@, first as int, row as int, col as int),
        r <= buffer@.len(),
{
    proof {
        lemma_line_start_text(buffer@, 0);
    }
    let line = moved_within(first, row, buffer.len_lines() - 1);
    let shown = buffer.visual_line_len_chars(line);
    let total = buffer.len_chars();
    let start = buffer.line_to_char(line);
    start + if col <= shown {
        col
    } else {
        shown
    }
}

/// Every character that is shown is where the pointer finds it: at the row of its line and at its
/// column. Behind the end of a line the pointer finds its end, and below the last line that line.
pub proof fn shown_characters_are_found(text: Seq<char>, first: int, line: int, col: int, more: int)
    requires
        0 <= line < text_lines(text).len(),
        0 <= col <= visual_len(text_lines(text)[line]),
        0 <= more,
    ensures
        ({
            let ls = text_lines(text);
            let at = char_at(text, first, line - first, col);
            &&& at == line_start(ls, line) + col
            &&& 0 <= at <= text.len()
            &&& line_at(ls, at) == line
            &&& char_at(text, first, line - first, visual_len(ls[line]) + more) == char_at(
                text,
                first,
                line - first,
                visual_len(ls[line]) as int,
            )
            &&& char_at(text, first, ls.len() - 1 - first + more, 0) == char_at(
                text,
                first,
                ls.len() - 1 - first,
                0,
            )
            &&& char_at(text, first, -first - more, 0) == 0
        }),
{
    places_are_on_their_lines(text, line, col);
}

/// The characters that are shown of a line.
pub open spec fn shown_of(text: Seq<char>, line: int) -> Seq<char> {
    text_lines(text)[line].take(visual_len(text_lines(text)[line]) as int)
}

/// What a row of the view and a column are over: nothing outside the view or behind the last line,
/// a word where there is one, and the line otherwise.
pub open spec fn hovers(text: Seq<char>, first: int, cap: int, row: int, col: int, t: HoverTarget) -> bool {
    let line = first + row;
    if row < 0 || row >= cap || line > text_lines(text).len() - 1 {
        t is Nothing
    } else {
        exists|span: Option<(usize, usize)>|
            {
                &&& #[trigger] is_span(shown_of(text, line), col, span)
                &&& match span {
                    Some((from, to)) => t == HoverTarget::Word {
                        line: line as usize,
                        start_col: from,
                        end_col: to,
                    },
                    None => t == HoverTarget::Line(line as usize),
                }
            }
    }
}

proof fn lemma_shown_of(text: Seq<char>, line: int)
    requires
        0 <= line < text_lines(text).len(),
    ensures
        line_start(text_lines(text), line) + visual_len(text_lines(text)[line]) <= text.len(),
        shown_of(text, line) == text.subrange(
            line_start(text_lines(text), line) as int,
            (line_start(text_lines(text), line) + visual_len(text_lines(text)[line])) as int,
        ),
{
    let ls = text_lines(text);
    lemma_line_start_text(text, line + 1);
    lemma_line_slice(text, line);
    let start = line_start(ls, line) as int;
    assert(line_start(ls, line + 1) == start + ls[line].len());
    assert(shown_of(text, line) =~= text.subrange(start, start + visual_len(ls[line])));
}

/// What a row of the view and a column are over.
pub fn pointer_to_hover(buffer: &TextBuffer, first: usize, cap: usize, row: i64, col: usize) -> (r: HoverTarget)
    ensures
        hovers(buffer@, first as int, cap as int, row as int, col as int, r),
        hover_fits(buffer@, r),
{
    if row < 0 || row as u64 >= cap as u64 {
        return HoverTarget::Nothing;
    }
    proof {
        lemma_line_start_text(buffer@, 0);
    }
    let last: usize = buffer.len_lines() - 1;
    if first > last || row as u64 > (last - first) as u64 {
        return HoverTarget::Nothing;
    }
    let line: usize = first + row as usize;
    let shown = buffer.visual_line_len_chars(line);
    let start = buffer.line_to_char(line);
    let total = buffer.len_chars();
    let text = buffer.slice_chars(start, start + shown);
    proof {
        lemma_shown_of(buffer@, line as int);
        assert(text@ == shown_of(buffer@, line as int));
    }
    let span = word_span_at(&text, col);
    assert(is_span(shown_of(buffer@, line as int), col as int, span));
    match span {
        Some((start_col, end_col)) => {
            HoverTarget::Word { line, start_col, end_col }
        },
        None => HoverTarget::Line(line),
    }
}

/// Whether what is hovered is in the text.
pub open spec fn hover_fits(text: Seq<char>, t: HoverTarget) -> bool {
    match t {
        HoverTarget::Nothing => true,
        HoverTarget::Line(line) => line < text_lines(text).len(),
        HoverTarget::Word { line, start_col, end_col } => line < text_lines(text).len() && start_col
            <= end_col <= visual_len(text_lines(text)[line as int]),
    }
}

/// What the pointer is over is the line of its row, and the word around its column; over nothing it
/// is only outside the view and behind the last line.
pub proof fn the_pointer_is_over_its_row(
    text: Seq<char>,
    first: int,
    cap: int,
    row: int,
    col: int,
    t: HoverTarget,
)
    requires
        0 <= first,
        0 <= col < usize::MAX,
        text_lines(text).len() <= usize::MAX,
        hovers(text, first, cap, row, col, t),
    ensures
        t is Nothing <==> !(0 <= row < cap && first + row < text_lines(text).len()),
        t matches HoverTarget::Line(line) ==> line == first + row && row_of(first, cap, line as int)
            == Some(row as usize),
        t matches HoverTarget::Word { line, start_col, end_col } ==> {
            &&& line == first + row
            &&& row_of(first, cap, line as int) == Some(row as usize)
            &&& start_col <= col < end_col <= shown_of(text, line as int).len()
            &&& !is_white(shown_of(text, line as int)[col])
            &&& end_col - start_col > 1 ==> forall|i: int|
                start_col <= i < end_col ==> word_char(#[trigger] shown_of(text, line as int)[i])
        },
        t is Line ==> col >= shown_of(text, first + row).len() || is_white(shown_of(text, first + row)[col]),
{
    if !(t is Nothing) {
        let line = first + row;
        let span = choose|span: Option<(usize, usize)>|
            {
                &&& #[trigger] is_span(shown_of(text, line), col, span)
                &&& match span {
                    Some((from, to)) => t == HoverTarget::Word {
                        line: line as usize,
                        start_col: from,
                        end_col: to,
                    },
                    None => t == HoverTarget::Line(line as usize),
                }
            };
        assert(is_span(shown_of(text, line), col, span));
    }
}

/// A line is in the row that leads back to it, and in none where it is out of view.
pub proof fn rows_lead_to_their_lines(first: int, cap: usize, line: int, row: usize)
    requires
        0 <= first,
    ensures
        row_of(first, cap as int, line) == Some(row) <==> first + row == line && row < cap,
{
}

/// The row of the view that a line is in.
pub open spec fn row_of(first: int, cap: int, line: int) -> Option<usize> {
    if first <= line < first + cap {
        Some((line - first) as usize)
    } else {
        None
    }
}

/// The row of the view that a line is in.
pub fn hover_rel_line(first: usize, cap: usize, line: usize) -> (r: Option<usize>)
    ensures
        r == row_of(first as int, cap as int, line as int),
{
    if line >= first && line - first < cap {
        Some(line - first)
    } else {
        None
    }
}

/// What is lit up of what is hovered: the word with its row and its column, and the row.
pub fn hover_shown(buffer: &TextBuffer, first: usize, cap: usize, t: HoverTarget) -> (r: (
    Option<(usize, usize, String)>,
    Option<usize>,
))
    requires
        hover_fits(buffer@, t),
    ensures
        hover_shows(buffer@, first as int, cap as int, t, r.0, r.1),
{
    match t {
        HoverTarget::Nothing => (None, None),
        HoverTarget::Line(line) => (None, hover_rel_line(first, cap, line)),
        HoverTarget::Word { line, start_col, end_col } => {
            let row = hover_rel_line(first, cap, line);
            let start = buffer.line_to_char(line);
            let total = buffer.len_chars();
            proof {
                lemma_shown_of(buffer@, line as int);
            }
            let word = buffer.slice_chars(start + start_col, start + end_col);
            assert(word@ =~= shown_of(buffer@, line as int).subrange(start_col as int, end_col as int));
            match row {
                Some(at) => (Some((at, start_col, word)), row),
                None => (None, None),
            }
        },
    }
}

// --- the scrollbar ---

/// Until when the scrollbar is shown, and for how long it stays.
#[derive(Clone, Copy, Debug, PartialEq, Eq, Structural)]
pub struct Scrollbar {
    pub until: Option<u64>,
    pub linger: u64,
}

impl Scrollbar {
    /// The scrollbar once it was asked for.
    pub open spec fn poked(self, enabled: bool, now: u64) -> Scrollbar {
        Scrollbar {
            until: if enabled {
                Some((now + self.linger) as u64)
            } else {
                self.until
            },
            ..self
        }
    }

    /// Shows the scrollbar for a while, where there is to be one.
    pub fn poke(&mut self, enabled: bool, now: u64)
        requires
            now + old(self).linger <= u64::MAX,
        ensures
            *final(self) == old(self).poked(enabled, now),
    {
        if enabled {
            self.until = Some(now + self.linger);
        }
    }

    /// Whether the scrollbar is shown.
    pub open spec fn is_shown(self, dragging: bool, now: u64) -> bool {
        dragging || (self.until matches Some(t) && now < t)
    }

    /// Whether the scrollbar is shown.
    pub fn visible(&self, dragging: bool, now: u64) -> (r: bool)
        ensures
            r == self.is_shown(dragging, now),
    {
        if dragging {
            return true;
        }
        match self.until {
            Some(t) => now < t,
            None => false,
        }
    }
}

/// A scrollbar that was asked for is shown as long as it lingers, and no longer unless it is dragged;
/// where there is to be none, asking changes nothing.
pub proof fn scrollbars_linger(s: Scrollbar, now: u64, later: u64)
    requires
        now + s.linger <= u64::MAX,
    ensures
        s.poked(true, now).is_shown(false, later) <==> later < now + s.linger,
        s.poked(true, now).is_shown(true, later),
        s.poked(true, now).linger == s.linger,
        s.poked(false, now) == s,
{
}

/// What the scrollbar shows, if it is drawn: over the document, where there is more of it than
/// fits.
pub fn scrollbar_info(
    page: Page,
    enabled: bool,
    visible: bool,
    first_line: usize,
    total_lines: usize,
    cap: usize,
) -> (r: Option<ScrollbarInfo>)
    ensures
        r == (if page is Editor && enabled && visible && total_lines > cap {
            Some(ScrollbarInfo { first_line, total_lines })
        } else {
            None
        }),
{
    if matches!(page, Page::Editor) && enabled && visible && total_lines > cap {
        Some(ScrollbarInfo { first_line, total_lines })
    } else {
        None
    }
}

/// What is shown of a target: its word with the place, and its row, where they are in view.
pub open spec fn hover_shows(
    text: Seq<char>,
    first: int,
    cap: int,
    t: HoverTarget,
    shown: Option<(usize, usize, String)>,
    lit: Option<usize>,
) -> bool {
    match t {
        HoverTarget::Nothing => shown is None && lit is None,
        HoverTarget::Line(line) => shown is None && lit == row_of(first, cap, line as int),
        HoverTarget::Word { line, start_col, end_col } => {
            &&& lit == row_of(first, cap, line as int)
            &&& shown is Some == lit is Some
            &&& shown matches Some((row, col, word)) ==> row == lit->0 && col == start_col && word@
                == shown_of(text, line as int).subrange(start_col as int, end_col as int)
        },
    }
}

/// The row under the pointer is lit; where the pointer is over a character that is not white, the
/// word shown is on that row and has that character at the pointer's column.
pub proof fn what_the_pointer_is_over_is_shown(
    text: Seq<char>,
    first: int,
    cap: int,
    row: int,
    col: int,
    t: HoverTarget,
    shown: Option<(usize, usize, String)>,
    lit: Option<usize>,
)
    requires
        0 <= first,
        0 <= row,
        0 <= col < usize::MAX,
        text_lines(text).len() <= usize::MAX,
        hovers(text, first, cap, row, col, t),
        hover_shows(text, first, cap, t, shown, lit),
    ensures
        lit is Some <==> row < cap && first + row < text_lines(text).len(),
        lit is Some ==> lit->0 == row,
        ({
            let line = shown_of(text, first + row);
            &&& lit is Some && col < line.len() && !is_white(line[col]) <==> shown is Some
            &&& shown matches Some((at, from, word)) ==> {
                &&& at == row
                &&& from <= col < from + word@.len()
                &&& word@[col - from] == line[col]
            }
        }),
{
    the_pointer_is_over_its_row(text, first, cap, row, col, t);
}

} // verus!
