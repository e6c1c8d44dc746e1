//! A terminal in a window of its own: what is selected in it, its menu, its text by styles, and the
//! order in which it is drawn.

use vstd::prelude::*;
use crate::bytes::{byte_len, len_of, lemma_byte_len_concat, width_of};
use crate::order::lemma_in_both;
use crate::renderer::{at_least_one, lemma_only, only};
use crate::terminal::TerminalSpan;
use crate::text::{chars_of, separate, separated, texts};

verus! {

/// A row and a column of the grid.
pub type Place = (usize, usize);

/// What the window shows.
#[derive(Debug)]
pub struct PopoutWindow {
    pub width: u32,
    pub height: u32,
    pub cursor: Option<Place>,
    /// The button under the pointer.
    pub hover: Option<usize>,
    /// Where the selection began, and where it ends.
    pub sel: Option<(Place, Place)>,
    pub selecting: bool,
    /// Whether the strip with the input is shown.
    pub overlay: bool,
    pub menu: Menu,
}

/// The menu at the pointer.
#[derive(Debug)]
pub struct Menu {
    pub active: bool,
    pub rows: usize,
    pub hover: Option<usize>,
    /// The rows below which a rule is drawn.
    pub separators: Vec<usize>,
}

/// A direction in which the window is resized.
#[derive(Clone, Copy, Debug, PartialEq, Eq, Structural)]
pub enum Edge {
    NorthWest,
    NorthEast,
    SouthWest,
    SouthEast,
    North,
    South,
    West,
    East,
}

/// The direction for a pointer at these edges: a corner first.
pub open spec fn edge_of(top: bool, bottom: bool, left: bool, right: bool) -> Option<Edge> {
    if top && left {
        Some(Edge::NorthWest)
    } else if top && right {
        Some(Edge::NorthEast)
    } else if bottom && left {
        Some(Edge::SouthWest)
    } else if bottom && right {
        Some(Edge::SouthEast)
    } else if top {
        Some(Edge::North)
    } else if bottom {
        Some(Edge::South)
    } else if left {
        Some(Edge::West)
    } else if right {
        Some(Edge::East)
    } else {
        None
    }
}

/// The direction for a pointer at these edges.
pub fn resize_dir_at(top: bool, bottom: bool, left: bool, right: bool) -> (r: Option<Edge>)
    ensures
        r == edge_of(top, bottom, left, right),
{
    match (top, bottom, left, right) {
        (true, _, true, _) => Some(Edge::NorthWest),
        (true, _, _, true) => Some(Edge::NorthEast),
        (_, true, true, _) => Some(Edge::SouthWest),
        (_, true, _, true) => Some(Edge::SouthEast),
        (true, _, _, _) => Some(Edge::North),
        (_, true, _, _) => Some(Edge::South),
        (_, _, true, _) => Some(Edge::West),
        (_, _, _, true) => Some(Edge::East),
        _ => None,
    }
}

/// The nearest of `n` rows or columns.
pub open spec fn nearest(at: int, n: int) -> int {
    if n == 0 {
        0
    } else if at < n {
        at
    } else {
        n - 1
    }
}

/// The place nearest to a row and a column, in a grid of `rows` rows and `cols` columns.
pub fn cell_at(row: usize, col: usize, rows: usize, cols: usize) -> (r: Place)
    ensures
        r.0 == nearest(row as int, rows as int),
        r.1 == nearest(col as int, cols as int),
{
    (
        if rows == 0 {
            0
        } else if row < rows {
            row
        } else {
            rows - 1
        },
        if cols == 0 {
            0
        } else if col < cols {
            col
        } else {
            cols - 1
        },
    )
}

/// Whether a place is not behind another.
pub open spec fn not_behind(a: Place, b: Place) -> bool {
    a.0 < b.0 || (a.0 == b.0 && a.1 <= b.1)
}

/// A selection from its first place to its last.
pub open spec fn forward(sel: (Place, Place)) -> (Place, Place) {
    if not_behind(sel.0, sel.1) {
        sel
    } else {
        (sel.1, sel.0)
    }
}

/// What the window shows of the grid.
#[derive(Debug)]
pub struct PopoutSight {
    /// How many columns the grid has.
    pub cols: usize,
    /// Of each selected row, whether its selection has a width and is in view.
    pub rows: Vec<bool>,
    pub cursor: bool,
    /// Of each button, whether it is lit up.
    pub lit: [bool; 3],
}

/// A quad of the window.
#[derive(Clone, Copy, Debug, PartialEq, Eq, Structural)]
pub enum PopoutQuad {
    Border,
    Fill,
    /// The selection in a row, from its first column to its last.
    Selection(usize, usize, usize),
    Cursor(usize, usize),
    MenuBorder,
    MenuFill,
    MenuHover(usize),
    MenuRule(usize),
    StripBorder,
    StripFill,
    ControlBorder,
    ControlFill,
    Halo(usize),
    Button(usize),
}

/// A text of the window.
#[derive(Clone, Copy, Debug, PartialEq, Eq, Structural)]
pub enum PopoutArea {
    Strip,
    Menu,
    Terminal,
}

/// What the window is made of; the first quads are drawn under the text, and the others over it.
#[derive(Debug)]
pub struct PopoutPlan {
    pub quads: Vec<PopoutQuad>,
    pub under: usize,
    pub areas: Vec<PopoutArea>,
}

/// The columns that are selected in a row.
pub open spec fn selected_in(sel: (Place, Place), row: int, cols: int) -> PopoutQuad {
    let (from, to) = forward(sel);
    PopoutQuad::Selection(
        row as usize,
        if row == from.0 {
            from.1
        } else {
            0
        },
        if row == to.0 {
            to.1
        } else if cols == 0 {
            0
        } else {
            (cols - 1) as usize
        },
    )
}

/// The selection in the first `n` of its rows that are drawn.
pub open spec fn selected_rows(sel: (Place, Place), s: PopoutSight, n: int) -> Seq<PopoutQuad>
    decreases n,
{
    if n <= 0 {
        Seq::empty()
    } else {
        selected_rows(sel, s, n - 1) + only(
            s.rows@[n - 1],
            selected_in(sel, forward(sel).0.0 + n - 1, s.cols as int),
        )
    }
}

/// The rules of a menu.
pub open spec fn menu_rules(separators: Seq<usize>) -> Seq<PopoutQuad> {
    Seq::new(separators.len(), |i: int| PopoutQuad::MenuRule(separators[i]))
}

/// The buttons, each behind its halo where it is lit up.
pub open spec fn buttons(lit: [bool; 3]) -> Seq<PopoutQuad> {
    only(lit@[0], PopoutQuad::Halo(0)) + seq![PopoutQuad::Button(0)] + only(
        lit@[1],
        PopoutQuad::Halo(1),
    ) + seq![PopoutQuad::Button(1)] + only(lit@[2], PopoutQuad::Halo(2)) + seq![PopoutQuad::Button(2)]
}

impl Menu {
    /// The quads of the menu.
    pub open spec fn quads(self) -> Seq<PopoutQuad> {
        if self.active {
            seq![PopoutQuad::MenuBorder, PopoutQuad::MenuFill] + match self.hover {
                Some(row) => seq![PopoutQuad::MenuHover(row)],
                None => Seq::empty(),
            } + menu_rules(self.separators@)
        } else {
            Seq::empty()
        }
    }

    fn push_quads(&self, out: &mut Vec<PopoutQuad>)
        ensures
            final(out)@ == old(out)@ + self.quads(),
    {
        if self.active {
            out.push(PopoutQuad::MenuBorder);
            out.push(PopoutQuad::MenuFill);
            if let Some(row) = self.hover {
                out.push(PopoutQuad::MenuHover(row));
            }
            let ghost before = out@;
            for i in 0..self.separators.len()
                invariant
                    out@ == before + menu_rules(self.separators@).take(i as int),
            {
                out.push(PopoutQuad::MenuRule(self.separators[i]));
                assert(out@ =~= before + menu_rules(self.separators@).take(i + 1));
            }
            assert(menu_rules(self.separators@).take(self.separators@.len() as int) =~= menu_rules(
                self.separators@,
            ));
        }
        assert(out@ =~= old(out)@ + self.quads());
    }
}

impl PopoutWindow {
    /// A window of this size with nothing in it.
    pub fn new(width: u32, height: u32) -> (r: Self)
        ensures
            r.menu.separators@.len() == 0,
            r == (PopoutWindow {
                width: at_least_one(width),
                height: at_least_one(height),
                cursor: None,
                hover: None,
                sel: None,
                selecting: false,
                overlay: false,
                menu: Menu { active: false, rows: 0, hover: None, separators: r.menu.separators },
            }),
    {
        PopoutWindow {
            width: if width == 0 {
                1
            } else {
                width
            },
            height: if height == 0 {
                1
            } else {
                height
            },
            cursor: None,
            hover: None,
            sel: None,
            selecting: false,
            overlay: false,
            menu: Menu { active: false, rows: 0, hover: None, separators: Vec::new() },
        }
    }

    /// Another size.
    pub fn resize(&mut self, width: u32, height: u32)
        ensures
            *final(self) == (PopoutWindow {
                width: at_least_one(width),
                height: at_least_one(height),
                ..*old(self)
            }),
    {
        self.width = if width == 0 {
            1
        } else {
            width
        };
        self.height = if height == 0 {
            1
        } else {
            height
        };
    }

    /// The button under the pointer; whether it is another one.
    pub fn set_hover(&mut self, button: Option<usize>) -> (r: bool)
        ensures
            r == (old(self).hover != button),
            *final(self) == (PopoutWindow { hover: button, ..*old(self) }),
    {
        let same_one = match (self.hover, button) {
            (Some(a), Some(b)) => a == b,
            (None, None) => true,
            _ => false,
        };
        self.hover = button;
        !same_one
    }

    /// The window after a press on the grid, or off it.
    pub open spec fn begun(self, cell: Option<Place>) -> PopoutWindow {
        PopoutWindow {
            sel: match cell {
                Some(c) => Some((c, c)),
                None => None,
            },
            selecting: cell is Some,
            ..self
        }
    }

    /// The window after a drag on the grid.
    pub open spec fn extended(self, cell: Option<Place>) -> PopoutWindow {
        PopoutWindow {
            sel: match (cell, self.sel) {
                (Some(c), Some((a, b))) if self.selecting && b != c => Some((a, c)),
                _ => self.sel,
            },
            ..self
        }
    }

    /// The window after the end of a drag.
    pub open spec fn ended(self) -> PopoutWindow {
        PopoutWindow {
            selecting: false,
            sel: match self.sel {
                Some((a, b)) if a == b => None,
                _ => self.sel,
            },
            ..self
        }
    }

    /// A press on the grid, or off it: the selection begins there, and the one before it goes.
    pub fn begin_selection(&mut self, cell: Option<Place>)
        ensures
            *final(self) == old(self).begun(cell),
    {
        self.sel = match cell {
            Some(c) => Some((c, c)),
            None => None,
        };
        self.selecting = cell.is_some();
    }

    /// A drag on the grid: the selection ends there; whether it changed.
    pub fn extend_selection(&mut self, cell: Option<Place>) -> (r: bool)
        ensures
            r == (old(self).selecting && cell is Some && old(self).sel is Some && (old(self).sel->0).1
                != cell->0),
            *final(self) == old(self).extended(cell),
    {
        if !self.selecting {
            return false;
        }
        match (cell, self.sel) {
            (Some(c), Some((anchor, head))) => if head.0 != c.0 || head.1 != c.1 {
                self.sel = Some((anchor, c));
                true
            } else {
                false
            },
            _ => false,
        }
    }

    /// The end of a drag; a press that went nowhere leaves nothing selected. Whether it changed.
    pub fn end_selection(&mut self) -> (r: bool)
        ensures
            r == (old(self).sel matches Some((a, b)) && a == b),
            *final(self) == old(self).ended(),
    {
        self.selecting = false;
        match self.sel {
            Some((a, b)) => if a.0 == b.0 && a.1 == b.1 {
                self.sel = None;
                true
            } else {
                false
            },
            None => false,
        }
    }

    /// What is selected, where it is more than one place.
    pub open spec fn selected(self) -> Option<(Place, Place)> {
        match self.sel {
            Some((a, b)) if a != b => Some((a, b)),
            _ => None,
        }
    }

    /// What is selected, where it is more than one place.
    pub fn selection(&self) -> (r: Option<(Place, Place)>)
        ensures
            r == self.selected(),
    {
        match self.sel {
            Some((a, b)) => if a.0 == b.0 && a.1 == b.1 {
                None
            } else {
                Some((a, b))
            },
            None => None,
        }
    }

    /// Drops the selection; whether there was one.
    pub fn clear_selection(&mut self) -> (r: bool)
        ensures
            r == old(self).sel is Some,
            *final(self) == (PopoutWindow { sel: None, ..*old(self) }),
    {
        let there = self.sel.is_some();
        self.sel = None;
        there
    }

    /// Opens the menu with these rows: its text, and how many characters its longest row has.
    pub fn set_context_menu(&mut self, labels: &Vec<String>) -> (r: (String, usize))
        ensures
            r.0@ == separated(texts(labels@), "\n"@),
            labels@.len() == 0 ==> r.1 == 1,
            labels@.len() > 0 ==> exists|i: int| 0 <= i < labels@.len() && (#[trigger] labels@[i])@.len() == r.1,
            forall|i: int| 0 <= i < labels@.len() ==> (#[trigger] labels@[i])@.len() <= r.1,
            final(self).menu.separators@.len() == 0,
            *final(self) == (PopoutWindow {
                menu: Menu {
                    active: labels@.len() > 0,
                    rows: labels.len(),
                    hover: None,
                    separators: final(self).menu.separators,
                },
                ..*old(self)
            }),
    {
        self.menu = Menu {
            active: labels.len() > 0,
            rows: labels.len(),
            hover: None,
            separators: Vec::new(),
        };
        let mut most: usize = 0;
        for i in 0..labels.len()
            invariant
                i == 0 ==> most == 0,
                i > 0 ==> exists|k: int| 0 <= k < i && (#[trigger] labels@[k])@.len() == most,
                forall|k: int| 0 <= k < i ==> (#[trigger] labels@[k])@.len() <= most,
        {
            let n = chars_of(&labels[i]).len();
            if i == 0 || n > most {
                most = n;
                assert(labels@[i as int]@.len() == most);
            }
        }
        if labels.len() == 0 {
            most = 1;
        }
        (separate(labels, "\n"), most)
    }

    /// Closes the menu; whether it was open.
    pub fn clear_context_menu(&mut self) -> (r: bool)
        ensures
            r == old(self).menu.active,
            *final(self) == (PopoutWindow {
                menu: Menu {
                    active: false,
                    hover: if r {
                        None
                    } else {
                        old(self).menu.hover
                    },
                    ..old(self).menu
                },
                ..*old(self)
            }),
    {
        if self.menu.active {
            self.menu.active = false;
            self.menu.hover = None;
            true
        } else {
            false
        }
    }

    /// The rows of the menu below which a rule is drawn.
    pub fn set_context_separators(&mut self, separators: Vec<usize>)
        ensures
            *final(self) == (PopoutWindow { menu: Menu { separators, ..old(self).menu }, ..*old(self) }),
    {
        self.menu.separators = separators;
    }

    /// Whether the menu is open.
    pub fn context_menu_active(&self) -> (r: bool)
        ensures
            r == self.menu.active,
    {
        self.menu.active
    }

    /// The row of the open menu.
    pub fn context_menu_row_at(&self, row: usize) -> (r: Option<usize>)
        ensures
            r == (if self.menu.active && row < self.menu.rows {
                Some(row)
            } else {
                None
            }),
    {
        if self.menu.active && row < self.menu.rows {
            Some(row)
        } else {
            None
        }
    }

    /// The row of the menu under the pointer; whether it is another one.
    pub fn set_context_menu_hover(&mut self, hover: Option<usize>) -> (r: bool)
        ensures
            r == (old(self).menu.hover != hover),
            *final(self) == (PopoutWindow { menu: Menu { hover, ..old(self).menu }, ..*old(self) }),
    {
        let same_one = match (self.menu.hover, hover) {
            (Some(a), Some(b)) => a == b,
            (None, None) => true,
            _ => false,
        };
        self.menu.hover = hover;
        !same_one
    }

    /// Shows the strip with the input, or no more.
    pub fn set_overlay_text(&mut self, shown: bool)
        ensures
            *final(self) == (PopoutWindow { overlay: shown, ..*old(self) }),
    {
        self.overlay = shown;
    }

    /// Of each selected row it is said whether it is drawn.
    pub open spec fn seen(self, s: PopoutSight) -> bool {
        self.selected() matches Some(sel) ==> s.rows@.len() == forward(sel).1.0 - forward(sel).0.0 + 1
    }

    /// The quads of the selection.
    pub open spec fn selection_quads(self, s: PopoutSight) -> Seq<PopoutQuad> {
        match self.selected() {
            Some(sel) => selected_rows(sel, s, s.rows@.len() as int),
            None => Seq::empty(),
        }
    }

    /// The quad of the cursor.
    pub open spec fn cursor_quads(self, s: PopoutSight) -> Seq<PopoutQuad> {
        match self.cursor {
            Some((row, col)) => only(s.cursor, PopoutQuad::Cursor(row, col)),
            None => Seq::empty(),
        }
    }

    /// The quads of the strip.
    pub open spec fn strip_quads(self) -> Seq<PopoutQuad> {
        if self.overlay {
            seq![PopoutQuad::StripBorder, PopoutQuad::StripFill]
        } else {
            Seq::empty()
        }
    }

    /// The quads under the text.
    pub open spec fn under_quads(self, s: PopoutSight) -> Seq<PopoutQuad> {
        seq![PopoutQuad::Border, PopoutQuad::Fill] + self.selection_quads(s) + self.cursor_quads(s)
            + self.menu.quads() + self.strip_quads()
    }

    /// The quads over the text.
    pub open spec fn over_quads(self, s: PopoutSight) -> Seq<PopoutQuad> {
        seq![PopoutQuad::ControlBorder, PopoutQuad::ControlFill] + buttons(s.lit)
    }

    /// The texts of the window.
    pub open spec fn areas(self) -> Seq<PopoutArea> {
        only(self.overlay, PopoutArea::Strip) + only(self.menu.active, PopoutArea::Menu) + seq![
            PopoutArea::Terminal,
        ]
    }

    fn push_selection(&self, s: &PopoutSight, out: &mut Vec<PopoutQuad>)
        requires
            self.seen(*s),
        ensures
            final(out)@ == old(out)@ + self.selection_quads(*s),
    {
        let ghost before = out@;
        match self.selection() {
            Some((a, b)) => {
                let ghost sel = (a, b);
                let (from, to) = if a.0 < b.0 || (a.0 == b.0 && a.1 <= b.1) {
                    (a, b)
                } else {
                    (b, a)
                };
                assert((from, to) == forward(sel));
                assert(before + selected_rows(sel, *s, 0) =~= before);
                for i in 0..s.rows.len()
                    invariant
                        (from, to) == forward(sel),
                        s.rows@.len() == to.0 - from.0 + 1,
                        out@ == before + selected_rows(sel, *s, i as int),
                {
                    if s.rows[i] {
                        let row: usize = from.0 + i;
                        let first = if row == from.0 {
                            from.1
                        } else {
                            0
                        };
                        let last = if row == to.0 {
                            to.1
                        } else if s.cols == 0 {
                            0
                        } else {
                            s.cols - 1
                        };
                        out.push(PopoutQuad::Selection(row, first, last));
                    }
                    assert(out@ =~= before + selected_rows(sel, *s, i + 1));
                }
            },
            None => {
                assert(out@ =~= before + Seq::<PopoutQuad>::empty());
            },
        }
    }

    fn push_buttons(lit: &[bool; 3], out: &mut Vec<PopoutQuad>)
        ensures
            final(out)@ == old(out)@ + buttons(*lit),
    {
        if lit[0] {
            out.push(PopoutQuad::Halo(0));
        }
        out.push(PopoutQuad::Button(0));
        if lit[1] {
            out.push(PopoutQuad::Halo(1));
        }
        out.push(PopoutQuad::Button(1));
        if lit[2] {
            out.push(PopoutQuad::Halo(2));
        }
        out.push(PopoutQuad::Button(2));
        assert(out@ =~= old(out)@ + buttons(*lit));
    }

    fn push_cursor(&self, s: &PopoutSight, out: &mut Vec<PopoutQuad>)
        ensures
            final(out)@ == old(out)@ + self.cursor_quads(*s),
    {
        if let Some((row, col)) = self.cursor {
            if s.cursor {
                out.push(PopoutQuad::Cursor(row, col));
            }
        }
        assert(out@ =~= old(out)@ + self.cursor_quads(*s));
    }

    fn push_strip(&self, out: &mut Vec<PopoutQuad>)
        ensures
            final(out)@ == old(out)@ + self.strip_quads(),
    {
        if self.overlay {
            out.push(PopoutQuad::StripBorder);
            out.push(PopoutQuad::StripFill);
        }
        assert(out@ =~= old(out)@ + self.strip_quads());
    }

    fn push_over(&self, s: &PopoutSight, out: &mut Vec<PopoutQuad>)
        ensures
            final(out)@ == old(out)@ + self.over_quads(*s),
    {
        out.push(PopoutQuad::ControlBorder);
        out.push(PopoutQuad::ControlFill);
        Self::push_buttons(&s.lit, out);
        assert(out@ =~= old(out)@ + self.over_quads(*s));
    }

    fn text_areas(&self) -> (r: Vec<PopoutArea>)
        ensures
            r@ == self.areas(),
    {
        let mut areas: Vec<PopoutArea> = Vec::new();
        if self.overlay {
            areas.push(PopoutArea::Strip);
        }
        if self.menu.active {
            areas.push(PopoutArea::Menu);
        }
        areas.push(PopoutArea::Terminal);
        assert(areas@ =~= self.areas());
        areas
    }

    /// What the window is made of: everything of the terminal under the text, and the buttons over
    /// it.
    pub fn render(&self, s: &PopoutSight) -> (r: PopoutPlan)
        requires
            self.seen(*s),
        ensures
            r.quads@ == self.under_quads(*s) + self.over_quads(*s),
            r.under == self.under_quads(*s).len(),
            r.areas@ == self.areas(),
    {
        let mut quads: Vec<PopoutQuad> = Vec::new();
        quads.push(PopoutQuad::Border);
        quads.push(PopoutQuad::Fill);
        assert(quads@ =~= seq![PopoutQuad::Border, PopoutQuad::Fill]);
        self.push_selection(s, &mut quads);
        self.push_cursor(s, &mut quads);
        self.menu.push_quads(&mut quads);
        self.push_strip(&mut quads);
        let under = quads.len();
        self.push_over(s, &mut quads);
        PopoutPlan { quads, under, areas: self.text_areas() }
    }
}

/// A selection is the same whichever way it was dragged, and goes from its first place to its
/// last.
pub proof fn drags_select(a: Place, b: Place)
    ensures
        forward((a, b)) == forward((b, a)),
        not_behind(forward((a, b)).0, forward((a, b)).1),
{
}

// --- text by styles ---

/// A stretch of bytes of a text, in the style at a place of some, or in none.
#[derive(Clone, Copy, Debug, PartialEq, Eq, Structural)]
pub struct Segment {
    pub from: usize,
    pub to: usize,
    pub style: Option<usize>,
}

/// Whether a character begins, or the text ends, at a byte.
pub open spec fn at_char(text: Seq<char>, at: int) -> bool {
    exists|k: int| 0 <= k <= text.len() && #[trigger] byte_len(text.take(k)) == at
}

/// Whether some bytes are characters of the text.
pub open spec fn is_slice(text: Seq<char>, from: int, to: int) -> bool {
    from <= to && at_char(text, from) && at_char(text, to)
}

/// Where the first `n` styles end.
pub open spec fn styled_to(spans: Seq<TerminalSpan>, n: int) -> usize {
    if n <= 0 {
        0
    } else {
        spans[n - 1].end
    }
}

/// A text up to the end of the first `n` styles: each style, and what is between two.
pub open spec fn styled(text: Seq<char>, spans: Seq<TerminalSpan>, n: int) -> Seq<Segment>
    decreases n,
{
    if n <= 0 {
        Seq::empty()
    } else {
        let pos = styled_to(spans, n - 1);
        let span = spans[n - 1];
        styled(text, spans, n - 1) + only(
            span.start > pos && is_slice(text, pos as int, span.start as int),
            Segment { from: pos, to: span.start, style: None },
        ) + only(
            is_slice(text, span.start as int, span.end as int),
            Segment { from: span.start, to: span.end, style: Some((n - 1) as usize) },
        )
    }
}

/// A text by styles: each style, what is between two, and what is behind the last.
pub open spec fn segments_of(text: Seq<char>, spans: Seq<TerminalSpan>) -> Seq<Segment> {
    let pos = styled_to(spans, spans.len() as int);
    let end = byte_len(text) as usize;
    styled(text, spans, spans.len() as int) + only(
        is_slice(text, pos as int, end as int),
        Segment { from: pos, to: end, style: None },
    )
}

fn begins_char(text: &Vec<char>, at: usize) -> (r: bool)
    requires
        byte_len(text@) <= usize::MAX,
    ensures
        r == at_char(text@, at as int),
{
    let mut sum: usize = 0;
    assert(byte_len(text@.take(0)) == 0);
    if at == 0 {
        return true;
    }
    for i in 0..text.len()
        invariant
            byte_len(text@) <= usize::MAX,
            sum == byte_len(text@.take(i as int)),
            forall|k: int| 0 <= k <= i ==> #[trigger] byte_len(text@.take(k)) != at,
    {
        proof {
            let t = text@.take(i + 1);
            assert(t.drop_last() =~= text@.take(i as int));
            assert(t.last() == text@[i as int]);
            assert(text@ =~= t + text@.skip(i + 1));
            lemma_byte_len_concat(t, text@.skip(i + 1));
        }
        sum += width_of(text[i]);
        if sum == at {
            return true;
        }
    }
    false
}

/// A text by styles.
pub fn segments(text: &str, spans: &Vec<TerminalSpan>) -> (r: Vec<Segment>)
    ensures
        r@ == segments_of(text@, spans@),
{
    let cs = chars_of(text);
    let end = len_of(text);
    let mut out: Vec<Segment> = Vec::new();
    let mut pos: usize = 0;
    assert(out@ =~= styled(text@, spans@, 0));
    for i in 0..spans.len()
        invariant
            cs@ == text@,
            byte_len(text@) <= usize::MAX,
            pos == styled_to(spans@, i as int),
            out@ == styled(text@, spans@, i as int),
    {
        let span = spans[i];
        let ghost before = out@;
        if span.start > pos && begins_char(&cs, pos) && begins_char(&cs, span.start) {
            out.push(Segment { from: pos, to: span.start, style: None });
        }
        if span.start <= span.end && begins_char(&cs, span.start) && begins_char(&cs, span.end) {
            out.push(Segment { from: span.start, to: span.end, style: Some(i) });
        }
        assert(out@ =~= styled(text@, spans@, i + 1));
        pos = span.end;
    }
    let ghost before = out@;
    if pos <= end && begins_char(&cs, pos) && begins_char(&cs, end) {
        out.push(Segment { from: pos, to: end, style: None });
    }
    assert(out@ =~= segments_of(text@, spans@));
    out
}

/// Whether the styles stand one behind the other, each on whole characters of the text.
pub open spec fn on_text(text: Seq<char>, spans: Seq<TerminalSpan>) -> bool {
    forall|i: int|
        0 <= i < spans.len() ==> is_slice(text, (#[trigger] spans[i]).start as int, spans[i].end as int)
            && spans[i].start >= styled_to(spans, i)
}

/// Whether some stretches stand one right behind the other, from the start to `end`.
pub open spec fn tiles(s: Seq<Segment>, end: int) -> bool {
    &&& s.len() == 0 ==> end == 0
    &&& s.len() > 0 ==> s[0].from == 0 && s.last().to == end
    &&& forall|i: int| 0 <= i < s.len() - 1 ==> (#[trigger] s[i]).to == s[i + 1].from
}

proof fn lemma_tiles_push(s: Seq<Segment>, end: int, x: Segment)
    requires
        tiles(s, end),
        x.from == end,
    ensures
        tiles(s.push(x), x.to as int),
{
    let t = s.push(x);
    assert forall|i: int| 0 <= i < t.len() - 1 implies (#[trigger] t[i]).to == t[i + 1].from by {
        if i == s.len() - 1 {
            assert(t[i] == s.last());
        } else {
            assert(t[i] == s[i]);
        }
    }
}

proof fn lemma_styled_tiles(text: Seq<char>, spans: Seq<TerminalSpan>, n: int)
    requires
        on_text(text, spans),
        0 <= n <= spans.len(),
    ensures
        tiles(styled(text, spans, n), styled_to(spans, n) as int),
        at_char(text, styled_to(spans, n) as int),
    decreases n,
{
    if n == 0 {
        assert(byte_len(text.take(0)) == 0);
    } else {
        lemma_styled_tiles(text, spans, n - 1);
        let pos = styled_to(spans, n - 1);
        let span = spans[n - 1];
        let before = styled(text, spans, n - 1);
        let gap = Segment { from: pos, to: span.start, style: None };
        let own = Segment { from: span.start, to: span.end, style: Some((n - 1) as usize) };
        assert(is_slice(text, span.start as int, span.end as int));
        if span.start > pos {
            lemma_tiles_push(before, pos as int, gap);
            lemma_tiles_push(before.push(gap), span.start as int, own);
            assert(styled(text, spans, n) =~= before.push(gap).push(own));
        } else {
            lemma_tiles_push(before, pos as int, own);
            assert(styled(text, spans, n) =~= before.push(own));
        }
    }
}

/// Nothing of a text is lost or shown twice: by styles that stand on it, one behind the other, it
/// is cut into stretches that make it up.
pub proof fn segments_make_up_the_text(text: Seq<char>, spans: Seq<TerminalSpan>)
    requires
        on_text(text, spans),
        byte_len(text) <= usize::MAX,
    ensures
        tiles(segments_of(text, spans), byte_len(text) as int),
{
    let n = spans.len() as int;
    lemma_styled_tiles(text, spans, n);
    let pos = styled_to(spans, n);
    let end = byte_len(text) as usize;
    assert(text.take(text.len() as int) =~= text);
    assert(at_char(text, end as int));
    let k = choose|k: int| 0 <= k <= text.len() && #[trigger] byte_len(text.take(k)) == pos;
    assert(text =~= text.take(k) + text.skip(k));
    lemma_byte_len_concat(text.take(k), text.skip(k));
    let last = Segment { from: pos, to: end, style: None };
    lemma_tiles_push(styled(text, spans, n), pos as int, last);
    assert(segments_of(text, spans) =~= styled(text, spans, n).push(last));
}

/// A direction goes by the edges that it touches.
pub open spec fn touches(e: Edge) -> (bool, bool, bool, bool) {
    (
        e is North || e is NorthWest || e is NorthEast,
        e is South || e is SouthWest || e is SouthEast,
        e is West || e is NorthWest || e is SouthWest,
        e is East || e is NorthEast || e is SouthEast,
    )
}

/// A pointer at some edges pulls in just these directions, and away from all edges in none.
pub proof fn edges_pull_their_way(top: bool, bottom: bool, left: bool, right: bool)
    requires
        !(top && bottom),
        !(left && right),
    ensures
        edge_of(top, bottom, left, right) is None <==> !top && !bottom && !left && !right,
        edge_of(top, bottom, left, right) matches Some(e) ==> touches(e) == (top, bottom, left, right),
{
}

/// A cell is shown as selected just where it stands between the two places of the selection, in the
/// order of reading.
pub proof fn cells_between_are_selected(sel: (Place, Place), row: usize, col: usize, cols: usize)
    requires
        forward(sel).0.0 <= row <= forward(sel).1.0,
        col < cols,
    ensures
        selected_in(sel, row as int, cols as int) matches PopoutQuad::Selection(r, from, to) && r == row && ((
        from <= col <= to) <==> not_behind(forward(sel).0, (row, col)) && not_behind((row, col), forward(sel).1)),
{
}

/// Every row of the selection that is in view is shown, and no row that is not selected.
pub proof fn selected_rows_are_shown(sel: (Place, Place), s: PopoutSight, n: int, i: int)
    requires
        0 <= i < n <= s.rows@.len(),
        forward(sel).0.0 + s.rows@.len() <= usize::MAX,
    ensures
        selected_rows(sel, s, n).contains(selected_in(sel, forward(sel).0.0 + i, s.cols as int)) <==> s.rows@[i],
        selected_rows(sel, s, n).len() <= n,
        forall|k: int|
            0 <= k < selected_rows(sel, s, n).len() ==> (#[trigger] selected_rows(sel, s, n)[k] matches
            PopoutQuad::Selection(row, _, _) && forward(sel).0.0 <= row < forward(sel).0.0 + n),
    decreases n,
{
    lemma_rows_shown(sel, s, n - 1);
    let before = selected_rows(sel, s, n - 1);
    let last = selected_in(sel, forward(sel).0.0 + n - 1, s.cols as int);
    let want = selected_in(sel, forward(sel).0.0 + i, s.cols as int);
    lemma_in_both(before, only(s.rows@[n - 1], last), want);
    lemma_only(s.rows@[n - 1], last, want);
    lemma_rows_shown(sel, s, n);
    if i < n - 1 {
        selected_rows_are_shown(sel, s, n - 1, i);
        assert(want != last);
    } else {
        if before.contains(want) {
            let k = choose|k: int| 0 <= k < before.len() && before[k] == want;
            assert(before[k] matches PopoutQuad::Selection(row, _, _) && row < forward(sel).0.0 + n - 1);
        }
    }
}

proof fn lemma_rows_shown(sel: (Place, Place), s: PopoutSight, n: int)
    requires
        n <= s.rows@.len(),
        forward(sel).0.0 + s.rows@.len() <= usize::MAX,
    ensures
        selected_rows(sel, s, n).len() <= if n > 0 {
            n
        } else {
            0
        },
        forall|k: int|
            0 <= k < selected_rows(sel, s, n).len() ==> (#[trigger] selected_rows(sel, s, n)[k] matches
            PopoutQuad::Selection(row, _, _) && forward(sel).0.0 <= row < forward(sel).0.0 + n),
    decreases n,
{
    if n > 0 {
        lemma_rows_shown(sel, s, n - 1);
        let before = selected_rows(sel, s, n - 1);
        let now = selected_rows(sel, s, n);
        assert forall|k: int| 0 <= k < now.len() implies (#[trigger] now[k] matches PopoutQuad::Selection(row, _, _)
            && forward(sel).0.0 <= row < forward(sel).0.0 + n) by {
            if k < before.len() {
                assert(now[k] == before[k]);
            }
        }
    }
}

/// A stretch that has a style is shown in it.
pub proof fn styled_stretches_keep_their_style(text: Seq<char>, spans: Seq<TerminalSpan>, n: int, i: int)
    requires
        on_text(text, spans),
        0 <= i < n <= spans.len() <= usize::MAX,
    ensures
        styled(text, spans, n).contains(
            Segment { from: spans[i].start, to: spans[i].end, style: Some(i as usize) },
        ),
{
    let want = Segment { from: spans[i].start, to: spans[i].end, style: Some(i as usize) };
    assert(is_slice(text, spans[i].start as int, spans[i].end as int));
    lemma_styled_grows(text, spans, i + 1, want);
    lemma_styled_stays(text, spans, i + 1, n, want);
}

proof fn lemma_styled_stays(text: Seq<char>, spans: Seq<TerminalSpan>, k: int, n: int, x: Segment)
    requires
        0 <= k <= n <= spans.len() <= usize::MAX,
        styled(text, spans, k).contains(x),
    ensures
        styled(text, spans, n).contains(x),
    decreases n,
{
    if k < n {
        lemma_styled_stays(text, spans, k, n - 1, x);
        lemma_styled_grows(text, spans, n, x);
    }
}

proof fn lemma_styled_grows(text: Seq<char>, spans: Seq<TerminalSpan>, n: int, x: Segment)
    requires
        0 < n <= spans.len() <= usize::MAX,
    ensures
        styled(text, spans, n - 1).contains(x) ==> styled(text, spans, n).contains(x),
        is_slice(text, spans[n - 1].start as int, spans[n - 1].end as int) && x == (Segment {
            from: spans[n - 1].start,
            to: spans[n - 1].end,
            style: Some((n - 1) as usize),
        }) ==> styled(text, spans, n).contains(x),
{
    let span = spans[n - 1];
    let pos = styled_to(spans, n - 1);
    let a = span.start > pos && is_slice(text, pos as int, span.start as int);
    let b = is_slice(text, span.start as int, span.end as int);
    let before = styled(text, spans, n - 1);
    let gap = only(a, Segment { from: pos, to: span.start, style: None });
    let last = Segment { from: span.start, to: span.end, style: Some((n - 1) as usize) };
    let own = only(b, last);
    assert(styled(text, spans, n) == before + gap + own);
    lemma_in_both(before, gap, x);
    lemma_in_both(before + gap, own, x);
    lemma_only(b, last, x);
}

/// A place is moved to the nearest there is.
pub proof fn places_are_moved_to_the_nearest(at: int, n: int)
    requires
        0 <= at,
        0 < n,
    ensures
        0 <= nearest(at, n) < n,
        at < n ==> nearest(at, n) == at,
        at >= n ==> nearest(at, n) == n - 1,
        nearest(at, 0) == 0,
{
}

/// A drag selects from where it began to where it ends, by whatever way it went; a press alone selects
/// nothing, and the pointer without a press held selects nothing either.
pub proof fn drags_select_from_press_to_end(w: PopoutWindow, a: Place, by: Place, b: Place)
    ensures
        ({
            let dragged = w.begun(Some(a)).extended(Some(by)).extended(Some(b)).ended();
            &&& a != b ==> dragged.selected() == Some((a, b))
            &&& a == b ==> dragged.selected() is None && dragged.sel is None
            &&& !dragged.selecting
            &&& dragged.extended(Some(by)) == dragged
            &&& w.begun(Some(a)).ended().selected() is None
            &&& w.begun(None).selected() is None
            &&& w.begun(None).extended(Some(b)).selected() is None
        }),
{
}

proof fn lemma_selection_quads(w: PopoutWindow, s: PopoutSight, q: PopoutQuad)
    requires
        !(q is Selection),
    ensures
        !w.selection_quads(s).contains(q),
{
    if let Some(sel) = w.selected() {
        lemma_only_selections(sel, s, s.rows@.len() as int);
        let rows = selected_rows(sel, s, s.rows@.len() as int);
        if rows.contains(q) {
            let k = choose|k: int| 0 <= k < rows.len() && rows[k] == q;
            assert(rows[k] is Selection);
        }
    }
}

proof fn lemma_only_selections(sel: (Place, Place), s: PopoutSight, n: int)
    ensures
        forall|k: int| 0 <= k < selected_rows(sel, s, n).len() ==> #[trigger] selected_rows(sel, s, n)[k] is Selection,
    decreases n,
{
    if n > 0 {
        lemma_only_selections(sel, s, n - 1);
        let before = selected_rows(sel, s, n - 1);
        let now = selected_rows(sel, s, n);
        assert forall|k: int| 0 <= k < now.len() implies #[trigger] now[k] is Selection by {
            if k < before.len() {
                assert(now[k] == before[k]);
            }
        }
    }
}

proof fn lemma_menu_quads(m: Menu, q: PopoutQuad)
    ensures
        m.quads().contains(q) <==> m.active && (q is MenuBorder || q is MenuFill || (m.hover is Some && q
            == PopoutQuad::MenuHover(m.hover->0)) || (q matches PopoutQuad::MenuRule(row)
            && m.separators@.contains(row))),
{
    let head = seq![PopoutQuad::MenuBorder, PopoutQuad::MenuFill];
    let hover = match m.hover {
        Some(row) => seq![PopoutQuad::MenuHover(row)],
        None => Seq::empty(),
    };
    let rules = menu_rules(m.separators@);
    let none = Seq::<PopoutQuad>::empty();
    assert(!none.contains(q));
    lemma_in_both(head, hover, q);
    lemma_in_both(head + hover, rules, q);
    assert(head.contains(q) <==> q is MenuBorder || q is MenuFill) by {
        assert(head[0] == PopoutQuad::MenuBorder && head[1] == PopoutQuad::MenuFill);
    }
    if let Some(row) = m.hover {
        lemma_only(true, PopoutQuad::MenuHover(row), q);
    }
    if rules.contains(q) {
        let k = choose|k: int| 0 <= k < rules.len() && rules[k] == q;
        assert(m.separators@[k] == q->MenuRule_0);
    }
    if let PopoutQuad::MenuRule(row) = q {
        if m.separators@.contains(row) {
            let k = choose|k: int| 0 <= k < m.separators@.len() && m.separators@[k] == row;
            assert(rules[k] == q);
        }
    }
}

/// The window draws what is there, and nothing else: its border, the cursor where it is in sight, the
/// open menu with the row under the pointer and its rules, and the strip where it is shown.
pub proof fn what_is_there_is_drawn(w: PopoutWindow, s: PopoutSight, row: usize, col: usize)
    ensures
        ({
            let q = w.under_quads(s);
            &&& q.contains(PopoutQuad::Border) && q.contains(PopoutQuad::Fill)
            &&& q.contains(PopoutQuad::Cursor(row, col)) <==> s.cursor && w.cursor == Some((row, col))
            &&& q.contains(PopoutQuad::MenuBorder) <==> w.menu.active
            &&& q.contains(PopoutQuad::MenuHover(row)) <==> w.menu.active && w.menu.hover == Some(row)
            &&& q.contains(PopoutQuad::MenuRule(row)) <==> w.menu.active && w.menu.separators@.contains(row)
            &&& q.contains(PopoutQuad::StripBorder) <==> w.overlay
            &&& q.contains(PopoutQuad::StripFill) <==> w.overlay
        }),
{
    lemma_under(w, s, PopoutQuad::Border);
    lemma_under(w, s, PopoutQuad::Fill);
    lemma_under(w, s, PopoutQuad::Cursor(row, col));
    lemma_under(w, s, PopoutQuad::MenuBorder);
    lemma_under(w, s, PopoutQuad::MenuHover(row));
    lemma_under(w, s, PopoutQuad::MenuRule(row));
    lemma_under(w, s, PopoutQuad::StripBorder);
    lemma_under(w, s, PopoutQuad::StripFill);
}

proof fn lemma_under(w: PopoutWindow, s: PopoutSight, q: PopoutQuad)
    requires
        !(q is Selection),
    ensures
        w.under_quads(s).contains(q) <==> {
            ||| q is Border || q is Fill
            ||| s.cursor && (w.cursor matches Some((row, col)) && q == PopoutQuad::Cursor(row, col))
            ||| w.menu.active && (q is MenuBorder || q is MenuFill || (w.menu.hover is Some && q
                == PopoutQuad::MenuHover(w.menu.hover->0)) || (q matches PopoutQuad::MenuRule(row)
                && w.menu.separators@.contains(row)))
            ||| w.overlay && (q is StripBorder || q is StripFill)
        },
{
    let a = seq![PopoutQuad::Border, PopoutQuad::Fill];
    let b = w.selection_quads(s);
    let c = w.cursor_quads(s);
    let d = w.menu.quads();
    let e = w.strip_quads();
    let none = Seq::<PopoutQuad>::empty();
    assert(!none.contains(q));
    lemma_in_both(a, b, q);
    lemma_in_both(a + b, c, q);
    lemma_in_both(a + b + c, d, q);
    lemma_in_both(a + b + c + d, e, q);
    assert(a.contains(q) <==> q is Border || q is Fill) by {
        assert(a[0] == PopoutQuad::Border && a[1] == PopoutQuad::Fill);
    }
    lemma_selection_quads(w, s, q);
    if let Some((row, col)) = w.cursor {
        lemma_only(s.cursor, PopoutQuad::Cursor(row, col), q);
    }
    lemma_menu_quads(w.menu, q);
    let strip = seq![PopoutQuad::StripBorder, PopoutQuad::StripFill];
    assert(strip.contains(q) <==> q is StripBorder || q is StripFill) by {
        assert(strip[0] == PopoutQuad::StripBorder && strip[1] == PopoutQuad::StripFill);
    }
}

/// The three buttons are always drawn, each behind a halo of its own while it is lit.
pub proof fn lit_buttons_have_halos(w: PopoutWindow, s: PopoutSight, i: usize)
    requires
        i < 3,
    ensures
        w.over_quads(s).contains(PopoutQuad::Button(i)),
        w.over_quads(s).contains(PopoutQuad::Halo(i)) <==> s.lit@[i as int],
        w.over_quads(s).contains(PopoutQuad::ControlBorder) && w.over_quads(s).contains(PopoutQuad::ControlFill),
{
    lemma_over(w, s, PopoutQuad::Button(i));
    lemma_over(w, s, PopoutQuad::Halo(i));
    lemma_over(w, s, PopoutQuad::ControlBorder);
    lemma_over(w, s, PopoutQuad::ControlFill);
}

proof fn lemma_over(w: PopoutWindow, s: PopoutSight, q: PopoutQuad)
    ensures
        w.over_quads(s).contains(q) <==> {
            ||| q is ControlBorder || q is ControlFill
            ||| q matches PopoutQuad::Button(i) && i < 3
            ||| q matches PopoutQuad::Halo(i) && i < 3 && s.lit@[i as int]
        },
{
    let head = seq![PopoutQuad::ControlBorder, PopoutQuad::ControlFill];
    let a = only(s.lit@[0], PopoutQuad::Halo(0));
    let b = seq![PopoutQuad::Button(0)];
    let c = only(s.lit@[1], PopoutQuad::Halo(1));
    let d = seq![PopoutQuad::Button(1)];
    let e = only(s.lit@[2], PopoutQuad::Halo(2));
    let f = seq![PopoutQuad::Button(2)];
    assert(head.contains(q) <==> q is ControlBorder || q is ControlFill) by {
        assert(head[0] == PopoutQuad::ControlBorder && head[1] == PopoutQuad::ControlFill);
    }
    lemma_in_both(head, buttons(s.lit), q);
    lemma_in_both(a, b, q);
    lemma_in_both(a + b, c, q);
    lemma_in_both(a + b + c, d, q);
    lemma_in_both(a + b + c + d, e, q);
    lemma_in_both(a + b + c + d + e, f, q);
    lemma_only(s.lit@[0], PopoutQuad::Halo(0), q);
    lemma_only(true, PopoutQuad::Button(0), q);
    lemma_only(s.lit@[1], PopoutQuad::Halo(1), q);
    lemma_only(true, PopoutQuad::Button(1), q);
    lemma_only(s.lit@[2], PopoutQuad::Halo(2), q);
    lemma_only(true, PopoutQuad::Button(2), q);
}

/// The terminal is always laid out, the strip and the menu where they are shown.
pub proof fn shown_texts_are_laid_out(w: PopoutWindow)
    ensures
        w.areas().contains(PopoutArea::Terminal),
        w.areas().contains(PopoutArea::Strip) <==> w.overlay,
        w.areas().contains(PopoutArea::Menu) <==> w.menu.active,
{
    lemma_area(w, PopoutArea::Terminal);
    lemma_area(w, PopoutArea::Strip);
    lemma_area(w, PopoutArea::Menu);
}

proof fn lemma_area(w: PopoutWindow, x: PopoutArea)
    ensures
        w.areas().contains(x) <==> (w.overlay && x is Strip) || (w.menu.active && x is Menu) || x is Terminal,
{
    let a = only(w.overlay, PopoutArea::Strip);
    let b = only(w.menu.active, PopoutArea::Menu);
    let c = seq![PopoutArea::Terminal];
    lemma_in_both(a, b, x);
    lemma_in_both(a + b, c, x);
    lemma_only(w.overlay, PopoutArea::Strip, x);
    lemma_only(w.menu.active, PopoutArea::Menu, x);
    lemma_only(true, PopoutArea::Terminal, x);
}

} // verus!
