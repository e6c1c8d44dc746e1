//! What the window shows, and in what order it is drawn. Where things lie on the surface, in
//! pixels, is for the caller to say; a [`Sight`] holds what follows from it.

use vstd::prelude::*;
use crate::frame::{ScrollbarInfo, SelSpan};
use crate::git::LineChange;
use crate::latency::{banner, banner_text, kept, measured, summary_text, the_newest_samples_are_kept, LatencyRing};
use crate::overlay::OverlaySpec;
use crate::strip::{is_tab_at, lay_out, ranges, strip_text, tab_at};
use crate::order::lemma_in_both;
use crate::terminal::Rgb;
use crate::text::{column_of, push_text, same, separate, separate_column, separated, texts};

verus! {

/// How many quads the buffer of the frame has room for.
pub const QUAD_MAX: usize = 256;

/// How many of them are left to the scrollbar, the rule of the gutter and the terminal.
pub const QUAD_REST: usize = 7;

/// How many quads the buffer of the gutter's marks has room for.
pub const GIT_MARK_MAX: usize = 512;

/// How many vertices a quad has.
pub const QUAD_VERTICES: usize = 6;

/// How many vertices the buffer behind the text has room for.
pub const CHROME_VERTICES: usize = 96;

/// What the window shows.
pub struct Renderer {
    pub width: u32,
    pub height: u32,
    pub gutter_enabled: bool,
    pub latency_hud: bool,
    /// Whether the banner is to be composed anew, and how many samples it was composed from.
    pub banner_dirty: bool,
    pub last_lat_n: u64,
    pub stats_prefix: String,
    pub doc_text: String,
    pub gutter_text: String,
    pub gutter_digits: usize,
    pub cursor: Option<(usize, usize)>,
    pub scrollbar: Option<ScrollbarInfo>,
    pub selection: Vec<SelSpan>,
    pub hover: Hover,
    pub gutter_marks: Vec<(usize, LineChange)>,
    pub term: TermView,
    pub sidebar: Sidebar,
    pub strip: Strip,
    pub overlay: PageView,
    /// When the keystrokes came in that no frame has shown yet, in microseconds.
    pub pending: Vec<u64>,
    pub latency: LatencyRing,
}

/// What is under the pointer: where the word is, what it was when it was last shaped, and the line.
pub struct Hover {
    pub word: Option<(usize, usize)>,
    pub text: String,
    pub line: Option<usize>,
}

/// The terminal.
pub struct TermView {
    pub open: bool,
    pub focused: bool,
    pub maximized: bool,
    pub text: String,
    pub cursor: Option<(usize, usize)>,
}

/// The sidebar and its tabs, a label to a row.
pub struct Sidebar {
    pub enabled: bool,
    pub expanded: bool,
    pub hover: Option<usize>,
    pub active: Option<usize>,
    pub tabs_text: String,
    pub tab_count: usize,
}

/// The strip of tabs, and the columns of each.
pub struct Strip {
    pub text: String,
    pub layout: Vec<(usize, usize)>,
    pub active: usize,
}

/// The page that is open, or was last.
#[derive(Clone, Copy, Debug, PartialEq, Eq, Structural)]
pub struct PageView {
    pub active: bool,
    pub has_title: bool,
    pub has_input: bool,
    pub has_hint: bool,
    pub row_count: usize,
    pub selected: Option<usize>,
    pub left_color: Rgb,
    pub right_color: Rgb,
    pub split_percent: u32,
}

/// No page.
pub open spec fn no_page() -> PageView {
    PageView {
        active: false,
        has_title: false,
        has_input: false,
        has_hint: false,
        row_count: 0,
        selected: None,
        left_color: Rgb { r: 220, g: 220, b: 220 },
        right_color: Rgb { r: 150, g: 150, b: 150 },
        split_percent: 50,
    }
}

/// The texts of a page, ready to be shaped.
#[derive(Debug)]
pub struct OverlayTexts {
    pub title: Option<String>,
    /// The input with the caret behind it.
    pub input: Option<String>,
    pub left: String,
    pub right: String,
    pub hint: Option<String>,
}

/// What of a frame is on the surface.
pub struct Sight {
    /// Of each selected stretch, whether it has a width and lies on the surface.
    pub selection: Vec<bool>,
    /// Of each mark of the gutter, whether it lies in the document.
    pub marks: Vec<bool>,
    pub hover_word: bool,
    pub cursor: bool,
    /// How many lines fit in the document.
    pub visible: usize,
    /// Whether the document has a height.
    pub rule: bool,
    pub hover_line: bool,
    pub term_cursor: bool,
    pub highlight: bool,
    /// Whether the sidebar has a width.
    pub sidebar: bool,
}

/// A quad of the frame.
#[derive(Clone, Copy, Debug, PartialEq, Eq, Structural)]
pub enum Quad {
    Selection(SelSpan),
    Track,
    Thumb,
    /// The rule between the gutter and the document, and the line of it that is lit up.
    Rule,
    RuleLine(usize),
    /// The border of the terminal; whether the terminal has the focus.
    TermBorder(bool),
    TermCursor(usize, usize),
    Dim,
    Panel,
    InputBox,
    Highlight(usize),
}

/// A quad behind the text.
#[derive(Clone, Copy, Debug, PartialEq, Eq, Structural)]
pub enum Chrome {
    Sidebar,
    SidebarHover(usize),
    SidebarActive(usize),
    SidebarAccent(usize),
    Strip,
    StripActive(usize, usize),
    SideSeam,
    TopSeam,
    TermBack,
}

/// A text of the frame.
#[derive(Clone, Copy, Debug, PartialEq, Eq, Structural)]
pub enum Area {
    Sidebar,
    Banner,
    Strip,
    Gutter,
    Document,
    Terminal,
    HoverWord,
    Cursor,
}

/// A text of the open page.
#[derive(Clone, Copy, Debug, PartialEq, Eq, Structural)]
pub enum OverlayArea {
    Title,
    Input,
    Left,
    Right,
    Hint,
}

/// One step of drawing; vertices are counted, the last excluded.
#[derive(Clone, Copy, Debug, PartialEq, Eq, Structural)]
pub enum Pass {
    /// Vertices of the frame's quads.
    Quads(usize, usize),
    /// The first vertices of the quads behind the text.
    Chrome(usize),
    Text,
    /// The first vertices of the gutter's marks.
    Marks(usize),
    OverlayText,
}

/// What a frame is made of.
#[derive(Debug)]
pub struct Plan {
    pub areas: Vec<Area>,
    pub overlay_areas: Vec<OverlayArea>,
    pub quads: Vec<Quad>,
    pub chrome: Vec<Chrome>,
    pub marks: Vec<(usize, LineChange)>,
    pub passes: Vec<Pass>,
}

/// The stretches that are drawn of the first `n`.
pub open spec fn drawn_spans(spans: Seq<SelSpan>, drawn: Seq<bool>, n: int) -> Seq<Quad>
    decreases n,
{
    if n <= 0 {
        Seq::empty()
    } else if drawn[n - 1] {
        drawn_spans(spans, drawn, n - 1).push(Quad::Selection(spans[n - 1]))
    } else {
        drawn_spans(spans, drawn, n - 1)
    }
}

/// The marks that are drawn of the first `n`.
pub open spec fn drawn_marks(marks: Seq<(usize, LineChange)>, drawn: Seq<bool>, n: int) -> Seq<(usize, LineChange)>
    decreases n,
{
    if n <= 0 {
        Seq::empty()
    } else if drawn[n - 1] {
        drawn_marks(marks, drawn, n - 1).push(marks[n - 1])
    } else {
        drawn_marks(marks, drawn, n - 1)
    }
}

/// `x` alone, or nothing.
pub open spec fn only<T>(there: bool, x: T) -> Seq<T> {
    if there {
        seq![x]
    } else {
        Seq::empty()
    }
}

/// A pass over `n` quads behind the first `from`, where there are any.
pub open spec fn range_pass(from: int, n: int) -> Seq<Pass> {
    only(n > 0, Pass::Quads((from * 6) as usize, ((from + n) * 6) as usize))
}

/// The samples once those of `pending` were added, all of which were on the screen at `now`.
pub open spec fn shown_at(samples: Seq<u32>, pending: Seq<u64>, now: u64) -> Seq<u32>
    decreases pending.len(),
{
    if pending.len() == 0 {
        samples
    } else {
        let d = if now >= pending.last() {
            now - pending.last()
        } else {
            0
        };
        kept(
            shown_at(samples, pending.drop_last(), now).push(
                if d <= u32::MAX {
                    d as u32
                } else {
                    u32::MAX
                },
            ),
        )
    }
}

impl Renderer {
    /// The samples are in order.
    pub open spec fn wf(self) -> bool {
        self.latency.wf()
    }

    /// The selection that is drawn: nothing of it under a page.
    pub open spec fn selection_quads(self, s: Sight) -> Seq<Quad> {
        if self.overlay.active {
            Seq::empty()
        } else {
            let n = if self.selection@.len() < QUAD_MAX - QUAD_REST {
                self.selection@.len() as int
            } else {
                QUAD_MAX - QUAD_REST
            };
            drawn_spans(self.selection@, s.selection@, n)
        }
    }

    /// The scrollbar that is drawn, where there is more than fits and no page is open.
    pub open spec fn bar_quads(self, s: Sight) -> Seq<Quad> {
        match self.scrollbar {
            Some(b) if !self.overlay.active && s.visible > 0 && b.total_lines > s.visible => seq![
                Quad::Track,
                Quad::Thumb,
            ],
            _ => Seq::empty(),
        }
    }

    /// Whether the gutter has anything to show.
    pub open spec fn has_gutter(self) -> bool {
        self.gutter_enabled && self.gutter_digits > 0
    }

    /// The rule of the gutter that is drawn, and the line under the pointer on it.
    pub open spec fn rule_quads(self, s: Sight) -> Seq<Quad> {
        if !self.overlay.active && self.has_gutter() {
            only(s.rule, Quad::Rule) + match self.hover.line {
                Some(line) => only(s.hover_line, Quad::RuleLine(line)),
                None => Seq::empty(),
            }
        } else {
            Seq::empty()
        }
    }

    /// What is drawn over the terminal.
    pub open spec fn term_quads(self, s: Sight) -> Seq<Quad> {
        if self.term.open {
            seq![Quad::TermBorder(self.term.focused)] + match self.term.cursor {
                Some((row, col)) => only(
                    !self.overlay.active && s.term_cursor,
                    Quad::TermCursor(row, col),
                ),
                None => Seq::empty(),
            }
        } else {
            Seq::empty()
        }
    }

    /// What is drawn under the texts of a page.
    pub open spec fn overlay_quads(self, s: Sight) -> Seq<Quad> {
        if self.overlay.active {
            seq![Quad::Dim, Quad::Panel] + only(self.overlay.has_input, Quad::InputBox) + match self.overlay.selected {
                Some(row) => only(
                    row < self.overlay.row_count && s.highlight,
                    Quad::Highlight(row),
                ),
                None => Seq::empty(),
            }
        } else {
            Seq::empty()
        }
    }

    /// All quads of the frame, in the order of their buffer.
    pub open spec fn quads(self, s: Sight) -> Seq<Quad> {
        self.selection_quads(s) + self.bar_quads(s) + self.rule_quads(s) + self.term_quads(s)
            + self.overlay_quads(s)
    }

    /// The marks of the gutter that are drawn.
    pub open spec fn marks(self, s: Sight) -> Seq<(usize, LineChange)> {
        if !self.overlay.active && self.gutter_enabled {
            let n = if self.gutter_marks@.len() < GIT_MARK_MAX {
                self.gutter_marks@.len() as int
            } else {
                GIT_MARK_MAX as int
            };
            drawn_marks(self.gutter_marks@, s.marks@, n)
        } else {
            Seq::empty()
        }
    }

    /// The columns of the active tab of the strip; none where there is no such tab.
    pub open spec fn active_range(self) -> (usize, usize) {
        if self.strip.active < self.strip.layout@.len() {
            self.strip.layout@[self.strip.active as int]
        } else {
            (0, 0)
        }
    }

    /// The sidebar behind its labels.
    pub open spec fn side_chrome(self) -> Seq<Chrome> {
        if self.sidebar.enabled {
            seq![Chrome::Sidebar] + match self.sidebar.hover {
                Some(row) => seq![Chrome::SidebarHover(row)],
                None => Seq::empty(),
            } + match self.sidebar.active {
                Some(row) => seq![Chrome::SidebarActive(row), Chrome::SidebarAccent(row)],
                None => Seq::empty(),
            }
        } else {
            Seq::empty()
        }
    }

    /// The strip behind its labels.
    pub open spec fn strip_chrome(self) -> Seq<Chrome> {
        let (from, to) = self.active_range();
        if self.strip.layout@.len() > 0 {
            seq![Chrome::Strip] + only(to > from, Chrome::StripActive(from, to))
        } else {
            Seq::empty()
        }
    }

    /// The quads behind the text.
    pub open spec fn chrome(self, s: Sight) -> Seq<Chrome> {
        self.side_chrome() + self.strip_chrome() + only(s.sidebar, Chrome::SideSeam) + seq![
            Chrome::TopSeam,
        ] + only(self.term.open, Chrome::TermBack)
    }

    /// The texts of the frame.
    pub open spec fn areas(self, s: Sight) -> Seq<Area> {
        only(self.sidebar.enabled && self.sidebar.tab_count > 0, Area::Sidebar) + seq![Area::Banner] + only(
            self.strip.layout@.len() > 0,
            Area::Strip,
        ) + only(self.has_gutter(), Area::Gutter) + seq![Area::Document] + only(
            self.term.open,
            Area::Terminal,
        ) + only(
            self.hover.word is Some && !self.overlay.active && s.hover_word,
            Area::HoverWord,
        ) + only(self.cursor is Some && s.cursor, Area::Cursor)
    }

    /// The texts of the open page.
    pub open spec fn overlay_areas(self) -> Seq<OverlayArea> {
        if self.overlay.active {
            only(self.overlay.has_title, OverlayArea::Title) + only(
                self.overlay.has_input,
                OverlayArea::Input,
            ) + seq![OverlayArea::Left, OverlayArea::Right] + only(
                self.overlay.has_hint,
                OverlayArea::Hint,
            )
        } else {
            Seq::empty()
        }
    }

    /// The steps of drawing a frame: the selection and what is behind the text, the text, what is
    /// over it, and the page over all.
    pub open spec fn passes(self, s: Sight) -> Seq<Pass> {
        let sel = self.selection_quads(s).len() as int;
        let bar = self.bar_quads(s).len() as int;
        let rule = self.rule_quads(s).len() as int;
        let term = self.term_quads(s).len() as int;
        let page = self.overlay_quads(s).len() as int;
        let marks = self.marks(s).len();
        range_pass(0, sel) + seq![Pass::Chrome((self.chrome(s).len() * 6) as usize), Pass::Text]
            + range_pass(sel, bar) + range_pass(sel + bar, rule) + range_pass(sel + bar + rule, term) + only(
            marks > 0,
            Pass::Marks((marks * 6) as usize),
        ) + range_pass(sel + bar + rule + term, page) + only(self.overlay.active, Pass::OverlayText)
    }

    /// The samples of [`Sight`] are as many as what they are about.
    pub open spec fn seen(self, s: Sight) -> bool {
        &&& s.selection@.len() == self.selection@.len()
        &&& s.marks@.len() == self.gutter_marks@.len()
    }
}

proof fn lemma_drawn_spans(spans: Seq<SelSpan>, drawn: Seq<bool>, n: int)
    ensures
        drawn_spans(spans, drawn, n).len() <= if n > 0 {
            n
        } else {
            0
        },
    decreases n,
{
    if n > 0 {
        lemma_drawn_spans(spans, drawn, n - 1);
    }
}

proof fn lemma_drawn_marks(marks: Seq<(usize, LineChange)>, drawn: Seq<bool>, n: int)
    ensures
        drawn_marks(marks, drawn, n).len() <= if n > 0 {
            n
        } else {
            0
        },
    decreases n,
{
    if n > 0 {
        lemma_drawn_marks(marks, drawn, n - 1);
    }
}

/// Every frame fits its buffers, however much is selected and however many lines changed.
pub proof fn frames_fit_their_buffers(r: Renderer, s: Sight)
    ensures
        r.quads(s).len() <= QUAD_MAX,
        r.marks(s).len() <= GIT_MARK_MAX,
        r.chrome(s).len() * QUAD_VERTICES <= CHROME_VERTICES,
{
    let n = if r.selection@.len() < QUAD_MAX - QUAD_REST {
        r.selection@.len() as int
    } else {
        QUAD_MAX - QUAD_REST
    };
    lemma_drawn_spans(r.selection@, s.selection@, n);
    let m = if r.gutter_marks@.len() < GIT_MARK_MAX {
        r.gutter_marks@.len() as int
    } else {
        GIT_MARK_MAX as int
    };
    lemma_drawn_marks(r.gutter_marks@, s.marks@, m);
}

/// How far the quads were drawn, each behind the one before it; nothing where one was left out or
/// drawn twice.
pub open spec fn drawn_to(passes: Seq<Pass>) -> Option<int>
    decreases passes.len(),
{
    if passes.len() == 0 {
        Some(0)
    } else {
        match passes.last() {
            Pass::Quads(from, to) => if drawn_to(passes.drop_last()) == Some(from as int) && from < to {
                Some(to as int)
            } else {
                None
            },
            _ => drawn_to(passes.drop_last()),
        }
    }
}

proof fn lemma_drawn_step(passes: Seq<Pass>, from: int, n: int)
    requires
        drawn_to(passes) == Some(from * 6),
        0 <= from,
        0 <= n,
        (from + n) * 6 <= usize::MAX,
    ensures
        drawn_to(passes + range_pass(from, n)) == Some((from + n) * 6),
{
    let all = passes + range_pass(from, n);
    if n > 0 {
        assert(all.drop_last() =~= passes);
    } else {
        assert(all =~= passes);
    }
}

proof fn lemma_drawn_other(passes: Seq<Pass>, there: bool, x: Pass)
    requires
        !(x is Quads),
    ensures
        drawn_to(passes + only(there, x)) == drawn_to(passes),
{
    let all = passes + only(there, x);
    if there {
        assert(all.drop_last() =~= passes);
    } else {
        assert(all =~= passes);
    }
}

/// A frame draws every one of its quads, once, in the order of their buffer.
pub proof fn every_quad_is_drawn_once(r: Renderer, s: Sight)
    ensures
        drawn_to(r.passes(s)) == Some(r.quads(s).len() as int * 6),
{
    frames_fit_their_buffers(r, s);
    let sel = r.selection_quads(s).len() as int;
    let bar = r.bar_quads(s).len() as int;
    let rule = r.rule_quads(s).len() as int;
    let term = r.term_quads(s).len() as int;
    let page = r.overlay_quads(s).len() as int;
    let marks = r.marks(s).len();
    let none = Seq::<Pass>::empty();
    let back = Pass::Chrome((r.chrome(s).len() * 6) as usize);
    assert(drawn_to(none) == Some(0int));
    lemma_drawn_step(none, 0, sel);
    let a = range_pass(0, sel);
    assert(none + a =~= a);
    lemma_drawn_other(a, true, back);
    let b = a + only(true, back);
    lemma_drawn_other(b, true, Pass::Text);
    let c = b + only(true, Pass::Text);
    assert(c =~= a + seq![back, Pass::Text]);
    lemma_drawn_step(c, sel, bar);
    let d = c + range_pass(sel, bar);
    lemma_drawn_step(d, sel + bar, rule);
    let e = d + range_pass(sel + bar, rule);
    lemma_drawn_step(e, sel + bar + rule, term);
    let f = e + range_pass(sel + bar + rule, term);
    lemma_drawn_other(f, marks > 0, Pass::Marks((marks * 6) as usize));
    let g = f + only(marks > 0, Pass::Marks((marks * 6) as usize));
    lemma_drawn_step(g, sel + bar + rule + term, page);
    let h = g + range_pass(sel + bar + rule + term, page);
    lemma_drawn_other(h, r.overlay.active, Pass::OverlayText);
    assert(r.passes(s) =~= h + only(r.overlay.active, Pass::OverlayText));
}

/// Under a page neither the selection, nor the scrollbar, nor the rule, nor a mark is drawn.
pub proof fn pages_hide_the_editor(r: Renderer, s: Sight)
    requires
        r.overlay.active,
    ensures
        r.selection_quads(s) + r.bar_quads(s) + r.rule_quads(s) == Seq::<Quad>::empty(),
        r.marks(s) == Seq::<(usize, LineChange)>::empty(),
        !r.areas(s).contains(Area::HoverWord),
        r.passes(s).last() == Pass::OverlayText,
{
    assert(r.selection_quads(s) + r.bar_quads(s) + r.rule_quads(s) =~= Seq::<Quad>::empty());
    texts_are_laid_out(r, s);
    lemma_text_of_page_is_last(r, s);
}

proof fn lemma_text_of_page_is_last(r: Renderer, s: Sight)
    requires
        r.overlay.active,
    ensures
        r.passes(s).last() == Pass::OverlayText,
{
}

fn push_if<T: Copy>(v: &mut Vec<T>, there: bool, x: T)
    ensures
        final(v)@ == old(v)@ + only(there, x),
{
    if there {
        v.push(x);
    }
    assert(v@ =~= old(v)@ + only(there, x));
}

fn push_range(v: &mut Vec<Pass>, from: usize, n: usize)
    requires
        (from + n) * 6 <= usize::MAX,
    ensures
        final(v)@ == old(v)@ + range_pass(from as int, n as int),
{
    if n > 0 {
        v.push(Pass::Quads(from * 6, (from + n) * 6));
    }
    assert(v@ =~= old(v)@ + range_pass(from as int, n as int));
}

impl Renderer {
    fn push_selection(&self, s: &Sight, out: &mut Vec<Quad>)
        requires
            self.seen(*s),
            old(out)@.len() == 0,
        ensures
            final(out)@ == self.selection_quads(*s),
    {
        if !self.overlay.active {
            let n: usize = if self.selection.len() < QUAD_MAX - QUAD_REST {
                self.selection.len()
            } else {
                QUAD_MAX - QUAD_REST
            };
            assert(out@ =~= drawn_spans(self.selection@, s.selection@, 0));
            for i in 0..n
                invariant
                    n <= self.selection@.len(),
                    self.seen(*s),
                    out@ == drawn_spans(self.selection@, s.selection@, i as int),
            {
                if s.selection[i] {
                    out.push(Quad::Selection(self.selection[i]));
                }
            }
        }
        assert(out@ =~= self.selection_quads(*s));
    }

    fn push_bar(&self, s: &Sight, out: &mut Vec<Quad>)
        ensures
            final(out)@ == old(out)@ + self.bar_quads(*s),
    {
        if let Some(b) = self.scrollbar {
            if !self.overlay.active && s.visible > 0 && b.total_lines > s.visible {
                out.push(Quad::Track);
                out.push(Quad::Thumb);
            }
        }
        assert(out@ =~= old(out)@ + self.bar_quads(*s));
    }

    fn push_rule(&self, s: &Sight, out: &mut Vec<Quad>)
        ensures
            final(out)@ == old(out)@ + self.rule_quads(*s),
    {
        if !self.overlay.active && self.gutter_enabled && self.gutter_digits > 0 {
            push_if(out, s.rule, Quad::Rule);
            if let Some(line) = self.hover.line {
                push_if(out, s.hover_line, Quad::RuleLine(line));
            }
        }
        assert(out@ =~= old(out)@ + self.rule_quads(*s));
    }

    fn push_term(&self, s: &Sight, out: &mut Vec<Quad>)
        ensures
            final(out)@ == old(out)@ + self.term_quads(*s),
    {
        if self.term.open {
            out.push(Quad::TermBorder(self.term.focused));
            if let Some((row, col)) = self.term.cursor {
                push_if(out, !self.overlay.active && s.term_cursor, Quad::TermCursor(row, col));
            }
        }
        assert(out@ =~= old(out)@ + self.term_quads(*s));
    }

    fn push_overlay(&self, s: &Sight, out: &mut Vec<Quad>)
        ensures
            final(out)@ == old(out)@ + self.overlay_quads(*s),
    {
        if self.overlay.active {
            out.push(Quad::Dim);
            out.push(Quad::Panel);
            push_if(out, self.overlay.has_input, Quad::InputBox);
            if let Some(row) = self.overlay.selected {
                push_if(out, row < self.overlay.row_count && s.highlight, Quad::Highlight(row));
            }
        }
        assert(out@ =~= old(out)@ + self.overlay_quads(*s));
    }

    fn mark_quads(&self, s: &Sight) -> (r: Vec<(usize, LineChange)>)
        requires
            self.seen(*s),
        ensures
            r@ == self.marks(*s),
    {
        let mut out: Vec<(usize, LineChange)> = Vec::new();
        if !self.overlay.active && self.gutter_enabled {
            let n: usize = if self.gutter_marks.len() < GIT_MARK_MAX {
                self.gutter_marks.len()
            } else {
                GIT_MARK_MAX
            };
            assert(out@ =~= drawn_marks(self.gutter_marks@, s.marks@, 0));
            for i in 0..n
                invariant
                    n <= self.gutter_marks@.len(),
                    self.seen(*s),
                    out@ == drawn_marks(self.gutter_marks@, s.marks@, i as int),
            {
                if s.marks[i] {
                    let (line, change) = self.gutter_marks[i];
                    out.push((line, change));
                }
            }
        }
        assert(out@ =~= self.marks(*s));
        out
    }

    fn push_side(&self, out: &mut Vec<Chrome>)
        ensures
            final(out)@ == old(out)@ + self.side_chrome(),
    {
        if self.sidebar.enabled {
            out.push(Chrome::Sidebar);
            if let Some(row) = self.sidebar.hover {
                out.push(Chrome::SidebarHover(row));
            }
            if let Some(row) = self.sidebar.active {
                out.push(Chrome::SidebarActive(row));
                out.push(Chrome::SidebarAccent(row));
            }
        }
        assert(out@ =~= old(out)@ + self.side_chrome());
    }

    fn push_strip(&self, out: &mut Vec<Chrome>)
        ensures
            final(out)@ == old(out)@ + self.strip_chrome(),
    {
        if self.strip.layout.len() > 0 {
            let (from, to) = if self.strip.active < self.strip.layout.len() {
                self.strip.layout[self.strip.active]
            } else {
                (0, 0)
            };
            out.push(Chrome::Strip);
            push_if(out, to > from, Chrome::StripActive(from, to));
        }
        assert(out@ =~= old(out)@ + self.strip_chrome());
    }

    fn chrome_quads(&self, s: &Sight) -> (r: Vec<Chrome>)
        ensures
            r@ == self.chrome(*s),
    {
        let mut out: Vec<Chrome> = Vec::new();
        self.push_side(&mut out);
        assert(out@ =~= self.side_chrome());
        self.push_strip(&mut out);
        push_if(&mut out, s.sidebar, Chrome::SideSeam);
        push_if(&mut out, true, Chrome::TopSeam);
        push_if(&mut out, self.term.open, Chrome::TermBack);
        out
    }

    fn text_areas(&self, s: &Sight) -> (r: Vec<Area>)
        ensures
            r@ == self.areas(*s),
    {
        let mut out: Vec<Area> = Vec::new();
        push_if(&mut out, self.sidebar.enabled && self.sidebar.tab_count > 0, Area::Sidebar);
        out.push(Area::Banner);
        push_if(&mut out, self.strip.layout.len() > 0, Area::Strip);
        push_if(&mut out, self.gutter_enabled && self.gutter_digits > 0, Area::Gutter);
        out.push(Area::Document);
        push_if(&mut out, self.term.open, Area::Terminal);
        push_if(
            &mut out,
            self.hover.word.is_some() && !self.overlay.active && s.hover_word,
            Area::HoverWord,
        );
        push_if(&mut out, self.cursor.is_some() && s.cursor, Area::Cursor);
        assert(out@ =~= self.areas(*s));
        out
    }

    fn page_areas(&self) -> (r: Vec<OverlayArea>)
        ensures
            r@ == self.overlay_areas(),
    {
        let mut out: Vec<OverlayArea> = Vec::new();
        if self.overlay.active {
            push_if(&mut out, self.overlay.has_title, OverlayArea::Title);
            push_if(&mut out, self.overlay.has_input, OverlayArea::Input);
            out.push(OverlayArea::Left);
            out.push(OverlayArea::Right);
            push_if(&mut out, self.overlay.has_hint, OverlayArea::Hint);
        }
        assert(out@ =~= self.overlay_areas());
        out
    }

    /// The steps of drawing a frame whose quads end, part by part, at `sel`, `bar`, `rule`, `term`
    /// and `all`.
    fn steps(
        &self,
        s: &Sight,
        sel: usize,
        bar: usize,
        rule: usize,
        term: usize,
        all: usize,
        chrome: usize,
        marks: usize,
    ) -> (r: Vec<Pass>)
        requires
            sel == self.selection_quads(*s).len(),
            bar == sel + self.bar_quads(*s).len(),
            rule == bar + self.rule_quads(*s).len(),
            term == rule + self.term_quads(*s).len(),
            all == term + self.overlay_quads(*s).len(),
            all <= QUAD_MAX,
            chrome == self.chrome(*s).len(),
            chrome * QUAD_VERTICES <= CHROME_VERTICES,
            marks == self.marks(*s).len(),
            marks <= GIT_MARK_MAX,
        ensures
            r@ == self.passes(*s),
    {
        let mut out: Vec<Pass> = Vec::new();
        push_range(&mut out, 0, sel);
        let ghost first = out@;
        out.push(Pass::Chrome(chrome * QUAD_VERTICES));
        out.push(Pass::Text);
        assert(first =~= range_pass(0, sel as int));
        assert(out@ =~= first + seq![Pass::Chrome((self.chrome(*s).len() * 6) as usize), Pass::Text]);
        push_range(&mut out, sel, bar - sel);
        push_range(&mut out, bar, rule - bar);
        push_range(&mut out, rule, term - rule);
        push_if(&mut out, marks > 0, Pass::Marks(marks * QUAD_VERTICES));
        push_range(&mut out, term, all - term);
        push_if(&mut out, self.overlay.active, Pass::OverlayText);
        out
    }

    /// What the frame is made of, and in what order it is drawn.
    pub fn render(&self, s: &Sight) -> (r: Plan)
        requires
            self.seen(*s),
        ensures
            r.areas@ == self.areas(*s),
            r.overlay_areas@ == self.overlay_areas(),
            r.quads@ == self.quads(*s),
            r.chrome@ == self.chrome(*s),
            r.marks@ == self.marks(*s),
            r.passes@ == self.passes(*s),
    {
        proof {
            frames_fit_their_buffers(*self, *s);
        }
        let mut quads: Vec<Quad> = Vec::new();
        self.push_selection(s, &mut quads);
        let sel = quads.len();
        self.push_bar(s, &mut quads);
        let bar = quads.len();
        self.push_rule(s, &mut quads);
        let rule = quads.len();
        self.push_term(s, &mut quads);
        let term = quads.len();
        self.push_overlay(s, &mut quads);
        let marks = self.mark_quads(s);
        let chrome = self.chrome_quads(s);
        let passes = self.steps(s, sel, bar, rule, term, quads.len(), chrome.len(), marks.len());
        Plan {
            areas: self.text_areas(s),
            overlay_areas: self.page_areas(),
            quads,
            chrome,
            marks,
            passes,
        }
    }
}

impl Renderer {
    /// A window of this size with nothing in it.
    pub fn new(width: u32, height: u32) -> (r: Self)
        ensures
            r.wf(),
            r.latency.samples() == Seq::<u32>::empty(),
            r.latency.recorded() == 0,
            r == (Renderer {
                stats_prefix: r.stats_prefix,
                doc_text: r.doc_text,
                gutter_text: r.gutter_text,
                selection: r.selection,
                gutter_marks: r.gutter_marks,
                pending: r.pending,
                latency: r.latency,
                width: at_least_one(width),
                height: at_least_one(height),
                gutter_enabled: true,
                latency_hud: true,
                banner_dirty: true,
                last_lat_n: 0,
                gutter_digits: 0,
                cursor: None,
                scrollbar: None,
                hover: Hover { word: None, line: None, text: r.hover.text },
                term: TermView {
                    open: false,
                    focused: false,
                    maximized: false,
                    cursor: None,
                    text: r.term.text,
                },
                sidebar: Sidebar {
                    enabled: true,
                    expanded: true,
                    hover: None,
                    active: None,
                    tab_count: 0,
                    tabs_text: r.sidebar.tabs_text,
                },
                strip: Strip { active: 0, text: r.strip.text, layout: r.strip.layout },
                overlay: no_page(),
            }),
            r.stats_prefix@.len() == 0,
            r.doc_text@.len() == 0,
            r.gutter_text@.len() == 0,
            r.selection@.len() == 0,
            r.hover.text@.len() == 0,
            r.gutter_marks@.len() == 0,
            r.term.text@.len() == 0,
            r.sidebar.tabs_text@.len() == 0,
            r.strip.text@.len() == 0,
            r.strip.layout@.len() == 0,
            r.pending@.len() == 0,
    {
        Renderer {
            stats_prefix: String::new(),
            doc_text: String::new(),
            gutter_text: String::new(),
            selection: Vec::new(),
            gutter_marks: Vec::new(),
            pending: Vec::new(),
            latency: LatencyRing::new(),
            width: not_zero(width),
            height: not_zero(height),
            gutter_enabled: true,
            latency_hud: true,
            banner_dirty: true,
            last_lat_n: 0,
            gutter_digits: 0,
            cursor: None,
            scrollbar: None,
            hover: Hover { word: None, line: None, text: String::new() },
            term: TermView {
                open: false,
                focused: false,
                maximized: false,
                cursor: None,
                text: String::new(),
            },
            sidebar: Sidebar {
                enabled: true,
                expanded: true,
                hover: None,
                active: None,
                tab_count: 0,
                tabs_text: String::new(),
            },
            strip: Strip { active: 0, text: String::new(), layout: Vec::new() },
            overlay: PageView {
                active: false,
                has_title: false,
                has_input: false,
                has_hint: false,
                row_count: 0,
                selected: None,
                left_color: Rgb { r: 220, g: 220, b: 220 },
                right_color: Rgb { r: 150, g: 150, b: 150 },
                split_percent: 50,
            },
        }
    }

    /// The size of the surface.
    pub fn size(&self) -> (r: (u32, u32))
        ensures
            r == (self.width, self.height),
    {
        (self.width, self.height)
    }

    /// Another size, which makes the banner stale.
    pub fn resize(&mut self, width: u32, height: u32)
        ensures
            *final(self) == (Renderer {
                width: at_least_one(width),
                height: at_least_one(height),
                banner_dirty: true,
                ..*old(self)
            }),
    {
        self.width = not_zero(width);
        self.height = not_zero(height);
        self.banner_dirty = true;
    }

    /// Whether the sidebar shows its labels.
    pub fn sidebar_expanded(&self) -> (r: bool)
        ensures
            r == self.sidebar.expanded,
    {
        self.sidebar.expanded
    }

    /// Shows or hides the labels of the sidebar; whether that moves what is beside it.
    pub fn set_sidebar_expanded(&mut self, expanded: bool) -> (r: bool)
        ensures
            r == (old(self).sidebar.expanded != expanded),
            *final(self) == (Renderer {
                sidebar: Sidebar { expanded, ..old(self).sidebar },
                banner_dirty: r || old(self).banner_dirty,
                ..*old(self)
            }),
    {
        if self.sidebar.expanded == expanded {
            return false;
        }
        self.sidebar.expanded = expanded;
        self.banner_dirty = true;
        true
    }

    /// The tab of the sidebar under the pointer; whether it is another one.
    pub fn set_sidebar_hover(&mut self, hover: Option<usize>) -> (r: bool)
        ensures
            r == (old(self).sidebar.hover != hover),
            *final(self) == (Renderer {
                sidebar: Sidebar { hover, ..old(self).sidebar },
                ..*old(self)
            }),
    {
        let same_tab = match (self.sidebar.hover, hover) {
            (Some(a), Some(b)) => a == b,
            (None, None) => true,
            _ => false,
        };
        self.sidebar.hover = hover;
        !same_tab
    }

    /// The tab of the sidebar that is active.
    pub fn set_sidebar_active(&mut self, active: Option<usize>)
        ensures
            *final(self) == (Renderer {
                sidebar: Sidebar { active, ..old(self).sidebar },
                ..*old(self)
            }),
    {
        self.sidebar.active = active;
    }

    /// The tabs of the sidebar, a label to a row; whether the labels are to be shaped anew.
    pub fn set_sidebar_tabs(&mut self, labels: &Vec<String>, active: usize) -> (r: bool)
        ensures
            final(self).sidebar.tabs_text@ == separated(texts(labels@), "\n"@),
            r == (old(self).sidebar.tabs_text@ != separated(texts(labels@), "\n"@)),
            *final(self) == (Renderer {
                sidebar: Sidebar {
                    tab_count: labels.len(),
                    active: tab_shown(active, labels.len()),
                    tabs_text: final(self).sidebar.tabs_text,
                    ..old(self).sidebar
                },
                ..*old(self)
            }),
    {
        self.sidebar.tab_count = labels.len();
        self.sidebar.active = if labels.len() == 0 {
            None
        } else if active < labels.len() {
            Some(active)
        } else {
            Some(labels.len() - 1)
        };
        let text = separate(labels, "\n");
        let changed = !same(&self.sidebar.tabs_text, &text);
        self.sidebar.tabs_text = text;
        changed
    }

    /// The tabs of the strip; whether it is to be shaped anew.
    pub fn set_tabs(&mut self, labels: &Vec<String>, active: usize) -> (r: bool)
        ensures
            final(self).strip.text@ == strip_text(texts(labels@)),
            ranges(texts(labels@), final(self).strip.layout@),
            r == (old(self).strip.text@ != strip_text(texts(labels@))),
            *final(self) == (Renderer {
                strip: Strip {
                    active,
                    text: final(self).strip.text,
                    layout: final(self).strip.layout,
                },
                ..*old(self)
            }),
    {
        let (text, layout) = lay_out(labels);
        let changed = !same(&self.strip.text, &text);
        self.strip.active = active;
        self.strip.text = text;
        self.strip.layout = layout;
        changed
    }

    /// The tab of the strip that a column belongs to.
    pub fn tabstrip_at(&self, col: usize) -> (r: Option<usize>)
        ensures
            is_tab_at(self.strip.layout@, col as int, r),
    {
        tab_at(&self.strip.layout, col)
    }

    /// The tab of the sidebar in a row.
    pub fn sidebar_tab_at(&self, row: usize) -> (r: Option<usize>)
        ensures
            r == (if self.sidebar.enabled && row < self.sidebar.tab_count {
                Some(row)
            } else {
                None
            }),
    {
        if self.sidebar.enabled && row < self.sidebar.tab_count {
            Some(row)
        } else {
            None
        }
    }

    /// The document; whether it is to be shaped anew.
    pub fn set_document(&mut self, text: &str) -> (r: bool)
        ensures
            r == (old(self).doc_text@ != text@),
            final(self).doc_text@ == text@,
            *final(self) == (Renderer { doc_text: final(self).doc_text, ..*old(self) }),
    {
        let changed = !same(&self.doc_text, text);
        let mut t = String::new();
        push_text(&mut t, text);
        assert(t@ =~= text@);
        self.doc_text = t;
        changed
    }

    /// The line numbers; whether they are to be shaped anew. Where their width changes the document
    /// moves, and what was shaped of it is forgotten.
    pub fn set_gutter(&mut self, numbers: &str, digits: usize) -> (r: bool)
        ensures
            gutter_set(*old(self), numbers@, digits, *final(self), r),
    {
        let moved = self.gutter_digits != digits;
        if !moved && same(&self.gutter_text, numbers) {
            return false;
        }
        self.gutter_digits = digits;
        let mut t = String::new();
        push_text(&mut t, numbers);
        assert(t@ =~= numbers@);
        self.gutter_text = t;
        if moved {
            self.doc_text = String::new();
            assert(self.doc_text@ =~= Seq::<char>::empty());
        }
        true
    }

    /// What the banner begins with.
    pub fn set_stats_prefix(&mut self, prefix: String)
        ensures
            final(self).stats_prefix@ == prefix@,
            *final(self) == (Renderer {
                stats_prefix: final(self).stats_prefix,
                banner_dirty: old(self).banner_dirty || old(self).stats_prefix@ != prefix@,
                ..*old(self)
            }),
    {
        if !same(&self.stats_prefix, &prefix) {
            self.stats_prefix = prefix;
            self.banner_dirty = true;
        }
    }

    /// The row and the column of the caret.
    pub fn set_cursor(&mut self, pos: Option<(usize, usize)>)
        ensures
            *final(self) == (Renderer { cursor: pos, ..*old(self) }),
    {
        self.cursor = pos;
    }

    /// What the scrollbar shows.
    pub fn set_scrollbar(&mut self, info: Option<ScrollbarInfo>)
        ensures
            *final(self) == (Renderer { scrollbar: info, ..*old(self) }),
    {
        self.scrollbar = info;
    }

    /// What is selected.
    pub fn set_selection(&mut self, spans: Vec<SelSpan>)
        ensures
            *final(self) == (Renderer { selection: spans, ..*old(self) }),
    {
        self.selection = spans;
    }

    /// The word under the pointer, and where it begins; whether it is to be shaped anew. A word that
    /// is no more under the pointer stays shaped.
    pub fn set_hover_word(&mut self, word: Option<(usize, usize, &str)>) -> (r: bool)
        ensures
            hover_set(
                *old(self),
                match word {
                    Some((line, col, text)) => Some((line, col, text@)),
                    None => None,
                },
                *final(self),
                r,
            ),
    {
        match word {
            Some((line, col, text)) => {
                self.hover.word = Some((line, col));
                let changed = !same(&self.hover.text, text);
                let mut t = String::new();
                push_text(&mut t, text);
                assert(t@ =~= text@);
                self.hover.text = t;
                changed
            },
            None => {
                self.hover.word = None;
                false
            },
        }
    }

    /// The line under the pointer.
    pub fn set_hover_line(&mut self, line: Option<usize>)
        ensures
            *final(self) == (Renderer { hover: Hover { line, ..old(self).hover }, ..*old(self) }),
    {
        self.hover.line = line;
    }

    /// The marks in the gutter.
    pub fn set_gutter_marks(&mut self, marks: Vec<(usize, LineChange)>)
        ensures
            *final(self) == (Renderer { gutter_marks: marks, ..*old(self) }),
    {
        self.gutter_marks = marks;
    }

    /// Shows or hides the terminal and says whether it has the focus; whether that moves the
    /// document.
    pub fn set_terminal(&mut self, open: bool, focused: bool) -> (r: bool)
        ensures
            r == (old(self).term.open != open),
            *final(self) == (Renderer {
                term: TermView { open, focused, ..old(self).term },
                ..*old(self)
            }),
    {
        let moved = self.term.open != open;
        self.term.open = open;
        self.term.focused = focused;
        moved
    }

    /// What the terminal shows; whether it is to be shaped anew.
    pub fn set_terminal_text(&mut self, text: &str, cursor: Option<(usize, usize)>) -> (r: bool)
        ensures
            r == (old(self).term.text@ != text@),
            final(self).term.text@ == text@,
            *final(self) == (Renderer {
                term: TermView { cursor, text: final(self).term.text, ..old(self).term },
                ..*old(self)
            }),
    {
        self.term.cursor = cursor;
        let changed = !same(&self.term.text, text);
        let mut t = String::new();
        push_text(&mut t, text);
        assert(t@ =~= text@);
        self.term.text = t;
        changed
    }

    /// Whether the terminal is shown.
    pub fn terminal_open(&self) -> (r: bool)
        ensures
            r == self.term.open,
    {
        self.term.open
    }

    /// Whether the terminal has the focus.
    pub fn terminal_focused(&self) -> (r: bool)
        ensures
            r == self.term.focused,
    {
        self.term.focused
    }

    /// Whether the terminal fills the window.
    pub fn terminal_maximized(&self) -> (r: bool)
        ensures
            r == self.term.maximized,
    {
        self.term.maximized
    }

    /// Lets the terminal fill the window, or no more; whether that is a change.
    pub fn set_terminal_maximized(&mut self, maximized: bool) -> (r: bool)
        ensures
            r == (old(self).term.maximized != maximized),
            *final(self) == (Renderer {
                term: TermView { maximized, ..old(self).term },
                ..*old(self)
            }),
    {
        let changed = self.term.maximized != maximized;
        self.term.maximized = maximized;
        changed
    }

    /// Shows or hides the gutter; whether that moves the document, what was shaped of which is then
    /// forgotten.
    pub fn set_gutter_enabled(&mut self, on: bool) -> (r: bool)
        ensures
            gutter_switched(*old(self), on, *final(self), r),
    {
        if self.gutter_enabled == on {
            return false;
        }
        self.gutter_enabled = on;
        self.doc_text = String::new();
        assert(self.doc_text@ =~= Seq::<char>::empty());
        true
    }

    /// Shows or hides the latency part of the banner.
    pub fn set_latency_hud(&mut self, on: bool)
        ensures
            *final(self) == (Renderer {
                latency_hud: on,
                banner_dirty: old(self).banner_dirty || old(self).latency_hud != on,
                ..*old(self)
            }),
    {
        if self.latency_hud != on {
            self.latency_hud = on;
            self.banner_dirty = true;
        }
    }

    /// The row of a page under the pointer, of which so many are in view.
    pub fn overlay_row_at(&self, row: usize, capacity: usize) -> (r: Option<usize>)
        ensures
            r == (if row < capacity {
                Some(row)
            } else {
                None
            }),
    {
        if row < capacity {
            Some(row)
        } else {
            None
        }
    }

    /// The frame with a page open.
    pub open spec fn with_page(self, o: OverlaySpec) -> Renderer {
        Renderer {
            overlay: PageView {
                active: true,
                has_title: o.title is Some,
                has_input: o.input is Some,
                has_hint: o.hint is Some,
                row_count: o.rows.len(),
                selected: o.selected,
                left_color: o.left_color,
                right_color: o.right_color,
                split_percent: o.split_percent,
            },
            ..self
        }
    }

    /// The frame with no page open.
    pub open spec fn without_page(self) -> Renderer {
        Renderer { overlay: PageView { active: false, ..self.overlay }, ..self }
    }

    /// The page that is open, if one is, and its texts, which are to be shaped.
    pub fn set_overlay(&mut self, spec: Option<OverlaySpec>) -> (r: Option<OverlayTexts>)
        ensures
            match spec {
                None => r is None && *final(self) == old(self).without_page(),
                Some(o) => {
                    &&& r matches Some(t) && {
                        &&& t.title == o.title
                        &&& t.hint == o.hint
                        &&& t.input is Some == o.input is Some
                        &&& o.input is Some ==> (t.input->0)@ == (o.input->0)@ + "\u{258f}"@
                        &&& t.left@ == separated(column_of(o.rows@, false), "\n"@)
                        &&& t.right@ == separated(column_of(o.rows@, true), "\n"@)
                    }
                    &&& *final(self) == old(self).with_page(o)
                },
            },
    {
        match spec {
            None => {
                self.overlay.active = false;
                None
            },
            Some(o) => {
                self.overlay.active = true;
                self.overlay.has_title = o.title.is_some();
                self.overlay.has_input = o.input.is_some();
                self.overlay.has_hint = o.hint.is_some();
                self.overlay.row_count = o.rows.len();
                self.overlay.selected = o.selected;
                self.overlay.left_color = o.left_color;
                self.overlay.right_color = o.right_color;
                self.overlay.split_percent = o.split_percent;
                let left = separate_column(&o.rows, false);
                let right = separate_column(&o.rows, true);
                let input = match o.input {
                    Some(typed) => {
                        let mut line = typed;
                        push_text(&mut line, "\u{258f}");
                        Some(line)
                    },
                    None => None,
                };
                Some(OverlayTexts { title: o.title, input, left, right, hint: o.hint })
            },
        }
    }

    /// A keystroke came in, which the next frame will show.
    pub fn mark_keystroke(&mut self, at: u64)
        ensures
            final(self).pending@ == old(self).pending@.push(at),
            *final(self) == (Renderer { pending: final(self).pending, ..*old(self) }),
    {
        self.pending.push(at);
    }

    /// A frame was dropped: what came in before it is no more measured.
    pub fn dropped(&mut self)
        ensures
            final(self).pending@ == Seq::<u64>::empty(),
            *final(self) == (Renderer { pending: final(self).pending, ..*old(self) }),
    {
        self.pending = Vec::new();
        assert(self.pending@ =~= Seq::<u64>::empty());
    }

    /// A frame was shown: each keystroke that it shows is a sample.
    pub fn presented(&mut self, now: u64)
        requires
            old(self).wf(),
        ensures
            final(self).wf(),
            final(self).pending@ == Seq::<u64>::empty(),
            final(self).latency.samples() == shown_at(
                old(self).latency.samples(),
                old(self).pending@,
                now,
            ),
            final(self).latency.recorded() == (if old(self).latency.recorded() + old(self).pending@.len()
                <= u64::MAX {
                old(self).latency.recorded() + old(self).pending@.len()
            } else {
                u64::MAX as int
            }),
            *final(self) == (Renderer {
                pending: final(self).pending,
                latency: final(self).latency,
                ..*old(self)
            }),
    {
        let ghost was = *self;
        assert(was.pending@.take(0) =~= Seq::<u64>::empty());
        let n = self.pending.len();
        for i in 0..n
            invariant
                n == was.pending@.len(),
                self.wf(),
                was == *old(self),
                *self == (Renderer { latency: self.latency, ..was }),
                self.latency.samples() == shown_at(
                    was.latency.samples(),
                    was.pending@.take(i as int),
                    now,
                ),
                self.latency.recorded() == (if was.latency.recorded() + i <= u64::MAX {
                    was.latency.recorded() + i
                } else {
                    u64::MAX as int
                }),
        {
            let t = self.pending[i];
            let d: u64 = if now >= t {
                now - t
            } else {
                0
            };
            self.latency.record(d as u128);
            proof {
                let p = was.pending@.take(i + 1);
                assert(p.drop_last() =~= was.pending@.take(i as int));
                assert(p.last() == t);
            }
        }
        assert(was.pending@.take(was.pending@.len() as int) =~= was.pending@);
        self.pending = Vec::new();
        assert(self.pending@ =~= Seq::<u64>::empty());
    }

    /// The banner, where it is to be composed anew: it is stale, or it shows the latency and there
    /// are new samples.
    pub fn compose_banner(&mut self) -> (r: Option<String>)
        requires
            old(self).wf(),
        ensures
            final(self).wf(),
            final(self).latency.samples() == old(self).latency.samples(),
            final(self).latency.recorded() == old(self).latency.recorded(),
            *final(self) == old(self).composed(final(self).latency),
            r is Some == old(self).banner_due(),
            r is Some ==> (r->0)@ == banner_text(
                old(self).stats_prefix@,
                old(self).latency_hud,
                measured(old(self).latency.samples()),
                old(self).latency.recorded() as nat,
            ),
    {
        let n = self.latency.count();
        if self.banner_dirty || (self.latency_hud && n != self.last_lat_n) {
            let text = banner(&self.stats_prefix, self.latency_hud, &mut self.latency);
            self.last_lat_n = n;
            self.banner_dirty = false;
            Some(text)
        } else {
            None
        }
    }

    /// One line on the samples, with the verdict.
    pub fn latency_summary(&self) -> (r: String)
        requires
            self.wf(),
        ensures
            r@ == summary_text(measured(self.latency.samples()), self.latency.recorded() as nat),
    {
        self.latency.summary()
    }
}

/// A side of a surface, which is never empty.
pub open spec fn at_least_one(n: u32) -> u32 {
    if n == 0 {
        1
    } else {
        n
    }
}

fn not_zero(n: u32) -> (r: u32)
    ensures
        r == at_least_one(n),
{
    if n == 0 {
        1
    } else {
        n
    }
}

// --- what is drawn ---

/// What is there only in some case is there in that case.
pub proof fn lemma_only<T>(there: bool, x: T, y: T)
    ensures
        only(there, x).contains(y) <==> there && x == y,
        seq![x].contains(y) <==> x == y,
{
    assert(seq![x][0] == x);
    if there {
        assert(only(there, x)[0] == x);
    }
}

proof fn lemma_spans_drawn(spans: Seq<SelSpan>, drawn: Seq<bool>, n: int, q: Quad)
    requires
        n <= spans.len(),
    ensures
        drawn_spans(spans, drawn, n).contains(q) <==> exists|i: int|
            0 <= i < n && drawn[i] && q == Quad::Selection(#[trigger] spans[i]),
    decreases n,
{
    if n > 0 {
        let before = drawn_spans(spans, drawn, n - 1);
        let now = drawn_spans(spans, drawn, n);
        lemma_spans_drawn(spans, drawn, n - 1, q);
        let last = Quad::Selection(spans[n - 1]);
        assert(now =~= before + only(drawn[n - 1], last));
        lemma_in_both(before, only(drawn[n - 1], last), q);
        lemma_only(drawn[n - 1], last, q);
        if before.contains(q) {
            let i = choose|i: int| 0 <= i < n - 1 && drawn[i] && q == Quad::Selection(#[trigger] spans[i]);
            assert(0 <= i < n && drawn[i] && q == Quad::Selection(spans[i]));
        }
    }
}

proof fn lemma_parts_of_quads(r: Renderer, s: Sight, q: Quad)
    ensures
        r.quads(s).contains(q) <==> r.selection_quads(s).contains(q) || r.bar_quads(s).contains(q)
            || r.rule_quads(s).contains(q) || r.term_quads(s).contains(q) || r.overlay_quads(s).contains(q),
{
    let a = r.selection_quads(s);
    let b = r.bar_quads(s);
    let c = r.rule_quads(s);
    let d = r.term_quads(s);
    let e = r.overlay_quads(s);
    lemma_in_both(a, b, q);
    lemma_in_both(a + b, c, q);
    lemma_in_both(a + b + c, d, q);
    lemma_in_both(a + b + c + d, e, q);
}

proof fn lemma_selection_only(r: Renderer, s: Sight, q: Quad)
    requires
        r.seen(s),
    ensures
        r.selection_quads(s).contains(q) <==> !r.overlay.active && exists|i: int|
            0 <= i < r.selection@.len() && i < 249 && s.selection@[i] && q == Quad::Selection(
                #[trigger] r.selection@[i],
            ),
{
    let n = if r.selection@.len() < QUAD_MAX - QUAD_REST {
        r.selection@.len() as int
    } else {
        QUAD_MAX - QUAD_REST
    };
    lemma_spans_drawn(r.selection@, s.selection@, n, q);
    if !r.overlay.active {
        if exists|i: int| 0 <= i < n && s.selection@[i] && q == Quad::Selection(#[trigger] r.selection@[i]) {
            let i = choose|i: int| 0 <= i < n && s.selection@[i] && q == Quad::Selection(#[trigger] r.selection@[i]);
            assert(0 <= i < r.selection@.len() && i < 249);
        }
    }
}

proof fn lemma_groups(r: Renderer, s: Sight, q: Quad)
    ensures
        r.bar_quads(s).contains(q) <==> (q is Track || q is Thumb) && !r.overlay.active && s.visible > 0 && (
        r.scrollbar matches Some(b) && b.total_lines > s.visible),
        r.rule_quads(s).contains(q) <==> !r.overlay.active && r.has_gutter() && ((q is Rule && s.rule) || (
        s.hover_line && r.hover.line is Some && q == Quad::RuleLine(r.hover.line->0))),
        r.term_quads(s).contains(q) <==> r.term.open && (q == Quad::TermBorder(r.term.focused) || (
        !r.overlay.active && s.term_cursor && (r.term.cursor matches Some((row, col)) && q == Quad::TermCursor(
            row,
            col,
        )))),
        r.overlay_quads(s).contains(q) <==> r.overlay.active && (q is Dim || q is Panel || (q is InputBox
            && r.overlay.has_input) || (s.highlight && r.overlay.selected is Some && r.overlay.selected->0
            < r.overlay.row_count && q == Quad::Highlight(r.overlay.selected->0))),
{
    let none = Seq::<Quad>::empty();
    assert(!none.contains(q));
    let bar = seq![Quad::Track, Quad::Thumb];
    assert(bar.contains(q) <==> q is Track || q is Thumb) by {
        assert(bar[0] == Quad::Track && bar[1] == Quad::Thumb);
    }
    let line = match r.hover.line {
        Some(line) => only(s.hover_line, Quad::RuleLine(line)),
        None => Seq::empty(),
    };
    lemma_in_both(only(s.rule, Quad::Rule), line, q);
    lemma_only(s.rule, Quad::Rule, q);
    if let Some(l) = r.hover.line {
        lemma_only(s.hover_line, Quad::RuleLine(l), q);
    }
    let border = seq![Quad::TermBorder(r.term.focused)];
    let cursor = match r.term.cursor {
        Some((row, col)) => only(!r.overlay.active && s.term_cursor, Quad::TermCursor(row, col)),
        None => Seq::empty(),
    };
    lemma_in_both(border, cursor, q);
    lemma_only(true, Quad::TermBorder(r.term.focused), q);
    if let Some((row, col)) = r.term.cursor {
        lemma_only(!r.overlay.active && s.term_cursor, Quad::TermCursor(row, col), q);
    }
    let head = seq![Quad::Dim, Quad::Panel];
    assert(head.contains(q) <==> q is Dim || q is Panel) by {
        assert(head[0] == Quad::Dim && head[1] == Quad::Panel);
    }
    let input = only(r.overlay.has_input, Quad::InputBox);
    let lit = match r.overlay.selected {
        Some(row) => only(row < r.overlay.row_count && s.highlight, Quad::Highlight(row)),
        None => Seq::empty(),
    };
    lemma_in_both(head, input, q);
    lemma_in_both(head + input, lit, q);
    lemma_only(r.overlay.has_input, Quad::InputBox, q);
    if let Some(row) = r.overlay.selected {
        lemma_only(row < r.overlay.row_count && s.highlight, Quad::Highlight(row), q);
    }
}

/// A frame draws what is there and in sight, and nothing else: the scrollbar over a document that does
/// not fit, the rule and the lit line beside it, the border of an open terminal and its cursor, and of
/// an open page the panel, the input and the row that is selected.
pub proof fn what_is_in_sight_is_drawn(r: Renderer, s: Sight, line: usize, row: usize, col: usize)
    requires
        r.seen(s),
    ensures
        ({
            let q = r.quads(s);
            let open = r.overlay.active;
            &&& q.contains(Quad::Track) <==> !open && s.visible > 0 && (r.scrollbar matches Some(b)
                && b.total_lines > s.visible)
            &&& q.contains(Quad::Thumb) <==> q.contains(Quad::Track)
            &&& q.contains(Quad::Rule) <==> !open && r.has_gutter() && s.rule
            &&& q.contains(Quad::RuleLine(line)) <==> !open && r.has_gutter() && s.hover_line && r.hover.line
                == Some(line)
            &&& q.contains(Quad::TermBorder(true)) <==> r.term.open && r.term.focused
            &&& q.contains(Quad::TermBorder(false)) <==> r.term.open && !r.term.focused
            &&& q.contains(Quad::TermCursor(row, col)) <==> r.term.open && !open && s.term_cursor && r.term.cursor
                == Some((row, col))
            &&& q.contains(Quad::Dim) <==> open
            &&& q.contains(Quad::Panel) <==> open
            &&& q.contains(Quad::InputBox) <==> open && r.overlay.has_input
            &&& q.contains(Quad::Highlight(row)) <==> open && s.highlight && r.overlay.selected == Some(row)
                && row < r.overlay.row_count
        }),
{
    lemma_drawn(r, s, Quad::Track);
    lemma_drawn(r, s, Quad::Thumb);
    lemma_drawn(r, s, Quad::Rule);
    lemma_drawn(r, s, Quad::RuleLine(line));
    lemma_drawn(r, s, Quad::TermBorder(true));
    lemma_drawn(r, s, Quad::TermBorder(false));
    lemma_drawn(r, s, Quad::TermCursor(row, col));
    lemma_drawn(r, s, Quad::Dim);
    lemma_drawn(r, s, Quad::Panel);
    lemma_drawn(r, s, Quad::InputBox);
    lemma_drawn(r, s, Quad::Highlight(row));
}

proof fn lemma_drawn(r: Renderer, s: Sight, q: Quad)
    requires
        r.seen(s),
        !(q is Selection),
    ensures
        !r.selection_quads(s).contains(q),
        r.quads(s).contains(q) <==> r.bar_quads(s).contains(q) || r.rule_quads(s).contains(q)
            || r.term_quads(s).contains(q) || r.overlay_quads(s).contains(q),
        r.bar_quads(s).contains(q) <==> (q is Track || q is Thumb) && !r.overlay.active && s.visible > 0 && (
        r.scrollbar matches Some(b) && b.total_lines > s.visible),
        r.rule_quads(s).contains(q) <==> !r.overlay.active && r.has_gutter() && ((q is Rule && s.rule) || (
        s.hover_line && r.hover.line is Some && q == Quad::RuleLine(r.hover.line->0))),
        r.term_quads(s).contains(q) <==> r.term.open && (q == Quad::TermBorder(r.term.focused) || (
        !r.overlay.active && s.term_cursor && (r.term.cursor matches Some((row, col)) && q == Quad::TermCursor(
            row,
            col,
        )))),
        r.overlay_quads(s).contains(q) <==> r.overlay.active && (q is Dim || q is Panel || (q is InputBox
            && r.overlay.has_input) || (s.highlight && r.overlay.selected is Some && r.overlay.selected->0
            < r.overlay.row_count && q == Quad::Highlight(r.overlay.selected->0))),
{
    lemma_parts_of_quads(r, s, q);
    lemma_selection_only(r, s, q);
    lemma_groups(r, s, q);
}

/// A stretch of the selection that is in sight is drawn, as long as there is room, and none that is not
/// selected.
pub proof fn selected_stretches_are_drawn(r: Renderer, s: Sight, i: int, other: SelSpan)
    requires
        r.seen(s),
        !r.overlay.active,
        0 <= i < r.selection@.len(),
    ensures
        i < 249 && s.selection@[i] ==> r.quads(s).contains(Quad::Selection(r.selection@[i])),
        r.quads(s).contains(Quad::Selection(other)) ==> r.selection@.contains(other),
{
    let q = Quad::Selection(r.selection@[i]);
    lemma_parts_of_quads(r, s, q);
    lemma_selection_only(r, s, q);
    let o = Quad::Selection(other);
    lemma_parts_of_quads(r, s, o);
    lemma_selection_only(r, s, o);
    lemma_groups(r, s, o);
    if r.quads(s).contains(o) {
        let k = choose|k: int|
            0 <= k < r.selection@.len() && k < 249 && s.selection@[k] && o == Quad::Selection(
                #[trigger] r.selection@[k],
            );
        assert(r.selection@[k] == other);
    }
}

/// A text is laid out where there is something to show: the document and the banner always, and the
/// others each in its own case.
pub proof fn texts_are_laid_out(r: Renderer, s: Sight)
    ensures
        r.areas(s).contains(Area::Document),
        r.areas(s).contains(Area::Banner),
        r.areas(s).contains(Area::Sidebar) <==> r.sidebar.enabled && r.sidebar.tab_count > 0,
        r.areas(s).contains(Area::Strip) <==> r.strip.layout@.len() > 0,
        r.areas(s).contains(Area::Gutter) <==> r.gutter_enabled && r.gutter_digits > 0,
        r.areas(s).contains(Area::Terminal) <==> r.term.open,
        r.areas(s).contains(Area::HoverWord) <==> r.hover.word is Some && !r.overlay.active && s.hover_word,
        r.areas(s).contains(Area::Cursor) <==> r.cursor is Some && s.cursor,
{
    lemma_areas(r, s, Area::Document);
    lemma_areas(r, s, Area::Banner);
    lemma_areas(r, s, Area::Sidebar);
    lemma_areas(r, s, Area::Strip);
    lemma_areas(r, s, Area::Gutter);
    lemma_areas(r, s, Area::Terminal);
    lemma_areas(r, s, Area::HoverWord);
    lemma_areas(r, s, Area::Cursor);
}

proof fn lemma_areas(r: Renderer, s: Sight, x: Area)
    ensures
        r.areas(s).contains(x) <==> {
            ||| r.sidebar.enabled && r.sidebar.tab_count > 0 && x is Sidebar
            ||| x is Banner
            ||| r.strip.layout@.len() > 0 && x is Strip
            ||| r.has_gutter() && x is Gutter
            ||| x is Document
            ||| r.term.open && x is Terminal
            ||| r.hover.word is Some && !r.overlay.active && s.hover_word && x is HoverWord
            ||| r.cursor is Some && s.cursor && x is Cursor
        },
{
    let a = only(r.sidebar.enabled && r.sidebar.tab_count > 0, Area::Sidebar);
    let b = seq![Area::Banner];
    let c = only(r.strip.layout@.len() > 0, Area::Strip);
    let d = only(r.has_gutter(), Area::Gutter);
    let e = seq![Area::Document];
    let f = only(r.term.open, Area::Terminal);
    let g = only(r.hover.word is Some && !r.overlay.active && s.hover_word, Area::HoverWord);
    let h = only(r.cursor is Some && s.cursor, Area::Cursor);
    lemma_in_both(a, b, x);
    lemma_in_both(a + b, c, x);
    lemma_in_both(a + b + c, d, x);
    lemma_in_both(a + b + c + d, e, x);
    lemma_in_both(a + b + c + d + e, f, x);
    lemma_in_both(a + b + c + d + e + f, g, x);
    lemma_in_both(a + b + c + d + e + f + g, h, x);
    lemma_only(r.sidebar.enabled && r.sidebar.tab_count > 0, Area::Sidebar, x);
    lemma_only(true, Area::Banner, x);
    lemma_only(r.strip.layout@.len() > 0, Area::Strip, x);
    lemma_only(r.has_gutter(), Area::Gutter, x);
    lemma_only(true, Area::Document, x);
    lemma_only(r.term.open, Area::Terminal, x);
    lemma_only(r.hover.word is Some && !r.overlay.active && s.hover_word, Area::HoverWord, x);
    lemma_only(r.cursor is Some && s.cursor, Area::Cursor, x);
}

/// Of an open page the two columns are shown, and its title, its input and its hint where it has them;
/// of none nothing is.
pub proof fn pages_show_what_they_have(r: Renderer)
    ensures
        r.overlay_areas().contains(OverlayArea::Left) <==> r.overlay.active,
        r.overlay_areas().contains(OverlayArea::Right) <==> r.overlay.active,
        r.overlay_areas().contains(OverlayArea::Title) <==> r.overlay.active && r.overlay.has_title,
        r.overlay_areas().contains(OverlayArea::Input) <==> r.overlay.active && r.overlay.has_input,
        r.overlay_areas().contains(OverlayArea::Hint) <==> r.overlay.active && r.overlay.has_hint,
{
    lemma_overlay_areas(r, OverlayArea::Left);
    lemma_overlay_areas(r, OverlayArea::Right);
    lemma_overlay_areas(r, OverlayArea::Title);
    lemma_overlay_areas(r, OverlayArea::Input);
    lemma_overlay_areas(r, OverlayArea::Hint);
}

proof fn lemma_overlay_areas(r: Renderer, x: OverlayArea)
    ensures
        r.overlay_areas().contains(x) <==> r.overlay.active && (x is Left || x is Right || (x is Title
            && r.overlay.has_title) || (x is Input && r.overlay.has_input) || (x is Hint && r.overlay.has_hint)),
{
    let a = only(r.overlay.has_title, OverlayArea::Title);
    let b = only(r.overlay.has_input, OverlayArea::Input);
    let c = seq![OverlayArea::Left, OverlayArea::Right];
    let d = only(r.overlay.has_hint, OverlayArea::Hint);
    lemma_in_both(a, b, x);
    lemma_in_both(a + b, c, x);
    lemma_in_both(a + b + c, d, x);
    lemma_only(r.overlay.has_title, OverlayArea::Title, x);
    lemma_only(r.overlay.has_input, OverlayArea::Input, x);
    lemma_only(r.overlay.has_hint, OverlayArea::Hint, x);
    assert(c.contains(x) <==> x is Left || x is Right) by {
        assert(c[0] == OverlayArea::Left && c[1] == OverlayArea::Right);
    }
    assert(!Seq::<OverlayArea>::empty().contains(x));
}

/// A keystroke that is shown counts with the time that it took, up to the longest that can be counted,
/// and with none where the clock went back; it is the newest sample.
pub proof fn keystrokes_count_when_shown(samples: Seq<u32>, pending: Seq<u64>, at: u64, now: u64)
    ensures
        shown_at(samples, Seq::empty(), now) == samples,
        now >= at && now - at <= u32::MAX ==> shown_at(samples, pending.push(at), now).last() == now - at,
        now >= at && now - at > u32::MAX ==> shown_at(samples, pending.push(at), now).last() == u32::MAX,
        now < at ==> shown_at(samples, pending.push(at), now).last() == 0,
        shown_at(samples, pending.push(at), now).len() <= 4096,
{
    assert(pending.push(at).drop_last() =~= pending);
    let before = shown_at(samples, pending, now);
    let d = if now >= at {
        now - at
    } else {
        0
    };
    let x = if d <= u32::MAX {
        d as u32
    } else {
        u32::MAX
    };
    the_newest_samples_are_kept(before, x);
    the_newest_samples_are_kept(before.push(x), x);
}

/// Behind the texts stand the sidebar with the row under the pointer and the row that is active, the
/// strip with the tab that is active, the seams, and the ground of an open terminal.
pub proof fn grounds_stand_behind_the_texts(r: Renderer, s: Sight, row: usize)
    ensures
        r.chrome(s).contains(Chrome::Sidebar) <==> r.sidebar.enabled,
        r.chrome(s).contains(Chrome::SidebarHover(row)) <==> r.sidebar.enabled && r.sidebar.hover == Some(row),
        r.chrome(s).contains(Chrome::SidebarActive(row)) <==> r.sidebar.enabled && r.sidebar.active == Some(row),
        r.chrome(s).contains(Chrome::SidebarAccent(row)) <==> r.sidebar.enabled && r.sidebar.active == Some(row),
        r.chrome(s).contains(Chrome::Strip) <==> r.strip.layout@.len() > 0,
        r.chrome(s).contains(Chrome::SideSeam) <==> s.sidebar,
        r.chrome(s).contains(Chrome::TopSeam),
        r.chrome(s).contains(Chrome::TermBack) <==> r.term.open,
{
    lemma_chrome(r, s, Chrome::Sidebar);
    lemma_chrome(r, s, Chrome::SidebarHover(row));
    lemma_chrome(r, s, Chrome::SidebarActive(row));
    lemma_chrome(r, s, Chrome::SidebarAccent(row));
    lemma_chrome(r, s, Chrome::Strip);
    lemma_chrome(r, s, Chrome::SideSeam);
    lemma_chrome(r, s, Chrome::TopSeam);
    lemma_chrome(r, s, Chrome::TermBack);
}

/// The tab that is active is lit over the columns that its label has.
pub proof fn the_active_tab_is_lit(r: Renderer, s: Sight, from: usize, to: usize)
    ensures
        r.chrome(s).contains(Chrome::StripActive(from, to)) <==> from < to && r.strip.active
            < r.strip.layout@.len() && r.strip.layout@[r.strip.active as int] == (from, to),
{
    lemma_chrome(r, s, Chrome::StripActive(from, to));
}

proof fn lemma_chrome(r: Renderer, s: Sight, x: Chrome)
    ensures
        r.chrome(s).contains(x) <==> {
            ||| r.sidebar.enabled && x is Sidebar
            ||| r.sidebar.enabled && r.sidebar.hover is Some && x == Chrome::SidebarHover(r.sidebar.hover->0)
            ||| r.sidebar.enabled && r.sidebar.active is Some && (x == Chrome::SidebarActive(r.sidebar.active->0)
                || x == Chrome::SidebarAccent(r.sidebar.active->0))
            ||| r.strip.layout@.len() > 0 && x is Strip
            ||| r.strip.layout@.len() > 0 && r.active_range().1 > r.active_range().0 && x == Chrome::StripActive(
                r.active_range().0,
                r.active_range().1,
            )
            ||| s.sidebar && x is SideSeam
            ||| x is TopSeam
            ||| r.term.open && x is TermBack
        },
{
    let a = r.side_chrome();
    let b = r.strip_chrome();
    let c = only(s.sidebar, Chrome::SideSeam);
    let d = seq![Chrome::TopSeam];
    let e = only(r.term.open, Chrome::TermBack);
    lemma_in_both(a, b, x);
    lemma_in_both(a + b, c, x);
    lemma_in_both(a + b + c, d, x);
    lemma_in_both(a + b + c + d, e, x);
    lemma_only(s.sidebar, Chrome::SideSeam, x);
    lemma_only(true, Chrome::TopSeam, x);
    lemma_only(r.term.open, Chrome::TermBack, x);
    let none = Seq::<Chrome>::empty();
    assert(!none.contains(x));
    let hover = match r.sidebar.hover {
        Some(row) => seq![Chrome::SidebarHover(row)],
        None => Seq::empty(),
    };
    let active = match r.sidebar.active {
        Some(row) => seq![Chrome::SidebarActive(row), Chrome::SidebarAccent(row)],
        None => Seq::empty(),
    };
    let side = seq![Chrome::Sidebar];
    lemma_in_both(side, hover, x);
    lemma_in_both(side + hover, active, x);
    lemma_only(true, Chrome::Sidebar, x);
    if let Some(row) = r.sidebar.hover {
        lemma_only(true, Chrome::SidebarHover(row), x);
    }
    if let Some(row) = r.sidebar.active {
        assert(active[0] == Chrome::SidebarActive(row) && active[1] == Chrome::SidebarAccent(row));
    }
    let (from, to) = r.active_range();
    lemma_in_both(seq![Chrome::Strip], only(to > from, Chrome::StripActive(from, to)), x);
    lemma_only(true, Chrome::Strip, x);
    lemma_only(to > from, Chrome::StripActive(from, to), x);
}

/// A page that is opened is drawn with what it has: its input, the row that it has selected, its title
/// and its hint; once it is closed nothing of it is.
pub proof fn opened_pages_are_drawn(r: Renderer, s: Sight, o: OverlaySpec, row: usize)
    requires
        r.seen(s),
    ensures
        ({
            let p = r.with_page(o);
            let q = r.with_page(o).without_page();
            &&& p.quads(s).contains(Quad::Panel)
            &&& p.quads(s).contains(Quad::InputBox) <==> o.input is Some
            &&& p.quads(s).contains(Quad::Highlight(row)) <==> s.highlight && o.selected == Some(row) && row
                < o.rows@.len()
            &&& p.overlay_areas().contains(OverlayArea::Title) <==> o.title is Some
            &&& p.overlay_areas().contains(OverlayArea::Hint) <==> o.hint is Some
            &&& p.overlay_areas().contains(OverlayArea::Left)
            &&& !q.quads(s).contains(Quad::Panel) && !q.quads(s).contains(Quad::Highlight(row))
            &&& !q.overlay_areas().contains(OverlayArea::Left)
        }),
{
    let p = r.with_page(o);
    let q = p.without_page();
    what_is_in_sight_is_drawn(p, s, 0, row, 0);
    what_is_in_sight_is_drawn(q, s, 0, row, 0);
    pages_show_what_they_have(p);
    pages_show_what_they_have(q);
}

/// The tab that is lit among `n`: the active one, or the last where that one is gone.
pub open spec fn tab_shown(active: usize, n: usize) -> Option<usize> {
    if n == 0 {
        None
    } else if active < n {
        Some(active)
    } else {
        Some((n - 1) as usize)
    }
}

impl Renderer {
    /// The banner is to be laid out anew.
    pub open spec fn banner_due(self) -> bool {
        self.banner_dirty || (self.latency_hud && self.latency.recorded() != self.last_lat_n)
    }

    /// The renderer once its banner was looked after.
    pub open spec fn composed(self, latency: LatencyRing) -> Renderer {
        Renderer {
            latency,
            banner_dirty: false,
            last_lat_n: if self.banner_due() {
                self.latency.recorded()
            } else {
                self.last_lat_n
            },
            ..self
        }
    }
}

/// Setting the numbers of the gutter, and whether anything changed by it. Where the width changes,
/// the document has to be laid out anew.
pub open spec fn gutter_set(r: Renderer, numbers: Seq<char>, digits: usize, q: Renderer, changed: bool) -> bool {
    &&& changed == (r.gutter_digits != digits || r.gutter_text@ != numbers)
    &&& q.gutter_text@ == numbers
    &&& q.doc_text@ == (if r.gutter_digits != digits {
        Seq::empty()
    } else {
        r.doc_text@
    })
    &&& q == (Renderer { gutter_digits: digits, gutter_text: q.gutter_text, doc_text: q.doc_text, ..r })
}

/// Switching the gutter on or off, and whether anything changed by it.
pub open spec fn gutter_switched(r: Renderer, on: bool, q: Renderer, changed: bool) -> bool {
    &&& changed == (r.gutter_enabled != on)
    &&& q.doc_text@ == (if changed {
        Seq::empty()
    } else {
        r.doc_text@
    })
    &&& q == (Renderer { gutter_enabled: on, doc_text: q.doc_text, ..r })
}

/// Setting the word under the pointer, and whether its text has to be laid out anew.
pub open spec fn hover_set(r: Renderer, word: Option<(usize, usize, Seq<char>)>, q: Renderer, changed: bool) -> bool {
    &&& changed == match word {
        Some((line, col, text)) => r.hover.text@ != text,
        None => false,
    }
    &&& q.hover.text@ == match word {
        Some((line, col, text)) => text,
        None => r.hover.text@,
    }
    &&& q == (Renderer {
        hover: Hover {
            word: match word {
                Some((line, col, text)) => Some((line, col)),
                None => None,
            },
            text: q.hover.text,
            ..r.hover
        },
        ..r
    })
}

/// One of the tabs is lit where there is any: the active one while it is among them.
pub proof fn one_tab_is_lit(active: usize, n: usize)
    ensures
        tab_shown(active, n) is Some <==> n > 0,
        tab_shown(active, n) matches Some(i) ==> i < n && (i == active <==> active < n) && i <= active,
        n > 0 && tab_shown(active, n) != Some(active) ==> tab_shown(active, n) == Some((n - 1) as usize),
{
}

/// A banner that was laid out is not due again until it is marked or, where the latencies are shown,
/// one more of them was measured; marks are taken off by laying it out.
pub proof fn banners_are_composed_once(r: Renderer, same: LatencyRing, more: LatencyRing)
    requires
        same.recorded() == r.latency.recorded(),
        more.recorded() != r.latency.recorded(),
    ensures
        !r.composed(same).banner_due(),
        r.banner_dirty ==> r.banner_due(),
        (Renderer { latency: more, ..r.composed(same) }).banner_due() <==> r.latency_hud,
        (Renderer { banner_dirty: true, ..r.composed(same) }).banner_due(),
        r.composed(same).stats_prefix == r.stats_prefix,
{
}

/// What is set in the gutter a second time changes nothing; a gutter of another width, or one that
/// is switched, makes the document be laid out anew, and other numbers alone do not.
pub proof fn gutters_are_set_once(
    r: Renderer,
    numbers: Seq<char>,
    digits: usize,
    q: Renderer,
    changed: bool,
    p: Renderer,
    again: bool,
    on: bool,
    s: Renderer,
    switched: bool,
    t: Renderer,
    twice: bool,
)
    requires
        gutter_set(r, numbers, digits, q, changed),
        gutter_set(q, numbers, digits, p, again),
        gutter_switched(r, on, s, switched),
        gutter_switched(s, on, t, twice),
    ensures
        !again && p.gutter_text@ == q.gutter_text@ && p.doc_text@ == q.doc_text@,
        !changed ==> q.doc_text@ == r.doc_text@ && q.gutter_text@ == r.gutter_text@,
        q.gutter_digits != r.gutter_digits ==> changed && q.doc_text@.len() == 0,
        q.gutter_digits == r.gutter_digits ==> q.doc_text@ == r.doc_text@,
        q.gutter_text@ != r.gutter_text@ ==> changed,
        q.gutter_digits == digits && q.gutter_text@ == numbers && q.gutter_enabled == r.gutter_enabled,
        !twice && t.doc_text@ == s.doc_text@,
        s.gutter_enabled == on && s.gutter_digits == r.gutter_digits,
        s.gutter_enabled != r.gutter_enabled ==> switched && s.doc_text@.len() == 0,
        s.gutter_enabled == r.gutter_enabled ==> s.doc_text@ == r.doc_text@,
{
}

/// The word under the pointer is the one that was set; the same one set again, also after it was
/// taken away, needs not be laid out anew.
pub proof fn hovered_words_are_kept(
    r: Renderer,
    line: usize,
    col: usize,
    text: Seq<char>,
    q: Renderer,
    changed: bool,
    o: Renderer,
    off: bool,
    p: Renderer,
    again: bool,
)
    requires
        hover_set(r, Some((line, col, text)), q, changed),
        hover_set(q, None, o, off),
        hover_set(o, Some((line, col, text)), p, again),
    ensures
        q.hover.word == Some((line, col)) && q.hover.text@ == text,
        o.hover.word is None && !off,
        p.hover.word == Some((line, col)) && !again,
        r.hover.text@ != text ==> changed,
        q.hover.line == r.hover.line && o.hover.line == r.hover.line,
{
}

} // verus!
