//! What a terminal shows: the text of its grid with the colours and faces of its cells.

use vstd::prelude::*;
use crate::bytes::{byte_len, len_of, width};
use crate::text::{pieces, separated, separated_texts_fall_apart};

verus! {

/// A colour: red, green and blue.
#[derive(Clone, Copy, Debug, PartialEq, Eq, Structural)]
pub struct Rgb {
    pub r: u8,
    pub g: u8,
    pub b: u8,
}

/// A style over a stretch of bytes of a terminal's text.
#[derive(Clone, Copy, Debug, PartialEq, Eq, Structural)]
pub struct TerminalSpan {
    pub start: usize,
    pub end: usize,
    pub rgb: Rgb,
    pub bold: bool,
    pub italic: bool,
}

/// What a terminal shows: its lines without the blanks behind them, the row and the column of
/// the cursor where it is in view, and the styles.
#[derive(Debug)]
pub struct TerminalSnapshot {
    pub text: String,
    pub cursor: Option<(usize, usize)>,
    pub spans: Vec<TerminalSpan>,
}

/// A colour by its name.
#[derive(Clone, Copy, Debug, PartialEq, Eq, Structural)]
pub enum NamedColor {
    Black,
    Red,
    Green,
    Yellow,
    Blue,
    Magenta,
    Cyan,
    White,
    BrightBlack,
    BrightRed,
    BrightGreen,
    BrightYellow,
    BrightBlue,
    BrightMagenta,
    BrightCyan,
    BrightWhite,
    Foreground,
    Background,
    Cursor,
    DimBlack,
    DimRed,
    DimGreen,
    DimYellow,
    DimBlue,
    DimMagenta,
    DimCyan,
    DimWhite,
    BrightForeground,
    DimForeground,
}

/// A cell's colour.
#[derive(Clone, Copy, Debug, PartialEq, Eq, Structural)]
pub enum Color {
    Named(NamedColor),
    Spec(Rgb),
    Indexed(u8),
}

pub open spec fn rgb_of(r: u8, g: u8, b: u8) -> Rgb {
    Rgb { r, g, b }
}

/// The sixteen first colours of the palette.
pub open spec fn ansi(i: int) -> Rgb {
    if i == 0 {
        rgb_of(35, 31, 28)
    } else if i == 1 {
        rgb_of(205, 92, 72)
    } else if i == 2 {
        rgb_of(139, 168, 116)
    } else if i == 3 {
        rgb_of(220, 174, 92)
    } else if i == 4 {
        rgb_of(112, 145, 190)
    } else if i == 5 {
        rgb_of(184, 128, 170)
    } else if i == 6 {
        rgb_of(105, 170, 176)
    } else if i == 7 {
        rgb_of(218, 211, 199)
    } else if i == 8 {
        rgb_of(112, 104, 94)
    } else if i == 9 {
        rgb_of(231, 116, 82)
    } else if i == 10 {
        rgb_of(164, 190, 130)
    } else if i == 11 {
        rgb_of(238, 194, 108)
    } else if i == 12 {
        rgb_of(135, 164, 208)
    } else if i == 13 {
        rgb_of(204, 148, 192)
    } else if i == 14 {
        rgb_of(126, 190, 194)
    } else {
        rgb_of(242, 236, 224)
    }
}

/// The brightness of a level of the colour cube.
pub open spec fn level(v: int) -> u8 {
    if v == 0 {
        0
    } else {
        (55 + v * 40) as u8
    }
}

/// The palette: sixteen colours, a cube of six levels each way, and a ramp of greys.
pub open spec fn palette(index: u8) -> Rgb {
    if index < 16 {
        ansi(index as int)
    } else if index < 232 {
        let n = index - 16;
        rgb_of(level(n / 36), level(n / 6 % 6), level(n % 6))
    } else {
        let v = (8 + (index - 232) * 10) as u8;
        rgb_of(v, v, v)
    }
}

fn cube_level(v: u8) -> (r: u8)
    requires
        v < 6,
    ensures
        r == level(v as int),
{
    if v == 0 {
        0
    } else {
        55 + v * 40
    }
}

fn rgb(r: u8, g: u8, b: u8) -> (c: Rgb)
    ensures
        c == rgb_of(r, g, b),
{
    Rgb { r, g, b }
}

/// The colour at `index` of the palette.
pub fn indexed_rgb(index: u8) -> (c: Rgb)
    ensures
        c == palette(index),
{
    match index {
        0 => rgb(35, 31, 28),
        1 => rgb(205, 92, 72),
        2 => rgb(139, 168, 116),
        3 => rgb(220, 174, 92),
        4 => rgb(112, 145, 190),
        5 => rgb(184, 128, 170),
        6 => rgb(105, 170, 176),
        7 => rgb(218, 211, 199),
        8 => rgb(112, 104, 94),
        9 => rgb(231, 116, 82),
        10 => rgb(164, 190, 130),
        11 => rgb(238, 194, 108),
        12 => rgb(135, 164, 208),
        13 => rgb(204, 148, 192),
        14 => rgb(126, 190, 194),
        15 => rgb(242, 236, 224),
        _ => if index < 232 {
            let n: u8 = index - 16;
            rgb(cube_level(n / 36), cube_level((n / 6) % 6), cube_level(n % 6))
        } else {
            let v: u8 = 8 + (index - 232) * 10;
            rgb(v, v, v)
        },
    }
}

/// The place of a named colour in the palette; a dim one is where the plain one is.
pub open spec fn name_index(named: NamedColor) -> Option<u8> {
    match named {
        NamedColor::Black => Some(0),
        NamedColor::Red => Some(1),
        NamedColor::Green => Some(2),
        NamedColor::Yellow => Some(3),
        NamedColor::Blue => Some(4),
        NamedColor::Magenta => Some(5),
        NamedColor::Cyan => Some(6),
        NamedColor::White => Some(7),
        NamedColor::BrightBlack => Some(8),
        NamedColor::BrightRed => Some(9),
        NamedColor::BrightGreen => Some(10),
        NamedColor::BrightYellow => Some(11),
        NamedColor::BrightBlue => Some(12),
        NamedColor::BrightMagenta => Some(13),
        NamedColor::BrightCyan => Some(14),
        NamedColor::BrightWhite => Some(15),
        NamedColor::DimBlack => Some(0),
        NamedColor::DimRed => Some(1),
        NamedColor::DimGreen => Some(2),
        NamedColor::DimYellow => Some(3),
        NamedColor::DimBlue => Some(4),
        NamedColor::DimMagenta => Some(5),
        NamedColor::DimCyan => Some(6),
        NamedColor::DimWhite => Some(7),
        _ => None,
    }
}

/// The place of a named colour in the palette.
pub fn named_index(named: NamedColor) -> (r: Option<u8>)
    ensures
        r == name_index(named),
{
    match named {
        NamedColor::Black => Some(0),
        NamedColor::Red => Some(1),
        NamedColor::Green => Some(2),
        NamedColor::Yellow => Some(3),
        NamedColor::Blue => Some(4),
        NamedColor::Magenta => Some(5),
        NamedColor::Cyan => Some(6),
        NamedColor::White => Some(7),
        NamedColor::BrightBlack => Some(8),
        NamedColor::BrightRed => Some(9),
        NamedColor::BrightGreen => Some(10),
        NamedColor::BrightYellow => Some(11),
        NamedColor::BrightBlue => Some(12),
        NamedColor::BrightMagenta => Some(13),
        NamedColor::BrightCyan => Some(14),
        NamedColor::BrightWhite => Some(15),
        NamedColor::DimBlack => Some(0),
        NamedColor::DimRed => Some(1),
        NamedColor::DimGreen => Some(2),
        NamedColor::DimYellow => Some(3),
        NamedColor::DimBlue => Some(4),
        NamedColor::DimMagenta => Some(5),
        NamedColor::DimCyan => Some(6),
        NamedColor::DimWhite => Some(7),
        _ => None,
    }
}

/// A named colour that the program did not set.
pub open spec fn name_rgb(named: NamedColor) -> Rgb {
    match named {
        NamedColor::Foreground => rgb_of(220, 214, 201),
        NamedColor::BrightForeground => rgb_of(220, 214, 201),
        NamedColor::DimForeground => rgb_of(145, 137, 124),
        NamedColor::Background => rgb_of(20, 17, 14),
        NamedColor::Cursor => rgb_of(20, 17, 14),
        _ => match name_index(named) {
            Some(i) => palette(i),
            None => rgb_of(220, 214, 201),
        },
    }
}

/// A named colour that the program did not set.
pub fn fallback_named(named: NamedColor) -> (c: Rgb)
    ensures
        c == name_rgb(named),
{
    match named {
        NamedColor::Foreground => rgb(220, 214, 201),
        NamedColor::BrightForeground => rgb(220, 214, 201),
        NamedColor::DimForeground => rgb(145, 137, 124),
        NamedColor::Background => rgb(20, 17, 14),
        NamedColor::Cursor => rgb(20, 17, 14),
        _ => match named_index(named) {
            Some(i) => indexed_rgb(i),
            None => rgb(220, 214, 201),
        },
    }
}

/// The colour that a cell's colour is, `set` being what the program set it to, if it did.
pub open spec fn color_rgb(color: Color, set: Option<Rgb>) -> Rgb {
    match color {
        Color::Spec(c) => c,
        Color::Indexed(i) => match set {
            Some(c) => c,
            None => palette(i),
        },
        Color::Named(n) => match set {
            Some(c) => c,
            None => name_rgb(n),
        },
    }
}

/// The colour that a cell's colour is.
pub fn resolve_color(color: Color, set: Option<Rgb>) -> (c: Rgb)
    ensures
        c == color_rgb(color, set),
{
    match color {
        Color::Spec(c) => c,
        Color::Indexed(i) => match set {
            Some(c) => c,
            None => indexed_rgb(i),
        },
        Color::Named(n) => match set {
            Some(c) => c,
            None => fallback_named(n),
        },
    }
}

/// A cell of the grid: its line, its character, its colours with what the program set them
/// to, and its flags.
#[derive(Clone, Copy, Debug)]
pub struct Cell {
    pub line: i32,
    pub c: char,
    pub fg: Color,
    pub fg_set: Option<Rgb>,
    pub bg: Color,
    pub bg_set: Option<Rgb>,
    pub inverse: bool,
    pub dim: bool,
    pub bold: bool,
    pub italic: bool,
}

/// A character as it is shown.
#[derive(Clone, Copy, Debug, PartialEq, Eq, Structural)]
pub struct Glyph {
    pub c: char,
    pub rgb: Rgb,
    pub bold: bool,
    pub italic: bool,
}

/// A third less of a colour.
pub open spec fn dimmed(c: Rgb) -> Rgb {
    rgb_of(
        ((c.r as int) * 2 / 3) as u8,
        ((c.g as int) * 2 / 3) as u8,
        ((c.b as int) * 2 / 3) as u8,
    )
}

/// How a cell is shown: in its background colour where it is inverse.
pub open spec fn glyph_of(cell: Cell) -> Glyph {
    let base = if cell.inverse {
        color_rgb(cell.bg, cell.bg_set)
    } else {
        color_rgb(cell.fg, cell.fg_set)
    };
    Glyph {
        c: cell.c,
        rgb: if cell.dim {
            dimmed(base)
        } else {
            base
        },
        bold: cell.bold,
        italic: cell.italic,
    }
}

fn dim(v: u8) -> (r: u8)
    ensures
        r == ((v as int) * 2 / 3) as u8,
{
    ((v as u16 * 2) / 3) as u8
}

fn show_cell(cell: &Cell) -> (r: Glyph)
    ensures
        r == glyph_of(*cell),
{
    let base = if cell.inverse {
        resolve_color(cell.bg, cell.bg_set)
    } else {
        resolve_color(cell.fg, cell.fg_set)
    };
    let shown = if cell.dim {
        rgb(dim(base.r), dim(base.g), dim(base.b))
    } else {
        base
    };
    Glyph { c: cell.c, rgb: shown, bold: cell.bold, italic: cell.italic }
}

/// The glyphs of one row among the first `n` cells, `offset` being how far the view is
/// scrolled back.
pub open spec fn row_glyphs(cells: Seq<Cell>, offset: int, row: int, n: nat) -> Seq<Glyph>
    decreases n,
{
    if n == 0 {
        Seq::empty()
    } else {
        let before = row_glyphs(cells, offset, row, (n - 1) as nat);
        if cells[n - 1].line + offset == row {
            before.push(glyph_of(cells[n - 1]))
        } else {
            before
        }
    }
}

/// A row without the blanks behind it.
pub open spec fn used(row: Seq<Glyph>) -> Seq<Glyph>
    decreases row.len(),
{
    if row.len() > 0 && row.last().c == ' ' {
        used(row.drop_last())
    } else {
        row
    }
}

/// A text with its spans.
pub struct Shown {
    pub text: Seq<char>,
    pub spans: Seq<TerminalSpan>,
}

/// A text with one more glyph: where it goes on in the style of the last span, that grows.
pub open spec fn with_glyph(s: Shown, g: Glyph) -> Shown {
    let start = byte_len(s.text) as usize;
    let end = (byte_len(s.text) + width(g.c)) as usize;
    let fresh = TerminalSpan { start, end, rgb: g.rgb, bold: g.bold, italic: g.italic };
    Shown {
        text: s.text.push(g.c),
        spans: if s.spans.len() > 0 && s.spans.last().end == start && s.spans.last().rgb == g.rgb
            && s.spans.last().bold == g.bold && s.spans.last().italic == g.italic {
            s.spans.drop_last().push(TerminalSpan { end, ..s.spans.last() })
        } else {
            s.spans.push(fresh)
        },
    }
}

/// A text with the first `n` glyphs of a row.
pub open spec fn with_glyphs(s: Shown, row: Seq<Glyph>, n: nat) -> Shown
    decreases n,
{
    if n == 0 {
        s
    } else {
        with_glyph(with_glyphs(s, row, (n - 1) as nat), row[n - 1])
    }
}

/// The text of the first `n` rows, a line feed between them.
pub open spec fn shown(cells: Seq<Cell>, offset: int, n: nat) -> Shown
    decreases n,
{
    if n == 0 {
        Shown { text: Seq::empty(), spans: Seq::empty() }
    } else {
        let before = shown(cells, offset, (n - 1) as nat);
        let row = used(row_glyphs(cells, offset, n - 1, cells.len()));
        let start = if n == 1 {
            before
        } else {
            Shown { text: before.text.push('\n'), ..before }
        };
        with_glyphs(start, row, row.len())
    }
}

/// Where the cursor is in view.
pub open spec fn cursor_at(line: int, offset: int, column: usize, lines: nat) -> Option<(usize, usize)> {
    if 0 <= line + offset < lines {
        Some(((line + offset) as usize, column))
    } else {
        None
    }
}

/// The lines that cells and the cursor name, with the scrolling added, fit in 32 bits.
pub open spec fn lines_fit(cells: Seq<Cell>, offset: i32, cursor_line: i32) -> bool {
    &&& i32::MIN <= cursor_line + offset <= i32::MAX
    &&& forall|i: int| 0 <= i < cells.len() ==> i32::MIN <= (#[trigger] cells[i]).line + offset <= i32::MAX
}

fn row_of(cells: &Vec<Cell>, offset: i32, row: usize) -> (r: Vec<Glyph>)
    ensures
        r@ == used(row_glyphs(cells@, offset as int, row as int, cells@.len())),
{
    let mut out: Vec<Glyph> = Vec::new();
    for i in 0..cells.len()
        invariant
            out@ == row_glyphs(cells@, offset as int, row as int, i as nat),
    {
        let at: i64 = cells[i].line as i64 + offset as i64;
        if at >= 0 && at as u64 == row as u64 {
            out.push(show_cell(&cells[i]));
        }
    }
    let ghost all = out@;
    while out.len() > 0 && out[out.len() - 1].c == ' '
        invariant
            used(out@) == used(all),
        decreases out@.len(),
    {
        let ghost before = out@;
        let _ = out.pop();
        assert(out@ =~= before.drop_last());
    }
    out
}

/// What a terminal of `lines` rows shows, scrolled back by `offset`, given its cells and where
/// its cursor is.
pub fn styled_content(
    cells: &Vec<Cell>,
    lines: usize,
    offset: i32,
    cursor_line: i32,
    cursor_column: usize,
) -> (r: TerminalSnapshot)
    requires
        lines_fit(cells@, offset, cursor_line),
    ensures
        r.text@ == shown(cells@, offset as int, lines as nat).text,
        r.spans@ == shown(cells@, offset as int, lines as nat).spans,
        r.cursor == cursor_at(cursor_line as int, offset as int, cursor_column, lines as nat),
{
    let mut text = String::new();
    let mut spans: Vec<TerminalSpan> = Vec::new();
    for i in 0..lines
        invariant
            text@ == shown(cells@, offset as int, i as nat).text,
            spans@ == shown(cells@, offset as int, i as nat).spans,
    {
        let row = row_of(cells, offset, i);
        if i > 0 {
            text.push('\n');
        }
        let ghost start = Shown { text: text@, spans: spans@ };
        for k in 0..row.len()
            invariant
                text@ == with_glyphs(start, row@, k as nat).text,
                spans@ == with_glyphs(start, row@, k as nat).spans,
        {
            let g = row[k];
            let from = len_of(&text);
            let ghost before_text = text@;
            let ghost before = spans@;
            text.push(g.c);
            let to = len_of(&text);
            assert(text@.drop_last() =~= before_text);
            let n = spans.len();
            let grows = n > 0 && spans[n - 1].end == from && spans[n - 1].rgb == g.rgb && spans[n
                - 1].bold == g.bold && spans[n - 1].italic == g.italic;
            if grows {
                let longer = TerminalSpan { end: to, ..spans[n - 1] };
                spans.set(n - 1, longer);
                assert(spans@ =~= before.drop_last().push(longer));
            } else {
                spans.push(
                    TerminalSpan { start: from, end: to, rgb: g.rgb, bold: g.bold, italic: g.italic },
                );
            }
        }
    }
    let at: i64 = cursor_line as i64 + offset as i64;
    let cursor = if at >= 0 && (at as u64) < lines as u64 {
        Some((at as usize, cursor_column))
    } else {
        None
    };
    TerminalSnapshot { text, cursor, spans }
}

/// The spans come one after the other, each with something in it, and end with the text at
/// the latest.
pub open spec fn spans_ascend(s: Shown) -> bool {
    &&& forall|i: int| 0 <= i < s.spans.len() ==> (#[trigger] s.spans[i]).start < s.spans[i].end
    &&& forall|i: int, j: int|
        0 <= i < j < s.spans.len() ==> (#[trigger] s.spans[i]).end <= (#[trigger] s.spans[j]).start
    &&& s.spans.len() > 0 ==> s.spans.last().end <= byte_len(s.text)
}

proof fn lemma_push_len(t: Seq<char>, c: char)
    ensures
        byte_len(t.push(c)) == byte_len(t) + width(c),
        width(c) > 0,
{
    assert(t.push(c).drop_last() =~= t);
}

proof fn lemma_with_glyphs(s: Shown, row: Seq<Glyph>, n: nat)
    requires
        spans_ascend(s),
        byte_len(with_glyphs(s, row, n).text) <= usize::MAX,
    ensures
        spans_ascend(with_glyphs(s, row, n)),
        byte_len(s.text) <= byte_len(with_glyphs(s, row, n).text),
    decreases n,
{
    if n > 0 {
        let before = with_glyphs(s, row, (n - 1) as nat);
        let g = row[n - 1];
        let now = with_glyphs(s, row, n);
        lemma_push_len(before.text, g.c);
        lemma_with_glyphs(s, row, (n - 1) as nat);
        let len = before.spans.len();
        assert forall|i: int| 0 <= i < now.spans.len() implies (#[trigger] now.spans[i]).start
            < now.spans[i].end by {
            if i < now.spans.len() - 1 {
                assert(now.spans[i] == before.spans[i]);
            } else if now.spans.len() == len {
                assert(before.spans[len - 1].start < before.spans[len - 1].end);
            }
        }
        assert forall|i: int, j: int| 0 <= i < j < now.spans.len() implies (#[trigger] now.spans[i]).end <= (
        #[trigger] now.spans[j]).start by {
            assert(now.spans[i] == before.spans[i]);
            if j < now.spans.len() - 1 || now.spans.len() == len {
                assert(now.spans[j].start == before.spans[j].start);
                assert(before.spans[i].end <= before.spans[j].start);
            } else {
                assert(before.spans[i].end <= before.spans.last().end) by {
                    if i < len - 1 {
                        assert(before.spans[i].end <= before.spans[len - 1].start);
                        assert(before.spans[len - 1].start < before.spans[len - 1].end);
                    }
                }
            }
        }
    }
}

/// The styles of a terminal's text do not overlap and lie within it.
pub proof fn styles_lie_in_the_text(cells: Seq<Cell>, offset: int, n: nat)
    requires
        byte_len(shown(cells, offset, n).text) <= usize::MAX,
    ensures
        spans_ascend(shown(cells, offset, n)),
    decreases n,
{
    if n > 0 {
        let before = shown(cells, offset, (n - 1) as nat);
        let row = used(row_glyphs(cells, offset, n - 1, cells.len()));
        let start = if n == 1 {
            before
        } else {
            Shown { text: before.text.push('\n'), ..before }
        };
        lemma_push_len(before.text, '\n');
        lemma_grows(start, row, row.len());
        styles_lie_in_the_text(cells, offset, (n - 1) as nat);
        lemma_with_glyphs(start, row, row.len());
    }
}

proof fn lemma_grows(s: Shown, row: Seq<Glyph>, n: nat)
    ensures
        byte_len(s.text) <= byte_len(with_glyphs(s, row, n).text),
    decreases n,
{
    if n > 0 {
        lemma_grows(s, row, (n - 1) as nat);
        lemma_push_len(with_glyphs(s, row, (n - 1) as nat).text, row[n - 1].c);
    }
}

// --- what is shown of cells ---

/// A cell is shown in its foreground colour, whatever its background, and an inverse cell in its
/// background colour, whatever its foreground: as a cell with the two exchanged is that is not inverse.
pub proof fn cells_are_shown_in_their_colour(cell: Cell, other: Color, other_set: Option<Rgb>)
    ensures
        !cell.inverse ==> glyph_of(cell) == glyph_of(Cell { bg: other, bg_set: other_set, ..cell }),
        cell.inverse ==> glyph_of(cell) == glyph_of(Cell { fg: other, fg_set: other_set, ..cell }),
        cell.inverse ==> glyph_of(cell) == glyph_of(
            Cell { fg: cell.bg, fg_set: cell.bg_set, bg: cell.fg, bg_set: cell.fg_set, inverse: false, ..cell },
        ),
        !cell.inverse && !cell.dim ==> (cell.fg matches Color::Spec(c) ==> glyph_of(cell).rgb == c),
        cell.inverse && !cell.dim ==> (cell.bg matches Color::Spec(c) ==> glyph_of(cell).rgb == c),
        glyph_of(cell).c == cell.c,
        glyph_of(cell).bold == cell.bold,
        glyph_of(cell).italic == cell.italic,
{
}

/// A colour that the program set is used in the place of the one of the palette, and an explicit colour is
/// itself, whatever was set.
pub proof fn set_colours_count(c: Rgb, i: u8, n: NamedColor, set: Option<Rgb>)
    ensures
        color_rgb(Color::Spec(c), set) == c,
        color_rgb(Color::Indexed(i), Some(c)) == c,
        color_rgb(Color::Named(n), Some(c)) == c,
        name_index(n) matches Some(k) ==> color_rgb(Color::Named(n), None) == color_rgb(Color::Indexed(k), None),
{
}

/// Ordinary text can be told from its background, and so can dim text.
pub proof fn text_can_be_seen()
    ensures
        color_rgb(Color::Named(NamedColor::Foreground), None).r > color_rgb(
            Color::Named(NamedColor::DimForeground),
            None,
        ).r > color_rgb(Color::Named(NamedColor::Background), None).r,
        color_rgb(Color::Named(NamedColor::BrightForeground), None) == color_rgb(
            Color::Named(NamedColor::Foreground),
            None,
        ),
{
}

/// A dim cell has two thirds of the brightness of one that is not, rounded down, in each colour.
pub proof fn dim_cells_have_two_thirds(cell: Cell)
    ensures
        ({
            let plain = glyph_of(Cell { dim: false, ..cell }).rgb;
            let dim = glyph_of(Cell { dim: true, ..cell }).rgb;
            &&& 3 * dim.r <= 2 * plain.r < 3 * dim.r + 3
            &&& 3 * dim.g <= 2 * plain.g < 3 * dim.g + 3
            &&& 3 * dim.b <= 2 * plain.b < 3 * dim.b + 3
        }),
{
}

/// The colour cube of the palette: each of its three levels is one component, a higher level is brighter,
/// the lowest is dark and the highest is full, and the three components go by the same levels.
pub proof fn the_cube_has_six_levels(r: int, g: int, b: int)
    requires
        0 <= r < 6,
        0 <= g < 6,
        0 <= b < 6,
    ensures
        ({
            let at = |x: int, y: int, z: int| palette((16 + 36 * x + 6 * y + z) as u8);
            &&& at(r, g, b).r == at(r, 0, 0).r
            &&& at(r, g, b).g == at(0, g, 0).g
            &&& at(r, g, b).b == at(0, 0, b).b
            &&& at(r, 0, 0).r == at(0, r, 0).g
            &&& at(r, 0, 0).r == at(0, 0, r).b
            &&& at(0, 0, 0).r == 0
            &&& at(5, 0, 0).r == 255
            &&& r > 0 ==> at(r, 0, 0).r == 95 + 40 * (r - 1)
        }),
{
    let n = 36 * r + 6 * g + b;
    assert(n / 36 == r && n / 6 % 6 == g && n % 6 == b);
    assert((36 * r) / 36 == r && (36 * r) / 6 % 6 == 0 && (36 * r) % 6 == 0);
    assert((6 * g) / 36 == 0 && (6 * g) / 6 % 6 == g && (6 * g) % 6 == 0);
    assert((6 * r) / 36 == 0 && (6 * r) / 6 % 6 == r && (6 * r) % 6 == 0);
    assert(b / 36 == 0 && b / 6 % 6 == 0 && b % 6 == b);
    assert(r / 36 == 0 && r / 6 % 6 == 0 && r % 6 == r);
}

/// The ramp of the palette is grey and rises in equal steps, and the eight bright colours are brighter than
/// the plain ones in each component.
pub proof fn greys_rise_and_brights_are_brighter(i: u8)
    ensures
        232 <= i ==> palette(i).r == palette(i).g && palette(i).g == palette(i).b,
        232 <= i < 255 ==> palette((i + 1) as u8).r == palette(i).r + 10,
        palette(232).r == 8,
        i < 8 ==> {
            &&& palette(i).r < palette((i + 8) as u8).r
            &&& palette(i).g < palette((i + 8) as u8).g
            &&& palette(i).b < palette((i + 8) as u8).b
        },
{
}

/// The glyph stands at `p` in a text, in its style.
pub open spec fn stands_at(s: Shown, p: int, g: Glyph) -> bool {
    &&& 0 <= p < s.text.len()
    &&& s.text[p] == g.c
    &&& exists|k: int|
        {
            &&& 0 <= k < s.spans.len()
            &&& (#[trigger] s.spans[k]).start <= byte_len(s.text.take(p)) < s.spans[k].end
            &&& s.spans[k].rgb == g.rgb
            &&& s.spans[k].bold == g.bold
            &&& s.spans[k].italic == g.italic
        }
}

proof fn lemma_stays(s: Shown, g: Glyph, p: int, h: Glyph)
    requires
        stands_at(s, p, h),
        spans_ascend(s),
        byte_len(s.text.push(g.c)) <= usize::MAX,
    ensures
        stands_at(with_glyph(s, g), p, h),
        with_glyph(s, g).text.take(p) == s.text.take(p),
{
    let now = with_glyph(s, g);
    lemma_push_len(s.text, g.c);
    assert(now.text.take(p) =~= s.text.take(p));
    let k = choose|k: int|
        {
            &&& 0 <= k < s.spans.len()
            &&& (#[trigger] s.spans[k]).start <= byte_len(s.text.take(p)) < s.spans[k].end
            &&& s.spans[k].rgb == h.rgb
            &&& s.spans[k].bold == h.bold
            &&& s.spans[k].italic == h.italic
        };
    if now.spans.len() == s.spans.len() && k == s.spans.len() - 1 {
        assert(now.spans[k].start == s.spans[k].start);
        assert(now.spans[k].end >= s.spans[k].end);
    } else {
        assert(now.spans[k] == s.spans[k]);
    }
}

proof fn lemma_comes(s: Shown, g: Glyph)
    requires
        spans_ascend(s),
        byte_len(s.text.push(g.c)) <= usize::MAX,
    ensures
        stands_at(with_glyph(s, g), s.text.len() as int, g),
{
    let now = with_glyph(s, g);
    lemma_push_len(s.text, g.c);
    assert(now.text.take(s.text.len() as int) =~= s.text);
    let k = now.spans.len() - 1;
    if now.spans.len() == s.spans.len() {
        assert(now.spans[k].start == s.spans[k].start);
        assert(s.spans[k].start < s.spans[k].end);
    }
    assert(now.spans[k].rgb == g.rgb);
}

/// A row puts each of its glyphs in, behind what was there, which stays.
proof fn lemma_row_stands(s: Shown, row: Seq<Glyph>, n: nat)
    requires
        n <= row.len(),
        spans_ascend(s),
        byte_len(with_glyphs(s, row, n).text) <= usize::MAX,
    ensures
        ({
            let now = with_glyphs(s, row, n);
            &&& spans_ascend(now)
            &&& now.text == s.text + Seq::new(n, |i: int| row[i].c)
            &&& forall|p: int, h: Glyph| #[trigger] stands_at(s, p, h) ==> stands_at(now, p, h)
            &&& forall|i: int| 0 <= i < n ==> stands_at(now, s.text.len() + i, #[trigger] row[i])
        }),
    decreases n,
{
    if n > 0 {
        let m = (n - 1) as nat;
        let before = with_glyphs(s, row, m);
        let now = with_glyphs(s, row, n);
        let g = row[n - 1];
        lemma_push_len(before.text, g.c);
        lemma_row_stands(s, row, m);
        lemma_with_glyphs(s, row, n);
        lemma_comes(before, g);
        assert(now.text =~= s.text + Seq::new(n, |i: int| row[i].c));
        assert forall|p: int, h: Glyph| #[trigger] stands_at(s, p, h) implies stands_at(now, p, h) by {
            lemma_stays(before, g, p, h);
        }
        assert forall|i: int| 0 <= i < n implies stands_at(now, s.text.len() + i, #[trigger] row[i]) by {
            if i < m {
                lemma_stays(before, g, s.text.len() + i, row[i]);
            }
        }
    } else {
        assert(s.text + Seq::new(0, |i: int| row[i].c) =~= s.text);
    }
}

/// How many line feeds a text holds.
pub open spec fn feeds(t: Seq<char>) -> nat
    decreases t.len(),
{
    if t.len() == 0 {
        0
    } else {
        feeds(t.drop_last()) + if t.last() == '\n' {
            1nat
        } else {
            0nat
        }
    }
}

proof fn lemma_feeds_join(a: Seq<char>, b: Seq<char>)
    ensures
        feeds(a + b) == feeds(a) + feeds(b),
        (forall|i: int| 0 <= i < b.len() ==> #[trigger] b[i] != '\n') ==> feeds(b) == 0,
    decreases b.len(),
{
    if b.len() == 0 {
        assert(a + b =~= a);
    } else {
        lemma_feeds_join(a, b.drop_last());
        assert((a + b).drop_last() =~= a + b.drop_last());
        assert((a + b).last() == b.last());
        if forall|i: int| 0 <= i < b.len() ==> #[trigger] b[i] != '\n' {
            assert(b[b.len() - 1] != '\n');
            assert forall|i: int| 0 <= i < b.len() - 1 implies #[trigger] b.drop_last()[i] != '\n' by {
                assert(b[i] != '\n');
            }
        }
    }
}

proof fn lemma_row_has(cells: Seq<Cell>, offset: int, row: int, n: nat, i: int)
    requires
        0 <= i < n <= cells.len(),
        cells[i].line + offset == row,
    ensures
        row_glyphs(cells, offset, row, n).contains(glyph_of(cells[i])),
    decreases n,
{
    let now = row_glyphs(cells, offset, row, n);
    let before = row_glyphs(cells, offset, row, (n - 1) as nat);
    if i == n - 1 {
        assert(now[before.len() as int] == glyph_of(cells[i]));
    } else {
        lemma_row_has(cells, offset, row, (n - 1) as nat, i);
        let j = choose|j: int| 0 <= j < before.len() && before[j] == glyph_of(cells[i]);
        assert(now[j] == before[j]);
    }
}

proof fn lemma_row_from(cells: Seq<Cell>, offset: int, row: int, n: nat, j: int)
    requires
        n <= cells.len(),
        0 <= j < row_glyphs(cells, offset, row, n).len(),
    ensures
        exists|i: int|
            0 <= i < n && (#[trigger] cells[i]).line + offset == row && row_glyphs(cells, offset, row, n)[j]
                == glyph_of(cells[i]),
    decreases n,
{
    let before = row_glyphs(cells, offset, row, (n - 1) as nat);
    if j < before.len() {
        lemma_row_from(cells, offset, row, (n - 1) as nat, j);
        let i = choose|i: int|
            0 <= i < n - 1 && (#[trigger] cells[i]).line + offset == row && before[j] == glyph_of(cells[i]);
        assert(cells[i].line + offset == row);
    } else {
        assert(cells[n - 1].line + offset == row);
    }
}

proof fn lemma_used(row: Seq<Glyph>, j: int)
    requires
        0 <= j < row.len(),
    ensures
        used(row).len() <= row.len(),
        used(row) == row.take(used(row).len() as int),
        row[j].c != ' ' ==> j < used(row).len(),
        used(row).len() > 0 ==> used(row).last().c != ' ',
    decreases row.len(),
{
    if row.last().c == ' ' {
        let t = row.drop_last();
        if t.len() > 0 {
            lemma_used(t, if j < t.len() {
                j
            } else {
                0
            });
            if j < t.len() {
                assert(t[j] == row[j]);
            }
        } else {
            assert(used(t) == t);
        }
        assert(used(row) =~= row.take(used(row).len() as int));
    } else {
        assert(row.take(row.len() as int) =~= row);
    }
}

/// Every cell in view that is not blank is shown, on its row, in its style: its character stands in the
/// text behind as many line feeds as there are rows above it.
pub proof fn cells_in_view_are_shown(cells: Seq<Cell>, offset: int, n: nat, i: int)
    requires
        0 <= i < cells.len(),
        0 <= cells[i].line + offset < n,
        cells[i].c != ' ',
        forall|k: int| 0 <= k < cells.len() ==> (#[trigger] cells[k]).c != '\n',
        byte_len(shown(cells, offset, n).text) <= usize::MAX,
    ensures
        exists|p: int| #[trigger]
            stands_at(shown(cells, offset, n), p, glyph_of(cells[i])) && feeds(
                shown(cells, offset, n).text.take(p),
            ) == cells[i].line + offset,
        feeds(shown(cells, offset, n).text) == n - 1,
    decreases n,
{
    let g = glyph_of(cells[i]);
    let before = shown(cells, offset, (n - 1) as nat);
    let now = shown(cells, offset, n);
    let all = row_glyphs(cells, offset, n - 1, cells.len());
    let row = used(all);
    let start = if n == 1 {
        before
    } else {
        Shown { text: before.text.push('\n'), ..before }
    };
    lemma_push_len(before.text, '\n');
    lemma_grows(start, row, row.len());
    styles_lie_in_the_text(cells, offset, (n - 1) as nat);
    lemma_row_stands(start, row, row.len());
    let chars = Seq::new(row.len(), |k: int| row[k].c);
    assert forall|k: int| 0 <= k < chars.len() implies #[trigger] chars[k] != '\n' by {
        lemma_used(all, 0);
        assert(row[k] == all[k]);
        lemma_row_from(cells, offset, n - 1, cells.len(), k);
    }
    lemma_feeds_join(start.text, chars);
    lemma_feeds_of(cells, offset, (n - 1) as nat);
    assert(before.text.push('\n').drop_last() =~= before.text);
    if cells[i].line + offset == n - 1 {
        lemma_row_has(cells, offset, n - 1, cells.len(), i);
        let j = choose|j: int| 0 <= j < all.len() && all[j] == g;
        lemma_used(all, j);
        assert(row[j] == g);
        let p = start.text.len() + j;
        assert(stands_at(now, p, row[j]));
        assert(now.text.take(p) =~= start.text + chars.take(j));
        lemma_feeds_join(start.text, chars.take(j));
    } else {
        cells_in_view_are_shown(cells, offset, (n - 1) as nat, i);
        let p = choose|p: int| #[trigger]
            stands_at(before, p, g) && feeds(before.text.take(p)) == cells[i].line + offset;
        assert(start.text.take(p) =~= before.text.take(p));
        let k = choose|k: int|
            {
                &&& 0 <= k < before.spans.len()
                &&& (#[trigger] before.spans[k]).start <= byte_len(before.text.take(p)) < before.spans[k].end
                &&& before.spans[k].rgb == g.rgb
                &&& before.spans[k].bold == g.bold
                &&& before.spans[k].italic == g.italic
            };
        assert(start.spans[k] == before.spans[k]);
        assert(start.text[p] == before.text[p]);
        assert(stands_at(start, p, g));
        assert(now.text.take(p) =~= before.text.take(p));
        assert(stands_at(now, p, g));
    }
}

proof fn lemma_feeds_of(cells: Seq<Cell>, offset: int, n: nat)
    requires
        forall|k: int| 0 <= k < cells.len() ==> (#[trigger] cells[k]).c != '\n',
    ensures
        feeds(shown(cells, offset, n).text) == if n == 0 {
            0int
        } else {
            n - 1
        },
    decreases n,
{
    if n > 0 {
        let before = shown(cells, offset, (n - 1) as nat);
        let all = row_glyphs(cells, offset, n - 1, cells.len());
        let row = used(all);
        let start = if n == 1 {
            before
        } else {
            Shown { text: before.text.push('\n'), ..before }
        };
        lemma_feeds_of(cells, offset, (n - 1) as nat);
        let chars = Seq::new(row.len(), |k: int| row[k].c);
        lemma_row_text(start, row, row.len());
        assert forall|k: int| 0 <= k < chars.len() implies #[trigger] chars[k] != '\n' by {
            lemma_used(all, 0);
            assert(row[k] == all[k]);
            lemma_row_from(cells, offset, n - 1, cells.len(), k);
        }
        lemma_feeds_join(start.text, chars);
        assert(before.text.push('\n').drop_last() =~= before.text);
    }
}

proof fn lemma_row_text(s: Shown, row: Seq<Glyph>, n: nat)
    requires
        n <= row.len(),
    ensures
        with_glyphs(s, row, n).text == s.text + Seq::new(n, |i: int| row[i].c),
    decreases n,
{
    if n > 0 {
        lemma_row_text(s, row, (n - 1) as nat);
        assert(with_glyphs(s, row, n).text =~= s.text + Seq::new(n, |i: int| row[i].c));
    } else {
        assert(s.text + Seq::new(0, |i: int| row[i].c) =~= s.text);
    }
}

/// Scrolling back by one more row moves what is shown down by one: a row shows what the row above it showed,
/// and the cursor, where it is still in view, goes with it.
pub proof fn scrolling_moves_the_rows(cells: Seq<Cell>, offset: int, row: int, n: nat, line: int, column: usize, lines: nat)
    requires
        lines <= usize::MAX,
    ensures
        row_glyphs(cells, offset + 1, row + 1, n) == row_glyphs(cells, offset, row, n),
        cursor_at(line, offset, column, lines) matches Some((r, c)) ==> c == column && r == line + offset && (r
            + 1 < lines ==> cursor_at(line, offset + 1, column, lines) == Some(((r + 1) as usize, column))),
        0 <= line + offset < lines <==> cursor_at(line, offset, column, lines) is Some,
    decreases n,
{
    if n > 0 {
        scrolling_moves_the_rows(cells, offset, row, (n - 1) as nat, line, column, lines);
    }
}

/// The characters of a row.
pub open spec fn row_chars(row: Seq<Glyph>) -> Seq<char> {
    Seq::new(row.len(), |k: int| row[k].c)
}

/// The characters of the first `n` rows, each without the blanks behind it.
pub open spec fn rows_shown(cells: Seq<Cell>, offset: int, n: nat) -> Seq<Seq<char>> {
    Seq::new(n, |i: int| row_chars(used(row_glyphs(cells, offset, i, cells.len()))))
}

proof fn lemma_shown_text(cells: Seq<Cell>, offset: int, n: nat)
    ensures
        shown(cells, offset, n).text == separated(rows_shown(cells, offset, n), seq!['\n']),
    decreases n,
{
    let rows = rows_shown(cells, offset, n);
    if n > 0 {
        lemma_shown_text(cells, offset, (n - 1) as nat);
        let before = shown(cells, offset, (n - 1) as nat);
        let row = used(row_glyphs(cells, offset, n - 1, cells.len()));
        let start = if n == 1 {
            before
        } else {
            Shown { text: before.text.push('\n'), ..before }
        };
        lemma_row_text(start, row, row.len());
        assert(Seq::new(row.len(), |i: int| row[i].c) =~= row_chars(row));
        assert(rows.drop_last() =~= rows_shown(cells, offset, (n - 1) as nat));
        assert(rows.last() == row_chars(row));
        if n == 1 {
            assert(rows =~= seq![row_chars(row)]);
            assert(start.text + row_chars(row) =~= row_chars(row));
        } else {
            assert(start.text + row_chars(row) =~= before.text + seq!['\n'] + row_chars(row));
        }
    }
}

/// Each row of the view is a line of the text: the characters of its cells from the first column on,
/// without the blanks behind them.
pub proof fn rows_are_lines(cells: Seq<Cell>, offset: int, n: nat, i: int)
    requires
        0 <= i < n,
        forall|k: int| 0 <= k < cells.len() ==> (#[trigger] cells[k]).c != '\n',
    ensures
        pieces(shown(cells, offset, n).text, '\n').len() == n,
        pieces(shown(cells, offset, n).text, '\n')[i] == row_chars(
            used(row_glyphs(cells, offset, i, cells.len())),
        ),
{
    let rows = rows_shown(cells, offset, n);
    lemma_shown_text(cells, offset, n);
    assert forall|a: int, b: int| 0 <= a < rows.len() && 0 <= b < rows[a].len() implies #[trigger] rows[a][b]
        != '\n' by {
        let all = row_glyphs(cells, offset, a, cells.len());
        blanks_behind_a_row_go(all);
        lemma_no_feeds(cells, offset, a, cells.len());
        assert(rows[a][b] == all[b].c);
    }
    separated_texts_fall_apart(rows, '\n');
}

proof fn lemma_no_feeds(cells: Seq<Cell>, offset: int, row: int, n: nat)
    requires
        n <= cells.len(),
        forall|k: int| 0 <= k < cells.len() ==> (#[trigger] cells[k]).c != '\n',
    ensures
        forall|b: int|
            0 <= b < row_glyphs(cells, offset, row, n).len() ==> (#[trigger] row_glyphs(cells, offset, row, n)[b]).c
                != '\n',
    decreases n,
{
    if n > 0 {
        lemma_no_feeds(cells, offset, row, (n - 1) as nat);
        let before = row_glyphs(cells, offset, row, (n - 1) as nat);
        let now = row_glyphs(cells, offset, row, n);
        assert(cells[n - 1].c != '\n');
        assert forall|b: int| 0 <= b < now.len() implies (#[trigger] now[b]).c != '\n' by {
            if b < before.len() {
                assert(now[b] == before[b]);
            }
        }
    }
}

/// Only the blanks behind a row go, and all of them.
pub proof fn blanks_behind_a_row_go(row: Seq<Glyph>)
    ensures
        used(row).len() <= row.len(),
        used(row) == row.take(used(row).len() as int),
        used(row).len() > 0 ==> used(row).last().c != ' ',
        forall|k: int| used(row).len() <= k < row.len() ==> (#[trigger] row[k]).c == ' ',
    decreases row.len(),
{
    if row.len() > 0 && row.last().c == ' ' {
        let r = row.drop_last();
        blanks_behind_a_row_go(r);
        assert(used(row) =~= row.take(used(row).len() as int));
        assert forall|k: int| used(row).len() <= k < row.len() implies (#[trigger] row[k]).c == ' ' by {
            if k < r.len() {
                assert(r[k] == row[k]);
            }
        }
    } else {
        assert(row.take(row.len() as int) =~= row);
    }
}

/// The cells of a line are shown in their order: the first of them in the first column.
pub proof fn cells_keep_their_column(cells: Seq<Cell>, offset: int, row: int, from: int, n: nat)
    requires
        0 <= from <= n <= cells.len(),
        forall|k: int| 0 <= k < from ==> (#[trigger] cells[k]).line + offset != row,
        forall|k: int| from <= k < n ==> (#[trigger] cells[k]).line + offset == row,
    ensures
        row_glyphs(cells, offset, row, n) == Seq::new((n - from) as nat, |k: int| glyph_of(cells[from + k])),
    decreases n,
{
    let want = Seq::new((n - from) as nat, |k: int| glyph_of(cells[from + k]));
    if n > 0 {
        if n > from {
            cells_keep_their_column(cells, offset, row, from, (n - 1) as nat);
            assert(cells[n - 1].line + offset == row);
            assert(row_glyphs(cells, offset, row, n) =~= want);
        } else {
            assert(cells[n - 1].line + offset != row);
            lemma_no_glyphs(cells, offset, row, n);
            assert(row_glyphs(cells, offset, row, n) =~= want);
        }
    } else {
        assert(row_glyphs(cells, offset, row, n) =~= want);
    }
}

proof fn lemma_no_glyphs(cells: Seq<Cell>, offset: int, row: int, n: nat)
    requires
        n <= cells.len(),
        forall|k: int| 0 <= k < n ==> (#[trigger] cells[k]).line + offset != row,
    ensures
        row_glyphs(cells, offset, row, n).len() == 0,
    decreases n,
{
    if n > 0 {
        assert(cells[n - 1].line + offset != row);
        lemma_no_glyphs(cells, offset, row, (n - 1) as nat);
    }
}

/// Whether two spans have the same style.
pub open spec fn alike(a: TerminalSpan, b: TerminalSpan) -> bool {
    a.rgb == b.rgb && a.bold == b.bold && a.italic == b.italic
}

/// Whether no two spans that touch have the same style.
pub open spec fn are_merged(spans: Seq<TerminalSpan>) -> bool {
    forall|i: int, j: int|
        0 <= i < j < spans.len() && j == i + 1 && (#[trigger] spans[i]).end == (#[trigger] spans[j]).start ==> !alike(
            spans[i],
            spans[j],
        )
}

proof fn lemma_merged_step(s: Shown, g: Glyph)
    requires
        are_merged(s.spans),
    ensures
        are_merged(with_glyph(s, g).spans),
{
    let now = with_glyph(s, g).spans;
    assert forall|i: int, j: int|
        0 <= i < j < now.len() && j == i + 1 && (#[trigger] now[i]).end == (#[trigger] now[j]).start implies !alike(
        now[i],
        now[j],
    ) by {
        assert(now[i] == s.spans[i]);
        if j < s.spans.len() {
            assert(now[j].start == s.spans[j].start && alike(now[j], s.spans[j]));
        }
    }
}

proof fn lemma_merged_row(s: Shown, row: Seq<Glyph>, n: nat)
    requires
        are_merged(s.spans),
    ensures
        are_merged(with_glyphs(s, row, n).spans),
    decreases n,
{
    if n > 0 {
        lemma_merged_row(s, row, (n - 1) as nat);
        lemma_merged_step(with_glyphs(s, row, (n - 1) as nat), row[n - 1]);
    }
}

/// What has one style and stands together is one stretch.
pub proof fn stretches_of_a_style_are_one(cells: Seq<Cell>, offset: int, n: nat)
    ensures
        are_merged(shown(cells, offset, n).spans),
    decreases n,
{
    if n > 0 {
        stretches_of_a_style_are_one(cells, offset, (n - 1) as nat);
        let before = shown(cells, offset, (n - 1) as nat);
        let row = used(row_glyphs(cells, offset, n - 1, cells.len()));
        let start = if n == 1 {
            before
        } else {
            Shown { text: before.text.push('\n'), ..before }
        };
        lemma_merged_row(start, row, row.len());
    }
}

} // verus!
