//! What the editor shows of a document: the window on its text, the caret, the line numbers, the
//! selection and the marks in the gutter.

use vstd::prelude::*;
use std::collections::HashMap;
use crate::buffer::{has_break, lemma_line_at_text, lemma_line_end, lemma_line_start_mono, lemma_line_start_text, lemma_window_slice, line_at, line_end, line_start, text_lines, window, TextBuffer};
use crate::caret::{column, Caret};
use crate::git::LineChange;
use crate::number::{decimal, decimal_text, lemma_decimal_digits};
use crate::text::{chars, chars_of, first_at, is_white, lemma_first_at, lemma_first_at_is, pieces, push_text, trimmed, trimmed_start};
use crate::words::digit_count;

verus! {

broadcast use vstd::std_specs::hash::group_hash_axioms;

/// How many lines past those in view are handed out too.
pub const MARGIN: usize = 8;

/// A selected stretch of a line in view; to the end of the line where it has no end.
#[derive(Clone, Copy, Debug, PartialEq, Eq, Structural)]
pub struct SelSpan {
    pub line: usize,
    pub start_col: usize,
    pub end_col: Option<usize>,
}

/// What the scrollbar shows.
#[derive(Clone, Copy, Debug, PartialEq, Eq, Structural)]
pub struct ScrollbarInfo {
    pub first_line: usize,
    pub total_lines: usize,
}

/// What is shown of a document.
#[derive(Debug)]
pub struct Frame {
    pub text: String,
    /// The row and the column of the caret, where it is in view.
    pub cursor: Option<(usize, usize)>,
    pub prefix: String,
    pub numbers: String,
    pub digits: usize,
    pub spans: Vec<SelSpan>,
    /// The rows in view that changed.
    pub marks: Vec<(usize, LineChange)>,
}

/// The first line in view: moved as little as it takes to have the caret's line in view, where
/// the view follows the caret, and never past the last line.
pub open spec fn first_line(first: int, line: int, cap: int, lines: int, follow: bool) -> int {
    let f = if !follow {
        first
    } else if line < first {
        line
    } else if line >= first + cap {
        line + 1 - cap
    } else {
        first
    };
    if f > lines - 1 {
        lines - 1
    } else {
        f
    }
}

/// A view that follows the caret has it in view.
pub proof fn caret_stays_in_view(first: int, line: int, cap: int, lines: int)
    requires
        0 <= line < lines,
        0 <= first,
        cap > 0,
    ensures
        first_line(first, line, cap, lines, true) <= line < first_line(first, line, cap, lines, true) + cap,
        0 <= first_line(first, line, cap, lines, true) < lines,
{
}

/// `n` blanks.
pub open spec fn blanks(n: int) -> Seq<char> {
    Seq::new(
        (if n > 0 {
            n
        } else {
            0
        }) as nat,
        |i: int| ' ',
    )
}

/// A number at the right of `width` columns.
pub open spec fn padded(n: nat, width: int) -> Seq<char> {
    blanks(width - decimal(n).len()) + decimal(n)
}

/// The numbers of the lines `from..to`, which count from 0, one a line.
pub open spec fn numbers_of(from: int, to: int, width: int) -> Seq<char>
    decreases to - from,
{
    if to <= from {
        Seq::empty()
    } else if to == from + 1 {
        padded(to as nat, width)
    } else {
        numbers_of(from, to - 1, width).push('\n') + padded(to as nat, width)
    }
}

/// What is selected on a line.
pub open spec fn span_on(text: Seq<char>, line: int, from: int, to: int, first: int) -> SelSpan {
    let ls = text_lines(text);
    SelSpan {
        line: (line - first) as usize,
        start_col: (if line == line_at(ls, from) {
            from - line_start(ls, line)
        } else {
            0
        }) as usize,
        end_col: if line == line_at(ls, to) {
            Some((to - line_start(ls, line)) as usize)
        } else {
            None
        },
    }
}

/// The stretches in view of a selection.
pub open spec fn spans_of(text: Seq<char>, selection: Option<(usize, usize)>, first: int, cap: int) -> Seq<
    SelSpan,
> {
    match selection {
        None => Seq::empty(),
        Some((from, to)) => {
            let ls = text_lines(text);
            let start = line_at(ls, from as int);
            let end = line_at(ls, to as int);
            let top = if start < first {
                first
            } else {
                start
            };
            let bottom = if end < first + cap {
                end
            } else {
                first + cap - 1
            };
            Seq::new(
                (if bottom >= top {
                    bottom - top + 1
                } else {
                    0
                }) as nat,
                |i: int| span_on(text, top + i, from as int, to as int, first),
            )
        },
    }
}

/// The rows among the first `n` in view whose lines changed.
pub open spec fn marks_of(git: Map<usize, LineChange>, first: int, n: nat) -> Seq<(usize, LineChange)>
    decreases n,
{
    if n == 0 {
        Seq::empty()
    } else {
        let before = marks_of(git, first, (n - 1) as nat);
        let line = (first + n) as usize;
        if git.dom().contains(line) {
            before.push(((n - 1) as usize, git[line]))
        } else {
            before
        }
    }
}

/// The line at the bottom: where the caret is, and what a module last said.
pub open spec fn status_line(line: int, col: int, status: Option<Seq<char>>) -> Seq<char> {
    let place = "Ln "@ + decimal((line + 1) as nat) + ", Col "@ + decimal((col + 1) as nat);
    match status {
        Some(s) => place + "  \u{2014}  "@ + s,
        None => place,
    }
}

/// The frame says what is shown of a text with a caret in it.
pub open spec fn shows(
    f: Frame,
    text: Seq<char>,
    c: Caret,
    cap: int,
    status: Option<Seq<char>>,
    git: Map<usize, LineChange>,
) -> bool {
    let ls = text_lines(text);
    let first = c.first_line as int;
    let line = line_at(ls, c.cursor as int);
    let col = column(text, c.cursor as int);
    let last = if first + cap + MARGIN < ls.len() {
        first + cap + MARGIN
    } else {
        ls.len() as int
    };
    &&& f.text@ == window(ls, first, cap + MARGIN)
    &&& f.cursor == (if first <= line < first + cap {
        Some(((line - first) as usize, col as usize))
    } else {
        None
    })
    &&& f.prefix@ == status_line(line, col, status)
    &&& f.digits == decimal(ls.len()).len()
    &&& f.numbers@ == numbers_of(first, last, decimal(ls.len()).len() as int)
    &&& f.spans@ == spans_of(text, c.selection(), first, cap)
    &&& f.marks@ == marks_of(git, first, cap as nat)
}

fn push_padded(out: &mut String, n: u64, width: usize)
    ensures
        final(out)@ == old(out)@ + padded(n as nat, width as int),
{
    let ghost before = out@;
    let d = decimal_text(n);
    let len = chars_of(&d).len();
    let mut i: usize = len;
    assert(before + blanks(0) =~= before);
    while i < width
        invariant
            len <= i,
            i <= width || i == len,
            out@ == before + blanks(i - len),
        decreases width - i,
    {
        out.push(' ');
        i += 1;
        assert(before + blanks(i - len) =~= (before + blanks(i - 1 - len)).push(' '));
    }
    push_text(out, &d);
    assert(len < width ==> blanks(i - len) =~= blanks(width - len));
    assert(len >= width ==> blanks(width - len) =~= blanks(0));
    assert(out@ =~= before + padded(n as nat, width as int));
}

fn number_lines(from: usize, to: usize, width: usize) -> (r: String)
    ensures
        r@ == numbers_of(from as int, to as int, width as int),
{
    let mut out = String::new();
    let mut ln: usize = from;
    while ln < to
        invariant
            from <= ln,
            ln <= to || ln == from,
            out@ == numbers_of(from as int, ln as int, width as int),
        decreases to - ln,
    {
        let ghost before = out@;
        if ln > from {
            out.push('\n');
        }
        push_padded(&mut out, ln as u64 + 1, width);
        ln += 1;
        assert(out@ =~= numbers_of(from as int, ln as int, width as int));
    }
    out
}

fn select_spans(buffer: &TextBuffer, caret: &Caret, cap: usize) -> (r: Vec<SelSpan>)
    requires
        caret.fits(buffer@.len()),
        caret.first_line + cap <= usize::MAX,
        cap > 0,
    ensures
        r@ == spans_of(buffer@, caret.selection(), caret.first_line as int, cap as int),
{
    let mut out: Vec<SelSpan> = Vec::new();
    let (from, to) = match caret.selection_range() {
        Some(r) => r,
        None => return out,
    };
    let first = caret.first_line;
    let start = buffer.char_to_line(from);
    let end = buffer.char_to_line(to);
    let top: usize = if start < first {
        first
    } else {
        start
    };
    let bottom: usize = if end < first + cap {
        end
    } else {
        first + cap - 1
    };
    let ghost text = buffer@;
    if bottom < top {
        assert(out@ =~= spans_of(text, caret.selection(), first as int, cap as int));
        return out;
    }
    let total = buffer.len_lines();
    let mut line: usize = top;
    while line <= bottom
        invariant
            text == buffer@,
            from < to <= text.len(),
            start == line_at(text_lines(text), from as int),
            end == line_at(text_lines(text), to as int),
            first <= top <= line <= bottom + 1,
            start <= top,
            bottom <= end < text_lines(text).len(),
            total == text_lines(text).len(),
            out@ == Seq::new(
                (line - top) as nat,
                |i: int| span_on(text, top + i, from as int, to as int, first as int),
            ),
        decreases bottom + 1 - line,
    {
        proof {
            lemma_line_at_text(text, from as int);
            lemma_line_at_text(text, to as int);
        }
        let ls = buffer.line_to_char(line);
        let start_col: usize = if line == start {
            from - ls
        } else {
            0
        };
        let end_col = if line == end {
            Some(to - ls)
        } else {
            None
        };
        out.push(SelSpan { line: line - first, start_col, end_col });
        line += 1;
        assert(out@ =~= Seq::new(
            (line - top) as nat,
            |i: int| span_on(text, top + i, from as int, to as int, first as int),
        ));
    }
    assert(out@ =~= spans_of(text, caret.selection(), first as int, cap as int));
    out
}

fn changed_rows(git: &HashMap<usize, LineChange>, first: usize, cap: usize) -> (r: Vec<(usize, LineChange)>)
    requires
        first + cap <= usize::MAX,
    ensures
        r@ == marks_of(git@, first as int, cap as nat),
{
    let mut out: Vec<(usize, LineChange)> = Vec::new();
    for row in 0..cap
        invariant
            first + cap <= usize::MAX,
            out@ == marks_of(git@, first as int, row as nat),
    {
        let line: usize = first + row + 1;
        if let Some(change) = git.get(&line) {
            out.push((row, *change));
        }
    }
    out
}

/// Moves the view so that it shows what it should, and makes the frame of it; `cap` is how many
/// lines fit, and `follow` whether the view goes with the caret.
pub fn apply_view(
    buffer: &TextBuffer,
    caret: &mut Caret,
    follow: bool,
    cap: usize,
    status: Option<&str>,
    git: &HashMap<usize, LineChange>,
) -> (r: Frame)
    requires
        old(caret).fits(buffer@.len()),
        cap > 0,
        old(caret).first_line + cap + MARGIN <= usize::MAX,
        text_lines(buffer@).len() + cap + MARGIN <= usize::MAX,
        buffer@.len() < usize::MAX,
    ensures
        *final(caret) == (Caret {
            first_line: first_line(
                old(caret).first_line as int,
                line_at(text_lines(buffer@), old(caret).cursor as int),
                cap as int,
                text_lines(buffer@).len() as int,
                follow,
            ) as usize,
            ..*old(caret)
        }),
        shows(r, buffer@, *final(caret), cap as int, chars(status), git@),
{
    proof {
        lemma_line_start_text(buffer@, 0);
        lemma_line_at_text(buffer@, caret.cursor as int);
    }
    let total = buffer.len_lines();
    let line = buffer.char_to_line(caret.cursor);
    if follow {
        if line < caret.first_line {
            caret.first_line = line;
        } else if line >= caret.first_line + cap {
            caret.first_line = line + 1 - cap;
        }
    }
    if caret.first_line > total - 1 {
        caret.first_line = total - 1;
    }
    let first = caret.first_line;
    let text = buffer.visible_text(first, cap + MARGIN);
    let chars_total = buffer.len_chars();
    let col: usize = caret.cursor - buffer.line_to_char(line);
    let cursor = if line >= first && line < first + cap {
        Some((line - first, col))
    } else {
        None
    };
    let mut prefix = "Ln ".to_owned();
    push_text(&mut prefix, &decimal_text(line as u64 + 1));
    push_text(&mut prefix, ", Col ");
    push_text(&mut prefix, &decimal_text(col as u64 + 1));
    if let Some(s) = status {
        push_text(&mut prefix, "  \u{2014}  ");
        push_text(&mut prefix, s);
    }
    let digits = digit_count(total);
    let last: usize = if first + cap + MARGIN < total {
        first + cap + MARGIN
    } else {
        total
    };
    Frame {
        text,
        cursor,
        prefix,
        numbers: number_lines(first, last, digits),
        digits,
        spans: select_spans(buffer, caret, cap),
        marks: changed_rows(git, first, cap),
    }
}

/// The view moves as little as it takes: a caret in view leaves it where it is, one above it becomes the
/// first line and one below it the last, and a view that does not follow the caret stays.
pub proof fn the_view_moves_little(first: int, line: int, cap: int, lines: int)
    requires
        0 <= line < lines,
        0 <= first < lines,
        cap > 0,
    ensures
        first_line(first, line, cap, lines, false) == first,
        first <= line < first + cap ==> first_line(first, line, cap, lines, true) == first,
        line < first ==> first_line(first, line, cap, lines, true) == line,
        line >= first + cap ==> first_line(first, line, cap, lines, true) + cap == line + 1,
{
}

/// The text of a frame is the document's from the first line in view on.
pub proof fn frames_show_the_document(text: Seq<char>, first: int, count: int)
    requires
        0 <= first < text_lines(text).len(),
        0 < count,
    ensures
        ({
            let ls = text_lines(text);
            let end = if first + count < ls.len() {
                first + count
            } else {
                ls.len() as int
            };
            window(ls, first, count) == text.subrange(line_start(ls, first) as int, line_start(ls, end) as int)
        }),
{
    let ls = text_lines(text);
    let end = if first + count < ls.len() {
        first + count
    } else {
        ls.len() as int
    };
    lemma_window_slice(text, first, end);
}

/// The caret is shown where it is: the row and the column that a frame gives lead to it, and it is given
/// where its line is in view.
pub proof fn the_caret_is_shown_where_it_is(
    f: Frame,
    text: Seq<char>,
    c: Caret,
    cap: int,
    status: Option<Seq<char>>,
    git: Map<usize, LineChange>,
)
    requires
        shows(f, text, c, cap, status, git),
        c.cursor <= text.len(),
        text.len() < usize::MAX,
        cap > 0,
    ensures
        f.cursor matches Some((row, col)) ==> row < cap && line_start(text_lines(text), c.first_line + row) + col
            == c.cursor,
        f.cursor is Some <==> c.first_line <= line_at(text_lines(text), c.cursor as int) < c.first_line + cap,
{
    lemma_line_at_text(text, c.cursor as int);
    lemma_line_start_text(text, 0);
    lemma_lines_few(text);
}

/// There are no more lines than characters and one more.
proof fn lemma_lines_few(text: Seq<char>)
    ensures
        text_lines(text).len() <= text.len() + 1,
    decreases text.len(),
{
    if has_break(text) {
        lemma_line_end(text);
        lemma_lines_few(text.skip(line_end(text)));
    }
}

/// A span covers a column of a row.
pub open spec fn covers(s: SelSpan, row: int, col: int) -> bool {
    &&& s.line == row
    &&& s.start_col <= col
    &&& s.end_col matches Some(e) ==> col < e
}

/// What is marked as selected in view is what is selected: a character on a line in view is under a span
/// exactly where it is in the selection.
pub proof fn selected_characters_are_marked(text: Seq<char>, from: usize, to: usize, first: int, cap: int, at: int)
    requires
        from < to <= text.len() < usize::MAX,
        0 <= first,
        cap > 0,
        0 <= at < text.len(),
        first <= line_at(text_lines(text), at) < first + cap,
    ensures
        ({
            let ls = text_lines(text);
            let line = line_at(ls, at);
            from <= at < to <==> exists|i: int|
                0 <= i < spans_of(text, Some((from, to)), first, cap).len() && #[trigger] covers(
                    spans_of(text, Some((from, to)), first, cap)[i],
                    line - first,
                    at - line_start(ls, line),
                )
        }),
{
    let ls = text_lines(text);
    let line = line_at(ls, at);
    let spans = spans_of(text, Some((from, to)), first, cap);
    let (start, end) = (line_at(ls, from as int), line_at(ls, to as int));
    lemma_lines_few(text);
    lemma_line_at_text(text, at);
    lemma_line_at_text(text, from as int);
    lemma_line_at_text(text, to as int);
    lemma_lines_in_order(text, from as int, at);
    lemma_lines_in_order(text, at, from as int);
    lemma_lines_in_order(text, to as int, at);
    lemma_lines_in_order(text, at, to as int);
    lemma_lines_in_order(text, from as int, to as int);
    let top = if start < first {
        first
    } else {
        start
    };
    let col = at - line_start(ls, line);
    if from <= at < to {
        let i = line - top;
        assert(spans[i] == span_on(text, line, from as int, to as int, first));
        assert(covers(spans[i], line - first, col));
    }
    if exists|i: int| 0 <= i < spans.len() && #[trigger] covers(spans[i], line - first, col) {
        let i = choose|i: int| 0 <= i < spans.len() && #[trigger] covers(spans[i], line - first, col);
        assert(spans[i] == span_on(text, top + i, from as int, to as int, first));
        assert(top + i == line);
    }
}

/// A place further on is on the same line or a later one, and one on an earlier line comes before.
proof fn lemma_lines_in_order(text: Seq<char>, a: int, b: int)
    requires
        0 <= a <= text.len(),
        0 <= b <= text.len(),
    ensures
        a <= b ==> line_at(text_lines(text), a) <= line_at(text_lines(text), b),
        line_at(text_lines(text), a) < line_at(text_lines(text), b) ==> a < b,
{
    let ls = text_lines(text);
    lemma_line_at_text(text, a);
    lemma_line_at_text(text, b);
    let (x, y) = (line_at(ls, a), line_at(ls, b));
    if x < y {
        lemma_line_start_mono(ls, x + 1, y);
    } else if y < x {
        lemma_line_start_mono(ls, y + 1, x);
    }
}

/// The gutter numbers the lines in view: one number a line, each one more than the number of the lines above
/// it in the document.
pub proof fn the_gutter_numbers_the_lines(from: int, to: int, width: int, k: int)
    requires
        0 <= from,
        0 <= k < to - from,
    ensures
        pieces(numbers_of(from, to, width), '\n').len() == to - from,
        trimmed(pieces(numbers_of(from, to, width), '\n')[k]) == decimal((from + k + 1) as nat),
        pieces(numbers_of(from, to, width), '\n')[k].len() >= width,
{
    lemma_numbers_pieces(from, to, width);
    lemma_padded((from + k + 1) as nat, width);
}

proof fn lemma_padded(n: nat, width: int)
    ensures
        trimmed(padded(n, width)) == decimal(n),
        padded(n, width).len() >= width,
        forall|i: int| 0 <= i < padded(n, width).len() ==> #[trigger] padded(n, width)[i] != '\n',
{
    let d = decimal(n);
    lemma_decimal_digits(n);
    assert('0' <= d[0] <= '9' && '0' <= d[d.len() - 1] <= '9');
    assert(d.last() == d[d.len() - 1]);
    let b = blanks(width - d.len());
    let p = padded(n, width);
    lemma_blank_start(b, d);
    assert forall|i: int| 0 <= i < p.len() implies #[trigger] p[i] != '\n' by {
        if i >= b.len() {
            assert(p[i] == d[i - b.len()]);
            assert('0' <= d[i - b.len()] <= '9');
        }
    }
}

proof fn lemma_blank_start(b: Seq<char>, d: Seq<char>)
    requires
        forall|i: int| 0 <= i < b.len() ==> #[trigger] b[i] == ' ',
        d.len() > 0,
        !is_white(d[0]),
    ensures
        trimmed_start(b + d) == d,
    decreases b.len(),
{
    if b.len() > 0 {
        assert((b + d)[0] == ' ');
        assert((b + d).skip(1) =~= b.skip(1) + d);
        lemma_blank_start(b.skip(1), d);
    } else {
        assert(b + d =~= d);
    }
}

proof fn lemma_numbers_pieces(from: int, to: int, width: int)
    requires
        0 <= from < to,
    ensures
        pieces(numbers_of(from, to, width), '\n') == Seq::new(
            (to - from) as nat,
            |k: int| padded((from + k + 1) as nat, width),
        ),
    decreases to - from,
{
    let last = padded(to as nat, width);
    lemma_padded(to as nat, width);
    let want = Seq::new((to - from) as nat, |k: int| padded((from + k + 1) as nat, width));
    lemma_first_at_is(last, '\n', last.len() as int);
    if to == from + 1 {
        assert(pieces(last, '\n') == seq![last]);
        assert(want =~= seq![last]);
    } else {
        lemma_numbers_pieces(from, to - 1, width);
        let before = numbers_of(from, to - 1, width);
        lemma_pieces_join(before, last);
        assert(want =~= Seq::new((to - 1 - from) as nat, |k: int| padded((from + k + 1) as nat, width)).push(last));
    }
}

proof fn lemma_pieces_join(a: Seq<char>, b: Seq<char>)
    requires
        forall|i: int| 0 <= i < b.len() ==> #[trigger] b[i] != '\n',
    ensures
        pieces(a.push('\n') + b, '\n') == pieces(a, '\n').push(b),
    decreases a.len(),
{
    let s = a.push('\n') + b;
    lemma_first_at(a, '\n');
    let k = first_at(a, '\n');
    lemma_first_at_is(b, '\n', b.len() as int);
    if k < a.len() {
        lemma_first_at_is(s, '\n', k);
        assert(s.take(k) =~= a.take(k));
        assert(s.skip(k + 1) =~= a.skip(k + 1).push('\n') + b);
        lemma_pieces_join(a.skip(k + 1), b);
        assert(pieces(s, '\n') == seq![a.take(k)] + pieces(s.skip(k + 1), '\n'));
        assert(pieces(a, '\n') == seq![a.take(k)] + pieces(a.skip(k + 1), '\n'));
        assert(seq![a.take(k)] + pieces(a.skip(k + 1), '\n').push(b) =~= (seq![a.take(k)] + pieces(
            a.skip(k + 1),
            '\n',
        )).push(b));
    } else {
        lemma_first_at_is(s, '\n', a.len() as int);
        assert(s.take(a.len() as int) =~= a);
        assert(s.skip((a.len() + 1) as int) =~= b);
        assert(pieces(a, '\n') == seq![a]);
        assert(pieces(b, '\n') == seq![b]);
        assert(pieces(s, '\n') == seq![a] + pieces(b, '\n'));
        assert(seq![a] + seq![b] =~= seq![a].push(b));
    }
}

/// A row in view is marked in the gutter exactly where its line changed, as it changed.
pub proof fn changed_lines_are_marked(git: Map<usize, LineChange>, first: int, n: nat, row: usize, kind: LineChange)
    requires
        0 <= first,
        first + n <= usize::MAX,
    ensures
        marks_of(git, first, n).contains((row, kind)) <==> row < n && git.dom().contains(
            (first + row + 1) as usize,
        ) && git[(first + row + 1) as usize] == kind,
    decreases n,
{
    if n > 0 {
        let m = (n - 1) as nat;
        changed_lines_are_marked(git, first, m, row, kind);
        let (before, now) = (marks_of(git, first, m), marks_of(git, first, n));
        let x = (row, kind);
        if before.contains(x) {
            let i = choose|i: int| 0 <= i < before.len() && before[i] == x;
            assert(now[i] == x);
        }
        if now.contains(x) {
            let i = choose|i: int| 0 <= i < now.len() && now[i] == x;
            if i < before.len() {
                assert(before[i] == x);
            }
        }
        if row == m && git.dom().contains((first + n) as usize) && git[(first + n) as usize] == kind {
            assert(now[before.len() as int] == x);
        }
    }
}

/// The place of the caret is told counting from one, and what else is to be said behind it.
pub proof fn places_are_counted_from_one(line: nat, col: nat, s: Seq<char>)
    requires
        line > 0,
        col > 0,
    ensures
        status_line(line - 1, col - 1, None) == "Ln "@ + decimal(line) + ", Col "@ + decimal(col),
        status_line(line - 1, col - 1, Some(s)) == status_line(line - 1, col - 1, None) + "  \u{2014}  "@ + s,
{
}

} // verus!
