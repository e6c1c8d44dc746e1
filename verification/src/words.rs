//! Words under the pointer, and the little sums of the editor's frame.

use vstd::prelude::*;
use crate::case::{char_alphanumeric, is_alphanumeric};
use crate::fixed::{one_decimal, show_one_decimal, whole_quotients_are_shown_whole, DOUBLE};
use crate::number::{decimal, decimal_reads_back, decimal_text, lemma_decimal_digits, parse_number, parsed_to};
use crate::text::{chars_of, is_white, lines, push_text, split_lines, split_words, starts_with, views, words, words_end_at_white_space};

verus! {

/// What the pointer is over in the document: nothing, a line, or a run of characters on one.
#[derive(Clone, Copy, Debug, PartialEq, Eq, Structural)]
pub enum HoverTarget {
    Nothing,
    Line(usize),
    Word { line: usize, start_col: usize, end_col: usize },
}

/// Whether a character belongs to words.
pub open spec fn word_char(c: char) -> bool {
    char_alphanumeric(c) || c == '_'
}

/// Whether a character belongs to words: it is alphanumeric or an underscore.
pub fn is_word_char(c: char) -> (r: bool)
    ensures
        r == word_char(c),
        is_white(c) ==> !r,
        c <= '\u{7f}' ==> r == ('a' <= c <= 'z' || 'A' <= c <= 'Z' || '0' <= c <= '9' || c == '_'),
{
    is_alphanumeric(c) || c == '_'
}

/// Whether `start..end` is the longest run of word characters around `col`.
pub open spec fn is_run(s: Seq<char>, word: spec_fn(char) -> bool, col: int, start: int, end: int) -> bool {
    &&& 0 <= start <= col < end <= s.len()
    &&& forall|i: int| start <= i < end ==> word(#[trigger] s[i])
    &&& start > 0 ==> !word(s[start - 1])
    &&& end < s.len() ==> !word(s[end])
}

/// The characters that a pointer at `col` is over: a run of word characters, or one other
/// character; none behind the end or on white space.
pub open spec fn is_span(s: Seq<char>, col: int, span: Option<(usize, usize)>) -> bool {
    if col >= s.len() || is_white(s[col]) {
        span is None
    } else if word_char(s[col]) {
        span matches Some((a, b)) && is_run(s, |c: char| word_char(c), col, a as int, b as int)
    } else {
        span == Some((col as usize, (col + 1) as usize))
    }
}

/// The run around `col` of the characters that `word` holds for.
pub fn run_around(word: &Vec<bool>, col: usize) -> (r: (usize, usize))
    requires
        col < word@.len(),
        word@[col as int],
    ensures
        r.0 <= col < r.1 <= word@.len(),
        forall|i: int| r.0 <= i < r.1 ==> word@[i],
        r.0 > 0 ==> !word@[r.0 - 1],
        r.1 < word@.len() ==> !word@[r.1 as int],
{
    let mut start: usize = col;
    while start > 0 && word[start - 1]
        invariant
            start <= col < word@.len(),
            forall|i: int| start <= i <= col ==> word@[i],
        decreases start,
    {
        start -= 1;
    }
    let n: usize = word.len();
    let mut end: usize = col + 1;
    while end < n && word[end]
        invariant
            start <= col < end <= n,
            n == word@.len(),
            forall|i: int| start <= i < end ==> word@[i],
        decreases word@.len() - end,
    {
        end += 1;
    }
    (start, end)
}

/// The characters of `line` that a pointer at the column `col` is over.
pub fn word_span_at(line: &str, col: usize) -> (r: Option<(usize, usize)>)
    ensures
        is_span(line@, col as int, r),
        r matches Some((a, b)) ==> forall|k: int| a <= k < b ==> #[trigger] is_span(line@, k, r),
{
    let cs = chars_of(line);
    if col >= cs.len() || cs[col].is_whitespace() {
        return None;
    }
    if !is_word_char(cs[col]) {
        return Some((col, col + 1));
    }
    let mut word: Vec<bool> = Vec::new();
    for i in 0..cs.len()
        invariant
            word@.len() == i,
            forall|k: int| 0 <= k < i ==> #[trigger] word@[k] == word_char(cs@[k]),
            forall|k: int| 0 <= k < i && is_white(#[trigger] cs@[k]) ==> !word_char(cs@[k]),
    {
        word.push(is_word_char(cs[i]));
    }
    let (a, b) = run_around(&word, col);
    assert forall|i: int| a <= i < b implies word_char(#[trigger] cs@[i]) by {
        assert(word@[i]);
    }
    assert forall|k: int| a <= k < b implies #[trigger] is_span(line@, k, Some((a, b))) by {
        assert(word_char(cs@[k]));
    }
    Some((a, b))
}

/// No two runs fit: the span under the pointer is determined.
pub proof fn span_is_unique(s: Seq<char>, col: int, x: Option<(usize, usize)>, y: Option<(usize, usize)>)
    requires
        0 <= col < usize::MAX,
        is_span(s, col, x),
        is_span(s, col, y),
    ensures
        x == y,
{
    if col < s.len() && !is_white(s[col]) && word_char(s[col]) {
        let (a, b) = ((x->0).0, (x->0).1);
        let (c, d) = ((y->0).0, (y->0).1);
        if a < c {
            assert(word_char(s[c - 1]));
        } else if c < a {
            assert(word_char(s[a - 1]));
        }
        if b < d {
            assert(word_char(s[b as int]));
        } else if d < b {
            assert(word_char(s[d as int]));
        }
    }
}

/// Every column of a word has the same span, white space aside, and so has the one column of another
/// character.
pub proof fn columns_share_their_span(s: Seq<char>, col: int, span: Option<(usize, usize)>, other: int)
    requires
        0 <= col < usize::MAX,
        is_span(s, col, span),
        span matches Some((a, b)) && a <= other < b,
        !is_white(s[other]),
    ensures
        is_span(s, other, span),
{
    if word_char(s[col]) {
        assert(word_char(s[other]));
    }
}

/// The number of decimal digits of `n`; 0 has one.
pub fn digit_count(n: usize) -> (r: usize)
    ensures
        r == decimal(n as nat).len(),
{
    let mut digits: usize = 1;
    let mut v: usize = n;
    while v >= 10
        invariant
            decimal(n as nat).len() == digits - 1 + decimal(v as nat).len(),
            digits + v <= n + 1,
            digits >= 1,
        decreases v,
    {
        v = v / 10;
        digits += 1;
    }
    digits
}

/// The earlier of a deadline that may be there and another.
pub fn min_deadline(current: Option<u64>, candidate: u64) -> (r: Option<u64>)
    ensures
        r == Some(
            match current {
                Some(c) => if c <= candidate {
                    c
                } else {
                    candidate
                },
                None => candidate,
            },
        ),
{
    match current {
        Some(c) => if c <= candidate {
            Some(c)
        } else {
            Some(candidate)
        },
        None => Some(candidate),
    }
}

/// When to wake up next: two seconds after the first frame, until the memory in use was printed,
/// and when the scrollbar is to be hidden, unless it is being dragged. Times are in milliseconds.
pub open spec fn wake_time(
    sample: Option<u64>,
    hide: Option<u64>,
    dragging: bool,
    now: u64,
) -> Option<u64> {
    match hide {
        Some(h) if !dragging && h > now => match sample {
            Some(s) => Some(
                if s <= h {
                    s
                } else {
                    h
                },
            ),
            None => Some(h),
        },
        _ => sample,
    }
}

/// When to wake up next, given when the memory in use is to be sampled and when the scrollbar is
/// to be hidden.
pub fn reschedule(sample: Option<u64>, hide: Option<u64>, dragging: bool, now: u64) -> (r: Option<u64>)
    ensures
        r == wake_time(sample, hide, dragging, now),
{
    let mut earliest: Option<u64> = None;
    if let Some(s) = sample {
        earliest = min_deadline(earliest, s);
    }
    if !dragging {
        if let Some(h) = hide {
            if h > now {
                earliest = min_deadline(earliest, h);
            }
        }
    }
    earliest
}

/// The first row in view of a list of `n` rows that `cap` of them fit in: the selected row is the
/// last in view once the list scrolls.
pub open spec fn first_in_view(sel: int, n: int, cap: int) -> int {
    let s = if n == 0 {
        0
    } else if sel < n {
        sel
    } else {
        n - 1
    };
    if s < cap {
        0
    } else {
        s + 1 - cap
    }
}

/// The first row in view of a list of `n` rows that `cap` of them fit in.
pub fn windowed_start(sel: usize, n: usize, cap: usize) -> (r: usize)
    ensures
        r == first_in_view(sel as int, n as int, cap as int),
{
    let s: usize = if n == 0 {
        0
    } else if sel < n {
        sel
    } else {
        n - 1
    };
    if s < cap {
        0
    } else {
        s + 1 - cap
    }
}

/// The selected row is always in view, where anything is.
pub proof fn selection_stays_in_view(sel: int, n: int, cap: int)
    requires
        0 <= sel < n,
        cap > 0,
    ensures
        first_in_view(sel, n, cap) <= sel < first_in_view(sel, n, cap) + cap,
{
}

/// A truth value as it is shown.
pub open spec fn onoff_text(v: bool) -> Seq<char> {
    if v {
        "ON"@
    } else {
        "OFF"@
    }
}

/// A truth value as it is shown.
pub fn onoff(v: bool) -> (r: String)
    ensures
        r@ == onoff_text(v),
{
    if v {
        "ON".to_owned()
    } else {
        "OFF".to_owned()
    }
}

/// The number behind `VmRSS:` in the lines from `i` on; `None` where the first such line has no
/// number, or there is no such line.
pub open spec fn resident_from(ls: Seq<Seq<char>>, i: int) -> Option<nat>
    decreases ls.len() - i,
{
    if i >= ls.len() {
        None
    } else if "VmRSS:"@.is_prefix_of(ls[i]) {
        let ws = words(ls[i].skip(6));
        if ws.len() == 0 {
            None
        } else {
            parsed_to(ws[0], u64::MAX as nat)
        }
    } else {
        resident_from(ls, i + 1)
    }
}

/// The memory in use as it is shown, in megabytes and kilobytes.
pub open spec fn resident_text(kb: nat) -> Seq<char> {
    one_decimal(kb, 1024, DOUBLE as nat) + " MB ("@ + decimal(kb) + " kB)"@
}

/// The memory in use, from the text of `/proc/self/status`.
pub fn read_vmrss(status: &str) -> (r: Option<String>)
    ensures
        match (r, resident_from(lines(status@), 0)) {
            (Some(t), Some(kb)) => t@ == resident_text(kb),
            (None, None) => true,
            _ => false,
        },
{
    let ls = split_lines(&chars_of(status));
    let ghost all = lines(status@);
    for i in 0..ls.len()
        invariant
            views(ls@) == all,
            all == lines(status@),
            resident_from(all, 0) == resident_from(all, i as int),
    {
        assert(all[i as int] == ls@[i as int]@);
        if starts_with(&ls[i], "VmRSS:") {
            proof {
                reveal_strlit("VmRSS:");
            }
            let l = ls[i].as_slice();
            assert(l@.subrange(6, l@.len() as int) =~= l@.skip(6));
            let ws = split_words(&l[6..l.len()]);
            assert(views(ws@) == words(l@.skip(6)));
            if ws.len() == 0 {
                return None;
            }
            return match parse_number(&ws[0], u64::MAX) {
                Some(kb) => {
                    let mut out = show_one_decimal(kb, 1024, DOUBLE);
                    push_text(&mut out, " MB (");
                    push_text(&mut out, &decimal_text(kb));
                    push_text(&mut out, " kB)");
                    Some(out)
                },
                None => None,
            };
        }
    }
    None
}

/// The next time to wake up is one that was asked for, and none that was asked for comes sooner; a
/// scrollbar that is dragged, and one that is hidden by now, asks for none.
pub proof fn the_next_wakeup_comes_first(sample: Option<u64>, hide: Option<u64>, dragging: bool, now: u64)
    ensures
        ({
            let asked = hide matches Some(h) && h > now && !dragging;
            let r = wake_time(sample, hide, dragging, now);
            &&& r matches Some(t) ==> sample == Some(t) || (asked && hide == Some(t))
            &&& r matches Some(t) ==> sample matches Some(s) ==> t <= s
            &&& r matches Some(t) ==> asked ==> t <= hide->0
            &&& r is None <==> sample is None && !asked
        }),
{
}

/// A list scrolls by the rows that do not fit before the selected one: it is the last in view once the
/// list has scrolled, and a list that has not begins with its first row.
pub proof fn lists_scroll_as_needed(sel: int, n: int, cap: int)
    requires
        0 <= sel < n,
        cap > 0,
    ensures
        first_in_view(sel, n, cap) == 0 <==> sel < cap,
        first_in_view(sel, n, cap) > 0 ==> first_in_view(sel, n, cap) + cap == sel + 1,
        first_in_view(n + sel, n, cap) == first_in_view(n - 1, n, cap),
{
}

/// The memory in use is read from the line that is marked for it, wherever that stands; another
/// line does not matter.
pub proof fn the_marked_line_is_read(ls: Seq<Seq<char>>, i: int, blank: Seq<char>, kb: u64, c: char, rest: Seq<char>)
    requires
        0 <= i < ls.len(),
        forall|j: int| 0 <= j < i ==> !"VmRSS:"@.is_prefix_of(#[trigger] ls[j]),
        forall|j: int| 0 <= j < blank.len() ==> is_white(#[trigger] blank[j]),
        is_white(c),
        ls[i] == "VmRSS:"@ + blank + (decimal(kb as nat).push(c) + rest),
    ensures
        resident_from(ls, 0) == Some(kb as nat),
{
    let line = ls[i];
    let d = decimal(kb as nat);
    reveal_strlit("VmRSS:");
    lemma_decimal_digits(kb as nat);
    decimal_reads_back(kb as nat);
    assert("VmRSS:"@.is_prefix_of(line)) by {
        assert(line.subrange(0, 6) =~= "VmRSS:"@);
    }
    assert(line.skip(6) =~= blank + (d.push(c) + rest));
    assert forall|j: int| 0 <= j < d.len() implies !is_white(#[trigger] d[j]) by {
        assert('0' <= d[j] <= '9');
    }
    words_end_at_white_space(d, c, rest);
    lemma_blanks(blank, d.push(c) + rest);
    assert(words(line.skip(6))[0] == d);
    lemma_reaches(ls, 0, i);
}

proof fn lemma_blanks(blank: Seq<char>, s: Seq<char>)
    requires
        forall|j: int| 0 <= j < blank.len() ==> is_white(#[trigger] blank[j]),
    ensures
        words(blank + s) == words(s),
    decreases blank.len(),
{
    if blank.len() > 0 {
        let b = blank.skip(1);
        assert forall|j: int| 0 <= j < b.len() implies is_white(#[trigger] b[j]) by {
            assert(b[j] == blank[j + 1]);
        }
        lemma_blanks(b, s);
        words_end_at_white_space(seq!['x'], blank[0], b + s);
        assert(seq![blank[0]] + (b + s) =~= blank + s);
    } else {
        assert(blank + s =~= s);
    }
}

proof fn lemma_reaches(ls: Seq<Seq<char>>, from: int, i: int)
    requires
        0 <= from <= i < ls.len(),
        forall|j: int| 0 <= j < i ==> !"VmRSS:"@.is_prefix_of(#[trigger] ls[j]),
    ensures
        resident_from(ls, from) == resident_from(ls, i),
    decreases i - from,
{
    if from < i {
        assert(!"VmRSS:"@.is_prefix_of(ls[from]));
        lemma_reaches(ls, from + 1, i);
    }
}

/// The memory is told in megabytes of 1024 kilobytes, and in kilobytes.
pub proof fn memory_is_told_in_megabytes(mb: nat)
    requires
        1024 * mb < DOUBLE,
    ensures
        resident_text(1024 * mb) == decimal(mb) + seq!['.', '0'] + " MB ("@ + decimal(1024 * mb) + " kB)"@,
{
    whole_quotients_are_shown_whole(mb, 1024, DOUBLE as nat);
}

} // verus!
