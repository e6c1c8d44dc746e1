//! Which lines of a file changed, read from `git diff -U0`.

use vstd::prelude::*;
use std::collections::HashMap;
use crate::number::{all_digits, decimal, decimal_reads_back, lemma_decimal_digits, parse_number, parsed, parsed_to};
use crate::text::{chars_of, first_at, is_white, lemma_first_at, lemma_first_at_is, lines, pieces, split_char, split_lines, split_words, starts_with, trim, trimmed, trimmed_end, trimmed_start, views, word_len, words};

verus! {

broadcast use vstd::std_specs::hash::group_hash_axioms;

/// How a line changed.
#[derive(Clone, Copy, Debug, PartialEq, Eq, Structural)]
pub enum LineChange {
    Added,
    Modified,
    /// Lines were deleted at this line.
    Deleted,
}

/// A changed region: where it begins in the new file and how many lines it has there and
/// had in the old file.
#[derive(Clone, Copy)]
pub struct Hunk {
    pub new_start: usize,
    pub new_count: usize,
    pub old_count: usize,
}

/// The piece of `s` at `n` among those between the `c`s, if there are so many.
pub open spec fn piece(s: Seq<char>, c: char, n: int) -> Option<Seq<char>> {
    if n < pieces(s, c).len() {
        Some(pieces(s, c)[n])
    } else {
        None
    }
}

/// The number that a text writes, if it writes one.
pub open spec fn number_in(s: Option<Seq<char>>) -> Option<usize> {
    match s {
        Some(t) => match parsed_to(t, usize::MAX as nat) {
            Some(n) => Some(n as usize),
            None => None,
        },
        None => None,
    }
}

/// A text without the white space around it, where there is a text.
pub open spec fn trimmed_piece(s: Option<Seq<char>>) -> Option<Seq<char>> {
    match s {
        Some(t) => Some(trimmed(t)),
        None => None,
    }
}

/// A number, or 1 where there is none.
pub open spec fn or_one(n: Option<usize>) -> usize {
    match n {
        Some(k) => k,
        None => 1,
    }
}

/// The number of old lines that a hunk header names: what stands behind the comma in the
/// first word behind the first minus sign.
pub open spec fn old_count_in(line: Seq<char>) -> Option<usize> {
    match piece(line, '-', 1) {
        Some(t) => if words(t).len() > 0 {
            number_in(piece(words(t)[0], ',', 1))
        } else {
            None
        },
        None => None,
    }
}

/// The hunk that a line such as `@@ -1,0 +2,3 @@` heads. A count that is left out is 1.
pub open spec fn hunk_in(line: Seq<char>) -> Option<Hunk> {
    if !"@@"@.is_prefix_of(line) {
        None
    } else {
        match piece(line, '+', 1) {
            Some(plus) => {
                let range = trimmed(pieces(plus, '@')[0]);
                match number_in(trimmed_piece(piece(range, ',', 0))) {
                    Some(new_start) => Some(
                        Hunk {
                            new_start,
                            new_count: or_one(number_in(trimmed_piece(piece(range, ',', 1)))),
                            old_count: or_one(old_count_in(line)),
                        },
                    ),
                    None => None,
                }
            },
            None => None,
        }
    }
}

/// A line number; lines count from 1.
pub open spec fn line_number(n: int) -> usize {
    if n < 1 {
        1
    } else {
        n as usize
    }
}

/// The marks with `kind` on the lines `from..to`.
pub open spec fn with_lines(m: Map<usize, LineChange>, from: int, to: int, kind: LineChange) -> Map<
    usize,
    LineChange,
>
    decreases to - from,
{
    if from >= to {
        m
    } else {
        with_lines(m, from, to - 1, kind).insert(line_number(to - 1), kind)
    }
}

/// The marks with those of a hunk. Where lines only went, the line at their place is marked
/// unless it is marked already; the lines of the region are marked otherwise, as added where
/// there were none before.
pub open spec fn with_hunk(m: Map<usize, LineChange>, h: Hunk) -> Map<usize, LineChange> {
    if h.new_count == 0 {
        let at = line_number(h.new_start as int);
        if m.dom().contains(at) {
            m
        } else {
            m.insert(at, LineChange::Deleted)
        }
    } else {
        with_lines(
            m,
            h.new_start as int,
            h.new_start + h.new_count,
            if h.old_count == 0 {
                LineChange::Added
            } else {
                LineChange::Modified
            },
        )
    }
}

/// The marks that the first `n` lines of a diff make.
pub open spec fn marks(ls: Seq<Seq<char>>, n: nat) -> Map<usize, LineChange>
    decreases n,
{
    if n == 0 {
        Map::empty()
    } else {
        match hunk_in(ls[n - 1]) {
            Some(h) => with_hunk(marks(ls, (n - 1) as nat), h),
            None => marks(ls, (n - 1) as nat),
        }
    }
}

/// Whether the region of every hunk ends at a line number that fits.
pub open spec fn fits(ls: Seq<Seq<char>>) -> bool {
    forall|i: int|
        0 <= i < ls.len() ==> (hunk_in(#[trigger] ls[i]) matches Some(h) ==> h.new_start + h.new_count
            <= usize::MAX)
}

fn read_number(s: &[char]) -> (r: Option<usize>)
    ensures
        r == number_in(Some(s@)),
{
    match parse_number(s, usize::MAX as u64) {
        Some(n) => Some(n as usize),
        None => None,
    }
}

fn read_old_count(line: &[char]) -> (r: usize)
    ensures
        r == or_one(old_count_in(line@)),
{
    let ps = split_char(line, '-');
    assert(views(ps@) == pieces(line@, '-'));
    if ps.len() < 2 {
        return 1;
    }
    let ws = split_words(&ps[1]);
    assert(views(ws@) == words(ps@[1]@));
    if ws.len() == 0 {
        return 1;
    }
    let cs = split_char(&ws[0], ',');
    assert(views(cs@) == pieces(ws@[0]@, ','));
    if cs.len() < 2 {
        return 1;
    }
    match read_number(&cs[1]) {
        Some(n) => n,
        None => 1,
    }
}

proof fn lemma_pieces_some(s: Seq<char>, c: char)
    ensures
        pieces(s, c).len() > 0,
{
}

/// Reads a hunk header.
pub fn read_hunk(line: &[char]) -> (r: Option<Hunk>)
    ensures
        r == hunk_in(line@),
{
    if !starts_with(line, "@@") {
        return None;
    }
    let ps = split_char(line, '+');
    assert(views(ps@) == pieces(line@, '+'));
    if ps.len() < 2 {
        return None;
    }
    let at = split_char(&ps[1], '@');
    assert(views(at@) == pieces(ps@[1]@, '@'));
    proof {
        lemma_pieces_some(ps@[1]@, '@');
    }
    let range = trim(&at[0]);
    let cs = split_char(range, ',');
    assert(views(cs@) == pieces(range@, ','));
    proof {
        lemma_pieces_some(range@, ',');
    }
    let new_start: usize = match read_number(trim(&cs[0])) {
        Some(n) => n,
        None => return None,
    };
    let new_count: usize = if cs.len() < 2 {
        1
    } else {
        match read_number(trim(&cs[1])) {
            Some(n) => n,
            None => 1,
        }
    };
    Some(Hunk { new_start, new_count, old_count: read_old_count(line) })
}

/// Whether [`parse_diff`] can take the diff.
pub fn diff_fits(diff: &str) -> (r: bool)
    ensures
        r == fits(lines(diff@)),
{
    let ls = split_lines(&chars_of(diff));
    let ghost all = lines(diff@);
    for i in 0..ls.len()
        invariant
            views(ls@) == all,
            all == lines(diff@),
            forall|k: int|
                0 <= k < i ==> (hunk_in(#[trigger] all[k]) matches Some(h) ==> h.new_start + h.new_count
                    <= usize::MAX),
    {
        assert(all[i as int] == ls@[i as int]@);
        if let Some(h) = read_hunk(&ls[i]) {
            if h.new_count > usize::MAX - h.new_start {
                return false;
            }
        }
    }
    true
}

/// The change of each line of a file, by its number from 1 on, read from `git diff -U0`.
pub fn parse_diff(diff: &str) -> (r: HashMap<usize, LineChange>)
    requires
        fits(lines(diff@)),
    ensures
        r@ == marks(lines(diff@), lines(diff@).len()),
{
    let ls = split_lines(&chars_of(diff));
    let ghost all = lines(diff@);
    let mut out: HashMap<usize, LineChange> = HashMap::new();
    assert(out@ =~= Map::<usize, LineChange>::empty());
    for i in 0..ls.len()
        invariant
            views(ls@) == all,
            fits(all),
            out@ == marks(all, i as nat),
    {
        assert(all[i as int] == ls@[i as int]@);
        if let Some(h) = read_hunk(&ls[i]) {
            let ghost before = out@;
            if h.new_count == 0 {
                let at: usize = if h.new_start < 1 {
                    1
                } else {
                    h.new_start
                };
                if !out.contains_key(&at) {
                    out.insert(at, LineChange::Deleted);
                }
            } else {
                let kind = if h.old_count == 0 {
                    LineChange::Added
                } else {
                    LineChange::Modified
                };
                let end: usize = h.new_start + h.new_count;
                let mut l: usize = h.new_start;
                while l < end
                    invariant
                        h.new_start <= l <= end,
                        out@ == with_lines(before, h.new_start as int, l as int, kind),
                    decreases end - l,
                {
                    let at: usize = if l < 1 {
                        1
                    } else {
                        l
                    };
                    out.insert(at, kind);
                    l += 1;
                }
            }
        }
    }
    out
}

proof fn lemma_with_lines(m: Map<usize, LineChange>, from: int, to: int, kind: LineChange)
    requires
        0 <= from <= to,
        to <= usize::MAX,
    ensures
        forall|k: usize|
            #![trigger with_lines(m, from, to, kind).dom().contains(k)]
            with_lines(m, from, to, kind).dom().contains(k) <==> m.dom().contains(k) || (exists|l: int|
                from <= l < to && #[trigger] line_number(l) == k),
        forall|l: int|
            from <= l < to ==> with_lines(m, from, to, kind)[#[trigger] line_number(l)] == kind,
    decreases to - from,
{
    if from < to {
        lemma_with_lines(m, from, to - 1, kind);
        let whole = with_lines(m, from, to, kind);
        let part = with_lines(m, from, to - 1, kind);
        assert(whole == part.insert(line_number(to - 1), kind));
        assert forall|k: usize| #[trigger] whole.dom().contains(k) <==> m.dom().contains(k) || (exists|l: int|
            from <= l < to && #[trigger] line_number(l) == k) by {
            assert(part.dom().contains(k) <==> m.dom().contains(k) || (exists|l: int|
                from <= l < to - 1 && #[trigger] line_number(l) == k));
            assert(line_number(to - 1) == line_number(to - 1));
            if exists|l: int| from <= l < to && #[trigger] line_number(l) == k {
                let l = choose|l: int| from <= l < to && #[trigger] line_number(l) == k;
                if l < to - 1 {
                    assert(line_number(l) == k);
                }
            }
            if part.dom().contains(k) && !m.dom().contains(k) {
                let l = choose|l: int| from <= l < to - 1 && #[trigger] line_number(l) == k;
                assert(line_number(l) == k);
            }
        }
    }
}

/// A hunk marks its new lines, as added where it has no old ones and else as modified; one without new
/// lines marks the line at its place as deleted, unless that is marked already. What is marked elsewhere
/// stays as it is.
pub proof fn hunk_marks_its_lines(m: Map<usize, LineChange>, h: Hunk)
    requires
        h.new_start + h.new_count <= usize::MAX,
    ensures
        forall|l: int|
            h.new_start <= l < h.new_start + h.new_count ==> with_hunk(m, h).dom().contains(
                #[trigger] line_number(l),
            ) && with_hunk(m, h)[line_number(l)] == (if h.old_count == 0 {
                LineChange::Added
            } else {
                LineChange::Modified
            }),
        h.new_count == 0 ==> {
            let at = line_number(h.new_start as int);
            &&& with_hunk(m, h).dom() == m.dom().insert(at)
            &&& !m.dom().contains(at) ==> with_hunk(m, h)[at] == LineChange::Deleted
            &&& m.dom().contains(at) ==> with_hunk(m, h)[at] == m[at]
        },
        forall|k: usize|
            !touches(h, k) ==> (#[trigger] with_hunk(m, h).dom().contains(k) <==> m.dom().contains(k)),
        forall|k: usize|
            !touches(h, k) && m.dom().contains(k) ==> #[trigger] with_hunk(m, h)[k] == m[k],
{
    if h.new_count > 0 {
        let kind = if h.old_count == 0 {
            LineChange::Added
        } else {
            LineChange::Modified
        };
        lemma_with_lines(m, h.new_start as int, h.new_start + h.new_count, kind);
        lemma_with_lines_else(m, h.new_start as int, h.new_start + h.new_count, kind);
        assert forall|k: usize| !touches(h, k) implies (#[trigger] with_hunk(m, h).dom().contains(k)
            <==> m.dom().contains(k)) by {
            assert(with_lines(m, h.new_start as int, h.new_start + h.new_count, kind).dom().contains(k)
                <==> with_hunk(m, h).dom().contains(k));
        }
    } else {
        assert(with_hunk(m, h).dom() =~= m.dom().insert(line_number(h.new_start as int)));
    }
}

/// A line, from 1 on, is one of the new lines of a hunk, or the place of one without.
pub open spec fn touches(h: Hunk, k: usize) -> bool {
    if h.new_count == 0 {
        k == line_number(h.new_start as int)
    } else {
        exists|l: int| h.new_start <= l < h.new_start + h.new_count && #[trigger] line_number(l) == k
    }
}

proof fn lemma_with_lines_else(m: Map<usize, LineChange>, from: int, to: int, kind: LineChange)
    ensures
        forall|k: usize|
            m.dom().contains(k) && (forall|l: int| from <= l < to ==> #[trigger] line_number(l) != k)
                ==> #[trigger] with_lines(m, from, to, kind)[k] == m[k],
        forall|k: usize|
            (forall|l: int| from <= l < to ==> #[trigger] line_number(l) != k) ==> (
            #[trigger] with_lines(m, from, to, kind).dom().contains(k) <==> m.dom().contains(k)),
    decreases to - from,
{
    if from < to {
        lemma_with_lines_else(m, from, to - 1, kind);
        let part = with_lines(m, from, to - 1, kind);
        let whole = with_lines(m, from, to, kind);
        assert forall|k: usize|
            m.dom().contains(k) && (forall|l: int| from <= l < to ==> #[trigger] line_number(l) != k) implies #[trigger] whole[k]
            == m[k] by {
            assert(line_number(to - 1) != k);
            assert(part[k] == m[k]);
            assert(part.dom().contains(k));
        }
        assert forall|k: usize|
            (forall|l: int| from <= l < to ==> #[trigger] line_number(l) != k) implies (
        #[trigger] whole.dom().contains(k) <==> m.dom().contains(k)) by {
            assert(line_number(to - 1) != k);
            assert(part.dom().contains(k) <==> m.dom().contains(k));
        }
    }
}

/// A line of a diff heads a hunk that touches a line of the file.
pub open spec fn heads(line: Seq<char>, k: usize) -> bool {
    hunk_in(line) matches Some(h) && touches(h, k)
}

/// A line of the file is marked exactly where some line of the diff heads a hunk that touches it, and
/// its mark is that of such a hunk.
pub proof fn marks_come_from_hunks(ls: Seq<Seq<char>>, n: nat, k: usize)
    requires
        fits(ls),
        n <= ls.len(),
    ensures
        marks(ls, n).dom().contains(k) <==> exists|i: int| 0 <= i < n && #[trigger] heads(ls[i], k),
        marks(ls, n).dom().contains(k) ==> exists|i: int|
            0 <= i < n && #[trigger] heads(ls[i], k) && marks(ls, n)[k] == kind_of(hunk_in(ls[i])->0),
    decreases n,
{
    if n > 0 {
        let m = (n - 1) as nat;
        marks_come_from_hunks(ls, m, k);
        let before = marks(ls, m);
        let now = marks(ls, n);
        if let Some(h) = hunk_in(ls[n - 1]) {
            assert(h.new_start + h.new_count <= usize::MAX);
            hunk_marks_its_lines(before, h);
            assert(now == with_hunk(before, h));
            assert(heads(ls[n - 1], k) <==> touches(h, k));
            if touches(h, k) {
                if h.new_count > 0 {
                    let l = choose|l: int|
                        h.new_start <= l < h.new_start + h.new_count && #[trigger] line_number(l) == k;
                    assert(now.dom().contains(line_number(l)));
                }
                assert(now.dom().contains(k));
                if !(h.new_count == 0 && before.dom().contains(k)) {
                    assert(now[k] == kind_of(h));
                    assert(heads(ls[n - 1], k));
                }
            } else {
                assert(now.dom().contains(k) <==> before.dom().contains(k));
                if before.dom().contains(k) {
                    assert(now[k] == before[k]);
                }
            }
        } else {
            assert(!heads(ls[n - 1], k));
        }
    }
}

/// How a hunk changed its lines: as there are new and old ones.
pub open spec fn kind_of(h: Hunk) -> LineChange {
    if h.new_count == 0 {
        LineChange::Deleted
    } else if h.old_count == 0 {
        LineChange::Added
    } else {
        LineChange::Modified
    }
}

/// A range as git writes it: where it begins and, unless it is left out, how long it is.
pub open spec fn range_text(start: nat, count: Option<nat>) -> Seq<char> {
    match count {
        Some(n) => decimal(start) + seq![','] + decimal(n),
        None => decimal(start),
    }
}

/// The header of a hunk as git writes it, and what stands behind it.
pub open spec fn header_text(
    old_start: nat,
    old_count: Option<nat>,
    new_start: nat,
    new_count: Option<nat>,
    rest: Seq<char>,
) -> Seq<char> {
    "@@ -"@ + range_text(old_start, old_count) + " +"@ + range_text(new_start, new_count) + " @@"@ + rest
}

proof fn lemma_piece_first(head: Seq<char>, c: char, tail: Seq<char>)
    requires
        forall|i: int| 0 <= i < head.len() ==> #[trigger] head[i] != c,
    ensures
        pieces(head, c) == seq![head],
        pieces(head + seq![c] + tail, c) == seq![head] + pieces(tail, c),
{
    lemma_first_at_is(head, c, head.len() as int);
    let s = head + seq![c] + tail;
    lemma_first_at_is(s, c, head.len() as int);
    assert(s.take(head.len() as int) =~= head);
    assert(s.skip((head.len() + 1) as int) =~= tail);
}

proof fn lemma_digits(n: nat)
    ensures
        decimal(n).len() > 0,
        all_digits(decimal(n)),
        parsed(decimal(n)) == Some(n),
        trimmed(decimal(n)) == decimal(n),
        forall|i: int| 0 <= i < decimal(n).len() ==> !is_white(#[trigger] decimal(n)[i]),
{
    let d = decimal(n);
    lemma_decimal_digits(n);
    decimal_reads_back(n);
    assert('0' <= d[0] <= '9' && '0' <= d[d.len() - 1] <= '9');
    assert(d.last() == d[d.len() - 1]);
    assert(trimmed_start(d) == d);
    assert forall|i: int| 0 <= i < d.len() implies !is_white(#[trigger] d[i]) by {
        assert('0' <= d[i] <= '9');
    }
}

/// What a range as git writes it holds: digits and at most a comma.
proof fn lemma_range(start: nat, count: Option<nat>)
    ensures
        range_text(start, count).len() > 0,
        forall|i: int|
            0 <= i < range_text(start, count).len() ==> ('0' <= #[trigger] range_text(start, count)[i] <= '9'
                || range_text(start, count)[i] == ','),
        trimmed(range_text(start, count)) == range_text(start, count),
        pieces(range_text(start, count), ',') == (match count {
            Some(n) => seq![decimal(start), decimal(n)],
            None => seq![decimal(start)],
        }),
{
    let (d, t) = (decimal(start), range_text(start, count));
    lemma_digits(start);
    assert forall|i: int| 0 <= i < d.len() implies #[trigger] d[i] != ',' by {
        assert('0' <= d[i] <= '9');
    }
    match count {
        Some(n) => {
            let e = decimal(n);
            lemma_digits(n);
            assert forall|i: int| 0 <= i < e.len() implies #[trigger] e[i] != ',' by {
                assert('0' <= e[i] <= '9');
            }
            lemma_piece_first(d, ',', e);
            lemma_piece_first(e, ',', Seq::empty());
            assert(seq![d] + seq![e] =~= seq![d, e]);
            assert forall|i: int| 0 <= i < t.len() implies ('0' <= #[trigger] t[i] <= '9' || t[i] == ',') by {
                if i < d.len() {
                    assert(t[i] == d[i]);
                } else if i > d.len() {
                    assert(t[i] == e[i - d.len() - 1]);
                }
            }
            assert(t.last() == e[e.len() - 1]);
            assert(t[0] == d[0]);
        },
        None => {
            lemma_piece_first(d, ',', Seq::empty());
        },
    }
    assert('0' <= t[0] <= '9');
    assert('0' <= t[t.len() - 1] <= '9');
    assert(trimmed_start(t) == t);
}

proof fn lemma_word_len_is(s: Seq<char>, k: int)
    requires
        0 <= k < s.len(),
        is_white(s[k]),
        forall|i: int| 0 <= i < k ==> !is_white(#[trigger] s[i]),
    ensures
        word_len(s) == k,
    decreases k,
{
    if k > 0 {
        assert(!is_white(s[0]));
        let t = s.skip(1);
        assert forall|i: int| 0 <= i < k - 1 implies !is_white(#[trigger] t[i]) by {
            assert(t[i] == s[i + 1]);
        }
        assert(t[k - 1] == s[k]);
        lemma_word_len_is(t, k - 1);
    }
}

proof fn lemma_behind_plus(
    old_start: nat,
    old_count: Option<nat>,
    new_start: nat,
    new_count: Option<nat>,
    rest: Seq<char>,
)
    ensures
        ({
            let ps = pieces(header_text(old_start, old_count, new_start, new_count, rest), '+');
            &&& ps.len() >= 2
            &&& pieces(ps[1], '@').len() > 0
            &&& trimmed(pieces(ps[1], '@')[0]) == range_text(new_start, new_count)
        }),
{
    reveal_strlit("@@ -");
    reveal_strlit(" +");
    reveal_strlit(" @@");
    let (o, w) = (range_text(old_start, old_count), range_text(new_start, new_count));
    let line = header_text(old_start, old_count, new_start, new_count, rest);
    lemma_range(old_start, old_count);
    lemma_range(new_start, new_count);
    let head = "@@ -"@ + o + seq![' '];
    let tail = w + " @@"@ + rest;
    assert(line =~= head + seq!['+'] + tail);
    assert forall|i: int| 0 <= i < head.len() implies #[trigger] head[i] != '+' by {
        if 4 <= i < 4 + o.len() {
            assert(head[i] == o[i - 4]);
        }
    }
    lemma_piece_first(head, '+', tail);
    let plus = pieces(line, '+')[1];
    assert(plus == pieces(tail, '+')[0]);
    let known = w + " @@"@;
    lemma_first_at(tail, '+');
    let k = first_at(tail, '+');
    assert(k >= known.len()) by {
        if k < known.len() {
            assert(tail[k] == known[k]);
            if k < w.len() {
                assert(known[k] == w[k]);
            }
        }
    }
    let more = tail.take(k).skip(known.len() as int);
    assert(plus =~= known + more) by {
        assert(plus == tail.take(k));
    }
    // The new range ends before the first `@`.
    let range = w + seq![' '];
    assert(plus =~= range + seq!['@'] + (seq!['@'] + more));
    assert forall|i: int| 0 <= i < range.len() implies #[trigger] range[i] != '@' by {
        if i < w.len() {
            assert(range[i] == w[i]);
        }
    }
    lemma_piece_first(range, '@', seq!['@'] + more);
    assert(pieces(plus, '@')[0] == range);
    assert(range.drop_last() =~= w);
    assert(range[0] == w[0]);
    assert(trimmed_start(range) == range);
    assert(trimmed_end(range) == trimmed_end(w));
    assert(trimmed_start(w) == w);
    assert(trimmed(range) == w);
}

proof fn lemma_behind_minus(
    old_start: nat,
    old_count: Option<nat>,
    new_start: nat,
    new_count: Option<nat>,
    rest: Seq<char>,
)
    ensures
        ({
            let ps = pieces(header_text(old_start, old_count, new_start, new_count, rest), '-');
            &&& ps.len() >= 2
            &&& words(ps[1]).len() > 0
            &&& words(ps[1])[0] == range_text(old_start, old_count)
        }),
{
    reveal_strlit("@@ -");
    reveal_strlit(" +");
    reveal_strlit(" @@");
    let (o, w) = (range_text(old_start, old_count), range_text(new_start, new_count));
    let line = header_text(old_start, old_count, new_start, new_count, rest);
    lemma_range(old_start, old_count);
    lemma_range(new_start, new_count);
    let tail = w + " @@"@ + rest;
    let first = seq!['@', '@', ' '];
    let behind = o + seq![' '] + seq!['+'] + tail;
    assert(line =~= first + seq!['-'] + behind);
    lemma_piece_first(first, '-', behind);
    let minus = pieces(line, '-')[1];
    assert(minus == pieces(behind, '-')[0]);
    lemma_first_at(behind, '-');
    let m = first_at(behind, '-');
    assert(m > o.len()) by {
        if m <= o.len() {
            if m < o.len() {
                assert(behind[m] == o[m]);
            }
        }
    }
    assert(minus == behind.take(m));
    assert(minus[0] == o[0]);
    assert(trimmed_start(minus) == minus);
    assert forall|i: int| 0 <= i < o.len() implies !is_white(#[trigger] minus[i]) by {
        assert(minus[i] == o[i]);
    }
    assert(minus[o.len() as int] == ' ');
    lemma_word_len_is(minus, o.len() as int);
    assert(minus.take(o.len() as int) =~= o);
    assert(words(minus)[0] == o);
}

/// The header of a hunk reads back as where it begins and how many lines it has and had, whatever stands
/// behind it; a count that is left out is 1.
pub proof fn headers_read_back(
    old_start: nat,
    old_count: Option<nat>,
    new_start: nat,
    new_count: Option<nat>,
    rest: Seq<char>,
)
    requires
        new_start <= usize::MAX,
        old_count matches Some(n) ==> n <= usize::MAX,
        new_count matches Some(n) ==> n <= usize::MAX,
    ensures
        hunk_in(header_text(old_start, old_count, new_start, new_count, rest)) == Some(
            Hunk {
                new_start: new_start as usize,
                new_count: (match new_count {
                    Some(n) => n,
                    None => 1,
                }) as usize,
                old_count: (match old_count {
                    Some(n) => n,
                    None => 1,
                }) as usize,
            },
        ),
{
    reveal_strlit("@@");
    reveal_strlit("@@ -");
    let line = header_text(old_start, old_count, new_start, new_count, rest);
    lemma_range(old_start, old_count);
    lemma_range(new_start, new_count);
    lemma_digits(new_start);
    match old_count {
        Some(n) => lemma_digits(n),
        None => {},
    }
    match new_count {
        Some(n) => lemma_digits(n),
        None => {},
    }
    assert("@@"@.is_prefix_of(line)) by {
        assert(line.subrange(0, 2) =~= "@@"@);
    }
    lemma_behind_plus(old_start, old_count, new_start, new_count, rest);
    lemma_behind_minus(old_start, old_count, new_start, new_count, rest);
}

} // verus!
