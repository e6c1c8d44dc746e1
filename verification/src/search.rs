//! Searching a project: which files are looked into, which of their lines match, and which
//! file names do.
//!
//! The searches do not touch the disk. Each is a walk that says which directory or file it
//! wants next and is handed what is in it.

use vstd::prelude::*;
use vstd::utf8::{decode_utf8, valid_utf8};
use crate::bytes::{byte_len, decode, len_of};
use crate::case::{char_lower, lower_char, lower_text, text_lower};
use crate::commands::{embeds, lemma_next_at, next_at, score, score_from, scored_iff_subsequence};
use crate::order::{by_name, in_order, lemma_by_name, lemma_places_all, order_by_name, order_is_determined, places};
use crate::paths::{join, joined};
use crate::text::{chars_of, find_text, is_white, lemma_occurrence, lines, occurrence, same, split_lines, string_of, texts, trim_start, trimmed_start, views};

verus! {

/// One hit: the file, the line from 1 on, the column in characters from 0 on, and the line
/// as it is shown.
#[derive(Debug, PartialEq)]
pub struct Match {
    pub path: String,
    pub line: usize,
    pub col: usize,
    pub text: String,
}

/// What a [`Match`] says.
pub struct Hit {
    pub path: Seq<char>,
    pub line: nat,
    pub col: nat,
    pub text: Seq<char>,
}

impl View for Match {
    type V = Hit;

    open spec fn view(&self) -> Hit {
        Hit { path: self.path@, line: self.line as nat, col: self.col as nat, text: self.text@ }
    }
}

/// What a list of matches says.
pub open spec fn hits(v: Seq<Match>) -> Seq<Hit> {
    Seq::new(v.len(), |i: int| v[i]@)
}

/// Files above this size, in bytes, are passed over.
pub const MAX_FILE: u64 = 2_097_152;

/// A zero byte among so many at the start of a file makes it binary.
pub const SNIFF: usize = 8000;

/// The most characters that are shown of a line.
pub const SHOWN: usize = 120;

/// Whether a file of this size is looked into.
pub fn file_wanted(size: u64) -> (r: bool)
    ensures
        r == (size <= MAX_FILE),
        r == (size <= 2_097_152),
{
    size <= MAX_FILE
}

/// Whether a directory is passed over: it is hidden, or it is known to hold what was
/// generated or fetched.
pub open spec fn dir_skipped(name: Seq<char>) -> bool {
    ||| name.len() > 0 && name[0] == '.'
    ||| name == ".git"@
    ||| name == "target"@
    ||| name == "node_modules"@
    ||| name == ".cargo"@
    ||| name == "dist"@
    ||| name == "build"@
}

/// Whether a file is passed over: it is hidden.
pub open spec fn file_skipped(name: Seq<char>) -> bool {
    name.len() > 0 && name[0] == '.'
}

fn skips(name: &str, is_dir: bool) -> (r: bool)
    ensures
        r == if is_dir {
            dir_skipped(name@)
        } else {
            file_skipped(name@)
        },
{
    let cs = chars_of(name);
    if cs.len() > 0 && cs[0] == '.' {
        return true;
    }
    is_dir && (same(name, ".git") || same(name, "target") || same(name, "node_modules") || same(
        name,
        ".cargo",
    ) || same(name, "dist") || same(name, "build"))
}

// --- matching ---

/// Whether the characters of `needle` stand in `hay` in this order, not necessarily next to
/// each other.
pub fn subseq_match(hay: &str, needle: &str) -> (r: bool)
    ensures
        r == exists|at: Seq<int>| embeds(hay@, needle@, at),
{
    let h = chars_of(hay);
    let n = chars_of(needle);
    let mut from: usize = 0;
    let ghost mut run: int = 0;
    proof {
        scored_iff_subsequence(h@, n@);
        assert(n@.skip(0) =~= n@);
    }
    for k in 0..n.len()
        invariant
            from <= h@.len(),
            h@ == hay@,
            n@ == needle@,
            (score(h@, n@) is Some) == (exists|at: Seq<int>| embeds(h@, n@, at)),
            (score_from(h@, n@.skip(k as int), from as int, run) is Some) == (score(h@, n@) is Some),
    {
        let c = n[k];
        let start: usize = from;
        proof {
            lemma_next_at(h@, start as int, c);
        }
        while from < h.len() && h[from] != c
            invariant
                start <= from <= h@.len(),
                next_at(h@, from as int, c) == next_at(h@, start as int, c),
            decreases h@.len() - from,
        {
            from += 1;
        }
        assert(n@.skip(k as int)[0] == c);
        if from == h.len() {
            return false;
        }
        assert(n@.skip(k as int).skip(1) =~= n@.skip(k + 1));
        proof {
            run = if start > 0 && from == start {
                run + 1
            } else {
                0
            };
        }
        from += 1;
    }
    true
}

/// How many characters of a line end within the first `offset` characters of its lower case,
/// given how many characters the lower case of each takes.
pub open spec fn chars_before(sizes: Seq<nat>, offset: nat) -> nat
    decreases sizes.len(),
{
    if sizes.len() == 0 || sizes[0] > offset {
        0
    } else {
        1 + chars_before(sizes.skip(1), (offset - sizes[0]) as nat)
    }
}

/// How many characters the lower case of each character of a line takes.
pub open spec fn lower_sizes(line: Seq<char>) -> Seq<nat> {
    Seq::new(line.len(), |i: int| char_lower(line[i]).len())
}

/// The column at which a line matches: how many of its characters stand before the match. The line
/// is given in lower case, with the number of characters that the lower case of each takes.
pub open spec fn line_hit(sizes: Seq<nat>, lower: Seq<char>, needle: Seq<char>) -> Option<nat> {
    match occurrence(lower, needle) {
        Some(i) => Some(chars_before(sizes, i as nat)),
        None => None,
    }
}

/// Sizes as numbers.
pub open spec fn counts(v: Seq<usize>) -> Seq<nat> {
    Seq::new(v.len(), |i: int| v[i] as nat)
}

/// A line as it is shown: without the white space in front, cut short with an ellipsis where
/// it takes more than 120 bytes.
pub open spec fn shown(line: Seq<char>) -> Seq<char> {
    let t = trimmed_start(line);
    let head = if t.len() > SHOWN {
        t.take(SHOWN as int)
    } else {
        t
    };
    if byte_len(t) > SHOWN {
        head.push('\u{2026}')
    } else {
        head
    }
}

/// Where a line matches, given the line in lower case and how many characters the lower case of
/// each of its characters takes.
pub fn match_line(sizes: &[usize], lower: &[char], needle: &[char]) -> (r: Option<usize>)
    ensures
        match r {
            Some(col) => line_hit(counts(sizes@), lower@, needle@) == Some(col as nat),
            None => line_hit(counts(sizes@), lower@, needle@) is None,
        },
{
    match find_text(lower, needle) {
        None => None,
        Some(i) => {
            let mut left: usize = i;
            let mut col: usize = 0;
            let ghost all = counts(sizes@);
            assert(all.skip(0) =~= all);
            while col < sizes.len() && sizes[col] <= left
                invariant
                    col <= sizes@.len(),
                    all == counts(sizes@),
                    chars_before(all, i as nat) == col + chars_before(all.skip(col as int), left as nat),
                decreases sizes@.len() - col,
            {
                assert(all.skip(col as int)[0] == sizes@[col as int]);
                assert(all.skip(col as int).skip(1) =~= all.skip(col + 1));
                left -= sizes[col];
                col += 1;
            }
            if col < sizes.len() {
                assert(all.skip(col as int)[0] == sizes@[col as int]);
            }
            Some(col)
        },
    }
}

fn sizes_of(line: &[char]) -> (r: Vec<usize>)
    ensures
        counts(r@) == lower_sizes(line@),
{
    let mut out: Vec<usize> = Vec::new();
    for i in 0..line.len()
        invariant
            counts(out@) == lower_sizes(line@).take(i as int),
    {
        let ghost before = counts(out@);
        let low = lower_char(line[i]);
        out.push(low.len());
        assert(counts(out@) =~= before.push(lower_sizes(line@)[i as int]));
        assert(lower_sizes(line@).take(i + 1) =~= lower_sizes(line@).take(i as int).push(
            lower_sizes(line@)[i as int],
        ));
    }
    assert(lower_sizes(line@).take(line@.len() as int) =~= lower_sizes(line@));
    out
}

fn show_line(line: &[char]) -> (r: String)
    ensures
        r@ == shown(line@),
{
    let t = trim_start(line);
    let whole = string_of(t);
    let long = len_of(&whole) > SHOWN;
    let mut out = if t.len() > SHOWN {
        assert(t@.subrange(0, SHOWN as int) =~= t@.take(SHOWN as int));
        string_of(&t[0..SHOWN])
    } else {
        whole
    };
    if long {
        out.push('\u{2026}');
    }
    out
}

/// The hits in the first `n` lines of a file, at most `room` of them.
pub open spec fn hits_in(path: Seq<char>, ls: Seq<Seq<char>>, needle: Seq<char>, room: nat, n: nat) -> Seq<Hit>
    decreases n,
{
    if n == 0 {
        Seq::empty()
    } else {
        let before = hits_in(path, ls, needle, room, (n - 1) as nat);
        let line = ls[n - 1];
        if before.len() >= room {
            before
        } else {
            match line_hit(lower_sizes(line), text_lower(line), needle) {
                None => before,
                Some(col) => before.push(Hit { path, line: n, col, text: shown(line) }),
            }
        }
    }
}

/// Whether bytes look like those of a binary file.
pub open spec fn binary(bytes: Seq<u8>) -> bool {
    exists|i: int| 0 <= i < bytes.len() && i < SNIFF && #[trigger] bytes[i] == 0
}

/// The hits in a file; none in one that is binary or not text.
pub open spec fn file_hits(path: Seq<char>, bytes: Seq<u8>, needle: Seq<char>, room: nat) -> Seq<Hit> {
    if binary(bytes) || !valid_utf8(bytes) {
        Seq::empty()
    } else {
        let ls = lines(decode_utf8(bytes));
        hits_in(path, ls, needle, room, ls.len())
    }
}

fn looks_binary(bytes: &Vec<u8>) -> (r: bool)
    ensures
        r == binary(bytes@),
{
    let end: usize = if bytes.len() < SNIFF {
        bytes.len()
    } else {
        SNIFF
    };
    for i in 0..end
        invariant
            end <= bytes@.len(),
            end <= SNIFF,
            forall|k: int| 0 <= k < i ==> bytes@[k] != 0,
    {
        if bytes[i] == 0 {
            return true;
        }
    }
    assert(!binary(bytes@)) by {
        if binary(bytes@) {
            let i = choose|i: int| 0 <= i < bytes@.len() && i < SNIFF && #[trigger] bytes@[i] == 0;
            assert(i < end);
        }
    }
    false
}

/// Looks for `needle` in a file's bytes and adds at most `room` hits to `out`.
pub fn search_file(path: &str, bytes: Vec<u8>, needle: &str, room: usize, out: &mut Vec<Match>)
    ensures
        hits(final(out)@) == hits(old(out)@) + file_hits(path@, bytes@, needle@, room as nat),
        file_hits(path@, bytes@, needle@, room as nat).len() <= room,
{
    let ghost before = hits(out@);
    assert(before + Seq::<Hit>::empty() =~= before);
    if looks_binary(&bytes) {
        return;
    }
    let text = match decode(bytes) {
        Some(t) => t,
        None => return,
    };
    let ls = split_lines(&chars_of(&text));
    let ghost all = lines(text@);
    let need = chars_of(needle);
    let mut found: Vec<Match> = Vec::new();
    assert(hits(found@) =~= Seq::<Hit>::empty());
    for i in 0..ls.len()
        invariant
            views(ls@) == all,
            need@ == needle@,
            found@.len() <= room,
            hits_in(path@, all, needle@, room as nat, i as nat) == hits(found@),
            *out == *old(out),
            hits_in(path@, all, needle@, room as nat, all.len()) == file_hits(path@, bytes@, needle@, room as nat),
    {
        assert(all[i as int] == ls@[i as int]@);
        if found.len() < room {
            let line = string_of(&ls[i]);
            let lower = chars_of(&lower_text(&line));
            let sizes = sizes_of(&ls[i]);
            if let Some(col) = match_line(&sizes, &lower, &need) {
                let ghost earlier = hits(found@);
                let m = Match { path: path.to_owned(), line: i + 1, col, text: show_line(&ls[i]) };
                let ghost h = m@;
                found.push(m);
                assert(hits(found@) =~= earlier.push(h));
            }
        }
    }
    let ghost add = hits(found@);
    out.append(&mut found);
    assert(hits(out@) =~= before + add);
}

// --- walking ---

/// Something in a directory.
#[derive(Debug)]
pub struct Item {
    pub name: String,
    pub is_dir: bool,
}

/// The names of items.
pub open spec fn item_names(v: Seq<Item>) -> Seq<Seq<char>> {
    Seq::new(v.len(), |i: int| v[i].name@)
}

/// A directory or file to be visited: its path, and its path below the place where the walk
/// began.
#[derive(Debug)]
pub struct Visit {
    pub path: String,
    pub below: String,
    pub is_dir: bool,
}

/// What a [`Visit`] stands for.
pub struct Stop {
    pub path: Seq<char>,
    pub below: Seq<char>,
    pub is_dir: bool,
}

impl View for Visit {
    type V = Stop;

    open spec fn view(&self) -> Stop {
        Stop { path: self.path@, below: self.below@, is_dir: self.is_dir }
    }
}

/// The stops in the directory `dir` that the first `n` places of `order` list, leaving out
/// what is passed over.
pub open spec fn stops_in(dir: Stop, items: Seq<Item>, order: Seq<usize>, n: nat) -> Seq<Stop>
    decreases n,
{
    if n == 0 {
        Seq::empty()
    } else {
        let before = stops_in(dir, items, order, (n - 1) as nat);
        let item = items[order[n - 1] as int];
        let skipped = if item.is_dir {
            dir_skipped(item.name@)
        } else {
            file_skipped(item.name@)
        };
        if skipped {
            before
        } else {
            before.push(
                Stop {
                    path: joined(dir.path, item.name@),
                    below: joined(dir.below, item.name@),
                    is_dir: item.is_dir,
                },
            )
        }
    }
}

/// A walk over a tree of directories: what is still to be visited.
pub struct Walk {
    stack: Vec<Visit>,
}

impl Walk {
    /// What is to be visited, next first.
    pub closed spec fn ahead(&self) -> Seq<Stop> {
        Seq::new(self.stack@.len(), |i: int| self.stack@[self.stack@.len() - 1 - i]@)
    }

    /// A walk that begins at the directory `root`.
    pub fn begin(root: &str) -> (r: Self)
        ensures
            r.ahead() == seq![Stop { path: root@, below: Seq::empty(), is_dir: true }],
    {
        let mut stack: Vec<Visit> = Vec::new();
        stack.push(Visit { path: root.to_owned(), below: String::new(), is_dir: true });
        let r = Walk { stack };
        assert(r.ahead() =~= seq![Stop { path: root@, below: Seq::empty(), is_dir: true }]);
        r
    }

    /// What to visit next.
    pub fn advance(&mut self) -> (r: Option<Visit>)
        ensures
            match r {
                Some(v) => old(self).ahead().len() > 0 && v@ == old(self).ahead()[0] && final(self).ahead()
                    == old(self).ahead().skip(1),
                None => old(self).ahead().len() == 0 && final(self).ahead() == old(self).ahead(),
            },
    {
        let ghost before = self.ahead();
        let r = self.stack.pop();
        if r.is_some() {
            assert(self.ahead() =~= before.skip(1));
        } else {
            assert(self.ahead() =~= before);
        }
        r
    }

    /// Takes in what is in the directory `dir`: it is visited next, in the order of the names.
    pub fn enter(&mut self, dir: &Visit, items: &Vec<Item>)
        ensures
            exists|order: Seq<usize>|
                {
                    &&& places(order, items@.len() as int)
                    &&& in_order(order, by_name(item_names(items@)))
                    &&& final(self).ahead() == #[trigger] stops_in(dir@, items@, order, order.len())
                        + old(self).ahead()
                },
    {
        let mut names: Vec<String> = Vec::new();
        for i in 0..items.len()
            invariant
                texts(names@) == item_names(items@).take(i as int),
        {
            let ghost before = texts(names@);
            names.push(items[i].name.clone());
            assert(texts(names@) =~= before.push(items@[i as int].name@));
            assert(item_names(items@).take(i + 1) =~= item_names(items@).take(i as int).push(
                items@[i as int].name@,
            ));
        }
        assert(item_names(items@).take(items@.len() as int) =~= item_names(items@));
        let order = order_by_name(&names);
        let ghost before = self.ahead();
        let ghost all = stops_in(dir@, items@, order@, order@.len());
        let mut i: usize = order.len();
        let ghost mut done: Seq<Stop> = Seq::empty();
        assert(stops_in(dir@, items@, order@, i as nat) + done =~= all);
        assert(self.ahead() =~= done + before);
        while i > 0
            invariant
                i <= order@.len(),
                places(order@, items@.len() as int),
                stops_in(dir@, items@, order@, i as nat) + done == all,
                self.ahead() == done + before,
            decreases i,
        {
            let ghost was = done;
            let ghost stack_before = self.stack@;
            i -= 1;
            let item = &items[order[i]];
            if !skips(&item.name, item.is_dir) {
                let v = Visit {
                    path: join(&dir.path, &item.name),
                    below: join(&dir.below, &item.name),
                    is_dir: item.is_dir,
                };
                let ghost stop = v@;
                self.stack.push(v);
                proof {
                    done = seq![stop] + was;
                }
                assert(self.ahead() =~= seq![stop] + (was + before));
                assert(self.ahead() =~= done + before);
                assert(stops_in(dir@, items@, order@, i as nat) + done =~= stops_in(
                    dir@,
                    items@,
                    order@,
                    i as nat,
                ).push(stop) + was);
            }
        }
        assert(stops_in(dir@, items@, order@, 0) + done =~= done);
    }
}

/// What a search asks for.
#[derive(Debug)]
pub enum Want {
    /// What is in a directory.
    Dir(Visit),
    /// The bytes of a file.
    File(Visit),
    /// Nothing more.
    Done,
}

/// A search for a text in the files below a directory.
pub struct Search {
    walk: Walk,
    needle: String,
    limit: usize,
    found: Vec<Match>,
}

impl Search {
    /// What is still to be visited.
    pub closed spec fn ahead(&self) -> Seq<Stop> {
        self.walk.ahead()
    }

    /// The text that is looked for, in lower case.
    pub closed spec fn sought(&self) -> Seq<char> {
        self.needle@
    }

    /// The most hits that are collected.
    pub closed spec fn most(&self) -> nat {
        self.limit as nat
    }

    /// The hits so far.
    pub closed spec fn hits(&self) -> Seq<Hit> {
        hits(self.found@)
    }

    /// There are never more hits than asked for.
    pub open spec fn wf(&self) -> bool {
        self.hits().len() <= self.most()
    }

    /// What to hand to the search next. It is done when it has enough hits or everything was
    /// visited; without a text to look for it is done at once.
    pub fn next(&mut self) -> (r: Want)
        requires
            old(self).wf(),
        ensures
            final(self).wf(),
            final(self).hits() == old(self).hits(),
            final(self).sought() == old(self).sought(),
            final(self).most() == old(self).most(),
            if old(self).hits().len() >= old(self).most() || old(self).ahead().len() == 0 {
                r is Done && final(self).ahead() == old(self).ahead()
            } else {
                let stop = old(self).ahead()[0];
                &&& final(self).ahead() == old(self).ahead().skip(1)
                &&& if stop.is_dir {
                    r matches Want::Dir(v) && v@ == stop
                } else {
                    r matches Want::File(v) && v@ == stop
                }
            },
    {
        if self.found.len() >= self.limit {
            return Want::Done;
        }
        match self.walk.advance() {
            Some(v) => if v.is_dir {
                Want::Dir(v)
            } else {
                Want::File(v)
            },
            None => Want::Done,
        }
    }

    /// Takes in what is in a directory.
    pub fn enter(&mut self, dir: &Visit, items: &Vec<Item>)
        requires
            old(self).wf(),
        ensures
            final(self).wf(),
            final(self).hits() == old(self).hits(),
            final(self).sought() == old(self).sought(),
            final(self).most() == old(self).most(),
            exists|order: Seq<usize>|
                {
                    &&& places(order, items@.len() as int)
                    &&& in_order(order, by_name(item_names(items@)))
                    &&& final(self).ahead() == #[trigger] stops_in(dir@, items@, order, order.len())
                        + old(self).ahead()
                },
    {
        self.walk.enter(dir, items);
    }

    /// Takes in the bytes of a file.
    pub fn look(&mut self, file: &Visit, bytes: Vec<u8>)
        requires
            old(self).wf(),
        ensures
            final(self).wf(),
            final(self).ahead() == old(self).ahead(),
            final(self).sought() == old(self).sought(),
            final(self).most() == old(self).most(),
            final(self).hits() == old(self).hits() + file_hits(
                file@.path,
                bytes@,
                old(self).sought(),
                (old(self).most() - old(self).hits().len()) as nat,
            ),
    {
        let room: usize = self.limit - self.found.len();
        search_file(&file.path, bytes, &self.needle, room, &mut self.found);
    }

    /// The hits.
    pub fn results(self) -> (r: Vec<Match>)
        requires
            self.wf(),
        ensures
            hits(r@) == self.hits(),
            r@.len() <= self.most(),
    {
        self.found
    }
}

/// Begins the search for `query` below `root`, case aside, for at most `limit` hits. An empty
/// query finds nothing.
pub fn search_dir(root: &str, query: &str, limit: usize) -> (r: Search)
    ensures
        r.wf(),
        r.hits().len() == 0,
        r.sought() == text_lower(query@),
        r.most() == limit,
        r.ahead() == if query@.len() == 0 {
            Seq::empty()
        } else {
            seq![Stop { path: root@, below: Seq::empty(), is_dir: true }]
        },
{
    let mut walk = Walk::begin(root);
    if query.is_empty() {
        let _ = walk.advance();
        assert(walk.ahead() =~= Seq::<Stop>::empty());
    }
    Search { walk, needle: lower_text(query), limit, found: Vec::new() }
}

/// A list of the files below a directory whose paths match a filter.
pub struct FileList {
    walk: Walk,
    needle: String,
    limit: usize,
    found: Vec<String>,
}

/// Whether a path below the start of the walk passes the filter `needle`, which is in lower
/// case: an empty one passes everything.
pub open spec fn path_matches(below: Seq<char>, needle: Seq<char>) -> bool {
    needle.len() == 0 || exists|at: Seq<int>| embeds(text_lower(below), needle, at)
}

/// What is left to visit, and what was found, when the walk comes to its next directory or
/// to its end: files are judged on the way, until there are enough.
pub open spec fn next_dir(ahead: Seq<Stop>, needle: Seq<char>, limit: nat, found: Seq<Seq<char>>) -> (
    Seq<Stop>,
    Seq<Seq<char>>,
)
    decreases ahead.len(),
{
    if found.len() >= limit || ahead.len() == 0 || ahead[0].is_dir {
        (ahead, found)
    } else if path_matches(ahead[0].below, needle) {
        next_dir(ahead.skip(1), needle, limit, found.push(ahead[0].path))
    } else {
        next_dir(ahead.skip(1), needle, limit, found)
    }
}

impl FileList {
    /// What is still to be visited.
    pub closed spec fn ahead(&self) -> Seq<Stop> {
        self.walk.ahead()
    }

    /// The filter, in lower case.
    pub closed spec fn filter(&self) -> Seq<char> {
        self.needle@
    }

    /// The most files that are listed.
    pub closed spec fn most(&self) -> nat {
        self.limit as nat
    }

    /// The files so far.
    pub closed spec fn files(&self) -> Seq<Seq<char>> {
        texts(self.found@)
    }

    /// There are never more files than asked for.
    pub open spec fn wf(&self) -> bool {
        self.files().len() <= self.most()
    }

    /// The directory to hand to the list next; `None` when it has enough files or everything
    /// was visited.
    pub fn next(&mut self) -> (r: Option<Visit>)
        requires
            old(self).wf(),
        ensures
            final(self).wf(),
            goes_on(*old(self), visited(r), *final(self)),
    {
        let ghost goal = next_dir(self.ahead(), self.filter(), self.most(), self.files());
        loop
            invariant
                self.wf(),
                self.filter() == old(self).filter(),
                self.most() == old(self).most(),
                next_dir(self.ahead(), self.filter(), self.most(), self.files()) == goal,
                goal == next_dir(
                    old(self).ahead(),
                    old(self).filter(),
                    old(self).most(),
                    old(self).files(),
                ),
            decreases self.ahead().len(),
        {
            if self.found.len() >= self.limit {
                return None;
            }
            let ghost before = self.files();
            let ghost ahead = self.ahead();
            match self.walk.advance() {
                None => {
                    return None;
                },
                Some(v) => {
                    if v.is_dir {
                        return Some(v);
                    }
                    let passes = self.needle.as_str().is_empty() || subseq_match(
                        &lower_text(&v.below),
                        &self.needle,
                    );
                    assert(passes == path_matches(ahead[0].below, self.filter()));
                    if passes {
                        self.found.push(v.path);
                        assert(self.files() =~= before.push(ahead[0].path));
                    }
                },
            }
        }
    }

    /// Takes in what is in a directory.
    pub fn enter(&mut self, dir: &Visit, items: &Vec<Item>)
        requires
            old(self).wf(),
        ensures
            final(self).wf(),
            enters(*old(self), dir@, items@, *final(self)),
    {
        self.walk.enter(dir, items);
        proof {
            let order = choose|order: Seq<usize>|
                {
                    &&& places(order, items@.len() as int)
                    &&& in_order(order, by_name(item_names(items@)))
                    &&& self.ahead() == #[trigger] stops_in(dir@, items@, order, order.len()) + old(self).ahead()
                };
            assert(holds(dir@, items@, stops_in(dir@, items@, order, order.len())));
        }
    }

    /// The files.
    pub fn results(self) -> (r: Vec<String>)
        requires
            self.wf(),
        ensures
            texts(r@) == self.files(),
            r@.len() <= self.most(),
    {
        self.found
    }
}

/// What is visited, if anything.
pub open spec fn visited(v: Option<Visit>) -> Option<Stop> {
    match v {
        Some(v) => Some(v@),
        None => None,
    }
}

/// A list went on to the next directory, or to its end.
pub open spec fn goes_on(before: FileList, dir: Option<Stop>, after: FileList) -> bool {
    let (ahead, files) = next_dir(before.ahead(), before.filter(), before.most(), before.files());
    &&& after.filter() == before.filter()
    &&& after.most() == before.most()
    &&& after.files() == files
    &&& if files.len() >= before.most() || ahead.len() == 0 {
        dir is None && after.ahead() == ahead
    } else {
        dir == Some(ahead[0]) && after.ahead() == ahead.skip(1)
    }
}

/// `stops` is what a walk goes to in a directory that holds `items`: those that are not passed over,
/// in the order of their names.
pub open spec fn holds(dir: Stop, items: Seq<Item>, stops: Seq<Stop>) -> bool {
    exists|order: Seq<usize>|
        {
            &&& places(order, items.len() as int)
            &&& in_order(order, by_name(item_names(items)))
            &&& stops == #[trigger] stops_in(dir, items, order, order.len())
        }
}

/// A list took in what is in a directory.
pub open spec fn enters(before: FileList, dir: Stop, items: Seq<Item>, after: FileList) -> bool {
    &&& after.filter() == before.filter()
    &&& after.most() == before.most()
    &&& after.files() == before.files()
    &&& exists|stops: Seq<Stop>| #[trigger] holds(dir, items, stops) && after.ahead() == stops + before.ahead()
}

/// Begins the list of the files below `root` whose paths there match `filter` as a
/// subsequence, case aside, at most `limit` of them. An empty filter matches every file.
pub fn list_files(root: &str, filter: &str, limit: usize) -> (r: FileList)
    ensures
        r.wf(),
        r.files().len() == 0,
        r.filter() == text_lower(filter@),
        r.most() == limit,
        r.ahead() == seq![Stop { path: root@, below: Seq::empty(), is_dir: true }],
{
    FileList { walk: Walk::begin(root), needle: lower_text(filter), limit, found: Vec::new() }
}

/// Where a walk goes from a directory is determined by what is listed in it: two orders by name are
/// the same.
pub proof fn walks_are_determined(dir: Stop, items: Seq<Item>, a: Seq<usize>, b: Seq<usize>)
    requires
        places(a, items.len() as int),
        places(b, items.len() as int),
        in_order(a, by_name(item_names(items))),
        in_order(b, by_name(item_names(items))),
    ensures
        stops_in(dir, items, a, a.len()) == stops_in(dir, items, b, b.len()),
{
    lemma_by_name(item_names(items));
    order_is_determined(a, b, items.len() as int, by_name(item_names(items)));
}

/// A hit stands where the text is: where each character has one character as its lower case, the
/// column is the offset of the first occurrence, and what stands there is the text that is sought.
pub proof fn columns_are_offsets(sizes: Seq<nat>, lower: Seq<char>, needle: Seq<char>)
    requires
        sizes.len() == lower.len(),
        forall|i: int| 0 <= i < sizes.len() ==> #[trigger] sizes[i] == 1,
    ensures
        match line_hit(sizes, lower, needle) {
            Some(col) => occurrence(lower, needle) == Some(col as int) && col + needle.len() <= lower.len()
                && lower.subrange(col as int, (col + needle.len()) as int) == needle,
            None => occurrence(lower, needle) is None,
        },
{
    if let Some(i) = occurrence(lower, needle) {
        lemma_occurrence(lower, needle);
        lemma_unit_sizes(sizes, i as nat);
    }
}

proof fn lemma_unit_sizes(sizes: Seq<nat>, offset: nat)
    requires
        forall|i: int| 0 <= i < sizes.len() ==> #[trigger] sizes[i] == 1,
        offset <= sizes.len(),
    ensures
        chars_before(sizes, offset) == offset,
    decreases sizes.len(),
{
    if sizes.len() > 0 && offset > 0 {
        lemma_unit_sizes(sizes.skip(1), (offset - 1) as nat);
    }
}

/// The hits of a file come line by line: each is of a line that matches, with the column of the
/// match, no line gives two, and where there is room left every line that matches gives one.
pub proof fn hits_are_the_matching_lines(
    path: Seq<char>,
    ls: Seq<Seq<char>>,
    needle: Seq<char>,
    room: nat,
    n: nat,
)
    requires
        n <= ls.len(),
    ensures
        ({
            let found = hits_in(path, ls, needle, room, n);
            &&& found.len() <= room
            &&& forall|k: int|
                0 <= k < found.len() ==> {
                    let h = #[trigger] found[k];
                    &&& 1 <= h.line <= n
                    &&& h.path == path
                    &&& h.text == shown(ls[h.line - 1])
                    &&& line_hit(lower_sizes(ls[h.line - 1]), text_lower(ls[h.line - 1]), needle) == Some(
                        h.col,
                    )
                }
            &&& forall|j: int, k: int|
                0 <= j < k < found.len() ==> (#[trigger] found[j]).line < (#[trigger] found[k]).line
            &&& found.len() < room ==> forall|i: int|
                0 <= i < n && occurrence(#[trigger] text_lower(ls[i]), needle) is Some ==> exists|k: int|
                    0 <= k < found.len() && (#[trigger] found[k]).line == i + 1
        }),
    decreases n,
{
    if n > 0 {
        let m = (n - 1) as nat;
        hits_are_the_matching_lines(path, ls, needle, room, m);
        let before = hits_in(path, ls, needle, room, m);
        let found = hits_in(path, ls, needle, room, n);
        assert forall|k: int| 0 <= k < before.len() implies found[k] == #[trigger] before[k] by {}
        if found.len() < room {
            assert forall|i: int| 0 <= i < n && occurrence(#[trigger] text_lower(ls[i]), needle) is Some implies exists|
                k: int,
            |
                0 <= k < found.len() && (#[trigger] found[k]).line == i + 1 by {
                if i < m {
                    let k = choose|k: int| 0 <= k < before.len() && (#[trigger] before[k]).line == i + 1;
                    assert(found[k].line == i + 1);
                } else {
                    assert(found[before.len() as int].line == n);
                }
            }
        }
    }
}

/// What is in each directory, as a list goes through it.
pub type Contents = spec_fn(Stop) -> Seq<Stop>;

/// What is left to visit, and what was found, after so many directories.
pub open spec fn listing(tree: Contents, ahead: Seq<Stop>, needle: Seq<char>, limit: nat, rounds: nat) -> (
    Seq<Stop>,
    Seq<Seq<char>>,
)
    decreases rounds,
{
    if rounds == 0 {
        (ahead, Seq::empty())
    } else {
        let (left, found) = listing(tree, ahead, needle, limit, (rounds - 1) as nat);
        let (next, files) = next_dir(left, needle, limit, found);
        if files.len() >= limit || next.len() == 0 {
            (next, files)
        } else {
            (tree(next[0]) + next.skip(1), files)
        }
    }
}

/// One list begins with the other.
pub open spec fn begins_with(whole: Seq<Seq<char>>, part: Seq<Seq<char>>) -> bool {
    part.len() <= whole.len() && part == whole.take(part.len() as int)
}

proof fn lemma_next_dir_grows(ahead: Seq<Stop>, needle: Seq<char>, limit: nat, found: Seq<Seq<char>>)
    ensures
        begins_with(next_dir(ahead, needle, limit, found).1, found),
        found.len() <= limit ==> next_dir(ahead, needle, limit, found).1.len() <= limit,
    decreases ahead.len(),
{
    if found.len() >= limit || ahead.len() == 0 || ahead[0].is_dir {
        assert(found =~= found.take(found.len() as int));
    } else if path_matches(ahead[0].below, needle) {
        let more = found.push(ahead[0].path);
        lemma_next_dir_grows(ahead.skip(1), needle, limit, more);
        let all = next_dir(ahead.skip(1), needle, limit, more).1;
        assert(found =~= more.take(found.len() as int));
        assert(found =~= all.take(found.len() as int));
    } else {
        lemma_next_dir_grows(ahead.skip(1), needle, limit, found);
    }
}

/// With less room the walk to the next directory finds the same, or fills its room with the first
/// of it.
proof fn lemma_next_dir_limits(ahead: Seq<Stop>, needle: Seq<char>, small: nat, large: nat, found: Seq<Seq<char>>)
    requires
        small <= large,
        found.len() < small,
    ensures
        ({
            let a = next_dir(ahead, needle, small, found);
            let b = next_dir(ahead, needle, large, found);
            a == b || a.1.len() == small && begins_with(b.1, a.1)
        }),
    decreases ahead.len(),
{
    if ahead.len() == 0 || ahead[0].is_dir {
    } else if path_matches(ahead[0].below, needle) {
        let more = found.push(ahead[0].path);
        if more.len() < small {
            lemma_next_dir_limits(ahead.skip(1), needle, small, large, more);
        } else {
            lemma_next_dir_grows(ahead.skip(1), needle, large, more);
            assert(next_dir(ahead.skip(1), needle, small, more) == (ahead.skip(1), more));
        }
    } else {
        lemma_next_dir_limits(ahead.skip(1), needle, small, large, found);
    }
}

/// A list with a smaller limit is the first part of one with a larger limit, after any number of
/// directories: it is as long as its limit, or the same.
pub proof fn smaller_limits_list_a_prefix(
    tree: Contents,
    ahead: Seq<Stop>,
    needle: Seq<char>,
    small: nat,
    large: nat,
    rounds: nat,
)
    requires
        small <= large,
    ensures
        ({
            let a = listing(tree, ahead, needle, small, rounds);
            let b = listing(tree, ahead, needle, large, rounds);
            &&& a.1.len() <= small
            &&& begins_with(b.1, a.1)
            &&& a.1.len() < small ==> a == b
        }),
    decreases rounds,
{
    let a = listing(tree, ahead, needle, small, rounds);
    let b = listing(tree, ahead, needle, large, rounds);
    if rounds == 0 {
        assert(a.1 =~= b.1.take(0));
    } else {
        let m = (rounds - 1) as nat;
        smaller_limits_list_a_prefix(tree, ahead, needle, small, large, m);
        let c = listing(tree, ahead, needle, small, m);
        let d = listing(tree, ahead, needle, large, m);
        lemma_next_dir_grows(d.0, needle, large, d.1);
        lemma_next_dir_grows(c.0, needle, small, c.1);
        if c.1.len() < small {
            lemma_next_dir_limits(c.0, needle, small, large, c.1);
            let e = next_dir(c.0, needle, small, c.1);
            let f = next_dir(d.0, needle, large, d.1);
            if e == f {
                assert(begins_with(f.1, e.1)) by {
                    assert(e.1 =~= f.1.take(e.1.len() as int));
                }
            }
        } else {
            assert(next_dir(c.0, needle, small, c.1) == c);
            let f = next_dir(d.0, needle, large, d.1);
            assert(c.1 =~= f.1.take(c.1.len() as int));
        }
    }
}

/// The listing stays as it is once it is done.
proof fn lemma_listing_done(tree: Contents, ahead: Seq<Stop>, needle: Seq<char>, limit: nat, rounds: nat, more: nat)
    requires
        ({
            let (left, found) = listing(tree, ahead, needle, limit, rounds);
            found.len() >= limit || left.len() == 0
        }),
    ensures
        listing(tree, ahead, needle, limit, rounds + more) == listing(tree, ahead, needle, limit, rounds),
    decreases more,
{
    if more > 0 {
        lemma_listing_done(tree, ahead, needle, limit, rounds, (more - 1) as nat);
    }
}

/// A list goes through the states of the listing: where it is at one of them, and the directory that
/// it asks for next is handed to it, it is at the next.
pub proof fn lists_go_through_the_listing(
    tree: Contents,
    start: Seq<Stop>,
    rounds: nat,
    before: FileList,
    dir: Stop,
    mid: FileList,
    items: Seq<Item>,
    after: FileList,
)
    requires
        (before.ahead(), before.files()) == listing(tree, start, before.filter(), before.most(), rounds),
        goes_on(before, Some(dir), mid),
        holds(dir, items, tree(dir)),
        enters(mid, dir, items, after),
    ensures
        (after.ahead(), after.files()) == listing(tree, start, after.filter(), after.most(), rounds + 1),
{
    let stops = choose|stops: Seq<Stop>|
        #[trigger] holds(dir, items, stops) && after.ahead() == stops + mid.ahead();
    let a = choose|order: Seq<usize>|
        {
            &&& places(order, items.len() as int)
            &&& in_order(order, by_name(item_names(items)))
            &&& stops == #[trigger] stops_in(dir, items, order, order.len())
        };
    let b = choose|order: Seq<usize>|
        {
            &&& places(order, items.len() as int)
            &&& in_order(order, by_name(item_names(items)))
            &&& tree(dir) == #[trigger] stops_in(dir, items, order, order.len())
        };
    walks_are_determined(dir, items, a, b);
}

/// A list that asks for no further directory has found what the listing finds, however far that goes.
pub proof fn lists_end_with_the_listing(
    tree: Contents,
    start: Seq<Stop>,
    rounds: nat,
    before: FileList,
    after: FileList,
    more: nat,
)
    requires
        (before.ahead(), before.files()) == listing(tree, start, before.filter(), before.most(), rounds),
        goes_on(before, None, after),
    ensures
        after.files() == listing(tree, start, after.filter(), after.most(), rounds + 1 + more).1,
{
    let next = listing(tree, start, before.filter(), before.most(), rounds + 1);
    assert(next == (after.ahead(), after.files()));
    lemma_listing_done(tree, start, before.filter(), before.most(), rounds + 1, more);
}

// --- no path comes twice ---

/// A name that something in a directory can have.
pub open spec fn is_file_name(name: Seq<char>) -> bool {
    name.len() > 0 && forall|i: int| 0 <= i < name.len() ==> #[trigger] name[i] != '/'
}

/// A stop is in a directory, under this name.
pub open spec fn is_child(d: Stop, s: Stop, name: Seq<char>) -> bool {
    &&& is_file_name(name)
    &&& s.path == joined(d.path, name)
    &&& s.below == joined(d.below, name)
}

/// A stop is in a directory.
pub open spec fn is_in(d: Stop, s: Stop) -> bool {
    exists|name: Seq<char>| #[trigger] is_child(d, s, name)
}

/// The stops are in a directory, no two of them under the same name.
pub open spec fn children(d: Stop, stops: Seq<Stop>) -> bool {
    &&& forall|i: int| 0 <= i < stops.len() ==> is_in(d, #[trigger] stops[i])
    &&& forall|i: int, j: int|
        0 <= i < j < stops.len() ==> (#[trigger] stops[i]).below != (#[trigger] stops[j]).below
}

/// In every directory each name stands once.
pub open spec fn proper(tree: Contents) -> bool {
    forall|d: Stop| #[trigger] children(d, tree(d))
}

/// What a walk goes to in a directory is in it, no name twice, where the directory holds each name
/// once.
pub proof fn directories_are_proper(dir: Stop, items: Seq<Item>, order: Seq<usize>, n: nat)
    requires
        places(order, items.len() as int),
        n <= order.len(),
        forall|i: int| 0 <= i < items.len() ==> is_file_name(#[trigger] items[i].name@),
        forall|i: int, j: int|
            0 <= i < j < items.len() ==> (#[trigger] items[i]).name@ != (#[trigger] items[j]).name@,
    ensures
        children(dir, stops_in(dir, items, order, n)),
        forall|i: int|
            0 <= i < stops_in(dir, items, order, n).len() ==> exists|k: int|
                0 <= k < n && (#[trigger] stops_in(dir, items, order, n)[i]).below == joined(
                    dir.below,
                    (#[trigger] items[order[k] as int]).name@,
                ),
    decreases n,
{
    if n > 0 {
        let m = (n - 1) as nat;
        directories_are_proper(dir, items, order, m);
        let before = stops_in(dir, items, order, m);
        let now = stops_in(dir, items, order, n);
        let item = items[order[m as int] as int];
        assert(is_file_name(item.name@));
        if now.len() > before.len() {
            let last = now[before.len() as int];
            assert(is_child(dir, last, item.name@));
            assert forall|i: int| 0 <= i < now.len() implies is_in(dir, #[trigger] now[i]) by {
                if i < before.len() {
                    assert(now[i] == before[i]);
                }
            }
            assert forall|i: int| 0 <= i < before.len() implies (#[trigger] before[i]).below != last.below by {
                let k = choose|k: int|
                    0 <= k < m && before[i].below == joined(dir.below, (#[trigger] items[order[k] as int]).name@);
                assert(order[k] != order[m as int]);
                let (x, y) = (order[k] as int, order[m as int] as int);
                if x < y {
                    assert(items[x].name@ != items[y].name@);
                } else {
                    assert(items[y].name@ != items[x].name@);
                }
                lemma_joined_differ(dir.below, items[x].name@, items[y].name@);
            }
            assert forall|i: int, j: int| 0 <= i < j < now.len() implies (#[trigger] now[i]).below != (
            #[trigger] now[j]).below by {
                assert(now[i] == before[i]);
                if j < before.len() {
                    assert(now[j] == before[j]);
                }
            }
            assert forall|i: int| 0 <= i < now.len() implies exists|k: int|
                0 <= k < n && (#[trigger] now[i]).below == joined(
                    dir.below,
                    (#[trigger] items[order[k] as int]).name@,
                ) by {
                if i < before.len() {
                    assert(now[i] == before[i]);
                    let k = choose|k: int|
                        0 <= k < m && before[i].below == joined(
                            dir.below,
                            (#[trigger] items[order[k] as int]).name@,
                        );
                    assert(items[order[k] as int].name@ == items[order[k] as int].name@);
                } else {
                    assert(items[order[m as int] as int] == item);
                }
            }
        } else {
            assert(now == before);
            assert forall|i: int| 0 <= i < now.len() implies exists|k: int|
                0 <= k < n && (#[trigger] now[i]).below == joined(
                    dir.below,
                    (#[trigger] items[order[k] as int]).name@,
                ) by {
                let k = choose|k: int|
                    0 <= k < m && before[i].below == joined(dir.below, (#[trigger] items[order[k] as int]).name@);
                assert(items[order[k] as int].name@ == items[order[k] as int].name@);
            }
        }
    }
}

/// Different names under a directory are different paths.
proof fn lemma_joined_differ(dir: Seq<char>, a: Seq<char>, b: Seq<char>)
    requires
        a != b,
    ensures
        joined(dir, a) != joined(dir, b),
{
    let (x, y) = (joined(dir, a), joined(dir, b));
    let n = x.len() - a.len();
    if x == y {
        assert(a.len() == b.len());
        assert(a =~= x.skip(n));
        assert(b =~= y.skip(n));
    }
}

/// A path is that of a directory, or of something in it at any depth.
spec fn under(x: Seq<char>, d: Seq<char>) -> bool {
    d.len() == 0 || x == d || d.push('/').is_prefix_of(x)
}

/// No path of a list is under another.
spec fn apart(ps: Seq<Seq<char>>) -> bool {
    forall|i: int, j: int| 0 <= i < ps.len() && 0 <= j < ps.len() && i != j ==> !under(#[trigger] ps[i], #[trigger] ps[j])
}

/// A stop belongs to a walk from `root`.
spec fn rooted_at(s: Stop, root: Seq<char>) -> bool {
    if s.below.len() == 0 {
        s.path == root && s.is_dir
    } else {
        s.below.last() != '/' && s.path == joined(root, s.below)
    }
}

/// The paths of stops below where the walk began.
spec fn belows(ss: Seq<Stop>) -> Seq<Seq<char>> {
    Seq::new(ss.len(), |i: int| ss[i].below)
}

/// A walk from `root` has found these files, at `bs` below it, each of which passes the filter, and none of what is ahead is under
/// another or under one of them.
spec fn on_its_way(
    root: Seq<char>,
    needle: Seq<char>,
    ahead: Seq<Stop>,
    found: Seq<Seq<char>>,
    bs: Seq<Seq<char>>,
) -> bool {
    &&& bs.len() == found.len()
    &&& forall|i: int| 0 <= i < bs.len() ==> path_matches(#[trigger] bs[i], needle)
    &&& forall|i: int| 0 <= i < bs.len() ==> #[trigger] found[i] == joined(root, bs[i])
    &&& forall|i: int| 0 <= i < ahead.len() ==> rooted_at(#[trigger] ahead[i], root)
    &&& apart(bs + belows(ahead))
}

proof fn lemma_child_under(d: Seq<char>, name: Seq<char>, x: Seq<char>)
    requires
        is_file_name(name),
        d.len() > 0 ==> d.last() != '/',
        !under(x, d),
        !under(d, x),
    ensures
        !under(x, joined(d, name)),
        !under(joined(d, name), x),
{
    let c = joined(d, name);
    assert(c =~= d.push('/') + name);
    assert(c.subrange(0, (d.len() + 1) as int) =~= d.push('/'));
    if under(x, c) {
        if x == c {
            assert(x.subrange(0, (d.len() + 1) as int) =~= d.push('/'));
        } else {
            assert(x.subrange(0, (c.len() + 1) as int) == c.push('/'));
            assert(x.subrange(0, (d.len() + 1) as int) =~= d.push('/')) by {
                assert forall|i: int| 0 <= i < d.len() + 1 implies x[i] == d.push('/')[i] by {
                    assert(x.subrange(0, (c.len() + 1) as int)[i] == c.push('/')[i]);
                }
            }
        }
    }
    if under(c, x) {
        if c == x {
            assert(x.subrange(0, (d.len() + 1) as int) =~= d.push('/'));
        } else {
            let n = x.len() as int;
            assert(c.subrange(0, n + 1) == x.push('/'));
            assert(c[n] == '/') by {
                assert(c.subrange(0, n + 1)[n] == '/');
            }
            if n > d.len() {
                assert(c[n] == name[n - d.len() - 1]);
            }
            assert forall|i: int| 0 <= i < n implies x[i] == d[i] by {
                assert(c.subrange(0, n + 1)[i] == x.push('/')[i]);
            }
            if n == d.len() {
                assert(x =~= d);
            } else {
                assert(d.subrange(0, n + 1) =~= x.push('/')) by {
                    assert(d[n] == c[n]);
                }
            }
        }
    }
}

proof fn lemma_siblings_apart(d: Seq<char>, a: Seq<char>, b: Seq<char>)
    requires
        is_file_name(a),
        is_file_name(b),
        joined(d, a) != joined(d, b),
    ensures
        !under(joined(d, a), joined(d, b)),
{
    let (x, y) = (joined(d, a), joined(d, b));
    let n = x.len() - a.len();
    if y.push('/').is_prefix_of(x) {
        let k = y.len() as int;
        assert(x.subrange(0, k + 1)[k] == y.push('/')[k]);
        assert(x[k] == '/');
        assert(x[k] == a[k - n]);
    }
}

/// What is dropped from a list leaves the rest apart.
proof fn lemma_apart_without(a: Seq<Seq<char>>, x: Seq<char>, b: Seq<Seq<char>>)
    requires
        apart(a + seq![x] + b),
    ensures
        apart(a + b),
{
    let (all, left) = (a + seq![x] + b, a + b);
    let at = |i: int| if i < a.len() {
        i
    } else {
        i + 1
    };
    assert forall|i: int, j: int| 0 <= i < left.len() && 0 <= j < left.len() && i != j implies !under(
        #[trigger] left[i],
        #[trigger] left[j],
    ) by {
        assert(left[i] == all[at(i)] && left[j] == all[at(j)]);
    }
}

/// Files are found on the way to the next directory.
proof fn lemma_next_dir_on_its_way(
    root: Seq<char>,
    ahead: Seq<Stop>,
    needle: Seq<char>,
    limit: nat,
    found: Seq<Seq<char>>,
    bs: Seq<Seq<char>>,
) -> (r: Seq<Seq<char>>)
    requires
        on_its_way(root, needle, ahead, found, bs),
    ensures
        ({
            let (left, files) = next_dir(ahead, needle, limit, found);
            on_its_way(root, needle, left, files, r)
        }),
    decreases ahead.len(),
{
    if found.len() >= limit || ahead.len() == 0 || ahead[0].is_dir {
        bs
    } else {
        let (s, rest) = (ahead[0], ahead.skip(1));
        assert(rooted_at(s, root));
        assert forall|i: int| 0 <= i < rest.len() implies rooted_at(#[trigger] rest[i], root) by {
            assert(rest[i] == ahead[i + 1]);
        }
        assert(belows(ahead) =~= seq![s.below] + belows(rest));
        if path_matches(s.below, needle) {
            assert(bs + belows(ahead) =~= bs.push(s.below) + belows(rest));
            lemma_next_dir_on_its_way(root, rest, needle, limit, found.push(s.path), bs.push(s.below))
        } else {
            assert(bs + belows(ahead) =~= bs + seq![s.below] + belows(rest));
            lemma_apart_without(bs, s.below, belows(rest));
            lemma_next_dir_on_its_way(root, rest, needle, limit, found, bs)
        }
    }
}

/// A directory gives way to what is in it.
proof fn lemma_enter_on_its_way(
    root: Seq<char>,
    needle: Seq<char>,
    ahead: Seq<Stop>,
    found: Seq<Seq<char>>,
    bs: Seq<Seq<char>>,
    inside: Seq<Stop>,
)
    requires
        on_its_way(root, needle, ahead, found, bs),
        ahead.len() > 0,
        children(ahead[0], inside),
    ensures
        on_its_way(root, needle, inside + ahead.skip(1), found, bs),
{
    let (d, rest) = (ahead[0], ahead.skip(1));
    let next = inside + rest;
    assert(rooted_at(d, root));
    assert forall|i: int| 0 <= i < next.len() implies rooted_at(#[trigger] next[i], root) by {
        if i < inside.len() {
            assert(is_in(d, inside[i]));
            let name = choose|name: Seq<char>| #[trigger] is_child(d, inside[i], name);
            lemma_child_rooted(d, inside[i], name, root);
        } else {
            assert(next[i] == ahead[i - inside.len() + 1]);
        }
    }
    let old = bs + belows(ahead);
    let new = bs + belows(next);
    let k = bs.len() as int;
    let m = inside.len() as int;
    assert(old[k] == d.below);
    assert forall|i: int, j: int| 0 <= i < new.len() && 0 <= j < new.len() && i != j implies !under(
        #[trigger] new[i],
        #[trigger] new[j],
    ) by {
        let inner_i = k <= i < k + m;
        let inner_j = k <= j < k + m;
        let oi = if i < k {
            i
        } else {
            i - m + 1
        };
        let oj = if j < k {
            j
        } else {
            j - m + 1
        };
        if inner_i && inner_j {
            let (a, b) = (inside[i - k], inside[j - k]);
            assert(is_in(d, inside[i - k]) && is_in(d, inside[j - k]));
            let x = choose|name: Seq<char>| #[trigger] is_child(d, a, name);
            let y = choose|name: Seq<char>| #[trigger] is_child(d, b, name);
            if i < j {
                assert(inside[i - k].below != inside[j - k].below);
            } else {
                assert(inside[j - k].below != inside[i - k].below);
            }
            lemma_siblings_apart(d.below, x, y);
        } else if inner_i {
            assert(is_in(d, inside[i - k]));
            let x = choose|name: Seq<char>| #[trigger] is_child(d, inside[i - k], name);
            assert(new[j] == old[oj] && oj != k);
            assert(!under(old[oj], old[k]) && !under(old[k], old[oj]));
            lemma_child_under(d.below, x, new[j]);
        } else if inner_j {
            assert(is_in(d, inside[j - k]));
            let y = choose|name: Seq<char>| #[trigger] is_child(d, inside[j - k], name);
            assert(new[i] == old[oi] && oi != k);
            assert(!under(old[oi], old[k]) && !under(old[k], old[oi]));
            lemma_child_under(d.below, y, new[i]);
        } else {
            assert(new[i] == old[oi] && new[j] == old[oj]);
        }
    }
}

proof fn lemma_child_rooted(d: Stop, s: Stop, name: Seq<char>, root: Seq<char>)
    requires
        rooted_at(d, root),
        is_child(d, s, name),
    ensures
        rooted_at(s, root),
{
    assert(name.last() == name[name.len() - 1]);
    assert(s.below.last() == name.last());
    if d.below.len() > 0 {
        assert(d.path.last() == d.below.last());
        assert(s.path =~= joined(root, s.below));
    } else {
        assert(s.below =~= name);
    }
}

proof fn lemma_listing_on_its_way(
    tree: Contents,
    root: Seq<char>,
    needle: Seq<char>,
    limit: nat,
    rounds: nat,
) -> (bs: Seq<Seq<char>>)
    requires
        proper(tree),
    ensures
        ({
            let start = seq![Stop { path: root, below: Seq::empty(), is_dir: true }];
            let (left, found) = listing(tree, start, needle, limit, rounds);
            on_its_way(root, needle, left, found, bs)
        }),
    decreases rounds,
{
    let start = seq![Stop { path: root, below: Seq::empty(), is_dir: true }];
    if rounds == 0 {
        let none = Seq::<Seq<char>>::empty();
        assert((none + belows(start)).len() == 1);
        none
    } else {
        let m = (rounds - 1) as nat;
        let before = lemma_listing_on_its_way(tree, root, needle, limit, m);
        let (left, found) = listing(tree, start, needle, limit, m);
        let bs = lemma_next_dir_on_its_way(root, left, needle, limit, found, before);
        let (next, files) = next_dir(left, needle, limit, found);
        if !(files.len() >= limit || next.len() == 0) {
            assert(children(next[0], tree(next[0])));
            lemma_enter_on_its_way(root, needle, next, files, bs, tree(next[0]));
        }
        bs
    }
}

/// No path is listed twice, where each directory holds each name once.
pub proof fn no_path_is_listed_twice(tree: Contents, root: Seq<char>, needle: Seq<char>, limit: nat, rounds: nat)
    requires
        proper(tree),
    ensures
        listing(
            tree,
            seq![Stop { path: root, below: Seq::empty(), is_dir: true }],
            needle,
            limit,
            rounds,
        ).1.no_duplicates(),
{
    let start = seq![Stop { path: root, below: Seq::empty(), is_dir: true }];
    let bs = lemma_listing_on_its_way(tree, root, needle, limit, rounds);
    let (left, found) = listing(tree, start, needle, limit, rounds);
    let all = bs + belows(left);
    assert forall|i: int, j: int| 0 <= i < found.len() && 0 <= j < found.len() && i != j implies found[i]
        != found[j] by {
        assert(all[i] == bs[i] && all[j] == bs[j]);
        assert(!under(all[i], all[j]));
        lemma_joined_differ(root, bs[i], bs[j]);
    }
}

/// Every path that is listed is that of something below the root whose path there passes the filter.
pub proof fn listed_paths_match(
    tree: Contents,
    root: Seq<char>,
    needle: Seq<char>,
    limit: nat,
    rounds: nat,
    i: int,
)
    requires
        proper(tree),
        0 <= i < listing(
            tree,
            seq![Stop { path: root, below: Seq::empty(), is_dir: true }],
            needle,
            limit,
            rounds,
        ).1.len(),
    ensures
        exists|below: Seq<char>| #[trigger]
            path_matches(below, needle) && listing(
                tree,
                seq![Stop { path: root, below: Seq::empty(), is_dir: true }],
                needle,
                limit,
                rounds,
            ).1[i] == joined(root, below),
{
    let bs = lemma_listing_on_its_way(tree, root, needle, limit, rounds);
    assert(path_matches(bs[i], needle));
}

/// A file that is text and not binary is searched to its last line: each hit is of one of its lines that
/// holds the text, with the column of the match, no line gives two, and where there is room left every line
/// that holds the text gives one.
pub proof fn files_are_searched_whole(path: Seq<char>, bytes: Seq<u8>, needle: Seq<char>, room: nat)
    requires
        valid_utf8(bytes),
        forall|i: int| 0 <= i < bytes.len() && i < 8000 ==> #[trigger] bytes[i] != 0,
    ensures
        ({
            let ls = lines(decode_utf8(bytes));
            let found = file_hits(path, bytes, needle, room);
            &&& found.len() <= room
            &&& forall|k: int|
                0 <= k < found.len() ==> {
                    let h = #[trigger] found[k];
                    &&& 1 <= h.line <= ls.len()
                    &&& h.path == path
                    &&& occurrence(text_lower(ls[h.line - 1]), needle) is Some
                }
            &&& forall|j: int, k: int|
                0 <= j < k < found.len() ==> (#[trigger] found[j]).line < (#[trigger] found[k]).line
            &&& found.len() < room ==> forall|i: int|
                0 <= i < ls.len() && occurrence(#[trigger] text_lower(ls[i]), needle) is Some ==> exists|k: int|
                    0 <= k < found.len() && (#[trigger] found[k]).line == i + 1
        }),
{
    let ls = lines(decode_utf8(bytes));
    assert(!binary(bytes));
    hits_are_the_matching_lines(path, ls, needle, room, ls.len());
}

/// A file with a zero byte among its first is binary, and neither it nor one that is not text has hits.
pub proof fn binary_files_have_no_hits(path: Seq<char>, bytes: Seq<u8>, needle: Seq<char>, room: nat, i: int)
    requires
        !valid_utf8(bytes) || (0 <= i < bytes.len() && i < 8000 && bytes[i] == 0),
    ensures
        file_hits(path, bytes, needle, room).len() == 0,
{
}

/// Where there is less room, the first of the same hits are found.
pub proof fn less_room_finds_the_first_hits(
    path: Seq<char>,
    ls: Seq<Seq<char>>,
    needle: Seq<char>,
    small: nat,
    large: nat,
    n: nat,
)
    requires
        small <= large,
    ensures
        ({
            let (a, b) = (hits_in(path, ls, needle, small, n), hits_in(path, ls, needle, large, n));
            &&& a.len() <= b.len()
            &&& a == b.take(a.len() as int)
            &&& a.len() < small ==> a == b
        }),
    decreases n,
{
    if n > 0 {
        less_room_finds_the_first_hits(path, ls, needle, small, large, (n - 1) as nat);
    }
    let (a, b) = (hits_in(path, ls, needle, small, n), hits_in(path, ls, needle, large, n));
    if n == 0 {
        assert(a =~= b.take(0));
    } else {
        let (c, d) = (
            hits_in(path, ls, needle, small, (n - 1) as nat),
            hits_in(path, ls, needle, large, (n - 1) as nat),
        );
        assert(forall|k: int| 0 <= k < d.len() ==> b[k] == d[k]);
        assert(a =~= b.take(a.len() as int));
        if a.len() < small {
            assert(a =~= b);
        }
    }
}

/// How many characters the first `n` lower cases take.
pub open spec fn sum_to(sizes: Seq<nat>, n: nat) -> nat
    decreases n,
{
    if n == 0 {
        0
    } else {
        sum_to(sizes, (n - 1) as nat) + sizes[n - 1]
    }
}

proof fn lemma_sum_shift(sizes: Seq<nat>, n: nat)
    requires
        0 < n <= sizes.len(),
    ensures
        sum_to(sizes, n) == sizes[0] + sum_to(sizes.skip(1), (n - 1) as nat),
    decreases n,
{
    if n > 1 {
        lemma_sum_shift(sizes, (n - 1) as nat);
        assert(sizes.skip(1)[n - 2] == sizes[n - 1]);
    } else {
        assert(sum_to(sizes, 0) == 0);
        assert(sum_to(sizes.skip(1), 0) == 0);
    }
}

/// The column of a hit counts the characters that stand before the match: their lower cases end before it
/// or where it begins, and that of the next character further on.
pub proof fn columns_stand_before_the_match(sizes: Seq<nat>, offset: nat)
    ensures
        ({
            let col = chars_before(sizes, offset);
            &&& col <= sizes.len()
            &&& sum_to(sizes, col) <= offset
            &&& col < sizes.len() ==> offset < sum_to(sizes, col + 1)
        }),
    decreases sizes.len(),
{
    let col = chars_before(sizes, offset);
    if sizes.len() == 0 || sizes[0] > offset {
        assert(sum_to(sizes, 0) == 0);
        if sizes.len() > 0 {
            assert(sum_to(sizes, 1) == sum_to(sizes, 0) + sizes[0]);
        }
    } else {
        columns_stand_before_the_match(sizes.skip(1), (offset - sizes[0]) as nat);
        lemma_sum_shift(sizes, col);
        if col < sizes.len() {
            lemma_sum_shift(sizes, col + 1);
        }
    }
}

/// What is shown of a line is its text from the first character on that is not white: all of it where it
/// takes at most 120 bytes, and else at most 120 characters of it and an ellipsis.
pub proof fn lines_are_shown_from_their_text(line: Seq<char>, blank: nat)
    requires
        blank <= line.len(),
        forall|i: int| 0 <= i < blank ==> is_white(#[trigger] line[i]),
        blank < line.len() ==> !is_white(line[blank as int]),
    ensures
        ({
            let t = line.skip(blank as int);
            &&& byte_len(t) <= 120 ==> shown(line) == t
            &&& byte_len(t) > 120 ==> {
                &&& shown(line).last() == '\u{2026}'
                &&& shown(line).len() <= 121
                &&& shown(line).drop_last().is_prefix_of(t)
                &&& t.len() >= 120 ==> shown(line).len() == 121
            }
        }),
{
    let t = line.skip(blank as int);
    lemma_skips_white(line, blank);
    lemma_chars_in_bytes(t);
    if byte_len(t) <= 120 {
    } else {
        let head = if t.len() > SHOWN {
            t.take(SHOWN as int)
        } else {
            t
        };
        assert(shown(line) == head.push('\u{2026}'));
        assert(shown(line).drop_last() =~= head);
        assert(head =~= t.subrange(0, head.len() as int));
    }
}

proof fn lemma_chars_in_bytes(s: Seq<char>)
    ensures
        s.len() <= byte_len(s),
    decreases s.len(),
{
    if s.len() > 0 {
        lemma_chars_in_bytes(s.drop_last());
    }
}

proof fn lemma_skips_white(line: Seq<char>, blank: nat)
    requires
        blank <= line.len(),
        forall|i: int| 0 <= i < blank ==> is_white(#[trigger] line[i]),
        blank < line.len() ==> !is_white(line[blank as int]),
    ensures
        trimmed_start(line) == line.skip(blank as int),
    decreases blank,
{
    if blank > 0 {
        let t = line.skip(1);
        assert(is_white(line[0]));
        assert forall|i: int| 0 <= i < blank - 1 implies is_white(#[trigger] t[i]) by {
            assert(t[i] == line[i + 1]);
        }
        lemma_skips_white(t, (blank - 1) as nat);
        assert(t.skip(blank - 1) =~= line.skip(blank as int));
    } else {
        assert(line.skip(0) =~= line);
    }
}

/// Hidden directories and those that are known to hold what was generated or fetched are passed over, hidden
/// files too, and nothing else: what a walk goes to in a directory is every other thing in it, once.
pub proof fn walks_miss_nothing(dir: Stop, items: Seq<Item>, stops: Seq<Stop>, i: int)
    requires
        holds(dir, items, stops),
        0 <= i < items.len() <= usize::MAX,
        items[i].is_dir ==> !dir_skipped(items[i].name@),
        !items[i].is_dir ==> !file_skipped(items[i].name@),
    ensures
        stops.contains(
            Stop {
                path: joined(dir.path, items[i].name@),
                below: joined(dir.below, items[i].name@),
                is_dir: items[i].is_dir,
            },
        ),
{
    let order = choose|order: Seq<usize>|
        {
            &&& places(order, items.len() as int)
            &&& in_order(order, by_name(item_names(items)))
            &&& stops == #[trigger] stops_in(dir, items, order, order.len())
        };
    lemma_places_all(order, items.len() as int);
    assert(order.contains(i as usize));
    let k = choose|k: int| 0 <= k < order.len() && order[k] == i as usize;
    lemma_stop_is_there(dir, items, order, k, order.len());
}

proof fn lemma_stop_is_there(dir: Stop, items: Seq<Item>, order: Seq<usize>, k: int, n: nat)
    requires
        0 <= k < n <= order.len(),
        items[order[k] as int].is_dir ==> !dir_skipped(items[order[k] as int].name@),
        !items[order[k] as int].is_dir ==> !file_skipped(items[order[k] as int].name@),
    ensures
        stops_in(dir, items, order, n).contains(
            Stop {
                path: joined(dir.path, items[order[k] as int].name@),
                below: joined(dir.below, items[order[k] as int].name@),
                is_dir: items[order[k] as int].is_dir,
            },
        ),
    decreases n,
{
    let now = stops_in(dir, items, order, n);
    let before = stops_in(dir, items, order, (n - 1) as nat);
    let item = items[order[k] as int];
    let stop = Stop {
        path: joined(dir.path, item.name@),
        below: joined(dir.below, item.name@),
        is_dir: item.is_dir,
    };
    if k == n - 1 {
        assert(now[before.len() as int] == stop);
    } else {
        lemma_stop_is_there(dir, items, order, k, (n - 1) as nat);
        let j = choose|j: int| 0 <= j < before.len() && before[j] == stop;
        assert(now[j] == stop);
    }
}

/// What is passed over is hidden, or a directory of one of six names.
pub proof fn only_noise_is_passed_over(name: Seq<char>)
    ensures
        name.len() > 0 && name[0] == '.' ==> dir_skipped(name) && file_skipped(name),
        file_skipped(name) ==> name.len() > 0 && name[0] == '.',
        dir_skipped("target"@) && dir_skipped("node_modules"@) && dir_skipped("dist"@) && dir_skipped("build"@),
        dir_skipped(name) ==> (name.len() > 0 && name[0] == '.') || name == "target"@ || name
            == "node_modules"@ || name == "dist"@ || name == "build"@,
{
    reveal_strlit(".git");
    reveal_strlit(".cargo");
}

} // verus!
