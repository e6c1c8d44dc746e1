//! Commands, and finding them by a few of their letters.

use vstd::prelude::*;
use vstd::utf8::is_ascii_chars;
use crate::case::{ascii_folded, ascii_lower, char_lower, fold, folded};
use crate::order::{highest_first, in_order, lemma_insert, lemma_places_all, places};
use crate::text::{chars_of, is_white, lemma_trimmed_start, same, texts, trim, trimmed, trimmed_end, trimmed_start};

verus! {

/// An action that can be invoked.
#[derive(Clone, Copy, Debug)]
pub struct Command {
    /// The name it is dispatched by.
    pub id: &'static str,
    /// The label shown for it.
    pub title: &'static str,
    /// The chord shown for it, empty where it has none.
    pub keybinding: &'static str,
}

/// `s` without its white space.
pub open spec fn without_white(s: Seq<char>) -> Seq<char>
    decreases s.len(),
{
    if s.len() == 0 {
        Seq::empty()
    } else if is_white(s.last()) {
        without_white(s.drop_last())
    } else {
        without_white(s.drop_last()).push(s.last())
    }
}

/// Where `c` stands in `s` at `from` or later; the length of `s` where it does not.
pub open spec fn next_at(s: Seq<char>, from: int, c: char) -> int
    decreases s.len() - from,
{
    if from >= s.len() {
        s.len() as int
    } else if s[from] == c {
        from
    } else {
        next_at(s, from + 1, c)
    }
}

/// What a match at `p` earns for its place: most at the very start, some behind a
/// character that words begin after.
pub open spec fn place_bonus(hay: Seq<char>, p: int) -> int {
    if p == 0 {
        6
    } else {
        let prev = hay[p - 1];
        if prev == ' ' || prev == ':' || prev == '.' || prev == '_' || prev == '-' {
            4
        } else {
            0
        }
    }
}

/// The score of matching `need`, each character at the first place left for it, from
/// `from` on, where the match before stood just before `from` at the end of a run of
/// `run` further characters. `None` where some character finds no place.
pub open spec fn score_from(hay: Seq<char>, need: Seq<char>, from: int, run: int) -> Option<int>
    decreases need.len(),
{
    if need.len() == 0 {
        Some(0)
    } else {
        let p = next_at(hay, from, need[0]);
        let r = if from > 0 && p == from {
            run + 1
        } else {
            0
        };
        if p >= hay.len() {
            None
        } else {
            match score_from(hay, need.skip(1), p + 1, r) {
                Some(s) => Some(1 + place_bonus(hay, p) + 2 * r + s),
                None => None,
            }
        }
    }
}

/// The score of a needle in a haystack, both in lower case.
pub open spec fn score(hay: Seq<char>, need: Seq<char>) -> Option<int> {
    score_from(hay, need, 0, 0)
}

/// The most characters that can be matched for the score to fit in 32 bits whatever they are.
pub const MATCH_MAX: usize = 46_338;

/// The needle or the haystack is short enough for the score to fit in 32 bits.
pub open spec fn score_fits(hay: Seq<char>, need: Seq<char>) -> bool {
    need.len() <= MATCH_MAX || hay.len() <= MATCH_MAX
}

pub proof fn lemma_next_at(s: Seq<char>, from: int, c: char)
    requires
        0 <= from <= s.len(),
    ensures
        from <= next_at(s, from, c) <= s.len(),
        next_at(s, from, c) < s.len() ==> s[next_at(s, from, c)] == c,
        forall|i: int| from <= i < next_at(s, from, c) ==> s[i] != c,
    decreases s.len() - from,
{
    if from < s.len() && s[from] != c {
        lemma_next_at(s, from + 1, c);
    }
}

proof fn lemma_score_bounds(hay: Seq<char>, need: Seq<char>, from: int, run: int)
    requires
        0 <= from <= hay.len(),
        0 <= run,
    ensures
        score_from(hay, need, from, run) matches Some(s) ==> {
            let m = need.len() as int;
            &&& m <= s
            &&& m <= hay.len() - from
            &&& from > 0 ==> s <= m * m + 2 * (m * run) + 6 * m
            &&& from == 0 ==> s <= m * m + 4 * m + 2
        },
    decreases need.len(),
{
    let m = need.len() as int;
    if m > 0 {
        let p = next_at(hay, from, need[0]);
        lemma_next_at(hay, from, need[0]);
        let r = if from > 0 && p == from {
            run + 1
        } else {
            0
        };
        if p < hay.len() {
            lemma_score_bounds(hay, need.skip(1), p + 1, r);
            assert((m - 1) * (m - 1) == m * m - 2 * m + 1) by (nonlinear_arith);
            assert((m - 1) * r == m * r - r) by (nonlinear_arith);
            assert(r == run + 1 ==> m * r == m * run + m) by (nonlinear_arith);
            assert(m * run >= 0) by (nonlinear_arith)
                requires
                    m > 0,
                    run >= 0,
            ;
            assert(r == 0 ==> m * r == 0) by (nonlinear_arith);
        }
    }
}

/// A score is at least the length of the needle, and no more than its square, four times its length
/// and two. An empty needle scores 0, and one longer than the haystack has no score.
pub proof fn scores_are_bounded(hay: Seq<char>, need: Seq<char>)
    ensures
        need.len() == 0 ==> score(hay, need) == Some(0int),
        need.len() > hay.len() ==> score(hay, need) is None,
        score(hay, need) matches Some(s) ==> need.len() <= s <= need.len() * need.len() + 4 * need.len() + 2,
        score_fits(hay, need) ==> (score(hay, need) matches Some(s) ==> s <= i32::MAX),
{
    lemma_score_bounds(hay, need, 0, 0);
    let m = need.len() as int;
    if m <= MATCH_MAX {
        assert(m * m <= 46_338 * 46_338) by (nonlinear_arith)
            requires
                0 <= m <= 46_338,
        ;
    }
}

/// A score of any size, in two parts.
struct WideScore {
    high: u128,
    low: u64,
}

impl WideScore {
    closed spec fn value(self) -> int {
        self.high * 0x1_0000_0000_0000_0000 + self.low
    }

    /// Whether the score is no less than another.
    fn reaches(&self, other: &WideScore) -> (r: bool)
        ensures
            r == (self.value() >= other.value()),
    {
        self.high > other.high || (self.high == other.high && self.low >= other.low)
    }
}

/// The scores as numbers.
closed spec fn score_values(v: Seq<WideScore>) -> Seq<int> {
    Seq::new(v.len(), |i: int| v[i].value())
}

/// Scores `need` in `hay`, both in lower case.
fn score_wide(hay: &[char], need: &[char]) -> (r: Option<WideScore>)
    ensures
        match r {
            Some(w) => score(hay@, need@) == Some(w.value()),
            None => score(hay@, need@) is None,
        },
{
    let mut hi: usize = 0;
    let mut high: u128 = 0;
    let mut low: u64 = 0;
    let mut run: u128 = 0;
    let mut k: usize = 0;
    assert(need@.skip(0) =~= need@);
    while k < need.len()
        invariant
            k <= need@.len(),
            hi <= hay@.len(),
            0 <= run <= k,
            high <= 3 * k,
            hi == 0 <==> k == 0,
            (match score_from(hay@, need@.skip(k as int), hi as int, run as int) {
                Some(s) => Some((high * 0x1_0000_0000_0000_0000 + low) + s),
                None => None,
            }) == score(hay@, need@),
        decreases need@.len() - k,
    {
        let nc = need[k];
        let ghost rest = need@.skip(k as int);
        let from: usize = hi;
        proof {
            lemma_next_at(hay@, from as int, nc);
        }
        while hi < hay.len() && hay[hi] != nc
            invariant
                from <= hi <= hay@.len(),
                next_at(hay@, hi as int, nc) == next_at(hay@, from as int, nc),
            decreases hay@.len() - hi,
        {
            hi += 1;
        }
        if hi == hay.len() {
            return None;
        }
        assert(rest[0] == nc);
        assert(rest.skip(1) =~= need@.skip(k + 1));
        let place: u128 = if hi == 0 {
            6
        } else {
            let prev = hay[hi - 1];
            if prev == ' ' || prev == ':' || prev == '.' || prev == '_' || prev == '-' {
                4
            } else {
                0
            }
        };
        if from > 0 && hi == from {
            run = run + 1;
        } else {
            run = 0;
        }
        let sum: u128 = low as u128 + 1 + place + run * 2;
        high = high + sum / 0x1_0000_0000_0000_0000;
        low = (sum % 0x1_0000_0000_0000_0000) as u64;
        hi += 1;
        k += 1;
    }
    assert(need@.skip(k as int).len() == 0);
    Some(WideScore { high, low })
}

/// Scores `need` in `hay`, both in lower case.
pub fn score_chars(hay: &[char], need: &[char]) -> (r: Option<i32>)
    requires
        score_fits(hay@, need@),
    ensures
        match r {
            Some(n) => score(hay@, need@) == Some(n as int),
            None => score(hay@, need@) is None,
        },
{
    proof {
        scores_are_bounded(hay@, need@);
    }
    match score_wide(hay, need) {
        Some(w) => Some(w.low as i32),
        None => None,
    }
}

/// The characters of a needle that count: in lower case, without white space.
pub open spec fn needle(s: Seq<char>) -> Seq<char> {
    without_white(folded(s))
}

/// The characters of an ASCII needle that count.
pub open spec fn ascii_needle(s: Seq<char>) -> Seq<char> {
    without_white(ascii_folded(s))
}

/// What is blank is white space throughout.
proof fn lemma_blank(s: Seq<char>)
    requires
        trimmed(s).len() == 0,
    ensures
        forall|i: int| 0 <= i < s.len() ==> is_white(#[trigger] s[i]),
    decreases s.len(),
{
    lemma_trimmed_start(s);
    let t = trimmed_start(s);
    if t.len() > 0 {
        lemma_trimmed_end_keeps(t);
    }
    if s.len() > 0 && is_white(s[0]) {
        lemma_blank(s.skip(1));
        assert forall|i: int| 0 <= i < s.len() implies is_white(#[trigger] s[i]) by {
            if i > 0 {
                assert(s[i] == s.skip(1)[i - 1]);
            }
        }
    }
}

/// What begins with something else than white space keeps that.
proof fn lemma_trimmed_end_keeps(s: Seq<char>)
    requires
        s.len() > 0,
        !is_white(s[0]),
    ensures
        trimmed_end(s).len() > 0,
    decreases s.len(),
{
    if is_white(s.last()) {
        lemma_trimmed_end_keeps(s.drop_last());
    }
}

proof fn lemma_all_white(s: Seq<char>)
    requires
        forall|i: int| 0 <= i < s.len() ==> is_white(#[trigger] s[i]),
    ensures
        without_white(s) == Seq::<char>::empty(),
    decreases s.len(),
{
    if s.len() > 0 {
        assert(is_white(s[s.len() - 1]));
        assert forall|i: int| 0 <= i < s.len() - 1 implies is_white(#[trigger] s.drop_last()[i]) by {
            assert(is_white(s[i]));
        }
        lemma_all_white(s.drop_last());
    }
}

proof fn lemma_without_white_len(s: Seq<char>)
    ensures
        without_white(s).len() <= s.len(),
    decreases s.len(),
{
    if s.len() > 0 {
        lemma_without_white_len(s.drop_last());
    }
}

fn fold_needle(s: &str) -> (r: Vec<char>)
    ensures
        r@ == needle(s@),
        is_ascii_chars(s@) ==> needle(s@) == ascii_needle(s@),
        is_ascii_chars(s@) ==> needle(s@).len() <= s@.len(),
        trimmed(s@).len() == 0 ==> needle(s@).len() == 0,
{
    proof {
        lemma_without_white_len(ascii_folded(s@));
    }
    let cs = fold(s);
    let mut out: Vec<char> = Vec::new();
    for i in 0..cs.len()
        invariant
            out@ == without_white(cs@.take(i as int)),
    {
        assert(cs@.take(i + 1).drop_last() =~= cs@.take(i as int));
        if !cs[i].is_whitespace() {
            out.push(cs[i]);
        }
    }
    assert(cs@.take(cs@.len() as int) =~= cs@);
    proof {
        if trimmed(s@).len() == 0 {
            lemma_blank(s@);
            assert forall|i: int| 0 <= i < s@.len() && is_white(#[trigger] s@[i]) implies without_white(
                char_lower(s@[i]),
            ).len() == 0 by {
                let one = seq![s@[i]];
                assert(one.drop_last() =~= Seq::<char>::empty());
                assert(without_white(Seq::<char>::empty()) == Seq::<char>::empty());
                assert(without_white(one) == Seq::<char>::empty());
            }
            lemma_needle_without_white(s@);
            lemma_all_white(s@);
            assert(folded(Seq::<char>::empty()) =~= Seq::<char>::empty());
        }
    }
    out
}

/// An ASCII text is short enough for a score to fit in 32 bits.
pub open spec fn short_ascii(s: Seq<char>) -> bool {
    is_ascii_chars(s) && s.len() <= MATCH_MAX
}

/// One of two texts is short enough, in lower case, for the score to fit in 32 bits.
pub open spec fn texts_fit(haystack: Seq<char>, needle: Seq<char>) -> bool {
    short_ascii(haystack) || short_ascii(needle) || score_fits(folded(haystack), self::needle(needle))
}

/// How well `needle` matches `haystack` as a subsequence of its characters, case and
/// white space aside; `None` where it is none. Higher is better: a match earns a bonus
/// at the start, behind a space or one of `: . _ -`, and for each further character of
/// an unbroken run.
pub fn fuzzy_score(haystack: &str, needle: &str) -> (r: Option<i32>)
    requires
        texts_fit(haystack@, needle@),
    ensures
        match r {
            Some(n) => score(folded(haystack@), self::needle(needle@)) == Some(n as int),
            None => score(folded(haystack@), self::needle(needle@)) is None,
        },
        is_ascii_chars(haystack@) ==> folded(haystack@) == ascii_folded(haystack@),
        is_ascii_chars(needle@) ==> self::needle(needle@) == ascii_needle(needle@),
{
    let need = fold_needle(needle);
    let hay = fold(haystack);
    score_chars(&hay, &need)
}

/// [`fuzzy_score`] for any texts; `None` where both are so long that the score might not fit in 32
/// bits.
pub fn try_fuzzy_score(haystack: &str, needle: &str) -> (r: Option<Option<i32>>)
    ensures
        match r {
            Some(Some(n)) => score(folded(haystack@), self::needle(needle@)) == Some(n as int),
            Some(None) => score(folded(haystack@), self::needle(needle@)) is None,
            None => true,
        },
        r is None <==> !texts_fit(haystack@, needle@),
{
    if fold_needle(needle).len() <= MATCH_MAX || fold(haystack).len() <= MATCH_MAX {
        Some(fuzzy_score(haystack, needle))
    } else {
        None
    }
}

/// Two texts are the same but for the case of their letters.
pub open spec fn same_but_for_case(a: Seq<char>, b: Seq<char>) -> bool {
    a.len() == b.len() && forall|i: int| 0 <= i < a.len() ==> char_lower(#[trigger] a[i]) == char_lower(b[i])
}

proof fn lemma_folded_alike(a: Seq<char>, b: Seq<char>)
    requires
        same_but_for_case(a, b),
    ensures
        folded(a) == folded(b),
    decreases a.len(),
{
    if a.len() > 0 {
        assert forall|i: int| 0 <= i < a.len() - 1 implies char_lower(#[trigger] a.drop_last()[i])
            == char_lower(b.drop_last()[i]) by {
            assert(char_lower(a[i]) == char_lower(b[i]));
        }
        lemma_folded_alike(a.drop_last(), b.drop_last());
        assert(char_lower(a[a.len() - 1]) == char_lower(b[b.len() - 1]));
    }
}

/// The case of letters does not count, neither in the haystack nor in the needle.
pub proof fn case_does_not_count(hay: Seq<char>, hay2: Seq<char>, need: Seq<char>, need2: Seq<char>)
    requires
        same_but_for_case(hay, hay2),
        same_but_for_case(need, need2),
    ensures
        score(folded(hay), needle(need)) == score(folded(hay2), needle(need2)),
{
    lemma_folded_alike(hay, hay2);
    lemma_folded_alike(need, need2);
}

/// The case of ASCII letters does not count, nor does white space in an ASCII needle.
pub proof fn ascii_case_and_white_do_not_count(hay: Seq<char>, hay2: Seq<char>, need: Seq<char>, need2: Seq<char>)
    requires
        ascii_folded(hay) == ascii_folded(hay2),
        need2 == without_white(ascii_folded(need)),
    ensures
        score(ascii_folded(hay), ascii_needle(need)) == score(ascii_folded(hay2), ascii_needle(need2)),
{
    let n = ascii_folded(need);
    lemma_without_white_twice(n);
    assert forall|i: int| 0 <= i < need2.len() implies ascii_lower(#[trigger] need2[i]) == need2[i] by {
        lemma_without_white_from(n, i);
    }
    assert(ascii_folded(need2) =~= need2);
}

proof fn lemma_without_white_from(s: Seq<char>, i: int)
    requires
        0 <= i < without_white(s).len(),
    ensures
        s.contains(without_white(s)[i]),
        !is_white(without_white(s)[i]),
    decreases s.len(),
{
    if s.len() > 0 {
        let front = s.drop_last();
        if i < without_white(front).len() {
            lemma_without_white_from(front, i);
            let k = choose|k: int| 0 <= k < front.len() && front[k] == without_white(front)[i];
            assert(s[k] == without_white(s)[i]);
        } else {
            assert(s[s.len() - 1] == without_white(s)[i]);
        }
    }
}

proof fn lemma_solid(s: Seq<char>)
    requires
        forall|i: int| 0 <= i < s.len() ==> !is_white(#[trigger] s[i]),
    ensures
        without_white(s) == s,
    decreases s.len(),
{
    if s.len() > 0 {
        assert forall|i: int| 0 <= i < s.len() - 1 implies !is_white(#[trigger] s.drop_last()[i]) by {
            assert(s.drop_last()[i] == s[i]);
        }
        lemma_solid(s.drop_last());
        assert(s[s.len() - 1] == s.last());
        assert(s.drop_last().push(s.last()) =~= s);
    } else {
        assert(s =~= Seq::<char>::empty());
    }
}

/// Taking white space out twice is taking it out once.
proof fn lemma_without_white_twice(s: Seq<char>)
    ensures
        without_white(without_white(s)) == without_white(s),
{
    let t = without_white(s);
    assert forall|i: int| 0 <= i < t.len() implies !is_white(#[trigger] t[i]) by {
        lemma_without_white_from(s, i);
    }
    lemma_solid(t);
}

proof fn lemma_without_white_join(a: Seq<char>, b: Seq<char>)
    ensures
        without_white(a + b) == without_white(a) + without_white(b),
    decreases b.len(),
{
    if b.len() == 0 {
        assert(a + b =~= a);
        assert(without_white(a) + without_white(b) =~= without_white(a));
    } else {
        lemma_without_white_join(a, b.drop_last());
        assert((a + b).drop_last() =~= a + b.drop_last());
        assert((a + b).last() == b.last());
        if !is_white(b.last()) {
            assert((without_white(a) + without_white(b.drop_last())).push(b.last()) =~= without_white(a) + (
            without_white(b.drop_last()).push(b.last())));
        }
    }
}

proof fn lemma_needle_without_white(need: Seq<char>)
    requires
        forall|i: int|
            0 <= i < need.len() && is_white(#[trigger] need[i]) ==> without_white(char_lower(need[i])).len()
                == 0,
    ensures
        needle(without_white(need)) == needle(need),
    decreases need.len(),
{
    if need.len() > 0 {
        let front = need.drop_last();
        assert forall|i: int| 0 <= i < front.len() && is_white(#[trigger] front[i]) implies without_white(
            char_lower(front[i]),
        ).len() == 0 by {
            assert(need[i] == front[i]);
        }
        lemma_needle_without_white(front);
        lemma_without_white_join(folded(front), char_lower(need.last()));
        if is_white(need.last()) {
            assert(need[need.len() - 1] == need.last());
            assert(needle(need) =~= needle(front));
        } else {
            let kept = without_white(front).push(need.last());
            assert(kept.drop_last() =~= without_white(front));
            lemma_without_white_join(folded(without_white(front)), char_lower(need.last()));
        }
    }
}

/// White space in the needle does not count, where white space is white space in lower case too.
pub proof fn white_space_does_not_count(hay: Seq<char>, need: Seq<char>)
    requires
        forall|i: int|
            0 <= i < need.len() && is_white(#[trigger] need[i]) ==> without_white(char_lower(need[i])).len()
                == 0,
    ensures
        score(folded(hay), needle(without_white(need))) == score(folded(hay), needle(need)),
{
    lemma_needle_without_white(need);
}

/// `at` picks out the characters of `need` in `hay`, in order.
pub open spec fn embeds(hay: Seq<char>, need: Seq<char>, at: Seq<int>) -> bool {
    &&& at.len() == need.len()
    &&& forall|i: int| 0 <= i < at.len() ==> 0 <= #[trigger] at[i] < hay.len() && hay[at[i]] == need[i]
    &&& forall|i: int, j: int| 0 <= i < j < at.len() ==> #[trigger] at[i] < #[trigger] at[j]
}

proof fn lemma_score_embeds(hay: Seq<char>, need: Seq<char>, from: int, run: int) -> (at: Seq<int>)
    requires
        0 <= from <= hay.len(),
        score_from(hay, need, from, run) is Some,
    ensures
        embeds(hay, need, at),
        forall|i: int| 0 <= i < at.len() ==> from <= #[trigger] at[i],
    decreases need.len(),
{
    if need.len() == 0 {
        Seq::empty()
    } else {
        let p = next_at(hay, from, need[0]);
        lemma_next_at(hay, from, need[0]);
        let r = if from > 0 && p == from {
            run + 1
        } else {
            0
        };
        let rest = lemma_score_embeds(hay, need.skip(1), p + 1, r);
        let at = seq![p] + rest;
        assert forall|i: int| 0 <= i < at.len() implies 0 <= #[trigger] at[i] < hay.len() && hay[at[i]]
            == need[i] && from <= at[i] by {
            if i > 0 {
                assert(at[i] == rest[i - 1]);
                assert(need[i] == need.skip(1)[i - 1]);
            }
        }
        assert forall|i: int, j: int| 0 <= i < j < at.len() implies #[trigger] at[i] < #[trigger] at[j] by {
            assert(at[j] == rest[j - 1]);
            if i > 0 {
                assert(at[i] == rest[i - 1]);
            }
        }
        at
    }
}

proof fn lemma_embeds_score(hay: Seq<char>, need: Seq<char>, from: int, run: int, at: Seq<int>)
    requires
        0 <= from <= hay.len(),
        embeds(hay, need, at),
        forall|i: int| 0 <= i < at.len() ==> from <= #[trigger] at[i],
    ensures
        score_from(hay, need, from, run) is Some,
    decreases need.len(),
{
    if need.len() > 0 {
        let p = next_at(hay, from, need[0]);
        lemma_next_at(hay, from, need[0]);
        let r = if from > 0 && p == from {
            run + 1
        } else {
            0
        };
        assert(at[0] >= from);
        assert(p <= at[0]);
        let rest = at.skip(1);
        assert forall|i: int| 0 <= i < rest.len() implies p + 1 <= #[trigger] rest[i] by {
            assert(rest[i] == at[i + 1]);
            assert(at[0] < at[i + 1]);
        }
        assert(embeds(hay, need.skip(1), rest)) by {
            assert forall|i: int| 0 <= i < rest.len() implies 0 <= #[trigger] rest[i] < hay.len()
                && hay[rest[i]] == need.skip(1)[i] by {
                assert(rest[i] == at[i + 1]);
            }
            assert forall|i: int, j: int| 0 <= i < j < rest.len() implies #[trigger] rest[i]
                < #[trigger] rest[j] by {
                assert(rest[i] == at[i + 1] && rest[j] == at[j + 1]);
            }
        }
        lemma_embeds_score(hay, need.skip(1), p + 1, r, rest);
    }
}

/// There is a score exactly where the needle is a subsequence of the haystack: taking the
/// first place left for each character misses no match.
pub proof fn scored_iff_subsequence(hay: Seq<char>, need: Seq<char>)
    ensures
        score(hay, need) is Some <==> exists|at: Seq<int>| embeds(hay, need, at),
{
    if score(hay, need) is Some {
        let at = lemma_score_embeds(hay, need, 0, 0);
        assert(embeds(hay, need, at));
    }
    if exists|at: Seq<int>| embeds(hay, need, at) {
        let at = choose|at: Seq<int>| embeds(hay, need, at);
        lemma_embeds_score(hay, need, 0, 0, at);
    }
}

/// The commands, in the order in which they were registered.
pub struct CommandRegistry {
    commands: Vec<Command>,
}

impl View for CommandRegistry {
    type V = Seq<Command>;

    closed spec fn view(&self) -> Seq<Command> {
        self.commands@
    }
}

/// The score of a title for a query.
pub open spec fn title_score(titles: Seq<Seq<char>>, query: Seq<char>, i: int) -> Option<int> {
    score(folded(titles[i]), needle(query))
}

/// `r` lists the titles that match a query, the best score first, equal scores as they stand.
pub open spec fn ranked(r: Seq<usize>, titles: Seq<Seq<char>>, query: Seq<char>) -> bool {
    &&& r.no_duplicates()
    &&& forall|k: int| 0 <= k < r.len() ==> #[trigger] r[k] < titles.len()
    &&& forall|i: usize|
        i < titles.len() ==> (#[trigger] r.contains(i) <==> title_score(titles, query, i as int) is Some)
    &&& forall|a: int, b: int|
        0 <= a < b < r.len() ==> {
            let x = title_score(titles, query, #[trigger] r[a] as int)->0;
            let y = title_score(titles, query, #[trigger] r[b] as int)->0;
            x > y || (x == y && r[a] < r[b])
        }
}

/// `r` lists what a query shows: everything as it stands where it is blank, else what matches it.
pub open spec fn listed(r: Seq<usize>, titles: Seq<Seq<char>>, query: Seq<char>) -> bool {
    if trimmed(query).len() == 0 {
        r == Seq::new(titles.len(), |i: int| i as usize)
    } else {
        ranked(r, titles, query)
    }
}

/// The places of `scores`, highest first.
fn order_scores(scores: &Vec<WideScore>) -> (r: Vec<usize>)
    ensures
        places(r@, scores@.len() as int),
        in_order(r@, highest_first(score_values(scores@))),
{
    let mut out: Vec<usize> = Vec::new();
    let ghost before = highest_first(score_values(scores@));
    for n in 0..scores.len()
        invariant
            places(out@, n as int),
            before == highest_first(score_values(scores@)),
            in_order(out@, before),
            n <= scores@.len(),
    {
        let mut p: usize = 0;
        while p < out.len() && scores[out[p]].reaches(&scores[n])
            invariant
                n < scores@.len(),
                places(out@, n as int),
                p <= out.len(),
                before == highest_first(score_values(scores@)),
                forall|a: int| 0 <= a < p ==> before(#[trigger] out@[a] as int, n as int),
            decreases out.len() - p,
        {
            p += 1;
        }
        assert forall|a: int| p <= a < out@.len() implies before(n as int, #[trigger] out@[a] as int) by {
            if a > p {
                assert(before(out@[p as int] as int, out@[a] as int));
            }
        }
        proof {
            lemma_insert(out@, n, p as int, before);
        }
        out.insert(p, n);
    }
    out
}

/// Lists the places of the titles that `query` shows.
pub fn rank_titles(titles: &Vec<String>, query: &str) -> (r: Vec<usize>)
    ensures
        listed(r@, texts(titles@), query@),
        ranked(r@, texts(titles@), query@),
        forall|k: int| 0 <= k < r@.len() ==> #[trigger] r@[k] < titles@.len(),
{
    let n = titles.len();
    let need = fold_needle(query);
    if trim(&chars_of(query)).len() == 0 {
        let mut all: Vec<usize> = Vec::new();
        for i in 0..n
            invariant
                all@ == Seq::new(i as nat, |i: int| i as usize),
        {
            all.push(i);
            assert(all@ =~= Seq::new((i + 1) as nat, |i: int| i as usize));
        }
        proof {
            let ts = texts(titles@);
            assert forall|i: usize| i < ts.len() implies (#[trigger] all@.contains(i) <==> title_score(
                ts,
                query@,
                i as int,
            ) is Some) by {
                assert(all@[i as int] == i);
            }
        }
        return all;
    }
    let mut hits: Vec<usize> = Vec::new();
    let mut scores: Vec<WideScore> = Vec::new();
    let ghost ts = texts(titles@);
    for i in 0..n
        invariant
            n == titles@.len(),
            ts == texts(titles@),
            need@ == needle(query@),
            hits@.len() == scores@.len(),
            forall|k: int|
                0 <= k < hits@.len() ==> #[trigger] hits@[k] < i && title_score(
                    ts,
                    query@,
                    hits@[k] as int,
                ) == Some(scores@[k].value()),
            forall|j: int, k: int| 0 <= j < k < hits@.len() ==> #[trigger] hits@[j] < #[trigger] hits@[k],
            forall|j: usize|
                j < i && title_score(ts, query@, j as int) is Some ==> #[trigger] hits@.contains(j),
    {
        assert(ts[i as int] == titles@[i as int]@);
        let ghost before = hits@;
        let hay = fold(&titles[i]);
        if let Some(s) = score_wide(&hay, &need) {
            hits.push(i);
            scores.push(s);
            assert(hits@[before.len() as int] == i);
            assert forall|j: usize|
                j < i + 1 && title_score(ts, query@, j as int) is Some implies #[trigger] hits@.contains(j) by {
                if j < i {
                    assert(before.contains(j));
                    let k = choose|k: int| 0 <= k < before.len() && before[k] == j;
                    assert(hits@[k] == j);
                }
            }
        }
    }
    let order = order_scores(&scores);
    let mut out: Vec<usize> = Vec::new();
    for a in 0..order.len()
        invariant
            places(order@, scores@.len() as int),
            hits@.len() == scores@.len(),
            out@ == Seq::new(a as nat, |k: int| hits@[order@[k] as int]),
    {
        out.push(hits[order[a]]);
        assert(out@ =~= Seq::new((a + 1) as nat, |k: int| hits@[order@[k] as int]));
    }
    proof {
        lemma_places_all(order@, scores@.len() as int);
        assert forall|i: usize| i < ts.len() implies (#[trigger] out@.contains(i) <==> title_score(
            ts,
            query@,
            i as int,
        ) is Some) by {
            if title_score(ts, query@, i as int) is Some {
                assert(hits@.contains(i));
                let k = choose|k: int| 0 <= k < hits@.len() && hits@[k] == i;
                assert(order@.contains(k as usize));
                let a = choose|a: int| 0 <= a < order@.len() && order@[a] == k as usize;
                assert(out@[a] == i);
            }
            if out@.contains(i) {
                let a = choose|a: int| 0 <= a < out@.len() && out@[a] == i;
                assert(hits@[order@[a] as int] == i);
            }
        }
        let before = highest_first(score_values(scores@));
        assert forall|a: int, b: int| 0 <= a < b < out@.len() implies ({
            let x = title_score(ts, query@, #[trigger] out@[a] as int)->0;
            let y = title_score(ts, query@, #[trigger] out@[b] as int)->0;
            x > y || (x == y && out@[a] < out@[b])
        }) by {
            assert(before(order@[a] as int, order@[b] as int));
            assert(hits@[order@[a] as int] == out@[a]);
            assert(hits@[order@[b] as int] == out@[b]);
        }
    }
    out
}

/// The titles of commands.
pub open spec fn titles_of(cs: Seq<Command>) -> Seq<Seq<char>> {
    Seq::new(cs.len(), |i: int| cs[i].title@)
}

impl CommandRegistry {
    /// No commands.
    pub fn new() -> (r: Self)
        ensures
            r@ == Seq::<Command>::empty(),
    {
        CommandRegistry { commands: Vec::new() }
    }

    /// Registers one more command.
    pub fn register(&mut self, command: Command)
        ensures
            final(self)@ == old(self)@.push(command),
    {
        self.commands.push(command);
    }

    /// All commands, in the order in which they were registered.
    pub fn commands(&self) -> (r: &[Command])
        ensures
            r@ == self@,
    {
        self.commands.as_slice()
    }

    /// The first command with the id `id`.
    pub fn find(&self, id: &str) -> (r: Option<Command>)
        ensures
            match r {
                Some(c) => exists|i: int|
                    {
                        &&& 0 <= i < self@.len()
                        &&& #[trigger] self@[i] == c
                        &&& c.id@ == id@
                        &&& forall|j: int| 0 <= j < i ==> (#[trigger] self@[j]).id@ != id@
                    },
                None => forall|j: int| 0 <= j < self@.len() ==> (#[trigger] self@[j]).id@ != id@,
            },
    {
        for i in 0..self.commands.len()
            invariant
                forall|j: int| 0 <= j < i ==> (#[trigger] self@[j]).id@ != id@,
        {
            if same(self.commands[i].id, id) {
                assert(self@[i as int] == self.commands@[i as int]);
                return Some(self.commands[i]);
            }
        }
        None
    }

    fn titles(&self) -> (r: Vec<String>)
        ensures
            texts(r@) == titles_of(self@),
    {
        let mut out: Vec<String> = Vec::new();
        for i in 0..self.commands.len()
            invariant
                texts(out@) == titles_of(self@).take(i as int),
        {
            let ghost before = texts(out@);
            out.push(self.commands[i].title.to_owned());
            assert(texts(out@) =~= before.push(titles_of(self@)[i as int]));
            assert(titles_of(self@).take(i + 1) =~= titles_of(self@).take(i as int).push(
                titles_of(self@)[i as int],
            ));
        }
        assert(titles_of(self@).take(self@.len() as int) =~= titles_of(self@));
        out
    }

    /// The places of the commands that match `query`, best first. A blank query lists
    /// them all as they were registered.
    pub fn filter(&self, query: &str) -> (r: Vec<usize>)
        ensures
            listed(r@, titles_of(self@), query@),
            ranked(r@, titles_of(self@), query@),
    {
        rank_titles(&self.titles(), query)
    }
}

/// Whether `at` has the places at which a needle is matched, each the first one left, and `runs` how
/// many matches stand without a gap before each.
pub open spec fn places_taken(hay: Seq<char>, need: Seq<char>, at: Seq<int>, runs: Seq<int>) -> bool {
    &&& embeds(hay, need, at)
    &&& runs.len() == at.len()
    &&& forall|i: int, j: int|
        0 <= i < at.len() && (i > 0 ==> at[i - 1] < j) && 0 <= j < #[trigger] at[i] ==> #[trigger] hay[j]
            != need[i]
    &&& forall|i: int|
        0 <= i < at.len() ==> #[trigger] runs[i] == if i > 0 && at[i] == at[i - 1] + 1 {
            runs[i - 1] + 1
        } else {
            0
        }
}

/// What the matches from `k` on earn: one each, six more at the very start and four behind a blank, a
/// colon, a dot, an underscore or a hyphen, and two for each match just before it without a gap.
pub open spec fn earned(hay: Seq<char>, at: Seq<int>, runs: Seq<int>, k: int) -> int
    decreases at.len() - k,
{
    if k >= at.len() {
        0
    } else {
        1 + 2 * runs[k] + (if at[k] == 0 {
            6int
        } else if " :._-"@.contains(hay[at[k] - 1]) {
            4
        } else {
            0
        }) + earned(hay, at, runs, k + 1)
    }
}

proof fn lemma_earned(hay: Seq<char>, need: Seq<char>, at: Seq<int>, runs: Seq<int>, k: int)
    requires
        places_taken(hay, need, at, runs),
        0 <= k <= need.len(),
    ensures
        score_from(
            hay,
            need.skip(k),
            if k == 0 {
                0
            } else {
                at[k - 1] + 1
            },
            if k == 0 {
                0
            } else {
                runs[k - 1]
            },
        ) == Some(earned(hay, at, runs, k)),
    decreases need.len() - k,
{
    if k < need.len() {
        let from = if k == 0 {
            0
        } else {
            at[k - 1] + 1
        };
        lemma_earned(hay, need, at, runs, k + 1);
        assert(need.skip(k).skip(1) =~= need.skip(k + 1));
        assert(need.skip(k)[0] == need[k]);
        assert(k > 0 ==> at[k - 1] < at[k]);
        lemma_next_at(hay, from, need[k]);
        let p = next_at(hay, from, need[k]);
        assert(hay[at[k]] == need[k]);
        assert(p == at[k]) by {
            if p < at[k] {
                assert(hay[p] != need[k]);
            }
        }
        assert(runs[k] == if k > 0 && at[k] == at[k - 1] + 1 {
            runs[k - 1] + 1
        } else {
            0
        });
        reveal_strlit(" :._-");
        if p > 0 {
            let prev = hay[p - 1];
            let marks = " :._-"@;
            assert(marks[0] == ' ' && marks[1] == ':' && marks[2] == '.' && marks[3] == '_' && marks[4] == '-');
            assert(marks.contains(prev) <==> prev == ' ' || prev == ':' || prev == '.' || prev == '_' || prev
                == '-');
        }
    } else {
        assert(need.skip(k).len() == 0);
    }
}

/// A score is what the single matches earn, at the first places that are left for them.
pub proof fn scores_are_earned(hay: Seq<char>, need: Seq<char>, at: Seq<int>, runs: Seq<int>)
    requires
        places_taken(hay, need, at, runs),
    ensures
        score(hay, need) == Some(earned(hay, at, runs, 0)),
{
    lemma_earned(hay, need, at, runs, 0);
    assert(need.skip(0) =~= need);
}

} // verus!
