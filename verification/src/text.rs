//! Characters and strings: the small operations everything else is built from.

use vstd::prelude::*;

verus! {

/// [`String::push`]: the character goes behind what the string already held.
pub assume_specification[ std::string::String::push ](s: &mut std::string::String, c: char)
    ensures
        final(s)@ == old(s)@.push(c),
;

/// The characters of `s`, in order.
pub fn chars_of(s: &str) -> (r: Vec<char>)
    ensures
        r@ == s@,
{
    let mut out: Vec<char> = Vec::new();
    for c in it: s.chars()
        invariant
            out@ == it.seq().take(it.index() as int),
            it.seq() == s@,
    {
        out.push(c);
    }
    out
}

/// The string made of `cs`.
pub fn string_of(cs: &[char]) -> (r: String)
    ensures
        r@ == cs@,
{
    let mut out = String::new();
    for i in 0..cs.len()
        invariant
            out@ == cs@.take(i as int),
    {
        out.push(cs[i]);
    }
    out
}

/// Whether two strings hold the same characters.
pub fn same(a: &str, b: &str) -> (r: bool)
    ensures
        r == (a@ == b@),
{
    a.to_owned() == b.to_owned()
}

/// The characters with the Unicode `White_Space` property.
pub open spec fn is_white(c: char) -> bool {
    ||| '\u{9}' <= c <= '\u{d}'
    ||| c == ' '
    ||| c == '\u{85}'
    ||| c == '\u{a0}'
    ||| c == '\u{1680}'
    ||| '\u{2000}' <= c <= '\u{200a}'
    ||| c == '\u{2028}'
    ||| c == '\u{2029}'
    ||| c == '\u{202f}'
    ||| c == '\u{205f}'
    ||| c == '\u{3000}'
}

/// [`char::is_whitespace`] tells whether the character has the Unicode
/// `White_Space` property, which is the list in [`is_white`].
pub assume_specification[ char::is_whitespace ](c: char) -> (r: bool)
    ensures
        r == is_white(c),
;

/// `s` without the white space it begins with.
pub open spec fn trimmed_start(s: Seq<char>) -> Seq<char>
    decreases s.len(),
{
    if s.len() > 0 && is_white(s[0]) {
        trimmed_start(s.skip(1))
    } else {
        s
    }
}

/// `s` without the white space it ends with.
pub open spec fn trimmed_end(s: Seq<char>) -> Seq<char>
    decreases s.len(),
{
    if s.len() > 0 && is_white(s.last()) {
        trimmed_end(s.drop_last())
    } else {
        s
    }
}

/// `s` without the white space at both of its ends.
pub open spec fn trimmed(s: Seq<char>) -> Seq<char> {
    trimmed_end(trimmed_start(s))
}

/// Drops the white space that `s` begins with.
pub fn trim_start(s: &[char]) -> (r: &[char])
    ensures
        r@ == trimmed_start(s@),
{
    let mut i: usize = 0;
    assert(s@.skip(0) =~= s@);
    while i < s.len() && s[i].is_whitespace()
        invariant
            i <= s.len(),
            trimmed_start(s@.skip(i as int)) == trimmed_start(s@),
        decreases s.len() - i,
    {
        assert(s@.skip(i as int).skip(1) =~= s@.skip(i + 1));
        i += 1;
    }
    assert(s@.skip(i as int) =~= s@.subrange(i as int, s@.len() as int));
    &s[i..s.len()]
}

/// Drops the white space that `s` ends with.
pub fn trim_end(s: &[char]) -> (r: &[char])
    ensures
        r@ == trimmed_end(s@),
{
    let mut i: usize = s.len();
    assert(s@.take(i as int) =~= s@);
    while i > 0 && s[i - 1].is_whitespace()
        invariant
            i <= s.len(),
            trimmed_end(s@.take(i as int)) == trimmed_end(s@),
        decreases i,
    {
        assert(s@.take(i as int).drop_last() =~= s@.take(i - 1));
        i -= 1;
    }
    assert(s@.take(i as int) =~= s@.subrange(0, i as int));
    &s[0..i]
}

/// Drops the white space at both ends of `s`.
pub fn trim(s: &[char]) -> (r: &[char])
    ensures
        r@ == trimmed(s@),
{
    trim_end(trim_start(s))
}

/// Where `c` first stands in `s`, or the length of `s` where it does not.
pub open spec fn first_at(s: Seq<char>, c: char) -> int
    decreases s.len(),
{
    if s.len() == 0 || s[0] == c {
        0
    } else {
        1 + first_at(s.skip(1), c)
    }
}

/// What [`first_at`] means: it is the only index where `c` stands with no `c` before it.
pub proof fn lemma_first_at(s: Seq<char>, c: char)
    ensures
        0 <= first_at(s, c) <= s.len(),
        first_at(s, c) < s.len() ==> s[first_at(s, c)] == c,
        forall|i: int| 0 <= i < first_at(s, c) ==> s[i] != c,
    decreases s.len(),
{
    if s.len() > 0 && s[0] != c {
        let t = s.skip(1);
        lemma_first_at(t, c);
        assert forall|i: int| 0 <= i < first_at(s, c) implies s[i] != c by {
            if i > 0 {
                assert(t[i - 1] == s[i]);
            }
        }
    }
}

/// An index with `c` on it and no `c` before it is the one [`first_at`] gives.
pub proof fn lemma_first_at_is(s: Seq<char>, c: char, k: int)
    requires
        0 <= k <= s.len(),
        k < s.len() ==> s[k] == c,
        forall|i: int| 0 <= i < k ==> s[i] != c,
    ensures
        first_at(s, c) == k,
{
    lemma_first_at(s, c);
    let f = first_at(s, c);
    if f < k {
        assert(s[f] != c);
    } else if k < f {
        assert(s[k] != c);
    }
}

/// Finds `c` in `s`.
pub fn find_char(s: &[char], c: char) -> (r: usize)
    ensures
        r == first_at(s@, c),
        r <= s@.len(),
{
    let mut i: usize = 0;
    while i < s.len() && s[i] != c
        invariant
            i <= s.len(),
            forall|j: int| 0 <= j < i ==> s@[j] != c,
        decreases s.len() - i,
    {
        i += 1;
    }
    proof {
        lemma_first_at_is(s@, c, i as int);
    }
    i
}

/// The character sequences that a list of character vectors holds.
pub open spec fn views(v: Seq<Vec<char>>) -> Seq<Seq<char>> {
    Seq::new(v.len(), |i: int| v[i]@)
}

/// The character sequences that a list of strings holds.
pub open spec fn texts(v: Seq<String>) -> Seq<Seq<char>> {
    Seq::new(v.len(), |i: int| v[i]@)
}

/// `s` without a carriage return at its end.
pub open spec fn without_cr(s: Seq<char>) -> Seq<char> {
    if s.len() > 0 && s.last() == '\r' {
        s.drop_last()
    } else {
        s
    }
}

/// The lines of `s`. A line ends in `\n` or in `\r\n`, which is no part of it;
/// the last one may end where the text does.
pub open spec fn lines(s: Seq<char>) -> Seq<Seq<char>>
    decreases s.len(),
{
    proof {
        lemma_first_at(s, '\n');
    }
    let k = first_at(s, '\n');
    if s.len() == 0 {
        Seq::empty()
    } else if k >= s.len() {
        seq![s]
    } else {
        seq![without_cr(s.take(k))] + lines(s.skip(k + 1))
    }
}

/// The pieces of `s` between the `c`s in it.
pub open spec fn pieces(s: Seq<char>, c: char) -> Seq<Seq<char>>
    decreases s.len(),
{
    proof {
        lemma_first_at(s, c);
    }
    let k = first_at(s, c);
    if k >= s.len() {
        seq![s]
    } else {
        seq![s.take(k)] + pieces(s.skip(k + 1), c)
    }
}

/// A copy of `s`.
pub fn to_chars(s: &[char]) -> (r: Vec<char>)
    ensures
        r@ == s@,
{
    let mut out: Vec<char> = Vec::new();
    for i in 0..s.len()
        invariant
            out@ == s@.take(i as int),
    {
        out.push(s[i]);
    }
    out
}

/// Splits `s` into its lines.
pub fn split_lines(s: &[char]) -> (r: Vec<Vec<char>>)
    ensures
        views(r@) == lines(s@),
{
    let mut out: Vec<Vec<char>> = Vec::new();
    let mut i: usize = 0;
    assert(s@.skip(0) =~= s@);
    assert(views(out@) + lines(s@.skip(0)) =~= lines(s@));
    while i < s.len()
        invariant
            i <= s.len(),
            views(out@) + lines(s@.skip(i as int)) == lines(s@),
        decreases s.len() - i,
    {
        let ghost rest = s@.skip(i as int);
        let ghost before = views(out@);
        assert(rest =~= s@.subrange(i as int, s@.len() as int));
        let k: usize = find_char(&s[i..s.len()], '\n');
        if k >= s.len() - i {
            let line = to_chars(&s[i..s.len()]);
            out.push(line);
            assert(views(out@) =~= before.push(rest));
            i = s.len();
            assert(lines(s@.skip(i as int)) =~= Seq::<Seq<char>>::empty());
            assert(views(out@) + lines(s@.skip(i as int)) =~= before + seq![rest]);
        } else {
            let stop: usize = if k > 0 && s[i + k - 1] == '\r' {
                i + k - 1
            } else {
                i + k
            };
            let line = to_chars(&s[i..stop]);
            out.push(line);
            assert(line@ =~= without_cr(rest.take(k as int)));
            assert(views(out@) =~= before.push(without_cr(rest.take(k as int))));
            assert(rest.skip(k + 1) =~= s@.skip(i + k + 1));
            i = i + k + 1;
            assert(views(out@) + lines(s@.skip(i as int)) =~= before + (seq![
                without_cr(rest.take(k as int)),
            ] + lines(s@.skip(i as int))));
        }
    }
    assert(views(out@) + lines(s@.skip(i as int)) =~= views(out@));
    out
}

/// Splits `s` at each `c` in it.
pub fn split_char(s: &[char], c: char) -> (r: Vec<Vec<char>>)
    ensures
        views(r@) == pieces(s@, c),
{
    let mut out: Vec<Vec<char>> = Vec::new();
    let mut i: usize = 0;
    assert(s@.skip(0) =~= s@);
    assert(views(out@) + pieces(s@.skip(0), c) =~= pieces(s@, c));
    loop
        invariant
            i <= s.len(),
            views(out@) + pieces(s@.skip(i as int), c) == pieces(s@, c),
        decreases s.len() - i,
    {
        let ghost rest = s@.skip(i as int);
        let ghost before = views(out@);
        assert(rest =~= s@.subrange(i as int, s@.len() as int));
        let k: usize = find_char(&s[i..s.len()], c);
        if k >= s.len() - i {
            let piece = to_chars(&s[i..s.len()]);
            out.push(piece);
            assert(views(out@) =~= before + seq![rest]);
            return out;
        }
        let piece = to_chars(&s[i..i + k]);
        out.push(piece);
        assert(piece@ =~= rest.take(k as int));
        assert(rest.skip(k + 1) =~= s@.skip(i + k + 1));
        i = i + k + 1;
        assert(views(out@) + pieces(s@.skip(i as int), c) =~= before + (seq![rest.take(k as int)]
            + pieces(s@.skip(i as int), c)));
    }
}

/// Whether `s` begins with `p`.
pub fn starts_with(s: &[char], p: &str) -> (r: bool)
    ensures
        r == p@.is_prefix_of(s@),
{
    let q = chars_of(p);
    if q.len() > s.len() {
        return false;
    }
    let mut i: usize = 0;
    while i < q.len()
        invariant
            i <= q.len() <= s.len(),
            q@ == p@,
            forall|j: int| 0 <= j < i ==> s@[j] == q@[j],
        decreases q.len() - i,
    {
        if s[i] != q[i] {
            assert(s@.subrange(0, q@.len() as int)[i as int] != q@[i as int]);
            return false;
        }
        i += 1;
    }
    assert(s@.subrange(0, q@.len() as int) =~= q@);
    true
}

/// Whether `s` is exactly the text `t`.
pub fn is_text(s: &[char], t: &str) -> (r: bool)
    ensures
        r == (s@ == t@),
{
    let q = chars_of(t);
    if q.len() != s.len() {
        return false;
    }
    let r = starts_with(s, t);
    assert(s@.subrange(0, q@.len() as int) =~= s@);
    r
}

/// Appends `t` to `s`.
pub fn push_chars(s: &mut String, t: &[char])
    ensures
        final(s)@ == old(s)@ + t@,
{
    let ghost before = s@;
    assert(before + t@.take(0) =~= before);
    for i in 0..t.len()
        invariant
            s@ == before + t@.take(i as int),
    {
        s.push(t[i]);
        assert(before + t@.take(i + 1) =~= (before + t@.take(i as int)).push(t@[i as int]));
    }
    assert(t@.take(t@.len() as int) =~= t@);
}

/// Appends `t` to `s`.
pub fn push_text(s: &mut String, t: &str)
    ensures
        final(s)@ == old(s)@ + t@,
{
    s.append(t);
}

/// How many characters stand in `s` before its first white space.
pub open spec fn word_len(s: Seq<char>) -> int
    decreases s.len(),
{
    if s.len() == 0 || is_white(s[0]) {
        0
    } else {
        1 + word_len(s.skip(1))
    }
}

pub proof fn lemma_word_len(s: Seq<char>)
    ensures
        0 <= word_len(s) <= s.len(),
        s.len() > 0 && !is_white(s[0]) ==> word_len(s) > 0,
    decreases s.len(),
{
    if s.len() > 0 {
        lemma_word_len(s.skip(1));
    }
}

proof fn lemma_word_len_is(s: Seq<char>, k: int)
    requires
        0 <= k <= s.len(),
        k < s.len() ==> is_white(s[k]),
        forall|i: int| 0 <= i < k ==> !is_white(s[i]),
    ensures
        word_len(s) == k,
    decreases s.len(),
{
    if s.len() > 0 && k > 0 {
        assert forall|i: int| 0 <= i < k - 1 implies !is_white(s.skip(1)[i]) by {
            assert(s.skip(1)[i] == s[i + 1]);
        }
        lemma_word_len_is(s.skip(1), k - 1);
    }
}

pub proof fn lemma_trimmed_start(s: Seq<char>)
    ensures
        trimmed_start(s).len() <= s.len(),
        trimmed_start(s).len() > 0 ==> !is_white(trimmed_start(s)[0]),
        trimmed_start(s) == s.skip(s.len() - trimmed_start(s).len()),
    decreases s.len(),
{
    if s.len() > 0 && is_white(s[0]) {
        lemma_trimmed_start(s.skip(1));
        let n = trimmed_start(s).len();
        assert(s.skip(1).skip(s.len() - 1 - n) =~= s.skip(s.len() - n));
    } else {
        assert(s.skip(0) =~= s);
    }
}

/// The longest stretches of `s` without white space, in order.
pub open spec fn words(s: Seq<char>) -> Seq<Seq<char>>
    decreases s.len(),
{
    let t = trimmed_start(s);
    let k = word_len(t);
    if t.len() == 0 {
        Seq::empty()
    } else {
        proof {
            lemma_trimmed_start(s);
            lemma_word_len(t);
        }
        seq![t.take(k)] + words(t.skip(k))
    }
}

/// Splits `s` at its white space.
pub fn split_words(s: &[char]) -> (r: Vec<Vec<char>>)
    ensures
        views(r@) == words(s@),
{
    let mut out: Vec<Vec<char>> = Vec::new();
    let mut i: usize = 0;
    assert(s@.skip(0) =~= s@);
    assert(views(out@) + words(s@.skip(0)) =~= words(s@));
    loop
        invariant
            i <= s.len(),
            views(out@) + words(s@.skip(i as int)) == words(s@),
        decreases s.len() - i,
    {
        let ghost rest = s@.skip(i as int);
        let ghost before = views(out@);
        assert(rest =~= s@.subrange(i as int, s@.len() as int));
        let t = trim_start(&s[i..s.len()]);
        proof {
            lemma_trimmed_start(rest);
        }
        if t.len() == 0 {
            assert(views(out@) + words(rest) =~= views(out@));
            return out;
        }
        let start: usize = s.len() - t.len();
        assert(t@ =~= s@.skip(start as int));
        let mut k: usize = 0;
        while k < t.len() && !t[k].is_whitespace()
            invariant
                k <= t.len(),
                forall|j: int| 0 <= j < k ==> !is_white(t@[j]),
            decreases t.len() - k,
        {
            k += 1;
        }
        proof {
            lemma_word_len_is(t@, k as int);
        }
        let word = to_chars(&t[0..k]);
        out.push(word);
        assert(word@ =~= t@.take(k as int));
        assert(t@.skip(k as int) =~= s@.skip(start + k));
        i = start + k;
        assert(views(out@) + words(s@.skip(i as int)) =~= before + (seq![t@.take(k as int)]
            + words(s@.skip(i as int))));
    }
}

/// Where `t` first occurs in `s`, if anywhere.
pub open spec fn occurrence(s: Seq<char>, t: Seq<char>) -> Option<int>
    decreases s.len(),
{
    if t.is_prefix_of(s) {
        Some(0int)
    } else if s.len() == 0 {
        None
    } else {
        match occurrence(s.skip(1), t) {
            Some(i) => Some(i + 1),
            None => None,
        }
    }
}

/// What [`occurrence`] means: the least offset at which `t` can be read in `s`.
pub proof fn lemma_occurrence(s: Seq<char>, t: Seq<char>)
    ensures
        occurrence(s, t) matches Some(i) ==> {
            &&& 0 <= i
            &&& i + t.len() <= s.len()
            &&& s.subrange(i, i + t.len()) == t
        },
        forall|j: int|
            0 <= j && j + t.len() <= s.len() && #[trigger] s.subrange(j, j + t.len()) == t ==> (
            occurrence(s, t) matches Some(i) && i <= j),
    decreases s.len(),
{
    if t.is_prefix_of(s) {
        assert(s.subrange(0, t.len() as int) =~= t);
    } else if s.len() > 0 {
        let u = s.skip(1);
        lemma_occurrence(u, t);
        if let Some(i) = occurrence(u, t) {
            assert(s.subrange(i + 1, i + 1 + t.len()) =~= u.subrange(i, i + t.len()));
        }
        assert forall|j: int|
            0 <= j && j + t.len() <= s.len() && #[trigger] s.subrange(j, j + t.len()) == t implies (
        occurrence(s, t) matches Some(i) && i <= j) by {
            if j == 0 {
                assert(s.subrange(0, t.len() as int) =~= t);
                assert(false);
            } else {
                assert(u.subrange(j - 1, j - 1 + t.len()) =~= s.subrange(j, j + t.len()));
            }
        }
    } else {
        assert forall|j: int|
            0 <= j && j + t.len() <= s.len() && #[trigger] s.subrange(j, j + t.len()) == t implies (
        occurrence(s, t) matches Some(i) && i <= j) by {
            assert(s.subrange(0, t.len() as int) =~= t);
        }
    }
}

/// Finds `t` in `s`.
pub fn find_text(s: &[char], t: &[char]) -> (r: Option<usize>)
    ensures
        match r {
            Some(i) => occurrence(s@, t@) == Some(i as int) && i + t@.len() <= s@.len(),
            None => occurrence(s@, t@) is None,
        },
{
    let mut i: usize = 0;
    assert(s@.skip(0) =~= s@);
    loop
        invariant
            i <= s.len(),
            occurrence(s@, t@) == match occurrence(s@.skip(i as int), t@) {
                Some(k) => Some(k + i),
                None => None,
            },
        decreases s.len() - i,
    {
        let ghost rest = s@.skip(i as int);
        if t.len() > s.len() - i {
            proof {
                lemma_occurrence(rest, t@);
            }
            return None;
        }
        let mut k: usize = 0;
        while k < t.len() && s[i + k] == t[k]
            invariant
                k <= t.len() <= s.len() - i,
                i <= s.len(),
                rest == s@.skip(i as int),
                forall|j: int| 0 <= j < k ==> rest[j] == t@[j],
            decreases t.len() - k,
        {
            k += 1;
        }
        if k == t.len() {
            assert(rest.subrange(0, t@.len() as int) =~= t@);
            return Some(i);
        }
        assert(!t@.is_prefix_of(rest)) by {
            assert(rest[k as int] != t@[k as int]);
            assert(rest.subrange(0, t@.len() as int)[k as int] == rest[k as int]);
        }
        if i == s.len() {
            return None;
        }
        assert(rest.skip(1) =~= s@.skip(i + 1));
        i += 1;
    }
}

/// The order of strings: by the first character in which they differ, a string
/// before its own extensions.
pub open spec fn text_lt(a: Seq<char>, b: Seq<char>) -> bool
    decreases a.len(),
{
    if b.len() == 0 {
        false
    } else if a.len() == 0 {
        true
    } else if a[0] != b[0] {
        a[0] < b[0]
    } else {
        text_lt(a.skip(1), b.skip(1))
    }
}

/// Of two texts one comes first, unless they are the same.
pub proof fn lemma_text_lt_total(a: Seq<char>, b: Seq<char>)
    ensures
        a != b ==> (text_lt(a, b) <==> !text_lt(b, a)),
        a == b ==> !text_lt(a, b),
    decreases a.len(),
{
    if a.len() > 0 && b.len() > 0 && a[0] == b[0] {
        lemma_text_lt_total(a.skip(1), b.skip(1));
        if a.skip(1) == b.skip(1) {
            assert(a =~= seq![a[0]] + a.skip(1));
            assert(b =~= seq![b[0]] + b.skip(1));
        }
    } else if a.len() == 0 && b.len() == 0 {
        assert(a =~= b);
    }
}

/// The order of texts is transitive.
pub proof fn lemma_text_lt_trans(a: Seq<char>, b: Seq<char>, c: Seq<char>)
    requires
        text_lt(a, b),
        text_lt(b, c),
    ensures
        text_lt(a, c),
    decreases a.len(),
{
    if a.len() > 0 && b.len() > 0 && c.len() > 0 && a[0] == b[0] && b[0] == c[0] {
        lemma_text_lt_trans(a.skip(1), b.skip(1), c.skip(1));
    }
}

/// Whether `a` comes before `b`.
pub fn text_less(a: &str, b: &str) -> (r: bool)
    ensures
        r == text_lt(a@, b@),
{
    let x = chars_of(a);
    let y = chars_of(b);
    let mut i: usize = 0;
    assert(x@.skip(0) =~= x@);
    assert(y@.skip(0) =~= y@);
    while i < x.len() && i < y.len() && x[i] == y[i]
        invariant
            i <= x.len(),
            i <= y.len(),
            text_lt(x@.skip(i as int), y@.skip(i as int)) == text_lt(x@, y@),
        decreases x.len() - i,
    {
        assert(x@.skip(i as int).skip(1) =~= x@.skip(i + 1));
        assert(y@.skip(i as int).skip(1) =~= y@.skip(i + 1));
        i += 1;
    }
    if i == y.len() {
        false
    } else if i == x.len() {
        true
    } else {
        x[i] < y[i]
    }
}

/// The characters of a string that may be there.
pub open spec fn text_of(s: Option<String>) -> Option<Seq<char>> {
    match s {
        Some(t) => Some(t@),
        None => None,
    }
}

/// A text, or `other` where there is none.
pub open spec fn text_or(t: Option<Seq<char>>, other: Seq<char>) -> Seq<char> {
    match t {
        Some(s) => s,
        None => other,
    }
}

/// A copy of `s`, or of `other` where there is none.
pub fn text_or_else(s: Option<&str>, other: &str) -> (r: String)
    ensures
        r@ == match s {
            Some(t) => t@,
            None => other@,
        },
{
    match s {
        Some(t) => t.to_owned(),
        None => other.to_owned(),
    }
}

/// A copy of `s`, where there is one.
pub fn own(s: Option<&str>) -> (r: Option<String>)
    ensures
        text_of(r) == match s {
            Some(t) => Some(t@),
            None => None,
        },
{
    match s {
        Some(t) => Some(t.to_owned()),
        None => None,
    }
}

/// The characters of a text that may be there.
pub open spec fn chars(s: Option<&str>) -> Option<Seq<char>> {
    match s {
        Some(t) => Some(t@),
        None => None,
    }
}

/// The text whose lines are `ls`, each ended by a line feed.
pub open spec fn unlines(ls: Seq<Seq<char>>) -> Seq<char>
    decreases ls.len(),
{
    if ls.len() == 0 {
        Seq::empty()
    } else {
        ls[0].push('\n') + unlines(ls.skip(1))
    }
}

/// The text whose lines are `ls`.
pub fn join_lines(ls: &Vec<String>) -> (r: String)
    ensures
        r@ == unlines(texts(ls@)),
{
    let mut out = String::new();
    let ghost all = texts(ls@);
    assert(all.skip(0) =~= all);
    assert(out@ + unlines(all.skip(0)) =~= unlines(all));
    for i in 0..ls.len()
        invariant
            all == texts(ls@),
            out@ + unlines(all.skip(i as int)) == unlines(all),
    {
        let ghost before = out@;
        push_text(&mut out, &ls[i]);
        out.push('\n');
        assert(all.skip(i as int)[0] == ls@[i as int]@);
        assert(all.skip(i as int).skip(1) =~= all.skip(i + 1));
        assert(out@ + unlines(all.skip(i + 1)) =~= before + (ls@[i as int]@.push('\n') + unlines(
            all.skip(i + 1),
        )));
    }
    assert(out@ + unlines(all.skip(all.len() as int)) =~= out@);
    out
}

/// Whether `s` could be one line: it holds no line feed and does not end in a carriage return.
pub open spec fn is_line(s: Seq<char>) -> bool {
    &&& forall|i: int| 0 <= i < s.len() ==> s[i] != '\n'
    &&& s.len() > 0 ==> s.last() != '\r'
}

/// Lines that are written out are read back.
pub proof fn lines_read_back(ls: Seq<Seq<char>>)
    requires
        forall|i: int| 0 <= i < ls.len() ==> is_line(#[trigger] ls[i]),
    ensures
        lines(unlines(ls)) == ls,
    decreases ls.len(),
{
    if ls.len() == 0 {
        assert(lines(unlines(ls)) =~= ls);
    } else {
        let s = unlines(ls);
        let k = ls[0].len() as int;
        assert(is_line(ls[0]));
        assert forall|i: int| 0 <= i < k implies s[i] != '\n' by {
            assert(s[i] == ls[0][i]);
        }
        assert(s[k] == '\n');
        lemma_first_at_is(s, '\n', k);
        assert(s.take(k) =~= ls[0]);
        assert(s.skip(k + 1) =~= unlines(ls.skip(1)));
        assert forall|i: int| 0 <= i < ls.skip(1).len() implies is_line(#[trigger] ls.skip(1)[i]) by {
            assert(ls.skip(1)[i] == ls[i + 1]);
        }
        lines_read_back(ls.skip(1));
        assert(lines(s) =~= ls);
    }
}

/// Whether none of the first `n` characters of `s` is `c`.
pub open spec fn free_of(s: Seq<char>, c: char, n: nat) -> bool
    decreases n,
{
    n == 0 || (s[n - 1] != c && free_of(s, c, (n - 1) as nat))
}

/// What [`free_of`] means.
pub proof fn lemma_free_of(s: Seq<char>, c: char, n: nat)
    requires
        n <= s.len(),
        free_of(s, c, n),
    ensures
        forall|i: int| 0 <= i < n ==> s[i] != c,
    decreases n,
{
    if n > 0 {
        lemma_free_of(s, c, (n - 1) as nat);
    }
}

/// Texts one after the other, with `sep` between two.
pub open spec fn separated(parts: Seq<Seq<char>>, sep: Seq<char>) -> Seq<char>
    decreases parts.len(),
{
    if parts.len() == 0 {
        Seq::empty()
    } else if parts.len() == 1 {
        parts[0]
    } else {
        separated(parts.drop_last(), sep) + sep + parts.last()
    }
}

/// Adds the part at `i` of some, behind the ones before it.
fn push_part(out: &mut String, i: usize, part: &str, sep: &str, Ghost(parts): Ghost<Seq<Seq<char>>>)
    requires
        i < parts.len(),
        part@ == parts[i as int],
        old(out)@ == separated(parts.take(i as int), sep@),
    ensures
        final(out)@ == separated(parts.take(i + 1), sep@),
{
    if i > 0 {
        push_text(out, sep);
    }
    push_text(out, part);
    proof {
        let t = parts.take(i + 1);
        assert(t.drop_last() =~= parts.take(i as int));
        assert(t.last() == part@);
        assert(out@ =~= separated(t, sep@));
    }
}

/// The texts of `parts`, with `sep` between two.
pub fn separate(parts: &Vec<String>, sep: &str) -> (r: String)
    ensures
        r@ == separated(texts(parts@), sep@),
{
    let mut out = String::new();
    let ghost all = texts(parts@);
    assert(out@ =~= separated(all.take(0), sep@));
    for i in 0..parts.len()
        invariant
            all == texts(parts@),
            out@ == separated(all.take(i as int), sep@),
    {
        push_part(&mut out, i, &parts[i], sep, Ghost(all));
    }
    assert(all.take(all.len() as int) =~= all);
    out
}

/// The left or the right column of some rows.
pub open spec fn column_of(rows: Seq<(String, String)>, right: bool) -> Seq<Seq<char>> {
    Seq::new(
        rows.len(),
        |i: int|
            if right {
                rows[i].1@
            } else {
                rows[i].0@
            },
    )
}

/// One column of some rows, a row to a line.
pub fn separate_column(rows: &Vec<(String, String)>, right: bool) -> (r: String)
    ensures
        r@ == separated(column_of(rows@, right), "\n"@),
{
    let mut out = String::new();
    let ghost all = column_of(rows@, right);
    assert(out@ =~= separated(all.take(0), "\n"@));
    for i in 0..rows.len()
        invariant
            all == column_of(rows@, right),
            out@ == separated(all.take(i as int), "\n"@),
    {
        push_part(
            &mut out,
            i,
            if right {
                &rows[i].1
            } else {
                &rows[i].0
            },
            "\n",
            Ghost(all),
        );
    }
    assert(all.take(all.len() as int) =~= all);
    out
}

proof fn lemma_trim_front(a: Seq<char>, s: Seq<char>)
    requires
        forall|i: int| 0 <= i < a.len() ==> is_white(#[trigger] a[i]),
    ensures
        trimmed_start(a + s) == trimmed_start(s),
    decreases a.len(),
{
    if a.len() > 0 {
        let b = a.skip(1);
        assert((a + s).skip(1) =~= b + s);
        assert((a + s)[0] == a[0]);
        assert forall|i: int| 0 <= i < b.len() implies is_white(#[trigger] b[i]) by {
            assert(b[i] == a[i + 1]);
        }
        lemma_trim_front(b, s);
    } else {
        assert(a + s =~= s);
    }
}

proof fn lemma_trim_back(s: Seq<char>, b: Seq<char>)
    requires
        forall|i: int| 0 <= i < b.len() ==> is_white(#[trigger] b[i]),
    ensures
        trimmed_end(s + b) == trimmed_end(s),
    decreases b.len(),
{
    if b.len() > 0 {
        let c = b.drop_last();
        assert((s + b).drop_last() =~= s + c);
        assert((s + b).last() == b[b.len() - 1]);
        assert forall|i: int| 0 <= i < c.len() implies is_white(#[trigger] c[i]) by {
            assert(c[i] == b[i]);
        }
        lemma_trim_back(s, c);
    } else {
        assert(s + b =~= s);
    }
}

/// Trimming takes off the white space around a text, all of it and nothing else.
pub proof fn trimming_takes_white_space_off(a: Seq<char>, s: Seq<char>, b: Seq<char>)
    requires
        forall|i: int| 0 <= i < a.len() ==> is_white(#[trigger] a[i]),
        forall|i: int| 0 <= i < b.len() ==> is_white(#[trigger] b[i]),
        s.len() > 0 ==> !is_white(s[0]) && !is_white(s.last()),
    ensures
        trimmed(a + s + b) == s,
{
    assert(a + s + b =~= a + (s + b));
    lemma_trim_front(a, s + b);
    if s.len() > 0 {
        assert((s + b)[0] == s[0]);
        assert(trimmed_start(s + b) == s + b);
        lemma_trim_back(s, b);
    } else {
        assert(s + b =~= b);
        assert(b + Seq::<char>::empty() =~= b);
        lemma_trim_front(b, Seq::empty());
        assert(trimmed_start(Seq::<char>::empty()) =~= Seq::empty());
    }
    assert(trimmed_end(s) == s);
}

/// Words end at white space and nowhere else, and white space makes no word of its own.
pub proof fn words_end_at_white_space(w: Seq<char>, c: char, rest: Seq<char>)
    requires
        is_white(c),
        w.len() > 0,
        forall|i: int| 0 <= i < w.len() ==> !is_white(#[trigger] w[i]),
    ensures
        words(w.push(c) + rest) == seq![w] + words(rest),
        words(w) == seq![w],
        words(seq![c] + rest) == words(rest),
        words(Seq::empty()) == Seq::<Seq<char>>::empty(),
{
    let s = w.push(c) + rest;
    assert(s[0] == w[0]);
    assert forall|i: int| 0 <= i < w.len() implies !is_white(s[i]) by {
        assert(s[i] == w[i]);
    }
    assert(s[w.len() as int] == c);
    lemma_word_len_is(s, w.len() as int);
    lemma_word_len_is(w, w.len() as int);
    assert(trimmed_start(s) == s);
    assert(trimmed_start(w) == w);
    assert(s.take(w.len() as int) =~= w);
    assert(w.take(w.len() as int) =~= w);
    assert(s.skip(w.len() as int) =~= seq![c] + rest);
    assert(w.skip(w.len() as int) =~= Seq::empty());
    assert(forall|i: int| 0 <= i < seq![c].len() ==> is_white(#[trigger] seq![c][i]));
    lemma_trim_front(seq![c], rest);
    assert(words(seq![c] + rest) == words(rest));
    assert(words(Seq::<char>::empty()) =~= Seq::empty());
    assert(words(s) == seq![w] + words(s.skip(w.len() as int)));
    assert(words(w) == seq![w] + words(w.skip(w.len() as int)));
    assert(seq![w] + Seq::<Seq<char>>::empty() =~= seq![w]);
}

/// A text is its pieces with the character between them, and no piece holds it.
pub proof fn pieces_make_up_the_text(s: Seq<char>, c: char)
    ensures
        pieces(s, c).len() > 0,
        separated(pieces(s, c), seq![c]) == s,
        forall|i: int, j: int|
            0 <= i < pieces(s, c).len() && 0 <= j < pieces(s, c)[i].len() ==> #[trigger] pieces(s, c)[i][j] != c,
    decreases s.len(),
{
    lemma_first_at(s, c);
    let k = first_at(s, c);
    let ps = pieces(s, c);
    if k >= s.len() {
        assert(ps == seq![s]);
        assert(separated(ps, seq![c]) == s);
    } else {
        let head = s.take(k);
        let rest = s.skip(k + 1);
        let more = pieces(rest, c);
        pieces_make_up_the_text(rest, c);
        assert(ps == seq![head] + more);
        lemma_separated_head(head, more, seq![c]);
        assert(head + seq![c] + rest =~= s);
        assert forall|i: int, j: int| 0 <= i < ps.len() && 0 <= j < ps[i].len() implies #[trigger] ps[i][j]
            != c by {
            if i == 0 {
                assert(ps[i][j] == s[j]);
            } else {
                assert(ps[i] == more[i - 1]);
                assert(more[i - 1][j] != c);
            }
        }
    }
}

proof fn lemma_separated_head(head: Seq<char>, more: Seq<Seq<char>>, sep: Seq<char>)
    requires
        more.len() > 0,
    ensures
        separated(seq![head] + more, sep) == head + sep + separated(more, sep),
    decreases more.len(),
{
    let all = seq![head] + more;
    assert(all.drop_last() =~= seq![head] + more.drop_last());
    assert(all.last() == more.last());
    if more.len() == 1 {
        assert(all.drop_last() =~= seq![head]);
        assert(separated(seq![head], sep) == head);
        assert(separated(more, sep) == more[0]);
        assert(separated(all, sep) =~= head + sep + separated(more, sep));
    } else {
        lemma_separated_head(head, more.drop_last(), sep);
        assert(separated(all, sep) =~= head + sep + separated(more, sep));
    }
}

/// A line may end in a carriage return and a line feed as well as in a line feed alone.
pub proof fn lines_end_either_way(l: Seq<char>, rest: Seq<char>)
    requires
        is_line(l),
    ensures
        lines(l + seq!['\r', '\n'] + rest) == seq![l] + lines(rest),
        lines(l + seq!['\n'] + rest) == seq![l] + lines(rest),
{
    let a = l + seq!['\r', '\n'] + rest;
    let b = l + seq!['\n'] + rest;
    let n = l.len() as int;
    assert forall|i: int| 0 <= i < n implies a[i] != '\n' && b[i] != '\n' by {
        assert(a[i] == l[i] && b[i] == l[i]);
    }
    assert(a[n] == '\r' && a[n + 1] == '\n' && b[n] == '\n');
    assert forall|i: int| 0 <= i < n + 1 implies a[i] != '\n' by {}
    lemma_first_at_is(a, '\n', n + 1);
    lemma_first_at_is(b, '\n', n);
    assert(a.take(n + 1) =~= l.push('\r'));
    assert(l.push('\r').drop_last() =~= l);
    assert(b.take(n) =~= l);
    assert(a.skip(n + 2) =~= rest);
    assert(b.skip(n + 1) =~= rest);
}

/// Texts are ordered by the first character in which they differ, and one that goes on comes later.
pub proof fn texts_are_ordered_by_their_difference(p: Seq<char>, a: char, x: Seq<char>, b: char, y: Seq<char>)
    ensures
        text_lt(p.push(a) + x, p.push(b) + y) <==> a < b || (a == b && text_lt(x, y)),
        text_lt(p, p.push(a) + x),
        !text_lt(p.push(a) + x, p),
        !text_lt(p, p),
    decreases p.len(),
{
    let s = p.push(a) + x;
    let t = p.push(b) + y;
    if p.len() > 0 {
        let q = p.skip(1);
        texts_are_ordered_by_their_difference(q, a, x, b, y);
        assert(s.skip(1) =~= q.push(a) + x);
        assert(t.skip(1) =~= q.push(b) + y);
        assert(s[0] == p[0] && t[0] == p[0]);
    } else {
        assert(s.skip(1) =~= x);
        assert(t.skip(1) =~= y);
        assert(s[0] == a && t[0] == b);
    }
}

/// Texts that are set apart by a character that none of them holds fall apart again at it.
pub proof fn separated_texts_fall_apart(parts: Seq<Seq<char>>, c: char)
    requires
        parts.len() > 0,
        forall|i: int, j: int| 0 <= i < parts.len() && 0 <= j < parts[i].len() ==> #[trigger] parts[i][j] != c,
    ensures
        pieces(separated(parts, seq![c]), c) == parts,
    decreases parts.len(),
{
    let s = separated(parts, seq![c]);
    let head = parts[0];
    let n = head.len() as int;
    if parts.len() == 1 {
        assert(s == head);
        assert forall|i: int| 0 <= i < n implies s[i] != c by {
            assert(parts[0][i] != c);
        }
        lemma_first_at_is(s, c, n);
        assert(parts =~= seq![s]);
    } else {
        let more = parts.skip(1);
        assert(parts =~= seq![head] + more);
        assert forall|i: int, j: int| 0 <= i < more.len() && 0 <= j < more[i].len() implies #[trigger] more[i][j]
            != c by {
            assert(more[i] == parts[i + 1]);
            assert(parts[i + 1][j] != c);
        }
        separated_texts_fall_apart(more, c);
        lemma_separated_head(head, more, seq![c]);
        let rest = separated(more, seq![c]);
        assert(s == head + seq![c] + rest);
        assert forall|i: int| 0 <= i < n implies s[i] != c by {
            assert(s[i] == head[i]);
            assert(parts[0][i] != c);
        }
        assert(s[n] == c);
        lemma_first_at_is(s, c, n);
        assert(s.take(n) =~= head);
        assert(s.skip(n + 1) =~= rest);
        assert(pieces(s, c) == seq![s.take(n)] + pieces(s.skip(n + 1), c));
    }
}

/// The two columns of some rows, each as one text, have their rows on the same lines.
pub proof fn columns_line_up(rows: Seq<(String, String)>, i: int)
    requires
        0 <= i < rows.len(),
        forall|k: int, j: int| 0 <= k < rows.len() && 0 <= j < rows[k].0@.len() ==> #[trigger] rows[k].0@[j] != '\n',
        forall|k: int, j: int| 0 <= k < rows.len() && 0 <= j < rows[k].1@.len() ==> #[trigger] rows[k].1@[j] != '\n',
    ensures
        pieces(separated(column_of(rows, false), seq!['\n']), '\n')[i] == rows[i].0@,
        pieces(separated(column_of(rows, true), seq!['\n']), '\n')[i] == rows[i].1@,
        column_of(rows, false).len() == rows.len(),
{
    let a = column_of(rows, false);
    let b = column_of(rows, true);
    assert forall|k: int, j: int| 0 <= k < a.len() && 0 <= j < a[k].len() implies #[trigger] a[k][j] != '\n' by {
        assert(rows[k].0@[j] != '\n');
    }
    assert forall|k: int, j: int| 0 <= k < b.len() && 0 <= j < b[k].len() implies #[trigger] b[k][j] != '\n' by {
        assert(rows[k].1@[j] != '\n');
    }
    separated_texts_fall_apart(a, '\n');
    separated_texts_fall_apart(b, '\n');
}

} // verus!
