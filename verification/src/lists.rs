//! Lists on a page: the row that is selected, the rows in view, and the text that is typed.

use vstd::prelude::*;
use crate::caret::{is_control_char, keep_printable, printable};
use crate::text::{chars, chars_of, is_white, push_text, string_of};
use crate::words::{first_in_view, windowed_start};

verus! {

/// A key as far as the pages know it apart.
#[derive(Clone, Copy, Debug, PartialEq, Eq, Structural)]
pub enum PageKey {
    Escape,
    Enter,
    Up,
    Down,
    Left,
    Right,
    PageUp,
    PageDown,
    Backspace,
    Other,
}

/// A row of a page: what stands on its left and on its right.
pub open spec fn row_views(v: Seq<(String, String)>) -> Seq<(Seq<char>, Seq<char>)> {
    Seq::new(v.len(), |i: int| (v[i].0@, v[i].1@))
}

/// The next row down, round the end of `n` rows.
pub open spec fn wrapped_down(sel: int, n: int) -> int {
    if n > 0 {
        (sel + 1) % n
    } else {
        sel
    }
}

/// The next row up, round the start of `n` rows.
pub open spec fn wrapped_up(sel: int, n: int) -> int {
    if n > 0 {
        (sel + n - 1) % n
    } else {
        sel
    }
}

/// Selects the next row down.
pub fn wrap_down(sel: usize, n: usize) -> (r: usize)
    requires
        sel < usize::MAX,
    ensures
        r == wrapped_down(sel as int, n as int),
        n > 0 ==> r < n,
{
    if n > 0 {
        (sel + 1) % n
    } else {
        sel
    }
}

/// Selects the next row up.
pub fn wrap_up(sel: usize, n: usize) -> (r: usize)
    requires
        sel + n <= usize::MAX,
    ensures
        r == wrapped_up(sel as int, n as int),
        n > 0 ==> r < n,
{
    if n > 0 {
        (sel + n - 1) % n
    } else {
        sel
    }
}

/// Going down and up undo each other; each goes to the neighbour, and from one end to the other.
pub proof fn wrapping_goes_round(sel: int, n: int)
    requires
        0 <= sel < n,
    ensures
        0 <= wrapped_down(sel, n) < n,
        0 <= wrapped_up(sel, n) < n,
        wrapped_up(wrapped_down(sel, n), n) == sel,
        wrapped_down(wrapped_up(sel, n), n) == sel,
        sel + 1 < n ==> wrapped_down(sel, n) == sel + 1,
        wrapped_down(n - 1, n) == 0,
        wrapped_up(0, n) == n - 1,
        sel > 0 ==> wrapped_up(sel, n) == sel - 1,
{
    if sel + 1 < n {
        vstd::arithmetic::div_mod::lemma_small_mod((sel + 1) as nat, n as nat);
    } else {
        vstd::arithmetic::div_mod::lemma_mod_self_0(n);
    }
    vstd::arithmetic::div_mod::lemma_mod_self_0(n);
    vstd::arithmetic::div_mod::lemma_small_mod((n - 1) as nat, n as nat);
    vstd::arithmetic::div_mod::lemma_small_mod(sel as nat, n as nat);
    vstd::arithmetic::div_mod::lemma_mod_add_multiples_vanish(sel, n);
    if sel > 0 {
        vstd::arithmetic::div_mod::lemma_small_mod((sel - 1) as nat, n as nat);
        vstd::arithmetic::div_mod::lemma_mod_add_multiples_vanish(sel - 1, n);
        assert(sel + n - 1 == n + (sel - 1));
    }
}

/// A row `by` rows further down or up, as far as there are so many of `n`.
pub open spec fn bumped(sel: int, n: int, down: bool, by: int) -> int {
    if n == 0 {
        0
    } else if down {
        if sel + by < n {
            sel + by
        } else {
            n - 1
        }
    } else if sel < by {
        0
    } else {
        sel - by
    }
}

/// Moves the selection `by` rows.
pub fn bump(sel: usize, n: usize, down: bool, by: usize) -> (r: usize)
    requires
        sel + by <= usize::MAX,
    ensures
        r == bumped(sel as int, n as int, down, by as int),
{
    if n == 0 {
        0
    } else if down {
        if sel + by < n {
            sel + by
        } else {
            n - 1
        }
    } else if sel < by {
        0
    } else {
        sel - by
    }
}

/// The selected row, as far as there are so many.
pub open spec fn held(sel: int, n: int) -> int {
    if n == 0 {
        0
    } else if sel < n {
        sel
    } else {
        n - 1
    }
}

/// A selection moves by as many rows as asked for where there are so many, and to the last or the
/// first otherwise; where it moved in full, moving back leads to where it was.
pub proof fn selections_move_by_rows(sel: int, n: int, by: int)
    requires
        0 <= sel < n,
        0 <= by,
    ensures
        sel + by < n ==> bumped(sel, n, true, by) == sel + by && bumped(sel + by, n, false, by) == sel,
        sel + by >= n ==> bumped(sel, n, true, by) == n - 1,
        sel >= by ==> bumped(sel, n, false, by) == sel - by && bumped(sel - by, n, true, by) == sel,
        sel < by ==> bumped(sel, n, false, by) == 0,
        forall|down: bool| #[trigger] bumped(sel, 0, down, by) == 0,
{
}

/// The rows in view: from the first to before the last.
pub open spec fn in_view(sel: int, n: int, cap: int) -> (int, int) {
    let start = first_in_view(sel, n, cap);
    (
        start,
        if start + cap < n {
            start + cap
        } else {
            n
        },
    )
}

/// As many rows are in view as fit, and the selected one is among them; a list that fits is in view
/// as a whole.
pub proof fn the_selection_is_in_view(sel: int, n: int, cap: int)
    requires
        0 <= sel,
        0 <= n,
        0 < cap,
    ensures
        ({
            let (from, to) = in_view(sel, n, cap);
            &&& 0 <= from <= to <= n
            &&& n > 0 ==> from <= held(sel, n) < to
            &&& n <= cap ==> from == 0 && to == n
            &&& n > cap ==> to - from == cap
            &&& sel < n ==> held(sel, n) == sel
        }),
{
}

/// The rows in view of a list, and the selected one among them.
pub fn view_of(sel: usize, n: usize, cap: usize) -> (r: (usize, usize, Option<usize>))
    requires
        cap > 0,
    ensures
        (r.0 as int, r.1 as int) == in_view(sel as int, n as int, cap as int),
        r.0 <= r.1 <= n,
        r.2 == if n == 0 {
            None
        } else {
            Some((held(sel as int, n as int) - r.0) as usize)
        },
        first_in_view(sel as int, n as int, cap as int) <= held(sel as int, n as int),
{
    let start = windowed_start(sel, n, cap);
    let end: usize = if cap < n - start {
        start + cap
    } else {
        n
    };
    let selected = if n == 0 {
        None
    } else if sel < n {
        Some(sel - start)
    } else {
        Some(n - 1 - start)
    };
    (start, end, selected)
}

/// A text without its last character.
pub open spec fn shortened(s: Seq<char>) -> Seq<char> {
    if s.len() > 0 {
        s.drop_last()
    } else {
        s
    }
}

/// Taking the last character away undoes typing it.
pub proof fn shortening_undoes_typing(s: Seq<char>, c: char)
    ensures
        shortened(s.push(c)) == s,
        shortened(Seq::empty()) == Seq::<char>::empty(),
{
    assert(s.push(c).drop_last() =~= s);
}

/// `s` without its last character.
pub fn shorten(s: &str) -> (r: String)
    ensures
        r@ == shortened(s@),
{
    let cs = chars_of(s);
    if cs.len() == 0 {
        return s.to_owned();
    }
    let head = &cs.as_slice()[0..cs.len() - 1];
    assert(head@ =~= s@.drop_last());
    string_of(head)
}

/// The characters of a text that are neither of control nor white space.
pub open spec fn solid(s: Seq<char>) -> Seq<char>
    decreases s.len(),
{
    if s.len() == 0 {
        Seq::empty()
    } else if is_control_char(s.last()) || is_white(s.last()) {
        solid(s.drop_last())
    } else {
        solid(s.drop_last()).push(s.last())
    }
}

/// The decimal digits of a text.
pub open spec fn digits_in(s: Seq<char>) -> Seq<char>
    decreases s.len(),
{
    if s.len() == 0 {
        Seq::empty()
    } else if '0' <= s.last() <= '9' {
        digits_in(s.drop_last()).push(s.last())
    } else {
        digits_in(s.drop_last())
    }
}

/// What a typed text adds to an input.
#[derive(Clone, Copy, Debug, PartialEq, Eq, Structural)]
pub enum Accepts {
    /// Any printable character.
    Printable,
    /// Printable characters but for white space.
    Solid,
    /// Decimal digits.
    Digits,
}

/// The characters of a typed text that an input accepts.
pub open spec fn accepted(a: Accepts, text: Option<Seq<char>>) -> Seq<char> {
    match text {
        None => Seq::empty(),
        Some(t) => match a {
            Accepts::Printable => printable(t),
            Accepts::Solid => solid(t),
            Accepts::Digits => digits_in(t),
        },
    }
}

/// Whether an input takes a character.
pub open spec fn takes(a: Accepts, c: char) -> bool {
    match a {
        Accepts::Printable => !is_control_char(c),
        Accepts::Solid => !is_control_char(c) && !is_white(c),
        Accepts::Digits => '0' <= c <= '9',
    }
}

/// What is typed is taken character by character: a text that the input takes all of goes in as it
/// is, only such characters go in, and one that it does not take might as well not have been typed.
pub proof fn inputs_take_their_characters(a: Accepts, s: Seq<char>, t: Seq<char>, c: char)
    ensures
        accepted(a, Some(s + t)) == accepted(a, Some(s)) + accepted(a, Some(t)),
        forall|i: int| 0 <= i < accepted(a, Some(s)).len() ==> takes(a, #[trigger] accepted(a, Some(s))[i]),
        (forall|i: int| 0 <= i < s.len() ==> takes(a, #[trigger] s[i])) ==> accepted(a, Some(s)) == s,
        !takes(a, c) ==> accepted(a, Some(s.push(c) + t)) == accepted(a, Some(s + t)),
    decreases s.len() + 2 * t.len(),
{
    if t.len() > 0 {
        let u = t.drop_last();
        inputs_take_their_characters(a, s, u, c);
        assert((s + t).drop_last() =~= s + u);
        assert((s.push(c) + t).drop_last() =~= s.push(c) + u);
        assert((s + t).last() == t.last());
        assert((s.push(c) + t).last() == t.last());
        assert(accepted(a, Some(s + t)) =~= accepted(a, Some(s)) + accepted(a, Some(t)));
    } else {
        assert(s + t =~= s);
        assert(s.push(c) + t =~= s.push(c));
        assert(s.push(c).drop_last() =~= s);
        assert(accepted(a, Some(t)) =~= Seq::empty());
        assert(accepted(a, Some(s)) + accepted(a, Some(t)) =~= accepted(a, Some(s)));
        if s.len() > 0 {
            inputs_take_their_characters(a, s.drop_last(), t, c);
            if forall|i: int| 0 <= i < s.len() ==> takes(a, #[trigger] s[i]) {
                assert forall|i: int| 0 <= i < s.drop_last().len() implies takes(
                    a,
                    #[trigger] s.drop_last()[i],
                ) by {
                    assert(s.drop_last()[i] == s[i]);
                }
                assert(takes(a, s[s.len() - 1]));
                assert(s.drop_last().push(s.last()) =~= s);
            }
        }
    }
}

fn keep_solid(s: &str) -> (r: String)
    ensures
        r@ == solid(s@),
{
    let cs = chars_of(s);
    let mut out = String::new();
    for i in 0..cs.len()
        invariant
            out@ == solid(cs@.take(i as int)),
    {
        assert(cs@.take(i + 1).drop_last() =~= cs@.take(i as int));
        if !cs[i].is_control() && !cs[i].is_whitespace() {
            out.push(cs[i]);
        }
    }
    assert(cs@.take(cs@.len() as int) =~= cs@);
    out
}

fn keep_digits(s: &str) -> (r: String)
    ensures
        r@ == digits_in(s@),
{
    let cs = chars_of(s);
    let mut out = String::new();
    for i in 0..cs.len()
        invariant
            out@ == digits_in(cs@.take(i as int)),
    {
        assert(cs@.take(i + 1).drop_last() =~= cs@.take(i as int));
        if '0' <= cs[i] && cs[i] <= '9' {
            out.push(cs[i]);
        }
    }
    assert(cs@.take(cs@.len() as int) =~= cs@);
    out
}

/// Adds what an input accepts of a typed text, and says whether that is anything.
pub fn type_into(input: &mut String, accepts: Accepts, text: Option<&str>) -> (r: bool)
    ensures
        final(input)@ == old(input)@ + accepted(accepts, chars(text)),
        r == (accepted(accepts, chars(text)).len() > 0),
{
    let ghost before = input@;
    match text {
        None => {
            assert(before + Seq::<char>::empty() =~= before);
            false
        },
        Some(t) => {
            let keep = match accepts {
                Accepts::Printable => keep_printable(t),
                Accepts::Solid => keep_solid(t),
                Accepts::Digits => keep_digits(t),
            };
            push_text(input, &keep);
            !keep.as_str().is_empty()
        },
    }
}

} // verus!
