//! The strip of tabs: their labels in one row, and which of them a column belongs to.

use vstd::prelude::*;
use crate::text::{chars_of, separate, separated, texts};

verus! {

/// How many blanks stand between two tabs.
pub const GAP: usize = 4;

/// The row of the tabs.
pub open spec fn strip_text(labels: Seq<Seq<char>>) -> Seq<char> {
    separated(labels, "    "@)
}

/// The columns of the tab `i`, its end excluded.
pub open spec fn tab_range(labels: Seq<Seq<char>>, i: int) -> (int, int) {
    let end = strip_text(labels.take(i + 1)).len() as int;
    (end - labels[i].len(), end)
}

/// The columns of each tab.
pub open spec fn ranges(labels: Seq<Seq<char>>, layout: Seq<(usize, usize)>) -> bool {
    &&& layout.len() == labels.len()
    &&& forall|i: int|
        0 <= i < layout.len() ==> (#[trigger] layout[i]).0 == tab_range(labels, i).0 && layout[i].1
            == tab_range(labels, i).1
}

/// One tab more: its blanks, and then its label.
proof fn lemma_next(labels: Seq<Seq<char>>, i: int)
    requires
        0 <= i < labels.len(),
    ensures
        i == 0 ==> strip_text(labels.take(1)) == labels[0],
        i > 0 ==> strip_text(labels.take(i + 1)) == strip_text(labels.take(i)) + "    "@ + labels[i],
        strip_text(labels.take(i + 1)).len() == strip_text(labels.take(i)).len() + (if i > 0 {
            4
        } else {
            0int
        }) + labels[i].len(),
{
    reveal_strlit("    ");
    let t = labels.take(i + 1);
    assert(t.drop_last() =~= labels.take(i));
    assert(t.last() == labels[i]);
    assert(labels.take(0).len() == 0);
}

proof fn lemma_grows(labels: Seq<Seq<char>>, i: int, n: int)
    requires
        0 <= i <= n <= labels.len(),
    ensures
        strip_text(labels.take(i)).len() <= strip_text(labels.take(n)).len(),
        strip_text(labels.take(i)).is_prefix_of(strip_text(labels.take(n))),
    decreases n,
{
    if i < n {
        lemma_grows(labels, i, n - 1);
        lemma_next(labels, n - 1);
        let a = strip_text(labels.take(n - 1));
        let b = strip_text(labels.take(n));
        if n == 1 {
            assert(labels.take(i).len() == 0);
        } else {
            assert(b.take(a.len() as int) =~= a);
            let x = strip_text(labels.take(i));
            assert(b.take(x.len() as int) =~= a.take(x.len() as int));
        }
    }
}

/// Each tab's columns hold its label, and two tabs have blanks between them.
pub proof fn tabs_hold_their_labels(labels: Seq<Seq<char>>, i: int)
    requires
        0 <= i < labels.len(),
    ensures
        0 <= tab_range(labels, i).0 <= tab_range(labels, i).1 <= strip_text(labels).len(),
        strip_text(labels).subrange(tab_range(labels, i).0, tab_range(labels, i).1) == labels[i],
        i + 1 < labels.len() ==> tab_range(labels, i + 1).0 == tab_range(labels, i).1 + 4,
{
    lemma_next(labels, i);
    lemma_grows(labels, i + 1, labels.len() as int);
    assert(labels.take(labels.len() as int) =~= labels);
    let (from, to) = tab_range(labels, i);
    let b = strip_text(labels.take(i + 1));
    assert(b.subrange(from, to) =~= labels[i]);
    assert(strip_text(labels).take(b.len() as int) =~= b);
    assert(strip_text(labels).subrange(from, to) =~= b.subrange(from, to));
    if i + 1 < labels.len() {
        lemma_next(labels, i + 1);
    }
}

/// The row of the tabs, and the columns of each.
pub fn lay_out(labels: &Vec<String>) -> (r: (String, Vec<(usize, usize)>))
    ensures
        r.0@ == strip_text(texts(labels@)),
        ranges(texts(labels@), r.1@),
{
    let ghost all = texts(labels@);
    let text = separate(labels, "    ");
    let whole = chars_of(&text);
    let total = whole.len();
    let mut layout: Vec<(usize, usize)> = Vec::new();
    let mut col: usize = 0;
    assert(all.take(0).len() == 0);
    assert(all.take(all.len() as int) =~= all);
    for i in 0..labels.len()
        invariant
            all == texts(labels@),
            all.len() == labels@.len(),
            all.take(all.len() as int) == all,
            total == strip_text(all).len(),
            col == strip_text(all.take(i as int)).len(),
            layout@.len() == i,
            forall|k: int|
                0 <= k < i ==> (#[trigger] layout@[k]).0 == tab_range(all, k).0 && layout@[k].1 == tab_range(
                    all,
                    k,
                ).1,
    {
        proof {
            lemma_next(all, i as int);
            lemma_grows(all, i + 1, all.len() as int);
        }
        if i > 0 {
            col += GAP;
        }
        let start = col;
        col += chars_of(&labels[i]).len();
        layout.push((start, col));
    }
    (text, layout)
}

/// The tab that a column belongs to: the first whose columns hold it.
pub open spec fn is_tab_at(layout: Seq<(usize, usize)>, col: int, r: Option<usize>) -> bool {
    match r {
        Some(i) => {
            &&& i < layout.len()
            &&& layout[i as int].0 <= col < layout[i as int].1
            &&& forall|k: int| 0 <= k < i ==> !((#[trigger] layout[k]).0 <= col < layout[k].1)
        },
        None => forall|k: int| 0 <= k < layout.len() ==> !((#[trigger] layout[k]).0 <= col < layout[k].1),
    }
}

/// The tab that a column belongs to.
pub fn tab_at(layout: &Vec<(usize, usize)>, col: usize) -> (r: Option<usize>)
    ensures
        is_tab_at(layout@, col as int, r),
{
    for i in 0..layout.len()
        invariant
            forall|k: int| 0 <= k < i ==> !((#[trigger] layout@[k]).0 <= col < layout@[k].1),
    {
        if layout[i].0 <= col && col < layout[i].1 {
            return Some(i);
        }
    }
    None
}

/// A column in a tab's label belongs to that tab.
pub proof fn labels_are_found(labels: Seq<Seq<char>>, layout: Seq<(usize, usize)>, i: int, col: int, r: Option<usize>)
    requires
        ranges(labels, layout),
        0 <= i < labels.len(),
        tab_range(labels, i).0 <= col < tab_range(labels, i).1,
        is_tab_at(layout, col, r),
    ensures
        r == Some(i as usize),
{
    assert(layout[i].0 <= col < layout[i].1);
    let k = r->0;
    if k < i {
        lemma_next(labels, k as int);
        lemma_next(labels, i);
        lemma_grows(labels, k + 1, i);
    } else if k > i {
        assert(!(layout[i].0 <= col < layout[i].1));
    }
}

} // verus!
