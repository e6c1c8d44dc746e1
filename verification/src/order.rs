//! Putting things in order: the places of a list's items, first to last.

use vstd::prelude::*;
use crate::text::{lemma_text_lt_total, lemma_text_lt_trans, text_less, text_lt, texts};

verus! {

/// `r` lists each of the places `0..n` once.
pub open spec fn places(r: Seq<usize>, n: int) -> bool {
    &&& r.len() == n
    &&& r.no_duplicates()
    &&& forall|i: int| 0 <= i < r.len() ==> #[trigger] r[i] < n
}

/// Each place in `r` comes before the later ones.
pub open spec fn in_order(r: Seq<usize>, before: spec_fn(int, int) -> bool) -> bool {
    forall|a: int, b: int| 0 <= a < b < r.len() ==> before(#[trigger] r[a] as int, #[trigger] r[b] as int)
}

/// The larger key comes first, equal keys as they stood.
pub open spec fn larger_first(keys: Seq<i128>) -> spec_fn(int, int) -> bool {
    |i: int, j: int| keys[i] > keys[j] || (keys[i] == keys[j] && i < j)
}

/// The higher number comes first, equal numbers as they stood.
pub open spec fn highest_first(keys: Seq<int>) -> spec_fn(int, int) -> bool {
    |i: int, j: int| keys[i] > keys[j] || (keys[i] == keys[j] && i < j)
}

/// The names in their order, equal names as they stood.
pub open spec fn by_name(names: Seq<Seq<char>>) -> spec_fn(int, int) -> bool {
    |i: int, j: int| text_lt(names[i], names[j]) || (names[i] == names[j] && i < j)
}

/// Each of the `n` places is in the list.
pub proof fn lemma_places_all(r: Seq<usize>, n: int)
    requires
        places(r, n),
    ensures
        forall|k: usize| k < n ==> #[trigger] r.contains(k),
{
    let ints = r.map_values(|x: usize| x as int);
    assert(ints.no_duplicates()) by {
        assert forall|i: int, j: int| 0 <= i < ints.len() && 0 <= j < ints.len() && i != j implies ints[i]
            != ints[j] by {
            assert(r[i] != r[j]);
        }
    }
    ints.unique_seq_to_set();
    vstd::set_lib::lemma_int_range(0, n);
    let all = vstd::set_lib::set_int_range(0, n);
    assert(ints.to_set().subset_of(all)) by {
        assert forall|x: int| ints.to_set().contains(x) implies all.contains(x) by {
            let i = choose|i: int| 0 <= i < ints.len() && ints[i] == x;
            assert(r[i] < n);
        }
    }
    vstd::set_lib::lemma_subset_equality(ints.to_set(), all);
    assert forall|k: usize| k < n implies #[trigger] r.contains(k) by {
        assert(all.contains(k as int));
        let i = choose|i: int| 0 <= i < ints.len() && ints[i] == k as int;
        assert(r[i] == k);
    }
}

/// A place put where it belongs leaves a list of places in order.
pub proof fn lemma_insert(r: Seq<usize>, n: usize, p: int, before: spec_fn(int, int) -> bool)
    requires
        places(r, n as int),
        in_order(r, before),
        0 <= p <= r.len(),
        forall|a: int| 0 <= a < p ==> before(#[trigger] r[a] as int, n as int),
        forall|a: int| p <= a < r.len() ==> before(n as int, #[trigger] r[a] as int),
    ensures
        places(r.insert(p, n), n + 1),
        in_order(r.insert(p, n), before),
{
    let s = r.insert(p, n);
    assert forall|i: int| 0 <= i < s.len() implies #[trigger] s[i] == (if i < p {
        r[i]
    } else if i == p {
        n
    } else {
        r[i - 1]
    }) by {}
    assert forall|a: int, b: int| 0 <= a < b < s.len() implies before(
        #[trigger] s[a] as int,
        #[trigger] s[b] as int,
    ) by {
        if a < p && b < p {
            assert(before(r[a] as int, r[b] as int));
        } else if a > p && b > p {
            assert(before(r[a - 1] as int, r[b - 1] as int));
        } else if a < p && b > p {
            assert(before(r[a] as int, r[b - 1] as int));
        }
    }
}

/// The places of `keys`, largest first.
pub fn order_larger_first(keys: &Vec<i128>) -> (r: Vec<usize>)
    ensures
        places(r@, keys@.len() as int),
        in_order(r@, larger_first(keys@)),
{
    let mut out: Vec<usize> = Vec::new();
    for n in 0..keys.len()
        invariant
            places(out@, n as int),
            in_order(out@, larger_first(keys@)),
            n <= keys@.len(),
    {
        let mut p: usize = 0;
        let ghost before = larger_first(keys@);
        while p < out.len() && keys[out[p]] >= keys[n]
            invariant
                n < keys@.len(),
                places(out@, n as int),
                p <= out.len(),
                before == larger_first(keys@),
                forall|a: int| 0 <= a < p ==> before(#[trigger] out@[a] as int, n as int),
            decreases out.len() - p,
        {
            p += 1;
        }
        assert forall|a: int| p <= a < out@.len() implies before(n as int, #[trigger] out@[a] as int) by {
            if a > p {
                assert(before(out@[p as int] as int, out@[a] as int));
            }
        }
        proof {
            lemma_insert(out@, n, p as int, before);
        }
        out.insert(p, n);
    }
    out
}

/// The places of `names`, in the order of the names.
pub fn order_by_name(names: &Vec<String>) -> (r: Vec<usize>)
    ensures
        places(r@, names@.len() as int),
        in_order(r@, by_name(texts(names@))),
{
    let mut out: Vec<usize> = Vec::new();
    let ghost ts = texts(names@);
    let ghost before = by_name(ts);
    for n in 0..names.len()
        invariant
            places(out@, n as int),
            ts == texts(names@),
            before == by_name(ts),
            in_order(out@, before),
            n <= names@.len(),
    {
        let mut p: usize = 0;
        while p < out.len() && !text_less(&names[n], &names[out[p]])
            invariant
                n < names@.len(),
                ts == texts(names@),
                places(out@, n as int),
                p <= out.len(),
                before == by_name(ts),
                forall|a: int| 0 <= a < p ==> before(#[trigger] out@[a] as int, n as int),
            decreases out.len() - p,
        {
            proof {
                lemma_text_lt_total(ts[n as int], ts[out@[p as int] as int]);
            }
            p += 1;
        }
        assert forall|a: int| p <= a < out@.len() implies before(n as int, #[trigger] out@[a] as int) by {
            if a > p {
                assert(before(out@[p as int] as int, out@[a] as int));
                let x = ts[n as int];
                let y = ts[out@[p as int] as int];
                let z = ts[out@[a] as int];
                if text_lt(y, z) {
                    lemma_text_lt_trans(x, y, z);
                }
            }
        }
        proof {
            lemma_insert(out@, n, p as int, before);
        }
        out.insert(p, n);
    }
    out
}

proof fn lemma_same_to(r: Seq<usize>, s: Seq<usize>, n: int, before: spec_fn(int, int) -> bool, k: int)
    requires
        places(r, n),
        places(s, n),
        in_order(r, before),
        in_order(s, before),
        forall|i: int, j: int| #[trigger] before(i, j) ==> !before(j, i),
        0 <= k <= n,
    ensures
        forall|i: int| 0 <= i < k ==> #[trigger] r[i] == s[i],
    decreases k,
{
    if k > 0 {
        lemma_same_to(r, s, n, before, k - 1);
        let (x, y) = (r[k - 1], s[k - 1]);
        if x != y {
            lemma_places_all(r, n);
            lemma_places_all(s, n);
            assert(s.contains(x) && r.contains(y));
            let j = choose|j: int| 0 <= j < s.len() && s[j] == x;
            let i = choose|i: int| 0 <= i < r.len() && r[i] == y;
            if j < k - 1 {
                assert(r[j] == s[j]);
            }
            if i < k - 1 {
                assert(r[i] == s[i]);
            }
            assert(before(r[k - 1] as int, r[i] as int));
            assert(before(s[k - 1] as int, s[j] as int));
        }
    }
}

/// There is one way to put things in order, where of two that differ only one can come first.
pub proof fn order_is_determined(r: Seq<usize>, s: Seq<usize>, n: int, before: spec_fn(int, int) -> bool)
    requires
        places(r, n),
        places(s, n),
        in_order(r, before),
        in_order(s, before),
        forall|i: int, j: int| #[trigger] before(i, j) ==> !before(j, i),
    ensures
        r == s,
{
    lemma_same_to(r, s, n, before, n);
    assert(r =~= s);
}

/// Of two places by name only one comes first.
pub proof fn lemma_by_name(names: Seq<Seq<char>>)
    ensures
        forall|i: int, j: int| #[trigger] by_name(names)(i, j) ==> !by_name(names)(j, i),
{
    assert forall|i: int, j: int| #[trigger] by_name(names)(i, j) implies !by_name(names)(j, i) by {
        lemma_text_lt_total(names[i], names[j]);
    }
}

/// What is in one of two rows is in both together, and nothing else is.
pub proof fn lemma_in_both<T>(a: Seq<T>, b: Seq<T>, x: T)
    ensures
        (a + b).contains(x) <==> a.contains(x) || b.contains(x),
{
    if a.contains(x) {
        let k = choose|k: int| 0 <= k < a.len() && a[k] == x;
        assert((a + b)[k] == x);
    }
    if b.contains(x) {
        let k = choose|k: int| 0 <= k < b.len() && b[k] == x;
        assert((a + b)[a.len() + k] == x);
    }
    if (a + b).contains(x) {
        let k = choose|k: int| 0 <= k < (a + b).len() && (a + b)[k] == x;
        if k < a.len() {
            assert(a[k] == x);
        } else {
            assert(b[k - a.len()] == x);
        }
    }
}

/// In an order by size what comes earlier is no smaller, and of equals the first stays first.
pub proof fn larger_ones_come_first(r: Seq<usize>, keys: Seq<i128>, a: int, b: int)
    requires
        in_order(r, larger_first(keys)),
        0 <= a < b < r.len(),
    ensures
        keys[r[a] as int] >= keys[r[b] as int],
        keys[r[a] as int] == keys[r[b] as int] ==> r[a] < r[b],
{
    assert(larger_first(keys)(r[a] as int, r[b] as int));
}

} // verus!
