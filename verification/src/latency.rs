//! How long keystrokes take to reach the screen: the newest samples, their percentiles and the
//! lines that report them. Times are in microseconds.

use vstd::prelude::*;
use vstd::relations::sorted_by;
use vstd::seq_lib::lemma_sorted_unique;
use crate::fixed::{one_decimal, show_one_decimal, show_two_decimals, two_decimals, SINGLE};
use crate::number::{decimal, decimal_text};
use crate::text::push_text;

verus! {

/// How many samples are kept.
pub const LAT_RING_CAP: usize = 4096;

/// At most this share of a second, in microseconds, is on time at the 99th percentile.
pub const ON_TIME: u32 = 8000;

/// The order of the samples.
pub open spec fn at_most() -> spec_fn(u32, u32) -> bool {
    |a: u32, b: u32| a <= b
}

/// The samples in order.
pub open spec fn in_size(s: Seq<u32>) -> Seq<u32> {
    s.sort_by(at_most())
}

/// The place of a percentile among `n` samples in order: the nearest, the later of two that are as
/// near.
pub open spec fn rank(n: int, percent: int) -> int {
    ((n - 1) * percent + 50) / 100
}

/// The median, the 99th percentile and the largest of some samples.
pub open spec fn measured(s: Seq<u32>) -> Option<(u32, u32, u32)> {
    if s.len() == 0 {
        None
    } else {
        let v = in_size(s);
        Some((v[rank(s.len() as int, 50)], v[rank(s.len() as int, 99)], v.last()))
    }
}

/// The newest samples, and how many there were in all.
pub struct LatencyRing {
    buf: Vec<u32>,
    idx: usize,
    count: u64,
    sorted: Vec<u32>,
    dirty: bool,
}

proof fn lemma_in_size(s: Seq<u32>, v: Seq<u32>)
    requires
        v.to_multiset() == s.to_multiset(),
        sorted_by(v, at_most()),
    ensures
        v == in_size(s),
        v.len() == s.len(),
{
    s.lemma_sort_by_ensures(at_most());
    lemma_sorted_unique(v, in_size(s), at_most());
    s.to_multiset_ensures();
    v.to_multiset_ensures();
}

/// The samples in order.
fn order(s: &Vec<u32>) -> (r: Vec<u32>)
    ensures
        r@ == in_size(s@),
        r@.len() == s@.len(),
{
    let mut out: Vec<u32> = Vec::new();
    assert(out@ =~= s@.take(0));
    for n in 0..s.len()
        invariant
            out@.len() == n,
            sorted_by(out@, at_most()),
            out@.to_multiset() == s@.take(n as int).to_multiset(),
    {
        let x = s[n];
        let mut p: usize = out.len();
        while p > 0 && out[p - 1] > x
            invariant
                p <= out@.len(),
                forall|a: int| p <= a < out@.len() ==> #[trigger] out@[a] > x,
            decreases p,
        {
            p -= 1;
        }
        let ghost before = out@;
        assert forall|a: int| 0 <= a < p implies #[trigger] before[a] <= x by {
            assert(at_most()(before[a], before[p - 1]));
        }
        out.insert(p, x);
        proof {
            vstd::seq_lib::to_multiset_insert(before, p as int, x);
            assert(s@.take(n + 1) =~= s@.take(n as int).push(x));
            s@.take(n as int).to_multiset_ensures();
            assert(out@ =~= before.insert(p as int, x));
            assert forall|a: int, b: int| 0 <= a < b < out@.len() implies #[trigger] at_most()(out@[a], out@[b]) by {
                let i = if a < p {
                    a
                } else {
                    a - 1
                };
                let j = if b < p {
                    b
                } else {
                    b - 1
                };
                if a != p && b != p {
                    assert(at_most()(before[i], before[j]));
                }
            }
        }
    }
    proof {
        assert(s@.take(s@.len() as int) =~= s@);
        lemma_in_size(s@, out@);
    }
    out
}

fn pick(v: &Vec<u32>, percent: usize) -> (r: u32)
    requires
        0 < v@.len() <= LAT_RING_CAP,
        percent <= 100,
    ensures
        r == v@[rank(v@.len() as int, percent as int)],
{
    let n: usize = v.len() - 1;
    proof {
        assert(0 <= n * percent <= 4096 * 100) by (nonlinear_arith)
            requires
                0 <= n <= 4096,
                0 <= percent <= 100,
        ;
        assert((n * percent + 50) / 100 <= n) by (nonlinear_arith)
            requires
                0 <= n,
                0 <= percent <= 100,
        ;
    }
    v[(n * percent + 50) / 100]
}

fn pick_percentiles(v: &Vec<u32>) -> (r: (u32, u32, u32))
    requires
        0 < v@.len() <= LAT_RING_CAP,
    ensures
        r == (v@[rank(v@.len() as int, 50)], v@[rank(v@.len() as int, 99)], v@.last()),
{
    (pick(v, 50), pick(v, 99), v[v.len() - 1])
}

impl LatencyRing {
    /// The samples that are kept, oldest first.
    pub closed spec fn samples(self) -> Seq<u32> {
        self.buf@.skip(self.idx as int) + self.buf@.take(self.idx as int)
    }

    /// How many samples there were in all.
    pub closed spec fn recorded(self) -> u64 {
        self.count
    }

    /// At most as many samples as are kept, the oldest where the next one goes, and the ordered
    /// ones those that are kept.
    pub closed spec fn wf(self) -> bool {
        &&& self.buf@.len() <= LAT_RING_CAP
        &&& self.idx < LAT_RING_CAP
        &&& self.buf@.len() < LAT_RING_CAP ==> self.idx == 0
        &&& !self.dirty ==> self.sorted@ == in_size(self.buf@) && self.sorted@.len() == self.buf@.len()
    }

    /// No samples.
    pub fn new() -> (r: Self)
        ensures
            r.wf(),
            r.samples() == Seq::<u32>::empty(),
            r.recorded() == 0,
    {
        let r = LatencyRing { buf: Vec::new(), idx: 0, count: 0, sorted: Vec::new(), dirty: true };
        assert(r.samples() =~= Seq::<u32>::empty());
        r
    }

    /// Adds a sample; where there is no more room the oldest goes.
    pub fn record(&mut self, us: u128)
        requires
            old(self).wf(),
        ensures
            final(self).wf(),
            final(self).samples() == kept(
                old(self).samples().push(
                    if us <= u32::MAX {
                        us as u32
                    } else {
                        u32::MAX
                    },
                ),
            ),
            final(self).recorded() == (if old(self).recorded() < u64::MAX {
                (old(self).recorded() + 1) as u64
            } else {
                u64::MAX
            }),
    {
        let x: u32 = if us <= 0xFFFF_FFFF {
            us as u32
        } else {
            u32::MAX
        };
        let ghost was = self.samples();
        if self.buf.len() < LAT_RING_CAP {
            self.buf.push(x);
            assert(self.samples() =~= kept(was.push(x)));
        } else {
            self.buf.set(self.idx, x);
            self.idx = (self.idx + 1) % LAT_RING_CAP;
            assert(self.samples() =~= kept(was.push(x)));
        }
        self.count = self.count.saturating_add(1);
        self.dirty = true;
    }

    /// How many samples there were in all.
    pub fn count(&self) -> (r: u64)
        ensures
            r == self.recorded(),
    {
        self.count
    }

    proof fn lemma_samples(&self)
        requires
            self.wf(),
        ensures
            self.samples().to_multiset() == self.buf@.to_multiset(),
            self.samples().len() == self.buf@.len(),
    {
        let a = self.buf@.take(self.idx as int);
        let b = self.buf@.skip(self.idx as int);
        if self.buf@.len() < LAT_RING_CAP {
            assert(self.samples() =~= self.buf@);
        } else {
            assert(self.buf@ =~= a + b);
            vstd::seq_lib::lemma_multiset_commutative(a, b);
            vstd::seq_lib::lemma_multiset_commutative(b, a);
        }
    }

    proof fn lemma_measured(&self)
        requires
            self.wf(),
        ensures
            in_size(self.samples()) == in_size(self.buf@),
            self.samples().len() == self.buf@.len(),
    {
        self.lemma_samples();
        self.buf@.lemma_sort_by_ensures(at_most());
        lemma_in_size(self.samples(), in_size(self.buf@));
    }

    /// The median, the 99th percentile and the largest of the samples that are kept.
    pub fn percentiles(&self) -> (r: Option<(u32, u32, u32)>)
        requires
            self.wf(),
        ensures
            r == measured(self.samples()),
    {
        proof {
            self.lemma_measured();
        }
        if self.buf.len() == 0 {
            return None;
        }
        let v = order(&self.buf);
        Some(pick_percentiles(&v))
    }

    /// As [`LatencyRing::percentiles`]; the samples are ordered anew only where there are new ones.
    pub fn percentiles_cached(&mut self) -> (r: Option<(u32, u32, u32)>)
        requires
            old(self).wf(),
        ensures
            r == measured(old(self).samples()),
            final(self).wf(),
            final(self).samples() == old(self).samples(),
            final(self).recorded() == old(self).recorded(),
    {
        proof {
            self.lemma_measured();
        }
        if self.buf.len() == 0 {
            return None;
        }
        if self.dirty {
            self.sorted = order(&self.buf);
            self.dirty = false;
        }
        Some(pick_percentiles(&self.sorted))
    }

    /// One line on the samples, with the verdict.
    pub fn summary(&self) -> (r: String)
        requires
            self.wf(),
        ensures
            r@ == summary_text(measured(self.samples()), self.recorded() as nat),
    {
        match self.percentiles() {
            Some((p50, p99, most)) => {
                let mut out = String::new();
                push_text(&mut out, "latency: p50 ");
                push_text(&mut out, &show_two_decimals(p50 as u64, 1000, SINGLE));
                push_text(&mut out, "ms  p99 ");
                push_text(&mut out, &show_two_decimals(p99 as u64, 1000, SINGLE));
                push_text(&mut out, "ms  max ");
                push_text(&mut out, &show_two_decimals(most as u64, 1000, SINGLE));
                push_text(&mut out, "ms  n=");
                push_text(&mut out, &decimal_text(self.count));
                push_text(
                    &mut out,
                    "  \u{2014} D4 approx (event\u{2192}GPU-submit, not event\u{2192}pixel) ",
                );
                push_text(
                    &mut out,
                    if p99 <= ON_TIME {
                        "GO (p99 <= 8ms)"
                    } else {
                        "NO-GO (p99 > 8ms)"
                    },
                );
                assert(out@ =~= summary_text(Some((p50, p99, most)), self.recorded() as nat));
                out
            },
            None => {
                let mut out = String::new();
                push_text(&mut out, "latency: no keystroke samples recorded");
                assert(out@ =~= "latency: no keystroke samples recorded"@);
                out
            },
        }
    }
}

/// The samples that are kept of some, the newest.
pub open spec fn kept(s: Seq<u32>) -> Seq<u32> {
    if s.len() <= LAT_RING_CAP {
        s
    } else {
        s.skip(s.len() - LAT_RING_CAP)
    }
}

/// The line on some samples, `n` of them in all.
pub open spec fn summary_text(m: Option<(u32, u32, u32)>, n: nat) -> Seq<char> {
    match m {
        Some((p50, p99, most)) => "latency: p50 "@ + two_decimals(p50 as nat, 1000, SINGLE as nat)
            + "ms  p99 "@ + two_decimals(p99 as nat, 1000, SINGLE as nat) + "ms  max "@ + two_decimals(
            most as nat,
            1000,
            SINGLE as nat,
        ) + "ms  n="@ + decimal(n)
            + "  \u{2014} D4 approx (event\u{2192}GPU-submit, not event\u{2192}pixel) "@ + (if p99
            <= ON_TIME {
            "GO (p99 <= 8ms)"@
        } else {
            "NO-GO (p99 > 8ms)"@
        }),
        None => "latency: no keystroke samples recorded"@,
    }
}

/// The latency part of the banner.
pub open spec fn hud_text(m: Option<(u32, u32, u32)>, n: nat) -> Seq<char> {
    match m {
        Some((p50, p99, most)) => "lat p50 "@ + one_decimal(p50 as nat, 1000, SINGLE as nat) + "ms p99 "@
            + one_decimal(p99 as nat, 1000, SINGLE as nat) + "ms n="@ + decimal(n),
        None => "lat p50 -ms p99 -ms n=0"@,
    }
}

/// The banner: what it begins with, and the latency part where it is shown.
pub open spec fn banner_text(prefix: Seq<char>, hud: bool, m: Option<(u32, u32, u32)>, n: nat) -> Seq<char> {
    if !hud {
        prefix
    } else if prefix.len() == 0 {
        hud_text(m, n)
    } else {
        prefix + "    "@ + hud_text(m, n)
    }
}

/// The banner.
pub fn banner(prefix: &str, hud: bool, ring: &mut LatencyRing) -> (r: String)
    requires
        old(ring).wf(),
    ensures
        r@ == banner_text(prefix@, hud, measured(old(ring).samples()), old(ring).recorded() as nat),
        final(ring).wf(),
        final(ring).samples() == old(ring).samples(),
        final(ring).recorded() == old(ring).recorded(),
{
    let mut out = String::new();
    push_text(&mut out, prefix);
    assert(out@ =~= prefix@);
    if !hud {
        return out;
    }
    if prefix.chars().next().is_some() {
        push_text(&mut out, "    ");
    }
    let ghost head = out@;
    let n = ring.count();
    match ring.percentiles_cached() {
        Some((p50, p99, most)) => {
            push_text(&mut out, "lat p50 ");
            push_text(&mut out, &show_one_decimal(p50 as u64, 1000, SINGLE));
            push_text(&mut out, "ms p99 ");
            push_text(&mut out, &show_one_decimal(p99 as u64, 1000, SINGLE));
            push_text(&mut out, "ms n=");
            push_text(&mut out, &decimal_text(n));
            assert(out@ =~= head + hud_text(Some((p50, p99, most)), n as nat));
        },
        None => {
            push_text(&mut out, "lat p50 -ms p99 -ms n=0");
        },
    }
    assert(prefix@.len() == 0 ==> prefix@ =~= Seq::<char>::empty());
    out
}

/// Percentiles are samples, in order: the median is at most the 99th percentile, and that at most
/// the largest, which no sample exceeds.
pub proof fn percentiles_are_ordered(s: Seq<u32>)
    requires
        0 < s.len() <= LAT_RING_CAP,
    ensures
        measured(s) matches Some((p50, p99, most)) && p50 <= p99 <= most && s.contains(p50) && s.contains(
            p99,
        ) && s.contains(most) && forall|i: int| 0 <= i < s.len() ==> #[trigger] s[i] <= most,
{
    let v = in_size(s);
    let n = s.len() as int;
    s.lemma_sort_by_ensures(at_most());
    s.to_multiset_ensures();
    v.to_multiset_ensures();
    let (a, b) = (rank(n, 50), rank(n, 99));
    assert(0 <= a <= b < n);
    if a < b {
        assert(at_most()(v[a], v[b]));
    }
    if b < n - 1 {
        assert(at_most()(v[b], v[n - 1]));
    }
    assert forall|i: int| 0 <= i < n implies s.contains(#[trigger] v[i]) by {
        assert(v.contains(v[i]));
    }
    assert(s.contains(v[a]) && s.contains(v[b]) && s.contains(v[n - 1]));
    assert forall|i: int| 0 <= i < s.len() implies #[trigger] s[i] <= v.last() by {
        assert(s.contains(s[i]));
        assert(s.to_multiset().count(s[i]) > 0);
        assert(v.contains(s[i]));
        let k = choose|k: int| 0 <= k < v.len() && v[k] == s[i];
        if k < n - 1 {
            assert(at_most()(v[k], v[n - 1]));
        }
    }
}

/// A percentile is a sample: the one whose place, in order of size, is nearest to that share of the
/// way from the least to the greatest.
pub proof fn percentiles_are_samples_at_their_place(s: Seq<u32>)
    requires
        s.len() > 0,
    ensures
        exists|v: Seq<u32>, a: int, b: int|
            #![trigger v[a], v[b]]
            {
                &&& v.to_multiset() == s.to_multiset()
                &&& v.len() == s.len()
                &&& forall|i: int, j: int| 0 <= i < j < v.len() ==> #[trigger] v[i] <= #[trigger] v[j]
                &&& 0 <= a < v.len() && 0 <= b < v.len()
                &&& -50 <= 100 * a - 50 * (s.len() - 1) <= 50
                &&& -50 <= 100 * b - 99 * (s.len() - 1) <= 50
                &&& measured(s) == Some((v[a], v[b], v[v.len() - 1]))
            },
{
    let v = in_size(s);
    let n = s.len() as int;
    s.lemma_sort_by_ensures(at_most());
    s.to_multiset_ensures();
    v.to_multiset_ensures();
    let (a, b) = (rank(n, 50), rank(n, 99));
    assert(0 <= a < n && 0 <= b < n);
    assert forall|i: int, j: int| 0 <= i < j < v.len() implies #[trigger] v[i] <= #[trigger] v[j] by {
        assert(at_most()(v[i], v[j]));
    }
    assert(measured(s) == Some((v[a], v[b], v[v.len() - 1])));
}

/// The newest samples are kept, as many as there is room for.
pub proof fn the_newest_samples_are_kept(s: Seq<u32>, x: u32)
    ensures
        kept(s.push(x)).last() == x,
        kept(s).len() <= 4096,
        s.len() <= 4096 ==> kept(s) == s,
        kept(kept(s).push(x)) == kept(s.push(x)),
        s.len() >= 4096 ==> kept(s.push(x)) == kept(s).skip(1).push(x),
{
    if s.len() >= LAT_RING_CAP {
        if s.len() > LAT_RING_CAP {
            assert(kept(s).push(x).skip(1) =~= s.push(x).skip(s.len() + 1 - LAT_RING_CAP));
        } else {
            assert(kept(s) == s);
        }
        assert(kept(s.push(x)) =~= kept(s).skip(1).push(x));
        assert(kept(kept(s).push(x)) =~= kept(s.push(x)));
    }
}

/// The banner holds what was given and, where it is shown, the latency behind it.
pub proof fn banners_hold_both(prefix: Seq<char>, m: Option<(u32, u32, u32)>, n: nat)
    ensures
        banner_text(prefix, false, m, n) == prefix,
        banner_text(Seq::empty(), true, m, n) == hud_text(m, n),
        prefix.len() > 0 ==> banner_text(prefix, true, m, n) == prefix + seq![' ', ' ', ' ', ' '] + banner_text(
            Seq::empty(),
            true,
            m,
            n,
        ),
{
    reveal_strlit("    ");
    assert("    "@ =~= seq![' ', ' ', ' ', ' ']);
}

/// A session was on time where hardly any keystroke took more than eight milliseconds; the summary says
/// so at its end.
pub proof fn summaries_tell_whether_it_was_on_time(p50: u32, p99: u32, most: u32, n: nat)
    ensures
        ({
            let s = summary_text(Some((p50, p99, most)), n);
            let go = "GO (p99 <= 8ms)"@;
            let late = "NO-GO (p99 > 8ms)"@;
            &&& p99 <= 8_000 ==> s.skip(s.len() - go.len()) == go
            &&& p99 > 8_000 ==> s.skip(s.len() - late.len()) == late
        }),
{
    let s = summary_text(Some((p50, p99, most)), n);
    let go = "GO (p99 <= 8ms)"@;
    let late = "NO-GO (p99 > 8ms)"@;
    if p99 <= ON_TIME {
        assert(s.skip(s.len() - go.len()) =~= go);
    } else {
        assert(s.skip(s.len() - late.len()) =~= late);
    }
}

} // verus!
