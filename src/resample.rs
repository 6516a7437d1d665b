use vstd::prelude::*;
use vstd::arithmetic::div_mod::{
    lemma_div_is_ordered, lemma_div_multiples_vanish, lemma_fundamental_div_mod,
    lemma_mod_multiples_basic,
};
use vstd::arithmetic::mul::lemma_mul_inequality;

use crate::error::TrendError;
use crate::sample::{Sample, strictly_sorted};
use crate::store::PriceHistory;

verus! {

/// Price of the virtual sample at the beginning of time.
pub const FALLBACK_PRICE_CENTS: u32 = 439;

/// The largest timestamp, where the virtual sample at the end of time sits.
pub const END_OF_TIME: u64 = 0xffff_ffff_ffff_ffff;

/// Largest price in cents.
pub const MAX_PRICE_CENTS: u32 = 0xffff_ffff;

/// Width of one bucket for the window `[begin, end]`: a hundredth of it, and
/// at least one second.
pub open spec fn width_of(begin: u64, end: u64) -> u64 {
    if (end - begin) / 100 >= 1 {
        ((end - begin) / 100) as u64
    } else {
        1
    }
}

/// Timestamps never decrease along `s`.
pub open spec fn sorted_by_time(s: Seq<Sample>) -> bool {
    forall|i: int, j: int| 0 <= i <= j < s.len() ==> s[i].timestamp <= s[j].timestamp
}

/// The series padded with its two virtual samples: the fallback price at
/// timestamp zero and, if the series is not empty, its latest price at the
/// end of time.
pub open spec fn padded(s: Seq<Sample>) -> Seq<Sample> {
    let low = seq![Sample { timestamp: 0, price_cents: FALLBACK_PRICE_CENTS }];
    if s.len() == 0 {
        low
    } else {
        low + s + seq![Sample { timestamp: END_OF_TIME, price_cents: s.last().price_cents }]
    }
}

/// Timestamp of the latest sample of the sorted series `s` at or before
/// `begin`, or zero where there is none.
pub open spec fn lower_edge(s: Seq<Sample>, begin: u64) -> u64
    decreases s.len(),
{
    if s.len() == 0 {
        0
    } else if s.last().timestamp <= begin {
        s.last().timestamp
    } else {
        lower_edge(s.drop_last(), begin)
    }
}

/// Timestamp of the earliest sample of the sorted series `s` at or after
/// `end`, or the end of time where there is none.
pub open spec fn upper_edge(s: Seq<Sample>, end: u64) -> u64
    decreases s.len(),
{
    if s.len() == 0 {
        END_OF_TIME
    } else if s[0].timestamp >= end {
        s[0].timestamp
    } else {
        upper_edge(s.drop_first(), end)
    }
}

/// The samples of `xs` whose timestamps lie in `[lo, hi]`, in their order.
pub open spec fn between(xs: Seq<Sample>, lo: u64, hi: u64) -> Seq<Sample>
    decreases xs.len(),
{
    if xs.len() == 0 {
        Seq::empty()
    } else {
        let rest = between(xs.drop_last(), lo, hi);
        let x = xs.last();
        if lo <= x.timestamp && x.timestamp <= hi {
            rest.push(x)
        } else {
            rest
        }
    }
}

/// The samples that a query of `[begin, end]` reads: the padded series
/// clamped to the nearest samples at or beyond each edge.
pub open spec fn window(s: Seq<Sample>, begin: u64, end: u64) -> Seq<Sample> {
    between(padded(s), lower_edge(s, begin), upper_edge(s, end))
}

/// Start of the bucket of width `w` that holds timestamp `t`.
pub open spec fn bucket_key(t: u64, w: u64) -> int {
    (t / w) * w
}

/// Runs of consecutive samples of `xs` in one bucket, each as its bucket
/// start, the sum of its prices, and its number of samples.
pub open spec fn groups(xs: Seq<Sample>, w: u64) -> Seq<(int, int, int)>
    decreases xs.len(),
{
    if xs.len() == 0 {
        Seq::empty()
    } else {
        let g = groups(xs.drop_last(), w);
        let x = xs.last();
        let k = bucket_key(x.timestamp, w);
        if g.len() > 0 && g.last().0 == k {
            g.update(g.len() - 1, (k, g.last().1 + x.price_cents, g.last().2 + 1))
        } else {
            g.push((k, x.price_cents as int, 1))
        }
    }
}

/// Each group as its bucket start and the floored mean of its prices.
pub open spec fn averaged(gs: Seq<(int, int, int)>) -> Seq<Sample> {
    gs.map_values(|g: (int, int, int)| Sample { timestamp: g.0 as u64, price_cents: (g.1 / g.2) as u32 })
}

/// The buckets of `xs` at width `w`, each with the floored mean price.
pub open spec fn bucketed(xs: Seq<Sample>, w: u64) -> Seq<Sample> {
    averaged(groups(xs, w))
}

/// The answer to a query of `[begin, end]` on the series `s`.
pub open spec fn resampled(s: Seq<Sample>, begin: u64, end: u64) -> Seq<Sample> {
    bucketed(window(s, begin, end), width_of(begin, end))
}

/// Bucket starts strictly increase along `r` and are multiples of `w`.
pub open spec fn aligned_buckets(r: Seq<Sample>, w: u64) -> bool {
    &&& forall|i: int, j: int| 0 <= i < j < r.len() ==> r[i].timestamp < r[j].timestamp
    &&& forall|i: int| 0 <= i < r.len() ==> #[trigger] r[i].timestamp % w == 0
}

/// Width of one bucket for the window `[begin, end]`.
pub fn bucket_width(begin: u64, end: u64) -> (r: u64)
    requires
        begin <= end,
    ensures
        r == width_of(begin, end),
        r >= 1,
{
    let w: u64 = (end - begin) / 100;
    if w >= 1 {
        w
    } else {
        1
    }
}

proof fn lemma_key_bounds(t: u64, w: u64)
    requires
        w > 0,
    ensures
        0 <= bucket_key(t, w) <= t,
        bucket_key(t, w) % (w as int) == 0,
{
    lemma_fundamental_div_mod(t as int, w as int);
    lemma_mod_multiples_basic(t as int / w as int, w as int);
    assert((t as int / w as int) * (w as int) == (w as int) * (t as int / w as int)) by (nonlinear_arith);
    assert(0 <= (t as int / w as int) * (w as int)) by (nonlinear_arith)
        requires
            w > 0,
            t as int / w as int >= 0,
    ;
}

proof fn lemma_key_ordered(a: u64, b: u64, w: u64)
    requires
        w > 0,
        a <= b,
    ensures
        bucket_key(a, w) <= bucket_key(b, w),
{
    lemma_div_is_ordered(a as int, b as int, w as int);
    lemma_mul_inequality(a as int / w as int, b as int / w as int, w as int);
}

proof fn lemma_groups_shape(xs: Seq<Sample>, w: u64)
    requires
        w > 0,
        sorted_by_time(xs),
    ensures
        groups(xs, w).len() == 0 <==> xs.len() == 0,
        xs.len() > 0 ==> groups(xs, w).last().0 == bucket_key(xs.last().timestamp, w),
        forall|i: int, j: int|
            0 <= i < j < groups(xs, w).len() ==> groups(xs, w)[i].0 < groups(xs, w)[j].0,
        forall|i: int|
            0 <= i < groups(xs, w).len() ==> {
                let g = #[trigger] groups(xs, w)[i];
                &&& 0 <= g.0 <= END_OF_TIME
                &&& g.0 % (w as int) == 0
                &&& exists|t: u64| g.0 == bucket_key(t, w)
                &&& 1 <= g.2 <= xs.len()
                &&& 0 <= g.1 <= g.2 * MAX_PRICE_CENTS
            },
    decreases xs.len(),
{
    if xs.len() > 0 {
        let ys = xs.drop_last();
        assert(sorted_by_time(ys));
        lemma_groups_shape(ys, w);
        let x = xs.last();
        lemma_key_bounds(x.timestamp, w);
        if ys.len() > 0 {
            lemma_key_ordered(ys.last().timestamp, x.timestamp, w);
        }
    }
}

/// Groups the sorted samples `xs` into buckets of width `w`; each bucket
/// gives its start and the floored mean of its prices.
pub fn bucket_averages(xs: &Vec<Sample>, w: u64) -> (r: Vec<Sample>)
    requires
        w >= 1,
        sorted_by_time(xs@),
    ensures
        r@ == bucketed(xs@, w),
        aligned_buckets(r@, w),
{
    let n = xs.len();
    let mut gs: Vec<(u64, u128, u64)> = Vec::new();
    let mut i: usize = 0;
    while i < n
        invariant
            n == xs@.len(),
            w >= 1,
            sorted_by_time(xs@),
            i <= n,
            gs@.len() == groups(xs@.take(i as int), w).len(),
            forall|j: int|
                0 <= j < gs@.len() ==> {
                    let g = #[trigger] groups(xs@.take(i as int), w)[j];
                    &&& g.0 == gs@[j].0 as int
                    &&& g.1 == gs@[j].1 as int
                    &&& g.2 == gs@[j].2 as int
                },
        decreases n - i,
    {
        let ghost prefix = xs@.take(i as int);
        let ghost next = xs@.take(i as int + 1);
        proof {
            assert(next.drop_last() =~= prefix);
            assert(sorted_by_time(prefix));
            lemma_groups_shape(prefix, w);
            lemma_key_bounds(xs@[i as int].timestamp, w);
        }
        let x = xs[i];
        let k: u64 = (x.timestamp / w) * w;
        let m = gs.len();
        if m > 0 && gs[m - 1].0 == k {
            let last = gs[m - 1];
            assert(last.2 <= i);
            assert(last.1 <= last.2 * MAX_PRICE_CENTS);
            gs.set(m - 1, (k, last.1 + x.price_cents as u128, last.2 + 1));
        } else {
            gs.push((k, x.price_cents as u128, 1));
        }
        i = i + 1;
    }
    proof {
        assert(xs@.take(n as int) =~= xs@);
        lemma_groups_shape(xs@, w);
    }
    let mut r: Vec<Sample> = Vec::new();
    let mut j: usize = 0;
    while j < gs.len()
        invariant
            j <= gs@.len(),
            gs@.len() == groups(xs@, w).len(),
            forall|q: int|
                0 <= q < gs@.len() ==> {
                    let g = #[trigger] groups(xs@, w)[q];
                    &&& g.0 == gs@[q].0 as int
                    &&& g.1 == gs@[q].1 as int
                    &&& g.2 == gs@[q].2 as int
                },
            forall|q: int|
                0 <= q < groups(xs@, w).len() ==> {
                    let g = #[trigger] groups(xs@, w)[q];
                    &&& 1 <= g.2
                    &&& 0 <= g.1 <= g.2 * MAX_PRICE_CENTS
                },
            r@ =~= bucketed(xs@, w).take(j as int),
        decreases gs@.len() - j,
    {
        let g = gs[j];
        proof {
            let gg = groups(xs@, w)[j as int];
            lemma_div_is_ordered(gg.1, gg.2 * MAX_PRICE_CENTS, gg.2);
            lemma_div_multiples_vanish(MAX_PRICE_CENTS as int, gg.2);
            assert(gg.2 * MAX_PRICE_CENTS == gg.2 * (MAX_PRICE_CENTS as int));
        }
        let avg = (g.1 / (g.2 as u128)) as u32;
        r.push(Sample { timestamp: g.0, price_cents: avg });
        j = j + 1;
    }
    proof {
        assert(r@ =~= bucketed(xs@, w));
        assert forall|a: int, b: int| 0 <= a < b < r@.len() implies r@[a].timestamp < r@[b].timestamp by {
            assert(groups(xs@, w)[a].0 < groups(xs@, w)[b].0);
        }
        assert forall|a: int| 0 <= a < r@.len() implies #[trigger] r@[a].timestamp % w == 0 by {
            assert(groups(xs@, w)[a].0 % (w as int) == 0);
        }
    }
    r
}

proof fn lemma_padded_sorted(s: Seq<Sample>)
    requires
        strictly_sorted(s),
    ensures
        sorted_by_time(padded(s)),
{
    let p = padded(s);
    if s.len() > 0 {
        assert forall|i: int, j: int| 0 <= i <= j < p.len() implies p[i].timestamp <= p[j].timestamp by {
            if 0 < i && j < p.len() - 1 {
                assert(p[i] == s[i - 1]);
                assert(p[j] == s[j - 1]);
            }
        }
    }
}

proof fn lemma_between_sorted(xs: Seq<Sample>, lo: u64, hi: u64)
    requires
        sorted_by_time(xs),
    ensures
        sorted_by_time(between(xs, lo, hi)),
        forall|k: int|
            0 <= k < between(xs, lo, hi).len() ==> xs.len() > 0
                && (#[trigger] between(xs, lo, hi)[k]).timestamp <= xs.last().timestamp,
    decreases xs.len(),
{
    if xs.len() > 0 {
        let ys = xs.drop_last();
        assert(sorted_by_time(ys));
        lemma_between_sorted(ys, lo, hi);
        if ys.len() > 0 {
            assert(ys.last().timestamp <= xs.last().timestamp);
        }
    }
}

fn lower_edge_of(s: &Vec<Sample>, begin: u64) -> (r: u64)
    ensures
        r == lower_edge(s@, begin),
{
    let mut k: usize = s.len();
    proof {
        assert(s@.take(k as int) =~= s@);
    }
    while k > 0 && s[k - 1].timestamp > begin
        invariant
            k <= s@.len(),
            lower_edge(s@, begin) == lower_edge(s@.take(k as int), begin),
        decreases k,
    {
        assert(s@.take(k as int).drop_last() =~= s@.take(k - 1));
        k = k - 1;
    }
    if k == 0 {
        0
    } else {
        s[k - 1].timestamp
    }
}

fn upper_edge_of(s: &Vec<Sample>, end: u64) -> (r: u64)
    ensures
        r == upper_edge(s@, end),
{
    let n = s.len();
    let mut k: usize = 0;
    proof {
        assert(s@.skip(0) =~= s@);
    }
    while k < n && s[k].timestamp < end
        invariant
            n == s@.len(),
            k <= n,
            upper_edge(s@, end) == upper_edge(s@.skip(k as int), end),
        decreases n - k,
    {
        assert(s@.skip(k as int).drop_first() =~= s@.skip(k + 1));
        k = k + 1;
    }
    if k == n {
        END_OF_TIME
    } else {
        s[k].timestamp
    }
}

fn padded_of(s: &Vec<Sample>) -> (r: Vec<Sample>)
    ensures
        r@ == padded(s@),
{
    let n = s.len();
    let mut r: Vec<Sample> = Vec::new();
    r.push(Sample { timestamp: 0, price_cents: FALLBACK_PRICE_CENTS });
    let mut i: usize = 0;
    while i < n
        invariant
            n == s@.len(),
            i <= n,
            r@ =~= seq![Sample { timestamp: 0, price_cents: FALLBACK_PRICE_CENTS }] + s@.take(i as int),
        decreases n - i,
    {
        r.push(s[i]);
        i = i + 1;
    }
    assert(s@.take(n as int) =~= s@);
    if n > 0 {
        r.push(Sample { timestamp: END_OF_TIME, price_cents: s[n - 1].price_cents });
    }
    assert(r@ =~= padded(s@));
    r
}

fn keep_between(xs: &Vec<Sample>, lo: u64, hi: u64) -> (r: Vec<Sample>)
    ensures
        r@ == between(xs@, lo, hi),
{
    let n = xs.len();
    let mut r: Vec<Sample> = Vec::new();
    let mut i: usize = 0;
    while i < n
        invariant
            n == xs@.len(),
            i <= n,
            r@ == between(xs@.take(i as int), lo, hi),
        decreases n - i,
    {
        assert(xs@.take(i + 1).drop_last() =~= xs@.take(i as int));
        let x = xs[i];
        if lo <= x.timestamp && x.timestamp <= hi {
            r.push(x);
        }
        i = i + 1;
    }
    assert(xs@.take(n as int) =~= xs@);
    r
}

/// The samples that a query of `[begin, end]` on the sorted series `s`
/// reads, by ascending timestamp.
pub fn window_of(s: &Vec<Sample>, begin: u64, end: u64) -> (r: Vec<Sample>)
    requires
        strictly_sorted(s@),
    ensures
        r@ == window(s@, begin, end),
        sorted_by_time(r@),
{
    let lo = lower_edge_of(s, begin);
    let hi = upper_edge_of(s, end);
    let p = padded_of(s);
    proof {
        lemma_padded_sorted(s@);
        lemma_between_sorted(p@, lo, hi);
    }
    keep_between(&p, lo, hi)
}

impl PriceHistory {
    /// Condenses the window `[begin, end]` into buckets of
    /// `bucket_width(begin, end)` seconds, each with the floored mean price
    /// of the samples in it. The window reaches out to the nearest sample at
    /// or beyond each edge, virtual ones included. A window that begins after
    /// it ends is refused, and the series is not read.
    pub fn resample(&self, begin: u64, end: u64) -> (r: Result<Vec<Sample>, TrendError>)
        requires
            self.wf(),
        ensures
            begin > end ==> r == Err::<Vec<Sample>, TrendError>(TrendError::InvalidRange),
            begin <= end ==> r.is_ok() && r.unwrap()@ == resampled(self@, begin, end),
            begin <= end ==> aligned_buckets(r.unwrap()@, width_of(begin, end)),
    {
        if end < begin {
            return Err(TrendError::InvalidRange);
        }
        let w = bucket_width(begin, end);
        let win = window_of(self.samples(), begin, end);
        Ok(bucket_averages(&win, w))
    }
}

} // verus!
