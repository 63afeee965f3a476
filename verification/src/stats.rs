//! Statistics over timing samples: best, worst, median and average of the
//! samples collected for one (revision, workload) pair.

use vstd::prelude::*;

verus! {

use vstd::multiset::Multiset;
use vstd::relations::{sorted_by, total_ordering};
use vstd::seq_lib::lemma_sorted_unique;
use vstd::seq_lib::lemma_multiset_commutative;
use vstd::arithmetic::div_mod::{
    lemma_fundamental_div_mod,
    lemma_fundamental_div_mod_converse_div,
    lemma_div_pos_is_pos,
    lemma_div_is_ordered,
    lemma_div_multiples_vanish,
};

/// The order on samples used for sorting: ordinary `<=` on integers.
pub open spec fn sample_leq() -> spec_fn(u128, u128) -> bool {
    |x: u128, y: u128| x <= y
}

pub proof fn lemma_sample_leq_total()
    ensures
        total_ordering(sample_leq()),
{
    let leq = sample_leq();
    assert forall|x: u128, y: u128| !(#[trigger] leq(x, y)) implies leq(y, x) by {}
}

/// The samples in ascending order.
pub open spec fn sorted_samples(s: Seq<u128>) -> Seq<u128> {
    s.sort_by(sample_leq())
}

/// The sum of a sample sequence, as an unbounded integer.
pub open spec fn sum_of(s: Seq<u128>) -> int
    decreases s.len(),
{
    if s.len() == 0 {
        0
    } else {
        sum_of(s.drop_last()) + s.last()
    }
}

/// Minimum sample; 0 for an empty sequence (a defensive default only:
/// recorded results always hold at least one sample).
pub open spec fn spec_best(s: Seq<u128>) -> u128 {
    if s.len() == 0 {
        0
    } else {
        sorted_samples(s)[0]
    }
}

/// Maximum sample; 0 for an empty sequence.
pub open spec fn spec_worst(s: Seq<u128>) -> u128 {
    if s.len() == 0 {
        0
    } else {
        sorted_samples(s).last()
    }
}

/// Median sample: middle element of the sorted samples for an odd count,
/// truncated average of the two middle elements for an even count;
/// 0 for an empty sequence.
pub open spec fn spec_median(s: Seq<u128>) -> u128 {
    if s.len() == 0 {
        0
    } else {
        let t = sorted_samples(s);
        let n = s.len() as int;
        if n % 2 == 0 {
            ((t[n / 2 - 1] + t[n / 2]) / 2) as u128
        } else {
            t[n / 2]
        }
    }
}

/// Truncated arithmetic mean; 0 for an empty sequence.
pub open spec fn spec_average(s: Seq<u128>) -> u128 {
    if s.len() == 0 {
        0
    } else {
        (sum_of(s) / (s.len() as int)) as u128
    }
}

/// The facts `lemma_sort_by_ensures` gives, restated for `sorted_samples`.
pub proof fn lemma_sorted_samples(s: Seq<u128>)
    ensures
        sorted_samples(s).len() == s.len(),
        sorted_samples(s).to_multiset() == s.to_multiset(),
        sorted_by(sorted_samples(s), sample_leq()),
        forall|i: int, j: int|
            0 <= i <= j < s.len() ==> sorted_samples(s)[i] <= sorted_samples(s)[j],
{
    broadcast use vstd::seq_lib::group_to_multiset_ensures;

    lemma_sample_leq_total();
    s.lemma_sort_by_ensures(sample_leq());
    let t = sorted_samples(s);
    assert(t.to_multiset().len() == t.len());
    assert(s.to_multiset().len() == s.len());
    assert forall|i: int, j: int| 0 <= i <= j < s.len() implies t[i] <= t[j] by {
        if i < j {
            assert(sample_leq()(t[i], t[j]));
        }
    }
}

/// Every sample lies between the best and the worst.
pub proof fn lemma_element_bounds(s: Seq<u128>, i: int)
    requires
        0 <= i < s.len(),
    ensures
        spec_best(s) <= s[i] <= spec_worst(s),
{
    broadcast use vstd::seq_lib::group_to_multiset_ensures;

    lemma_sorted_samples(s);
    let t = sorted_samples(s);
    assert(s.contains(s[i]));
    assert(t.to_multiset().count(s[i]) > 0);
    assert(t.contains(s[i]));
    let j = choose|j: int| 0 <= j < t.len() && t[j] == s[i];
    assert(t[0] <= t[j]);
    assert(t[j] <= t[t.len() - 1]);
}

/// Best and worst are themselves samples (for a non-empty sequence).
pub proof fn lemma_best_worst_present(s: Seq<u128>)
    requires
        s.len() > 0,
    ensures
        s.contains(spec_best(s)),
        s.contains(spec_worst(s)),
{
    broadcast use vstd::seq_lib::group_to_multiset_ensures;

    lemma_sorted_samples(s);
    let t = sorted_samples(s);
    assert(t.contains(t[0]));
    assert(s.to_multiset().count(t[0]) > 0);
    assert(t.contains(t[t.len() - 1]));
    assert(s.to_multiset().count(t[t.len() - 1]) > 0);
}

/// A value that occurs in the sequence and is below every element is the best.
pub proof fn lemma_min_characterization(s: Seq<u128>, m: u128)
    requires
        s.contains(m),
        forall|k: int| 0 <= k < s.len() ==> m <= #[trigger] s[k],
    ensures
        m == spec_best(s),
{
    lemma_best_worst_present(s);
    lemma_element_bounds(s, choose|k: int| 0 <= k < s.len() && s[k] == m);
    let b = spec_best(s);
    let k = choose|k: int| 0 <= k < s.len() && s[k] == b;
    assert(m <= s[k]);
}

/// A value that occurs in the sequence and is above every element is the worst.
pub proof fn lemma_max_characterization(s: Seq<u128>, m: u128)
    requires
        s.contains(m),
        forall|k: int| 0 <= k < s.len() ==> #[trigger] s[k] <= m,
    ensures
        m == spec_worst(s),
{
    lemma_best_worst_present(s);
    lemma_element_bounds(s, choose|k: int| 0 <= k < s.len() && s[k] == m);
    let w = spec_worst(s);
    let k = choose|k: int| 0 <= k < s.len() && s[k] == w;
    assert(s[k] <= m);
}

/// Sums are bounded by any uniform bounds on the elements.
proof fn lemma_sum_bounds(s: Seq<u128>, lo: int, hi: int)
    requires
        forall|i: int| 0 <= i < s.len() ==> lo <= #[trigger] s[i] <= hi,
    ensures
        lo * s.len() <= sum_of(s) <= hi * s.len(),
    decreases s.len(),
{
    if s.len() == 0 {
    } else {
        let d = s.drop_last();
        assert(forall|i: int| 0 <= i < d.len() ==> lo <= #[trigger] d[i] <= hi);
        lemma_sum_bounds(d, lo, hi);
        assert(lo <= s.last() <= hi);
        assert(lo * s.len() == lo * d.len() + lo) by (nonlinear_arith)
            requires s.len() == d.len() + 1;
        assert(hi * s.len() == hi * d.len() + hi) by (nonlinear_arith)
            requires s.len() == d.len() + 1;
    }
}

/// The truncated average of two ordered values lies between them and can be
/// computed without overflow as `a + (b - a) / 2`.
proof fn lemma_midpoint(a: int, b: int)
    requires
        0 <= a <= b,
    ensures
        a + (b - a) / 2 == (a + b) / 2,
        a <= (a + b) / 2 <= b,
{
    lemma_fundamental_div_mod(b - a, 2);
    let q = (b - a) / 2;
    let r = (b - a) % 2;
    lemma_div_pos_is_pos(b - a, 2);
    lemma_fundamental_div_mod_converse_div(a + b, 2, a + q, r);
    assert(a + q <= b);
}

/// Law: for any non-empty sample sequence, `best <= median <= worst` and
/// `best <= average <= worst`.
pub proof fn lemma_stats_bounds(s: Seq<u128>)
    requires
        s.len() > 0,
    ensures
        spec_best(s) <= spec_median(s) <= spec_worst(s),
        spec_best(s) <= spec_average(s) <= spec_worst(s),
{
    lemma_sorted_samples(s);
    let t = sorted_samples(s);
    let n = s.len() as int;
    let lo = spec_best(s) as int;
    let hi = spec_worst(s) as int;

    // median
    if n % 2 == 0 {
        let a = t[n / 2 - 1];
        let b = t[n / 2];
        assert(t[0] <= a);
        assert(a <= b);
        assert(b <= t[n - 1]);
        lemma_midpoint(a as int, b as int);
    } else {
        assert(t[0] <= t[n / 2]);
        assert(t[n / 2] <= t[n - 1]);
    }

    // average
    assert forall|i: int| 0 <= i < s.len() implies lo <= #[trigger] s[i] <= hi by {
        lemma_element_bounds(s, i);
    }
    lemma_sum_bounds(s, lo, hi);
    lemma_div_is_ordered(lo * n, sum_of(s), n);
    lemma_div_is_ordered(sum_of(s), hi * n, n);
    lemma_div_multiples_vanish(lo, n);
    lemma_div_multiples_vanish(hi, n);
}

/// Inserts a sample into an ascending vector, keeping it ascending.
fn insert_ascending(v: &mut Vec<u128>, x: u128)
    requires
        sorted_by(old(v)@, sample_leq()),
        old(v)@.len() < usize::MAX,
    ensures
        sorted_by(final(v)@, sample_leq()),
        final(v)@.to_multiset() == old(v)@.to_multiset().insert(x),
        final(v)@.len() == old(v)@.len() + 1,
{
    broadcast use vstd::seq_lib::group_to_multiset_ensures;

    let ghost orig = v@;
    let mut idx: usize = 0;
    while idx < v.len() && v[idx] <= x
        invariant
            idx <= v.len(),
            v@ == orig,
            forall|k: int| 0 <= k < idx ==> #[trigger] orig[k] <= x,
        decreases v.len() - idx,
    {
        idx += 1;
    }
    v.insert(idx, x);
    proof {
        let leq = sample_leq();
        assert forall|i: int, j: int| 0 <= i < j < v@.len() implies leq(v@[i], v@[j]) by {
            assert(v@ == orig.insert(idx as int, x));
            if j < idx {
                assert(leq(orig[i], orig[j]));
            } else if i > idx {
                assert(leq(orig[i - 1], orig[j - 1]));
            } else if i == idx && j > idx {
                // x < orig[idx] <= orig[j - 1]
                if idx < orig.len() {
                    assert(leq(orig[idx as int], orig[j - 1]));
                }
            } else if j == idx {
                assert(orig[i] <= x);
            } else if i < idx && j > idx {
                assert(leq(orig[i], orig[j - 1]));
                assert(orig[i] <= x || orig[j - 1] >= x);
            }
        }
        // multiset: insert splits into take + [x] + skip
        let s = orig;
        let i = idx as int;
        assert(v@ == s.insert(i, x));
        assert(s.insert(i, x) =~= s.take(i) + (seq![x] + s.skip(i)));
        lemma_multiset_commutative(s.take(i), seq![x] + s.skip(i));
        lemma_multiset_commutative(seq![x], s.skip(i));
        assert(seq![x] =~= Seq::<u128>::empty().push(x));
        assert(seq![x].to_multiset() =~= Multiset::<u128>::empty().insert(x));
        assert(s =~= s.take(i) + s.skip(i));
        lemma_multiset_commutative(s.take(i), s.skip(i));
        assert(v@.to_multiset() =~= s.to_multiset().insert(x));
    }
}

/// Returns the samples in ascending order.
pub fn sorted_copy(xs: &Vec<u128>) -> (r: Vec<u128>)
    ensures
        r@ == sorted_samples(xs@),
{
    broadcast use vstd::seq_lib::group_to_multiset_ensures;

    let mut r: Vec<u128> = Vec::new();
    let mut i: usize = 0;
    while i < xs.len()
        invariant
            i <= xs.len(),
            sorted_by(r@, sample_leq()),
            r@.len() == i,
            r@.to_multiset() == xs@.take(i as int).to_multiset(),
        decreases xs.len() - i,
    {
        let ghost before = r@;
        insert_ascending(&mut r, xs[i]);
        proof {
            xs@.take(i as int).to_multiset_ensures();
            assert(xs@.take(i + 1 as int) =~= xs@.take(i as int).push(xs@[i as int]));
        }
        i += 1;
    }
    proof {
        assert(xs@.take(xs@.len() as int) =~= xs@);
        lemma_sample_leq_total();
        lemma_sorted_samples(xs@);
        lemma_sorted_unique(r@, sorted_samples(xs@), sample_leq());
    }
    r
}

/// All samples gathered by running one built artifact against one workload.
/// A result is only ever recorded with at least one sample.
#[derive(Debug)]
pub struct BenchmarkResult {
    pub benchmark: String,
    pub commit: String,
    pub times: Vec<u128>,
}

impl BenchmarkResult {
    /// The fastest sample.
    pub fn best(&self) -> (r: u128)
        ensures
            r == spec_best(self.times@),
    {
        if self.times.len() == 0 {
            return 0;
        }
        let mut m = self.times[0];
        let mut i: usize = 1;
        proof {
            assert(self.times@.take(1)[0] == m);
        }
        while i < self.times.len()
            invariant
                1 <= i <= self.times@.len(),
                self.times@.take(i as int).contains(m),
                forall|k: int| 0 <= k < i ==> m <= #[trigger] self.times@[k],
            decreases self.times@.len() - i,
        {
            let ghost before = i as int;
            if self.times[i] < m {
                m = self.times[i];
            }
            proof {
                let s = self.times@;
                if s.take(before).contains(m) {
                    let j = choose|j: int| 0 <= j < before && s.take(before)[j] == m;
                    assert(s.take(before + 1)[j] == m);
                } else {
                    assert(s.take(before + 1)[before] == m);
                }
            }
            i += 1;
        }
        proof {
            assert(self.times@.take(self.times@.len() as int) =~= self.times@);
            lemma_min_characterization(self.times@, m);
        }
        m
    }

    /// The slowest sample.
    pub fn worst(&self) -> (r: u128)
        ensures
            r == spec_worst(self.times@),
    {
        if self.times.len() == 0 {
            return 0;
        }
        let mut m = self.times[0];
        let mut i: usize = 1;
        proof {
            assert(self.times@.take(1)[0] == m);
        }
        while i < self.times.len()
            invariant
                1 <= i <= self.times@.len(),
                self.times@.take(i as int).contains(m),
                forall|k: int| 0 <= k < i ==> #[trigger] self.times@[k] <= m,
            decreases self.times@.len() - i,
        {
            let ghost before = i as int;
            if self.times[i] > m {
                m = self.times[i];
            }
            proof {
                let s = self.times@;
                if s.take(before).contains(m) {
                    let j = choose|j: int| 0 <= j < before && s.take(before)[j] == m;
                    assert(s.take(before + 1)[j] == m);
                } else {
                    assert(s.take(before + 1)[before] == m);
                }
            }
            i += 1;
        }
        proof {
            assert(self.times@.take(self.times@.len() as int) =~= self.times@);
            lemma_max_characterization(self.times@, m);
        }
        m
    }

    /// The median sample: middle of the sorted samples, or the truncated
    /// average of the two middle ones for an even count.
    pub fn median(&self) -> (r: u128)
        ensures
            r == spec_median(self.times@),
    {
        let n = self.times.len();
        if n == 0 {
            return 0;
        }
        let sorted = sorted_copy(&self.times);
        proof {
            lemma_sorted_samples(self.times@);
        }
        if n % 2 == 0 {
            let a = sorted[n / 2 - 1];
            let b = sorted[n / 2];
            proof {
                lemma_midpoint(a as int, b as int);
            }
            a + (b - a) / 2
        } else {
            sorted[n / 2]
        }
    }

    /// The truncated arithmetic mean of the samples. The quotient is
    /// accumulated sample by sample, so the full sum never has to fit
    /// in a machine integer.
    pub fn average(&self) -> (r: u128)
        ensures
            r == spec_average(self.times@),
    {
        let n = self.times.len();
        if n == 0 {
            return 0;
        }
        let nn = n as u128;
        let ghost s = self.times@;
        let ghost total = sum_of(s);
        proof {
            assert forall|i: int| 0 <= i < s.len() implies 0 <= #[trigger] s[i] <= u128::MAX by {}
            lemma_sum_bounds(s, 0, u128::MAX as int);
        }
        let mut q: u128 = 0;
        let mut rem: u128 = 0;
        let mut i: usize = 0;
        while i < n
            invariant
                i <= n,
                s == self.times@,
                n == s.len(),
                nn == n as u128,
                n >= 1,
                total == sum_of(s),
                total <= (u128::MAX as int) * (n as int),
                q * nn + rem == sum_of(s.take(i as int)),
                rem < nn,
            decreases n - i,
        {
            let ghost sp = sum_of(s.take(i as int));
            let ghost sn = sum_of(s.take(i + 1 as int));
            let ghost q0 = q as int;
            let x = self.times[i];
            let qa = x / nn;
            let ra = x % nn;
            proof {
                assert(s.take(i + 1 as int).drop_last() =~= s.take(i as int));
                assert(s.take(i + 1 as int).last() == s[i as int]);
                assert(sn == sp + x);
                lemma_fundamental_div_mod(x as int, nn as int);
                lemma_sum_prefix_monotone(s, i + 1 as int);
                assert(q0 + qa <= u128::MAX) by (nonlinear_arith)
                    requires
                        q0 * nn + rem == sp,
                        x == (nn as int) * qa + ra,
                        sn == sp + x,
                        rem >= 0,
                        ra >= 0,
                        qa >= 0,
                        q0 >= 0,
                        nn > 0,
                        sn <= (u128::MAX as int) * (nn as int);
            }
            q = q + qa;
            let rs = rem + ra;
            proof {
                assert((q as int) * nn + rs == sn) by (nonlinear_arith)
                    requires
                        q == q0 + qa,
                        q0 * nn + rem == sp,
                        x == (nn as int) * qa + ra,
                        rs == rem + ra,
                        sn == sp + x;
            }
            if rs >= nn {
                proof {
                    assert(((q + 1) as int) * nn + (rs - nn) == sn) by (nonlinear_arith)
                        requires
                            (q as int) * nn + rs == sn;
                    assert(q + 1 <= u128::MAX) by (nonlinear_arith)
                        requires
                            ((q as int) + 1) * nn + (rs - nn) == sn,
                            rs - nn >= 0,
                            (q as int) + 1 >= 0,
                            sn <= (u128::MAX as int) * (nn as int),
                            nn > 0;
                }
                q = q + 1;
                rem = rs - nn;
            } else {
                rem = rs;
            }
            i += 1;
        }
        proof {
            assert(s.take(n as int) =~= s);
            lemma_fundamental_div_mod_converse_div(sum_of(s), nn as int, q as int, rem as int);
        }
        q
    }
}

/// Prefix sums never exceed the whole sum (samples are non-negative).
proof fn lemma_sum_prefix_monotone(s: Seq<u128>, i: int)
    requires
        0 <= i <= s.len(),
    ensures
        sum_of(s.take(i)) <= sum_of(s),
    decreases s.len() - i,
{
    if i == s.len() {
        assert(s.take(i) =~= s);
    } else {
        lemma_sum_prefix_monotone(s, i + 1);
        assert(s.take(i + 1).drop_last() =~= s.take(i));
        assert(sum_of(s.take(i + 1)) == sum_of(s.take(i)) + s[i]);
    }
}

} // verus!
