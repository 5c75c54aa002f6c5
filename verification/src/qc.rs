//! Quality control over measured depths: the statistical cutoff
//! `max(0, mean - k * stddev)` (population standard deviation, divisor n),
//! the included/excluded partition, and the common target depth.
//!
//! The cutoff comparison is carried out in exact integer arithmetic. With
//! n files, S the sum of depths and Q the sum of squared depths,
//! `mean = S / n` and `stddev = sqrt(n * Q - S * S) / n`, so
//! `d >= max(0, mean - k * stddev)` (with `k = k_num / k_den >= 0` and
//! `d >= 0`) holds exactly when `n * d >= S`, or else when
//! `k_num^2 * (n * Q - S^2) >= k_den^2 * (S - n * d)^2`: multiply the
//! inequality through by `n * k_den` and square both sides, which are then
//! nonnegative. [`clears_cutoff`] is that restatement, free of reals and
//! of rounding.

use vstd::prelude::*;

verus! {

/// Largest depth the filter accepts; with [`MAX_FILES`] and
/// [`MAX_SIGMA_SCALE`] it keeps every intermediate product within `u128`.
pub const MAX_DEPTH: u64 = 0x10_0000_0000;

/// Largest number of files the filter accepts.
pub const MAX_FILES: usize = 1024;

/// Largest numerator and denominator of the sigma threshold `k`.
pub const MAX_SIGMA_SCALE: u64 = 0x2_0000;

/// The sum of the measured depths.
pub open spec fn depth_sum(s: Seq<u64>) -> int
    decreases s.len(),
{
    if s.len() == 0 {
        0
    } else {
        depth_sum(s.drop_last()) + s.last()
    }
}

/// The sum of the squared depths.
pub open spec fn depth_sq_sum(s: Seq<u64>) -> int
    decreases s.len(),
{
    if s.len() == 0 {
        0
    } else {
        depth_sq_sum(s.drop_last()) + s.last() * s.last()
    }
}

/// n^2 times the population variance: `n * Q - S^2`; nonnegative by
/// [`lemma_disc_nonneg`].
pub open spec fn disc(s: Seq<u64>) -> int {
    s.len() * depth_sq_sum(s) - depth_sum(s) * depth_sum(s)
}

/// Whether a file of depth `d` clears the quality cutoff
/// `max(0, mean - (k_num / k_den) * stddev)` over the depth list `s`,
/// stated in exact integers (see the module comment for the derivation).
pub open spec fn clears_cutoff(s: Seq<u64>, d: u64, k_num: u64, k_den: u64) -> bool {
    let n = s.len() as int;
    let sum = depth_sum(s);
    n * d >= sum || k_num * k_num * disc(s) >= k_den * k_den * (sum - n * d) * (sum - n * d)
}

/// Every depth within the filter's range.
pub open spec fn depths_bounded(s: Seq<u64>) -> bool {
    forall|i: int| 0 <= i < s.len() ==> #[trigger] s[i] <= MAX_DEPTH
}

pub proof fn lemma_depth_sum_le_scaled(s: Seq<u64>, m: u64)
    requires
        forall|i: int| 0 <= i < s.len() ==> #[trigger] s[i] <= m,
    ensures
        0 <= depth_sum(s) <= s.len() * m,
    decreases s.len(),
{
    if s.len() > 0 {
        lemma_depth_sum_le_scaled(s.drop_last(), m);
        assert((s.len() - 1) * m + m == s.len() * m) by (nonlinear_arith);
    } else {
        assert(s.len() * m == 0) by (nonlinear_arith)
            requires
                s.len() == 0,
        ;
    }
}

pub proof fn lemma_depth_sq_sum_bound(s: Seq<u64>, m: u64)
    requires
        forall|i: int| 0 <= i < s.len() ==> #[trigger] s[i] <= m,
    ensures
        0 <= depth_sq_sum(s) <= s.len() * (m * m),
    decreases s.len(),
{
    if s.len() > 0 {
        lemma_depth_sq_sum_bound(s.drop_last(), m);
        assert(s.last() * s.last() <= m * m) by (nonlinear_arith)
            requires
                0 <= s.last() <= m,
        ;
        assert((s.len() - 1) * (m * m) + m * m == s.len() * (m * m)) by (nonlinear_arith);
    } else {
        assert(s.len() * (m * m) == 0) by (nonlinear_arith)
            requires
                s.len() == 0,
        ;
    }
}

/// The cross-term bound behind Cauchy-Schwarz: `2 * S * d <= Q + n * d^2`.
proof fn lemma_cross_term(s: Seq<u64>, d: int)
    ensures
        2 * depth_sum(s) * d <= depth_sq_sum(s) + s.len() * (d * d),
    decreases s.len(),
{
    if s.len() == 0 {
        assert(2 * 0 * d <= 0 + 0 * (d * d)) by (nonlinear_arith);
    } else {
        let t = s.drop_last();
        let e = s.last() as int;
        lemma_cross_term(t, d);
        assert(2 * e * d <= e * e + d * d) by (nonlinear_arith);
        assert(2 * (depth_sum(t) + e) * d <= (depth_sq_sum(t) + e * e) + (t.len() + 1) * (d * d))
            by (nonlinear_arith)
            requires
                2 * depth_sum(t) * d <= depth_sq_sum(t) + t.len() * (d * d),
                2 * e * d <= e * e + d * d,
                t.len() >= 0,
        ;
    }
}

/// Cauchy-Schwarz for the depth list: `n * Q >= S^2`, so the population
/// variance is nonnegative.
pub proof fn lemma_disc_nonneg(s: Seq<u64>)
    ensures
        disc(s) >= 0,
    decreases s.len(),
{
    if s.len() > 0 {
        let t = s.drop_last();
        let e = s.last() as int;
        lemma_disc_nonneg(t);
        lemma_cross_term(t, e);
        assert((depth_sum(t) + e) * (depth_sum(t) + e) <= (t.len() + 1) * (depth_sq_sum(t) + e
            * e)) by (nonlinear_arith)
            requires
                t.len() * depth_sq_sum(t) >= depth_sum(t) * depth_sum(t),
                2 * depth_sum(t) * e <= depth_sq_sum(t) + t.len() * (e * e),
                t.len() >= 0,
        ;
    }
}

/// The cutoff is a single threshold: any depth at least as large as one that
/// clears it clears it too. This is the exact-integer form of the statement
/// that a file is included exactly when its depth reaches
/// `max(0, mean - k * stddev)`.
pub proof fn lemma_cutoff_is_threshold(s: Seq<u64>, d1: u64, d2: u64, k_num: u64, k_den: u64)
    requires
        d1 <= d2,
        clears_cutoff(s, d1, k_num, k_den),
    ensures
        clears_cutoff(s, d2, k_num, k_den),
{
    let n = s.len() as int;
    let sum = depth_sum(s);
    assert(n * d1 <= n * d2) by (nonlinear_arith)
        requires
            n >= 0,
            d1 <= d2,
    ;
    if n * d2 < sum {
        let g1 = sum - n * d1;
        let g2 = sum - n * d2;
        assert(0 < g2 <= g1);
        assert(k_den * k_den * (g2 * g2) <= k_den * k_den * (g1 * g1)) by (nonlinear_arith)
            requires
                0 < g2 <= g1,
                k_den >= 0,
        ;
        assert(k_den * k_den * g2 * g2 == k_den * k_den * (g2 * g2)) by (nonlinear_arith);
        assert(k_den * k_den * g1 * g1 == k_den * k_den * (g1 * g1)) by (nonlinear_arith);
    }
}

/// Some file always clears the cutoff when there are files at all: one of
/// maximal depth satisfies `n * d >= S` outright. The included set is
/// therefore empty only for an empty input list.
pub proof fn lemma_some_clears(s: Seq<u64>, k_num: u64, k_den: u64)
    requires
        s.len() > 0,
    ensures
        exists|i: int|
            0 <= i < s.len() && #[trigger] clears_cutoff(s, s[i], k_num, k_den),
    decreases s.len(),
{
    let i = lemma_has_max(s);
    lemma_depth_sum_le_scaled(s, s[i]);
    assert(s.len() * s[i] >= depth_sum(s));
    assert(clears_cutoff(s, s[i], k_num, k_den));
}

/// The outcome of quality control: the included and excluded file indices,
/// each in ascending order, and the common target depth — the minimum depth
/// among the included files.
pub struct QcResult {
    pub included: Vec<usize>,
    pub excluded: Vec<usize>,
    pub target: u64,
}

/// Partitions the files by the quality cutoff and computes the target depth.
///
/// A file is included exactly when its depth clears
/// `max(0, mean - (k_num / k_den) * stddev)` (see [`clears_cutoff`]); the
/// target depth is the minimum depth among included files. Returns `None`
/// exactly when the input list is empty: by [`lemma_some_clears`] a file of
/// maximal depth always clears the cutoff, so a non-empty list always leaves
/// a non-empty included set. The bounds in `requires` keep every intermediate
/// product of the exact cutoff comparison within `u128`.
pub fn qc_filter(depths: &Vec<u64>, k_num: u64, k_den: u64) -> (r: Option<QcResult>)
    requires
        depths@.len() <= MAX_FILES,
        depths_bounded(depths@),
        k_num <= MAX_SIGMA_SCALE,
        1 <= k_den <= MAX_SIGMA_SCALE,
    ensures
        (r is None) <==> depths@.len() == 0,
        r matches Some(q) ==> {
            &&& forall|a: int, b: int|
                #![trigger q.included@[a], q.included@[b]]
                0 <= a < b < q.included@.len() ==> q.included@[a] < q.included@[b]
            &&& forall|a: int, b: int|
                #![trigger q.excluded@[a], q.excluded@[b]]
                0 <= a < b < q.excluded@.len() ==> q.excluded@[a] < q.excluded@[b]
            &&& forall|a: int|
                0 <= a < q.included@.len() ==> #[trigger] q.included@[a] < depths@.len()
                    && clears_cutoff(depths@, depths@[q.included@[a] as int], k_num, k_den)
            &&& forall|a: int|
                0 <= a < q.excluded@.len() ==> #[trigger] q.excluded@[a] < depths@.len()
                    && !clears_cutoff(depths@, depths@[q.excluded@[a] as int], k_num, k_den)
            &&& forall|i: int|
                0 <= i < depths@.len() ==> if clears_cutoff(depths@, #[trigger] depths@[i], k_num, k_den) {
                    q.included@.contains(i as usize)
                } else {
                    q.excluded@.contains(i as usize)
                }
            &&& q.included@.len() > 0
            &&& exists|a: int|
                0 <= a < q.included@.len() && depths@[#[trigger] q.included@[a] as int]
                    == q.target
            &&& forall|a: int|
                0 <= a < q.included@.len() ==> q.target <= depths@[
                    #[trigger] q.included@[a] as int
                ]
        },
{
    let n = depths.len();
    if n == 0 {
        return None;
    }
    let mut ssum: u128 = 0;
    let mut qsum: u128 = 0;
    let mut i: usize = 0;
    proof {
        assert(depths@.take(0) =~= Seq::<u64>::empty());
    }
    while i < n
        invariant
            0 <= i <= n,
            n == depths@.len(),
            n <= MAX_FILES,
            depths_bounded(depths@),
            ssum as int == depth_sum(depths@.take(i as int)),
            qsum as int == depth_sq_sum(depths@.take(i as int)),
        decreases n - i,
    {
        let d = depths[i];
        proof {
            assert(depths@.take(i + 1).drop_last() =~= depths@.take(i as int));
            assert(depths@.take(i + 1).last() == depths@[i as int]);
            lemma_depth_sum_le_scaled(depths@.take(i as int), MAX_DEPTH);
            lemma_depth_sq_sum_bound(depths@.take(i as int), MAX_DEPTH);
            assert(depth_sum(depths@.take(i as int)) <= MAX_FILES * MAX_DEPTH) by (nonlinear_arith)
                requires
                    depth_sum(depths@.take(i as int)) <= i * MAX_DEPTH,
                    0 <= i <= MAX_FILES,
            ;
            assert(depth_sq_sum(depths@.take(i as int)) <= MAX_FILES * (MAX_DEPTH * MAX_DEPTH))
                by (nonlinear_arith)
                requires
                    depth_sq_sum(depths@.take(i as int)) <= i * (MAX_DEPTH * MAX_DEPTH),
                    0 <= i <= MAX_FILES,
            ;
            assert((d as int) * (d as int) <= (MAX_DEPTH as int) * (MAX_DEPTH as int))
                by (nonlinear_arith)
                requires
                    0 <= d <= MAX_DEPTH,
            ;
        }
        ssum = ssum + (d as u128);
        qsum = qsum + (d as u128) * (d as u128);
        i = i + 1;
    }
    proof {
        assert(depths@.take(n as int) =~= depths@);
        lemma_depth_sum_le_scaled(depths@, MAX_DEPTH);
        lemma_depth_sq_sum_bound(depths@, MAX_DEPTH);
        lemma_disc_nonneg(depths@);
        assert(depth_sum(depths@) <= MAX_FILES * MAX_DEPTH) by (nonlinear_arith)
            requires
                depth_sum(depths@) <= depths@.len() * MAX_DEPTH,
                depths@.len() <= MAX_FILES,
        ;
        assert(depth_sq_sum(depths@) <= MAX_FILES * (MAX_DEPTH * MAX_DEPTH)) by (nonlinear_arith)
            requires
                depth_sq_sum(depths@) <= depths@.len() * (MAX_DEPTH * MAX_DEPTH),
                depths@.len() <= MAX_FILES,
        ;
    }
    let nn: u128 = n as u128;
    proof {
        assert((nn as int) * (qsum as int) <= 0x1000_0000_0000_0000_0000_0000)
            by (nonlinear_arith)
            requires
                0 <= nn <= 1024,
                0 <= qsum <= 0x4_0000_0000_0000_0000_0000,
        ;
        assert((nn as int) * (qsum as int) == depths@.len() * depth_sq_sum(depths@));
        assert((ssum as int) * (ssum as int) <= 0x1000_0000_0000_0000_0000_0000)
            by (nonlinear_arith)
            requires
                0 <= ssum <= 0x4000_0000_0000,
        ;
    }
    let nq: u128 = nn * qsum;
    let ss: u128 = ssum * ssum;
    let disc_u: u128 = nq - ss;
    proof {
        assert((k_num as int) * (k_num as int) <= 0x4_0000_0000) by (nonlinear_arith)
            requires
                0 <= k_num <= 0x2_0000,
        ;
        assert((k_den as int) * (k_den as int) <= 0x4_0000_0000) by (nonlinear_arith)
            requires
                1 <= k_den <= 0x2_0000,
        ;
    }
    let kn2: u128 = (k_num as u128) * (k_num as u128);
    let kd2: u128 = (k_den as u128) * (k_den as u128);
    proof {
        assert((kn2 as int) * (disc_u as int) < u128::MAX) by (nonlinear_arith)
            requires
                0 <= kn2 <= 0x4_0000_0000,
                0 <= disc_u <= 0x1000_0000_0000_0000_0000_0000,
        ;
    }
    let lhs: u128 = kn2 * disc_u;
    let mut included: Vec<usize> = Vec::new();
    let mut excluded: Vec<usize> = Vec::new();
    let mut target: u64 = 0;
    let mut i: usize = 0;
    while i < n
        invariant
            0 <= i <= n,
            n == depths@.len(),
            n <= MAX_FILES,
            depths_bounded(depths@),
            k_num <= MAX_SIGMA_SCALE,
            1 <= k_den <= MAX_SIGMA_SCALE,
            ssum as int == depth_sum(depths@),
            ssum <= 0x4000_0000_0000,
            disc_u as int == disc(depths@),
            nn == n as u128,
            kn2 as int == (k_num as int) * (k_num as int),
            kd2 as int == (k_den as int) * (k_den as int),
            kn2 <= 0x4_0000_0000,
            kd2 <= 0x4_0000_0000,
            lhs as int == (kn2 as int) * (disc_u as int),
            forall|a: int, b: int|
                #![trigger included@[a], included@[b]]
                0 <= a < b < included@.len() ==> included@[a] < included@[b],
            forall|a: int, b: int|
                #![trigger excluded@[a], excluded@[b]]
                0 <= a < b < excluded@.len() ==> excluded@[a] < excluded@[b],
            forall|a: int|
                0 <= a < included@.len() ==> #[trigger] included@[a] < i
                    && clears_cutoff(depths@, depths@[included@[a] as int], k_num, k_den),
            forall|a: int|
                0 <= a < excluded@.len() ==> #[trigger] excluded@[a] < i
                    && !clears_cutoff(depths@, depths@[excluded@[a] as int], k_num, k_den),
            forall|j: int|
                0 <= j < i ==> if clears_cutoff(depths@, #[trigger] depths@[j], k_num, k_den) {
                    included@.contains(j as usize)
                } else {
                    excluded@.contains(j as usize)
                },
            included@.len() > 0 ==> exists|a: int|
                0 <= a < included@.len() && depths@[#[trigger] included@[a] as int] == target,
            forall|a: int|
                0 <= a < included@.len() ==> target <= depths@[#[trigger] included@[a] as int],
        decreases n - i,
    {
        let d = depths[i];
        proof {
            assert((nn as int) * (d as int) <= 0x4000_0000_0000) by (nonlinear_arith)
                requires
                    0 <= nn <= 1024,
                    0 <= d <= MAX_DEPTH,
            ;
        }
        let nd: u128 = nn * (d as u128);
        proof {
            assert((nd as int) == depths@.len() * (depths@[i as int] as int));
        }
        let inc: bool;
        if nd >= ssum {
            inc = true;
        } else {
            let gap: u128 = ssum - nd;
            proof {
                assert((gap as int) * (gap as int) <= 0x1000_0000_0000_0000_0000_0000)
                    by (nonlinear_arith)
                    requires
                        0 <= gap <= 0x4000_0000_0000,
                ;
                assert((kd2 as int) * ((gap as int) * (gap as int)) < u128::MAX)
                    by (nonlinear_arith)
                    requires
                        0 <= kd2 <= 0x4_0000_0000,
                        0 <= (gap as int) * (gap as int) <= 0x1000_0000_0000_0000_0000_0000,
                ;
            }
            let rhs: u128 = kd2 * (gap * gap);
            inc = lhs >= rhs;
            proof {
                let sum = depth_sum(depths@);
                let ndi = depths@.len() * (depths@[i as int] as int);
                assert((k_num as int) * (k_num as int) * disc(depths@) == (kn2 as int) * (
                disc_u as int)) by (nonlinear_arith)
                    requires
                        kn2 as int == (k_num as int) * (k_num as int),
                        disc_u as int == disc(depths@),
                ;
                assert((k_den as int) * (k_den as int) * (sum - ndi) * (sum - ndi) == (
                kd2 as int) * ((gap as int) * (gap as int))) by (nonlinear_arith)
                    requires
                        kd2 as int == (k_den as int) * (k_den as int),
                        gap as int == sum - ndi,
                ;
            }
        }
        proof {
            assert(inc == clears_cutoff(depths@, depths@[i as int], k_num, k_den));
        }
        if inc {
            if included.len() == 0 {
                target = d;
            } else if d < target {
                target = d;
            }
            let ghost pre = included@;
            included.push(i);
            proof {
                assert forall|x: usize| pre.contains(x) implies included@.contains(x) by {
                    let a = choose|a: int| 0 <= a < pre.len() && pre[a] == x;
                    assert(included@[a] == x);
                }
                assert(included@.last() == i);
            }
        } else {
            let ghost pre = excluded@;
            excluded.push(i);
            proof {
                assert forall|x: usize| pre.contains(x) implies excluded@.contains(x) by {
                    let a = choose|a: int| 0 <= a < pre.len() && pre[a] == x;
                    assert(excluded@[a] == x);
                }
                assert(excluded@.last() == i);
            }
        }
        i = i + 1;
    }
    proof {
        lemma_some_clears(depths@, k_num, k_den);
        let w = choose|j: int|
            0 <= j < depths@.len() && #[trigger] clears_cutoff(depths@, depths@[j], k_num, k_den);
        assert(included@.contains(w as usize));
    }
    Some(QcResult { included, excluded, target })
}

/// There is an index of maximal depth.
pub proof fn lemma_has_max(s: Seq<u64>) -> (i: int)
    requires
        s.len() > 0,
    ensures
        0 <= i < s.len(),
        forall|j: int| 0 <= j < s.len() ==> s[j] <= s[i],
    decreases s.len(),
{
    if s.len() == 1 {
        0
    } else {
        let t = s.drop_last();
        let m = lemma_has_max(t);
        assert(forall|j: int| 0 <= j < t.len() ==> s[j] == t[j]);
        if s.last() >= s[m] {
            s.len() - 1
        } else {
            m
        }
    }
}

} // verus!
