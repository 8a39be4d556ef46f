//! Cluster-level statistics: tie-averaged ranks, scaled Spearman rank
//! correlation with pairwise deletion, per-cluster means, and an
//! average-linkage dendrogram leaf order.
//!
//! Correlations are integer-valued, scaled by [`CORR_SCALE`]: a coefficient
//! of one is `CORR_SCALE`, and an undefined coefficient is `None`. Ranks are
//! carried doubled, so that tie-averaged mid-ranks stay integers.

use vstd::prelude::*;
use crate::fixed::Fx;
use crate::sortutil::{pair_le_fn, sort_pairs, sorted_pairs};
use vstd::multiset::Multiset;

verus! {

/// The denominator of a scaled correlation: a coefficient of one.
pub const CORR_SCALE: i64 = 1000000;

/// Longest vector the rank-correlation arithmetic accepts without
/// overflowing its wide-integer sums.
pub const MAX_RANK_LEN: usize = 40000;

/// How many elements of `v` are strictly below `x`.
pub open spec fn count_lt(v: Seq<int>, x: int) -> int
    decreases v.len(),
{
    if v.len() == 0 {
        0
    } else {
        count_lt(v.drop_last(), x) + if v.last() < x {
            1int
        } else {
            0int
        }
    }
}

/// How many elements of `v` equal `x`.
pub open spec fn count_eq(v: Seq<int>, x: int) -> int
    decreases v.len(),
{
    if v.len() == 0 {
        0
    } else {
        count_eq(v.drop_last(), x) + if v.last() == x {
            1int
        } else {
            0int
        }
    }
}

/// The doubled tie-averaged mid-rank of element `i`: twice the count of
/// smaller elements, plus the count of equal elements (itself included),
/// plus one.
pub open spec fn drank(v: Seq<int>, i: int) -> int {
    2 * count_lt(v, v[i]) + count_eq(v, v[i]) + 1
}

/// The sequence of doubled mid-ranks of `v`.
pub open spec fn dranks(v: Seq<int>) -> Seq<int> {
    Seq::new(v.len(), |i: int| drank(v, i))
}

pub proof fn lemma_counts_bound(v: Seq<int>, x: int)
    ensures
        0 <= count_lt(v, x),
        0 <= count_eq(v, x),
        count_lt(v, x) + count_eq(v, x) <= v.len(),
    decreases v.len(),
{
    if v.len() > 0 {
        lemma_counts_bound(v.drop_last(), x);
    }
}

/// The view of a wide-integer vector as mathematical integers.
pub open spec fn int_view(s: Seq<i128>) -> Seq<int> {
    s.map_values(|x: i128| x as int)
}

/// The doubled tie-averaged mid-ranks of a vector.
///
/// Equal values share the average of the ranks they would occupy, so the
/// result is exact once doubled: a vector `[10, 30, 20]` has doubled ranks
/// `[2, 6, 4]`, and two equal smallest values each take doubled rank `3`.
pub fn rank_vec_avg_ties(v: &Vec<i128>) -> (r: Vec<u64>)
    requires
        v@.len() <= MAX_RANK_LEN,
    ensures
        r@.len() == v@.len(),
        forall|i: int| 0 <= i < v@.len() ==> (#[trigger] r@[i]) as int == drank(int_view(v@), i),
        forall|i: int| 0 <= i < v@.len() ==> 1 <= (#[trigger] r@[i]) <= 2 * v@.len(),
{
    let n = v.len();
    let mut out: Vec<u64> = Vec::new();
    let mut i: usize = 0;
    while i < n
        invariant
            i <= n,
            n == v@.len(),
            n <= MAX_RANK_LEN,
            out@.len() == i,
            forall|k: int| 0 <= k < i ==> (#[trigger] out@[k]) as int == drank(int_view(v@), k),
            forall|k: int| 0 <= k < i ==> 1 <= (#[trigger] out@[k]) <= 2 * n,
        decreases n - i,
    {
        let xi = v[i];
        let mut lt: u64 = 0;
        let mut eq: u64 = 0;
        let mut j: usize = 0;
        while j < n
            invariant
                j <= n,
                n == v@.len(),
                i < n,
                xi == v@[i as int],
                lt as int == count_lt(int_view(v@).take(j as int), xi as int),
                eq as int == count_eq(int_view(v@).take(j as int), xi as int),
                lt + eq <= j,
            decreases n - j,
        {
            proof {
                assert(int_view(v@).take(j + 1).drop_last() =~= int_view(v@).take(j as int));
                assert(int_view(v@).take(j + 1).last() == v@[j as int] as int);
            }
            if v[j] < xi {
                lt = lt + 1;
            } else if v[j] == xi {
                eq = eq + 1;
            }
            j += 1;
        }
        proof {
            assert(int_view(v@).take(n as int) =~= int_view(v@));
            lemma_counts_bound(int_view(v@), xi as int);
            assert(int_view(v@)[i as int] == xi as int);
        }
        let dr: u64 = 2 * lt + eq + 1;
        out.push(dr);
        proof {
            assert(count_eq(int_view(v@), xi as int) >= 1) by {
                lemma_count_eq_self(int_view(v@), i as int);
            }
        }
        i += 1;
    }
    out
}

/// Every element is counted among those equal to itself.
proof fn lemma_count_eq_self(v: Seq<int>, i: int)
    requires
        0 <= i < v.len(),
    ensures
        count_eq(v, v[i]) >= 1,
    decreases v.len(),
{
    if i == v.len() - 1 {
        lemma_counts_bound(v.drop_last(), v[i]);
    } else {
        assert(v.drop_last()[i] == v[i]);
        lemma_count_eq_self(v.drop_last(), i);
    }
}

/// The sum of a sequence.
pub open spec fn sum_of(s: Seq<int>) -> int
    decreases s.len(),
{
    if s.len() == 0 {
        0
    } else {
        sum_of(s.drop_last()) + s.last()
    }
}

/// The sum of elementwise products of two equally long sequences.
pub open spec fn sum_prod(x: Seq<int>, y: Seq<int>) -> int
    decreases x.len(),
{
    if x.len() == 0 || x.len() != y.len() {
        0
    } else {
        sum_prod(x.drop_last(), y.drop_last()) + x.last() * y.last()
    }
}

/// `n`-scaled centered second moments of two rank vectors: the building
/// blocks of a Pearson coefficient without any division.
pub open spec fn s_xy(x: Seq<int>, y: Seq<int>) -> int {
    x.len() * sum_prod(x, y) - sum_of(x) * sum_of(y)
}

/// Integer division truncated toward zero, as the scaled coefficient uses.
pub open spec fn trunc_div(num: int, den: int) -> int {
    if num >= 0 {
        num / den
    } else {
        -((-num) / den)
    }
}

/// What the scaled Pearson coefficient of two doubled-rank vectors is:
/// `None` when either vector has no variance, otherwise the truncated
/// quotient of the scaled covariance term by the floor square root of the
/// product of the variance terms.
pub open spec fn pearson_post(x: Seq<int>, y: Seq<int>, r: Option<i128>) -> bool {
    let sxy = s_xy(x, y);
    let sxx = s_xy(x, x);
    let syy = s_xy(y, y);
    if sxx <= 0 || syy <= 0 {
        r is None
    } else {
        exists|den: int|
            #![trigger (den * den)]
            den >= 1 && den * den <= sxx * syy && (den + 1) * (den + 1) > sxx * syy && r is Some
                && r->0 as int == trunc_div(CORR_SCALE * sxy, den)
    }
}


/// Counting below equivalent pivots over pointwise order-equivalent
/// sequences gives equal counts.
proof fn lemma_count_lt_pointwise(xs: Seq<int>, ys: Seq<int>, px: int, py: int)
    requires
        xs.len() == ys.len(),
        forall|j: int| #![trigger xs[j], ys[j]] 0 <= j < xs.len() ==> ((xs[j] < px) <==> (ys[j] < py)),
    ensures
        count_lt(xs, px) == count_lt(ys, py),
    decreases xs.len(),
{
    if xs.len() > 0 {
        assert(forall|j: int|
            0 <= j < xs.len() - 1 ==> xs.drop_last()[j] == xs[j] && ys.drop_last()[j] == ys[j]);
        lemma_count_lt_pointwise(xs.drop_last(), ys.drop_last(), px, py);
    }
}

proof fn lemma_count_eq_pointwise(xs: Seq<int>, ys: Seq<int>, px: int, py: int)
    requires
        xs.len() == ys.len(),
        forall|j: int| #![trigger xs[j], ys[j]] 0 <= j < xs.len() ==> ((xs[j] == px) <==> (ys[j] == py)),
    ensures
        count_eq(xs, px) == count_eq(ys, py),
    decreases xs.len(),
{
    if xs.len() > 0 {
        assert(forall|j: int|
            0 <= j < xs.len() - 1 ==> xs.drop_last()[j] == xs[j] && ys.drop_last()[j] == ys[j]);
        lemma_count_eq_pointwise(xs.drop_last(), ys.drop_last(), px, py);
    }
}

/// Two columns related by a strictly increasing transform over their jointly
/// present values have the same rank vector, and so, whenever it is defined
/// at all, a scaled Spearman coefficient of exactly one. It is undefined
/// exactly when fewer than three rows are jointly present or the surviving
/// values have no variance at all.
pub proof fn lemma_spearman_perfect_monotone(x: Seq<Option<i128>>, y: Seq<Option<i128>>, r: Option<
    i128,
>)
    requires
        x.len() == y.len(),
        spearman_post(x, y, r),
        paired(x, y).len() >= 3,
        forall|a: int, b: int|
            #![trigger paired(x, y)[a], paired(x, y)[b]]
            0 <= a < paired(x, y).len() && 0 <= b < paired(x, y).len() ==> ((paired(x, y)[a].0
                < paired(x, y)[b].0) <==> (paired(x, y)[a].1 < paired(x, y)[b].1)),
        r is Some,
    ensures
        r->0 == CORR_SCALE as i128,
{
    let p = paired(x, y);
    let xs = firsts(p);
    let ys = seconds(p);
    assert forall|i: int| 0 <= i < p.len() implies dranks(xs)[i] == dranks(ys)[i] by {
        assert forall|j: int| #![trigger xs[j], ys[j]] 0 <= j < xs.len() implies ((xs[j] < xs[i])
            <==> (ys[j] < ys[i])) by {
            assert(xs[j] == p[j].0 && xs[i] == p[i].0);
            assert(ys[j] == p[j].1 && ys[i] == p[i].1);
        }
        assert forall|j: int| #![trigger xs[j], ys[j]] 0 <= j < xs.len() implies ((xs[j] == xs[i])
            <==> (ys[j] == ys[i])) by {
            assert(xs[j] == p[j].0 && xs[i] == p[i].0);
            assert(ys[j] == p[j].1 && ys[i] == p[i].1);
            assert((p[j].0 < p[i].0) <==> (p[j].1 < p[i].1));
            assert((p[i].0 < p[j].0) <==> (p[i].1 < p[j].1));
        }
        lemma_count_lt_pointwise(xs, ys, xs[i], ys[i]);
        lemma_count_eq_pointwise(xs, ys, xs[i], ys[i]);
    }
    assert(dranks(xs) =~= dranks(ys));
    let dx = dranks(xs);
    let sxx = s_xy(dx, dx);
    assert(pearson_post(dx, dx, r));
    assert(sxx > 0);
    let den = choose|den: int|
        #![trigger (den * den)]
        den >= 1 && den * den <= sxx * sxx && (den + 1) * (den + 1) > sxx * sxx && r is Some
            && r->0 as int == trunc_div(CORR_SCALE * sxx, den);
    assert(den == sxx) by {
        if den < sxx {
            assert((den + 1) * (den + 1) <= sxx * sxx) by (nonlinear_arith)
                requires
                    1 <= den,
                    den + 1 <= sxx,
            ;
            assert(false);
        }
        if den > sxx {
            assert(den * den > sxx * sxx) by (nonlinear_arith)
                requires
                    1 <= sxx,
                    sxx + 1 <= den,
            ;
            assert(false);
        }
    }
    assert(CORR_SCALE * sxx >= 0) by (nonlinear_arith)
        requires
            sxx >= 1,
    ;
    vstd::arithmetic::div_mod::lemma_div_multiples_vanish(CORR_SCALE as int, sxx);
    assert(trunc_div(CORR_SCALE * sxx, den) == (CORR_SCALE * sxx) / sxx);
    assert((sxx * CORR_SCALE) / sxx == CORR_SCALE);
    assert(CORR_SCALE * sxx == sxx * CORR_SCALE) by (nonlinear_arith);
}


/// The Spearman contract pins the coefficient down: two results that both
/// satisfy it for the same columns are equal. In particular the square-root
/// witness inside the contract is unique.
pub proof fn lemma_spearman_unique(
    x: Seq<Option<i128>>,
    y: Seq<Option<i128>>,
    r1: Option<i128>,
    r2: Option<i128>,
)
    requires
        spearman_post(x, y, r1),
        spearman_post(x, y, r2),
    ensures
        r1 == r2,
{
    let p = paired(x, y);
    if p.len() >= 3 {
        let dx = dranks(firsts(p));
        let dy = dranks(seconds(p));
        let sxy = s_xy(dx, dy);
        let sxx = s_xy(dx, dx);
        let syy = s_xy(dy, dy);
        if sxx > 0 && syy > 0 {
            let d1 = choose|den: int|
                #![trigger (den * den)]
                den >= 1 && den * den <= sxx * syy && (den + 1) * (den + 1) > sxx * syy && r1
                    is Some && r1->0 as int == trunc_div(CORR_SCALE * sxy, den);
            let d2 = choose|den: int|
                #![trigger (den * den)]
                den >= 1 && den * den <= sxx * syy && (den + 1) * (den + 1) > sxx * syy && r2
                    is Some && r2->0 as int == trunc_div(CORR_SCALE * sxy, den);
            assert(d1 == d2) by {
                if d1 < d2 {
                    assert((d1 + 1) * (d1 + 1) <= d2 * d2) by (nonlinear_arith)
                        requires
                            1 <= d1,
                            d1 + 1 <= d2,
                    ;
                }
                if d2 < d1 {
                    assert((d2 + 1) * (d2 + 1) <= d1 * d1) by (nonlinear_arith)
                        requires
                            1 <= d2,
                            d2 + 1 <= d1,
                    ;
                }
            }
        }
    }
}


/// The scaled Spearman coefficient as a value: the unique result the
/// contract admits.
pub open spec fn spearman_of(x: Seq<Option<i128>>, y: Seq<Option<i128>>) -> Option<i128> {
    choose|r: Option<i128>| spearman_post(x, y, r)
}

/// Within the supported column length, a result satisfying the Spearman
/// contract always exists, so `spearman_of` denotes it; by
/// `lemma_spearman_unique` it is the only one.
pub proof fn lemma_spearman_of_holds(x: Seq<Option<i128>>, y: Seq<Option<i128>>)
    requires
        x.len() == y.len(),
        x.len() <= MAX_RANK_LEN,
    ensures
        spearman_post(x, y, spearman_of(x, y)),
{
    let p = paired(x, y);
    Seq::new(x.len(), |i: int| i).filter_lemma(|i: int| x[i] is Some && y[i] is Some);
    assert(p.len() <= x.len());
    if p.len() < 3 {
        assert(spearman_post(x, y, None::<i128>));
    } else {
        let n = p.len() as int;
        let dx = dranks(firsts(p));
        let dy = dranks(seconds(p));
        lemma_dranks_range(firsts(p));
        lemma_dranks_range(seconds(p));
        let sxy = s_xy(dx, dy);
        let sxx = s_xy(dx, dx);
        let syy = s_xy(dy, dy);
        lemma_s_xy_range(dx, dy, 2 * n);
        lemma_s_xy_range(dx, dx, 2 * n);
        lemma_s_xy_range(dy, dy, 2 * n);
        assert((n * n) * ((2 * n) * (2 * n)) <= 10240000000000000000) by (nonlinear_arith)
            requires
                3 <= n <= 40000,
        ;
        if sxx <= 0 || syy <= 0 {
            assert(spearman_post(x, y, None::<i128>));
        } else {
            assert(sxx * syy >= 1) by (nonlinear_arith)
                requires
                    sxx >= 1,
                    syy >= 1,
            ;
            lemma_isqrt_exists(sxx * syy);
            let den = choose|d: int|
                #![trigger (d * d)]
                1 <= d && d * d <= sxx * syy && (d + 1) * (d + 1) > sxx * syy;
            let q = trunc_div(CORR_SCALE * sxy, den);
            assert(-10240000000000000000000000 <= CORR_SCALE * sxy <= 10240000000000000000000000)
                by (nonlinear_arith)
                requires
                    -10240000000000000000 <= sxy <= 10240000000000000000,
            ;
            lemma_trunc_div_bound(CORR_SCALE * sxy, den);
            let v: i128 = q as i128;
            assert(v as int == q);
            assert(den * den <= sxx * syy && (den + 1) * (den + 1) > sxx * syy && Some(v) is Some
                && Some(v)->0 as int == trunc_div(CORR_SCALE * sxy, den));
            assert(spearman_post(x, y, Some(v)));
        }
    }
}

/// Doubled mid-ranks lie between one and twice the length.
proof fn lemma_dranks_range(v: Seq<int>)
    ensures
        forall|i: int|
            0 <= i < v.len() ==> 1 <= #[trigger] dranks(v)[i] <= 2 * v.len(),
{
    assert forall|i: int| 0 <= i < v.len() implies 1 <= #[trigger] dranks(v)[i] <= 2
        * v.len() by {
        lemma_counts_bound(v, v[i]);
        lemma_count_eq_self(v, i);
    }
}

/// The centered second-moment term of two vectors with entries in `[1, m]`
/// lies within `2 * len^2 * m^2`.
proof fn lemma_s_xy_range(xs: Seq<int>, ys: Seq<int>, m: int)
    requires
        xs.len() == ys.len(),
        m >= 1,
        forall|i: int| 0 <= i < xs.len() ==> 1 <= #[trigger] xs[i] <= m,
        forall|i: int| 0 <= i < ys.len() ==> 1 <= #[trigger] ys[i] <= m,
    ensures
        -((xs.len() * xs.len()) * (m * m)) <= s_xy(xs, ys) <= (xs.len() * xs.len()) * (m * m),
{
    let n = xs.len() as int;
    lemma_sum_of_range(xs, m);
    lemma_sum_of_range(ys, m);
    lemma_sum_prod_range(xs, ys, m);
    assert(0 <= n * sum_prod(xs, ys) <= n * (n * (m * m))) by (nonlinear_arith)
        requires
            n >= 0,
            0 <= sum_prod(xs, ys) <= n * (m * m),
    ;
    assert(0 <= sum_of(xs) * sum_of(ys) <= (n * m) * (n * m)) by (nonlinear_arith)
        requires
            0 <= sum_of(xs) <= n * m,
            0 <= sum_of(ys) <= n * m,
    ;
    assert(n * (n * (m * m)) == (n * n) * (m * m) && (n * m) * (n * m) == (n * n) * (m * m))
        by (nonlinear_arith);
}

proof fn lemma_sum_of_range(s: Seq<int>, m: int)
    requires
        forall|i: int| 0 <= i < s.len() ==> 1 <= #[trigger] s[i] <= m,
    ensures
        0 <= sum_of(s) <= s.len() * m,
    decreases s.len(),
{
    if s.len() == 0 {
    } else {
        assert(forall|i: int| 0 <= i < s.len() - 1 ==> s.drop_last()[i] == s[i]);
        lemma_sum_of_range(s.drop_last(), m);
        assert((s.len() - 1) * m + m == s.len() * m) by (nonlinear_arith);
    }
}

proof fn lemma_sum_prod_range(xs: Seq<int>, ys: Seq<int>, m: int)
    requires
        xs.len() == ys.len(),
        m >= 1,
        forall|i: int| 0 <= i < xs.len() ==> 1 <= #[trigger] xs[i] <= m,
        forall|i: int| 0 <= i < ys.len() ==> 1 <= #[trigger] ys[i] <= m,
    ensures
        0 <= sum_prod(xs, ys) <= xs.len() * (m * m),
    decreases xs.len(),
{
    if xs.len() == 0 {
    } else {
        assert(forall|i: int|
            0 <= i < xs.len() - 1 ==> xs.drop_last()[i] == xs[i] && ys.drop_last()[i] == ys[i]);
        lemma_sum_prod_range(xs.drop_last(), ys.drop_last(), m);
        assert(0 <= xs.last() * ys.last() <= m * m) by (nonlinear_arith)
            requires
                1 <= xs.last() <= m,
                1 <= ys.last() <= m,
        ;
        assert((xs.len() - 1) * (m * m) + m * m == xs.len() * (m * m)) by (nonlinear_arith);
    }
}

/// Every positive integer has a floor square root.
proof fn lemma_isqrt_exists(p: int)
    requires
        p >= 1,
    ensures
        exists|d: int| #![trigger (d * d)] 1 <= d && d * d <= p && (d + 1) * (d + 1) > p,
    decreases p,
{
    if p == 1 {
        assert(1 <= 1int && 1int * 1int <= p && (1int + 1) * (1int + 1) > p);
    } else {
        lemma_isqrt_exists(p - 1);
        let d = choose|d: int|
            #![trigger (d * d)]
            1 <= d && d * d <= p - 1 && (d + 1) * (d + 1) > p - 1;
        if (d + 1) * (d + 1) > p {
            assert(1 <= d && d * d <= p && (d + 1) * (d + 1) > p);
        } else {
            assert((d + 1) * (d + 1) == p);
            assert(((d + 1) + 1) * ((d + 1) + 1) > p) by (nonlinear_arith)
                requires
                    d >= 1,
                    (d + 1) * (d + 1) == p,
            ;
            assert(1 <= d + 1 && (d + 1) * (d + 1) <= p && ((d + 1) + 1) * ((d + 1) + 1) > p);
        }
    }
}

/// Division truncated toward zero never grows the magnitude.
proof fn lemma_trunc_div_bound(a: int, d: int)
    requires
        d >= 1,
    ensures
        -1 * (if a >= 0 {
            a
        } else {
            -a
        }) <= trunc_div(a, d) <= (if a >= 0 {
            a
        } else {
            -a
        }),
{
    broadcast use vstd::arithmetic::div_mod::lemma_div_nonincreasing;

    if a >= 0 {
        assert(a / d <= a);
        vstd::arithmetic::div_mod::lemma_div_pos_is_pos(a, d);
    } else {
        assert((-a) / d <= -a);
        vstd::arithmetic::div_mod::lemma_div_pos_is_pos(-a, d);
    }
}

/// The floor square root of a non-negative wide integer.
pub fn isqrt(x: i128) -> (r: i128)
    requires
        x >= 0,
    ensures
        0 <= r,
        r * r <= x,
        (r + 1) * (r + 1) > x,
{
    let mut lo: i128 = 0;
    let mut hi: i128 = 13043817825332782212;
    proof {
        assert((13043817825332782212 + 1) * (13043817825332782212 + 1) > i128::MAX);
    }
    while lo < hi
        invariant
            0 <= lo <= hi <= 13043817825332782212,
            lo * lo <= x,
            (hi + 1) * (hi + 1) > x,
        decreases hi - lo,
    {
        let mid = lo + (hi - lo + 1) / 2;
        proof {
            assert(0 <= mid <= 13043817825332782212);
            assert(mid * mid <= 13043817825332782212 * 13043817825332782212) by (nonlinear_arith)
                requires
                    0 <= mid <= 13043817825332782212,
            ;
        }
        if mid * mid <= x {
            lo = mid;
        } else {
            hi = mid - 1;
        }
    }
    lo
}


/// The jointly present value pairs of two columns: pairwise deletion keeps
/// exactly the rows where both values are present.
pub open spec fn paired(x: Seq<Option<i128>>, y: Seq<Option<i128>>) -> Seq<(int, int)> {
    Seq::new(x.len(), |i: int| i).filter(|i: int| x[i] is Some && y[i] is Some).map_values(
        |i: int| (x[i]->0 as int, y[i]->0 as int),
    )
}

pub open spec fn firsts(s: Seq<(int, int)>) -> Seq<int> {
    s.map_values(|p: (int, int)| p.0)
}

pub open spec fn seconds(s: Seq<(int, int)>) -> Seq<int> {
    s.map_values(|p: (int, int)| p.1)
}

/// What the scaled Spearman coefficient of two columns is: after pairwise
/// deletion, fewer than three jointly present rows leave it undefined;
/// otherwise it is the scaled Pearson coefficient of the doubled
/// tie-averaged mid-ranks of the surviving values.
pub open spec fn spearman_post(x: Seq<Option<i128>>, y: Seq<Option<i128>>, r: Option<i128>) -> bool {
    let p = paired(x, y);
    if p.len() < 3 {
        r is None
    } else {
        pearson_post(dranks(firsts(p)), dranks(seconds(p)), r)
    }
}

/// The scaled Pearson coefficient of two doubled-rank vectors.
fn pearson_scaled(dx: &Vec<u64>, dy: &Vec<u64>) -> (r: Option<i128>)
    requires
        dx@.len() == dy@.len(),
        1 <= dx@.len() <= MAX_RANK_LEN,
        forall|i: int| 0 <= i < dx@.len() ==> 1 <= (#[trigger] dx@[i]) <= 2 * dx@.len(),
        forall|i: int| 0 <= i < dy@.len() ==> 1 <= (#[trigger] dy@[i]) <= 2 * dy@.len(),
    ensures
        pearson_post(rank_int_view(dx@), rank_int_view(dy@), r),
        r is Some ==> -MAX_CORR_MAG <= r->0 <= MAX_CORR_MAG,
{
    let n = dx.len();
    let sx = sum_ranks(dx);
    let sy = sum_ranks(dy);
    let sxy_p = sum_rank_prods(dx, dy);
    let sxx_p = sum_rank_prods(dx, dx);
    let syy_p = sum_rank_prods(dy, dy);
    let ghost xs = rank_int_view(dx@);
    let ghost ys = rank_int_view(dy@);
    proof {
        assert(0 <= sxy_p as int <= 256000000000000 && 0 <= sxx_p as int <= 256000000000000 && 0
            <= syy_p as int <= 256000000000000) by (nonlinear_arith)
            requires
                0 <= n <= 40000,
                0 <= sxy_p as int <= 4 * (n as int) * (n as int) * (n as int),
                0 <= sxx_p as int <= 4 * (n as int) * (n as int) * (n as int),
                0 <= syy_p as int <= 4 * (n as int) * (n as int) * (n as int),
        ;
        assert(0 <= sx as int <= 3200000000 && 0 <= sy as int <= 3200000000) by (nonlinear_arith)
            requires
                0 <= n <= 40000,
                0 <= sx as int <= 2 * (n as int) * (n as int),
                0 <= sy as int <= 2 * (n as int) * (n as int),
        ;
        assert(0 <= n as int * (sxy_p as int) <= 10240000000000000000 && 0 <= n as int * (
        sxx_p as int) <= 10240000000000000000 && 0 <= n as int * (syy_p as int)
            <= 10240000000000000000) by (nonlinear_arith)
            requires
                0 <= n <= 40000,
                0 <= sxy_p as int <= 256000000000000,
                0 <= sxx_p as int <= 256000000000000,
                0 <= syy_p as int <= 256000000000000,
        ;
        assert(0 <= sx as int * (sy as int) <= 10240000000000000000 && 0 <= sx as int * (sx as int)
            <= 10240000000000000000 && 0 <= sy as int * (sy as int) <= 10240000000000000000)
            by (nonlinear_arith)
            requires
                0 <= sx as int <= 3200000000,
                0 <= sy as int <= 3200000000,
        ;
    }
    let sxy: i128 = (n as i128) * sxy_p - sx * sy;
    let sxx: i128 = (n as i128) * sxx_p - sx * sx;
    let syy: i128 = (n as i128) * syy_p - sy * sy;
    proof {
        assert(sxy as int == s_xy(xs, ys));
        assert(sxx as int == s_xy(xs, xs));
        assert(syy as int == s_xy(ys, ys));
    }
    if sxx <= 0 || syy <= 0 {
        return None;
    }
    proof {
        assert(1 <= sxx as int * (syy as int)
            <= 104857600000000000000000000000000000000) by (nonlinear_arith)
            requires
                1 <= sxx as int <= 10240000000000000000,
                1 <= syy as int <= 10240000000000000000,
        ;
    }
    let prod: i128 = sxx * syy;
    let den = isqrt(prod);
    proof {
        if den == 0 {
            assert(prod as int >= 1);
            assert((den + 1) * (den + 1) == 1) by (nonlinear_arith)
                requires
                    den == 0,
            ;
            assert(false);
        }
    }
    let num: i128 = (CORR_SCALE as i128) * sxy;
    let q: i128 = if num >= 0 {
        num / den
    } else {
        -((-num) / den)
    };
    proof {
        assert(-MAX_CORR_MAG <= num <= MAX_CORR_MAG);
        assert(-MAX_CORR_MAG <= q <= MAX_CORR_MAG);
        assert(q as int == trunc_div(CORR_SCALE * (sxy as int), den as int));
        assert(den as int * den as int <= sxx as int * syy as int);
        assert((den as int + 1) * (den as int + 1) > sxx as int * syy as int);
    }
    Some(q)
}

/// The view of a doubled-rank vector as mathematical integers.
pub open spec fn rank_int_view(s: Seq<u64>) -> Seq<int> {
    s.map_values(|x: u64| x as int)
}

/// Sum a doubled-rank vector.
fn sum_ranks(v: &Vec<u64>) -> (r: i128)
    requires
        v@.len() <= MAX_RANK_LEN,
        forall|i: int| 0 <= i < v@.len() ==> 1 <= (#[trigger] v@[i]) <= 2 * v@.len(),
    ensures
        r as int == sum_of(rank_int_view(v@)),
        0 <= r <= 2 * (v@.len() as int) * (v@.len() as int),
{
    let n = v.len();
    let mut acc: i128 = 0;
    let mut i: usize = 0;
    while i < n
        invariant
            i <= n,
            n == v@.len(),
            n <= MAX_RANK_LEN,
            forall|k: int| 0 <= k < n ==> 1 <= (#[trigger] v@[k]) <= 2 * n,
            acc as int == sum_of(rank_int_view(v@).take(i as int)),
            0 <= acc as int <= 2 * (n as int) * (i as int),
        decreases n - i,
    {
        proof {
            assert(rank_int_view(v@).take(i + 1).drop_last() =~= rank_int_view(v@).take(i as int));
            assert(rank_int_view(v@).take(i + 1).last() == v@[i as int] as int);
            assert(2 * (n as int) * (i as int) + 2 * (n as int) == 2 * (n as int) * ((i + 1) as int))
                by (nonlinear_arith);
            assert(2 * (n as int) * ((i + 1) as int) <= 2 * (n as int) * (n as int))
                by (nonlinear_arith)
                requires
                    0 <= i < n,
            ;
            assert(2 * (n as int) * (i as int) <= 3200000000) by (nonlinear_arith)
                requires
                    0 <= i <= n <= 40000,
            ;
        }
        acc = acc + (v[i] as i128);
        i += 1;
    }
    proof {
        assert(rank_int_view(v@).take(n as int) =~= rank_int_view(v@));
        assert(2 * (n as int) * (i as int) <= 2 * (n as int) * (n as int)) by (nonlinear_arith)
            requires
                0 <= i <= n,
        ;
    }
    acc
}

/// Sum the elementwise products of two doubled-rank vectors.
fn sum_rank_prods(x: &Vec<u64>, y: &Vec<u64>) -> (r: i128)
    requires
        x@.len() == y@.len(),
        x@.len() <= MAX_RANK_LEN,
        forall|i: int| 0 <= i < x@.len() ==> 1 <= (#[trigger] x@[i]) <= 2 * x@.len(),
        forall|i: int| 0 <= i < y@.len() ==> 1 <= (#[trigger] y@[i]) <= 2 * y@.len(),
    ensures
        r as int == sum_prod(rank_int_view(x@), rank_int_view(y@)),
        0 <= r <= 4 * (x@.len() as int) * (x@.len() as int) * (x@.len() as int),
{
    let n = x.len();
    let mut acc: i128 = 0;
    let mut i: usize = 0;
    while i < n
        invariant
            i <= n,
            n == x@.len() == y@.len(),
            n <= MAX_RANK_LEN,
            forall|k: int| 0 <= k < n ==> 1 <= (#[trigger] x@[k]) <= 2 * n,
            forall|k: int| 0 <= k < n ==> 1 <= (#[trigger] y@[k]) <= 2 * n,
            acc as int == sum_prod(rank_int_view(x@).take(i as int), rank_int_view(y@).take(i as int)),
            0 <= acc as int <= 4 * (n as int) * (n as int) * (i as int),
        decreases n - i,
    {
        proof {
            assert(rank_int_view(x@).take(i + 1).drop_last() =~= rank_int_view(x@).take(i as int));
            assert(rank_int_view(y@).take(i + 1).drop_last() =~= rank_int_view(y@).take(i as int));
            assert(rank_int_view(x@).take(i + 1).last() == x@[i as int] as int);
            assert(rank_int_view(y@).take(i + 1).last() == y@[i as int] as int);
            assert(x@[i as int] as int * (y@[i as int] as int) <= 4 * (n as int) * (n as int)
                && x@[i as int] as int * (y@[i as int] as int) >= 0) by (nonlinear_arith)
                requires
                    0 <= i < n,
                    1 <= x@[i as int] as int <= 2 * (n as int),
                    1 <= y@[i as int] as int <= 2 * (n as int),
            ;
            assert(4 * (n as int) * (n as int) * (i as int) + 4 * (n as int) * (n as int) == 4 * (
            n as int) * (n as int) * ((i + 1) as int)) by (nonlinear_arith);
            assert(4 * (n as int) * (n as int) * ((i + 1) as int) <= 4 * (n as int) * (n as int) * (
            n as int)) by (nonlinear_arith)
                requires
                    0 <= i < n,
            ;
            assert(4 * (n as int) * (n as int) * (n as int) <= 256000000000000) by (nonlinear_arith)
                requires
                    0 <= n <= 40000,
            ;
            assert(4 * (n as int) * (n as int) * (i as int) <= 256000000000000) by (nonlinear_arith)
                requires
                    0 <= i <= n <= 40000,
            ;
        }
        acc = acc + (x[i] as i128) * (y[i] as i128);
        i += 1;
    }
    proof {
        assert(rank_int_view(x@).take(n as int) =~= rank_int_view(x@));
        assert(rank_int_view(y@).take(n as int) =~= rank_int_view(y@));
        assert(4 * (n as int) * (n as int) * (i as int) <= 4 * (n as int) * (n as int) * (n as int))
            by (nonlinear_arith)
            requires
                0 <= i <= n,
        ;
    }
    acc
}

/// The scaled Spearman rank correlation of two columns, with pairwise
/// deletion of rows where either value is missing and tie-averaged
/// mid-ranks: `None` when fewer than three rows survive or either rank
/// vector has no variance.
pub fn spearman_pairwise(x: &Vec<Option<i128>>, y: &Vec<Option<i128>>) -> (r: Option<i128>)
    requires
        x@.len() == y@.len(),
        x@.len() <= MAX_RANK_LEN,
    ensures
        spearman_post(x@, y@, r),
        r is Some ==> -MAX_CORR_MAG <= r->0 <= MAX_CORR_MAG,
{
    let n = x.len();
    let ghost cond = |i: int| x@[i] is Some && y@[i] is Some;
    let ghost tomap = |i: int| (x@[i]->0 as int, y@[i]->0 as int);
    let mut xv: Vec<i128> = Vec::new();
    let mut yv: Vec<i128> = Vec::new();
    let mut i: usize = 0;
    proof {
        reveal(Seq::filter);
        assert(Seq::new(0, |j: int| j) =~= Seq::<int>::empty());
        assert(int_view(xv@) =~= firsts(Seq::new(0, |j: int| j).filter(cond).map_values(tomap)));
        assert(int_view(yv@) =~= seconds(Seq::new(0, |j: int| j).filter(cond).map_values(tomap)));
    }
    while i < n
        invariant
            i <= n,
            n == x@.len() == y@.len(),
            cond == (|j: int| x@[j] is Some && y@[j] is Some),
            tomap == (|j: int| (x@[j]->0 as int, y@[j]->0 as int)),
            int_view(xv@) == firsts(Seq::new(i as nat, |j: int| j).filter(cond).map_values(tomap)),
            int_view(yv@) == seconds(Seq::new(i as nat, |j: int| j).filter(cond).map_values(tomap)),
            xv@.len() == yv@.len(),
            xv@.len() <= i,
        decreases n - i,
    {
        proof {
            let idxs = Seq::new(i as nat, |j: int| j);
            let idxs2 = Seq::new((i + 1) as nat, |j: int| j);
            assert(idxs2 =~= idxs.push(i as int));
            Seq::filter_distributes_over_add(idxs, seq![i as int], cond);
            assert(seq![i as int].filter(cond) == if cond(i as int) {
                seq![i as int]
            } else {
                Seq::<int>::empty()
            }) by {
                reveal_with_fuel(Seq::filter, 3);
                assert(seq![i as int].drop_last() =~= Seq::<int>::empty());
                assert(Seq::<int>::empty().filter(cond) =~= Seq::<int>::empty());
            }
            assert(idxs + seq![i as int] =~= idxs2);
        }
        let (xo, yo) = (x[i], y[i]);
        match (xo, yo) {
            (Some(xi), Some(yi)) => {
                let ghost old_xv = xv@;
                let ghost old_yv = yv@;
                xv.push(xi);
                yv.push(yi);
                proof {
                    let idxs = Seq::new(i as nat, |j: int| j);
                    let idxs2 = Seq::new((i + 1) as nat, |j: int| j);
                    let m1 = idxs.filter(cond).map_values(tomap);
                    let m2 = idxs2.filter(cond).map_values(tomap);
                    assert(m2 =~= m1.push(tomap(i as int)));
                    assert(firsts(m1.push(tomap(i as int))) =~= firsts(m1).push(
                        tomap(i as int).0,
                    ));
                    assert(seconds(m1.push(tomap(i as int))) =~= seconds(m1).push(
                        tomap(i as int).1,
                    ));
                    assert(int_view(xv@) =~= int_view(old_xv).push(xi as int));
                    assert(int_view(yv@) =~= int_view(old_yv).push(yi as int));
                }
            },
            _ => {
                proof {
                    let idxs = Seq::new(i as nat, |j: int| j);
                    let idxs2 = Seq::new((i + 1) as nat, |j: int| j);
                    assert(idxs2.filter(cond) =~= idxs.filter(cond));
                }
            },
        }
        i += 1;
    }
    proof {
        assert(Seq::new(n as nat, |j: int| j) =~= Seq::new(x@.len(), |j: int| j));
        assert(int_view(xv@) == firsts(paired(x@, y@)));
        assert(int_view(yv@) == seconds(paired(x@, y@)));
        assert(xv@.len() == paired(x@, y@).len());
    }
    if xv.len() < 3 {
        return None;
    }
    let dx = rank_vec_avg_ties(&xv);
    let dy = rank_vec_avg_ties(&yv);
    proof {
        assert(rank_int_view(dx@) =~= dranks(int_view(xv@)));
        assert(rank_int_view(dy@) =~= dranks(int_view(yv@)));
    }
    pearson_scaled(&dx, &dy)
}


/// Largest magnitude a scaled coefficient can take, given the rank-length
/// cap: every linkage comparison stays within `i128`.
pub const MAX_CORR_MAG: i128 = 30000000000000000000000000;

/// Largest cluster count the dendrogram ordering accepts.
pub const MAX_CLUSTERS: usize = 1000;

/// Largest sample count of a dense matrix.
pub const MAX_SAMPLES: usize = 1000000000;

/// A dense feature-by-sample matrix with possibly missing entries and
/// optional row and column names.
#[derive(Debug)]
pub struct DenseMiniMatrix {
    /// Row count: features.
    pub nrows: usize,
    /// Column count: samples.
    pub ncols: usize,
    /// Entries in row-major order; a missing entry is `None`.
    pub data: Vec<Option<Fx>>,
    pub row_names: Vec<Vec<u8>>,
    pub col_names: Vec<Vec<u8>>,
}

impl DenseMiniMatrix {
    pub open spec fn wf(self) -> bool {
        &&& self.data@.len() == self.nrows * self.ncols
        &&& self.nrows <= MAX_RANK_LEN
        &&& self.ncols <= MAX_SAMPLES
        &&& self.row_names@.len() == 0 || self.row_names@.len() == self.nrows
        &&& self.col_names@.len() == 0 || self.col_names@.len() == self.ncols
    }

    /// The entry in row `g`, column `c`.
    pub open spec fn at(self, g: int, c: int) -> Option<Fx> {
        self.data@[g * self.ncols + c]
    }

    /// Create from row-major data; names are optional and may be empty.
    pub fn new(
        nrows: usize,
        ncols: usize,
        data: Vec<Option<Fx>>,
        row_names: Vec<Vec<u8>>,
        col_names: Vec<Vec<u8>>,
    ) -> (r: DenseMiniMatrix)
        requires
            data@.len() == nrows * ncols,
            nrows <= MAX_RANK_LEN,
            ncols <= MAX_SAMPLES,
            row_names@.len() == 0 || row_names@.len() == nrows,
            col_names@.len() == 0 || col_names@.len() == ncols,
        ensures
            r.wf(),
            r.nrows == nrows,
            r.ncols == ncols,
            r.data == data,
            r.row_names == row_names,
            r.col_names == col_names,
    {
        DenseMiniMatrix { nrows, ncols, data, row_names, col_names }
    }

    /// Attach sample-level cluster labels and get a cluster view.
    pub fn cluster_view(&self, labels: Vec<u64>) -> (cv: ClusterView)
        requires
            self.wf(),
            labels@.len() == self.ncols,
        ensures
            cv.wf(),
            cv.nrows == self.nrows,
            cv.ids@ == unique_sorted(labels@),
            cv.counts@.len() == cv.ids@.len(),
            forall|ci: int|
                0 <= ci < cv.ids@.len() ==> (#[trigger] cv.counts@[ci]) as int == count_label(
                    labels@,
                    cv.ids@[ci],
                ),
            cv.sums@.len() == cv.ids@.len(),
            forall|ci: int, g: int|
                0 <= ci < cv.ids@.len() && 0 <= g < self.nrows ==> (#[trigger] cv.sums@[ci]@[g])
                    as int == cluster_sum(
                    self.data@,
                    self.ncols as int,
                    labels@,
                    g,
                    cv.ids@[ci],
                ),
    {
        let ids = sorted_unique(&labels);
        let n_clust = ids.len();
        let mut counts: Vec<u64> = Vec::new();
        let mut ci: usize = 0;
        while ci < n_clust
            invariant
                ci <= n_clust,
                n_clust == ids@.len(),
                labels@.len() == self.ncols <= MAX_SAMPLES,
                counts@.len() == ci,
                forall|k: int|
                    0 <= k < ci ==> (#[trigger] counts@[k]) as int == count_label(
                        labels@,
                        ids@[k],
                    ),
            decreases n_clust - ci,
        {
            let cid = ids[ci];
            let mut cnt: u64 = 0;
            let mut j: usize = 0;
            while j < labels.len()
                invariant
                    j <= labels@.len(),
                    labels@.len() <= MAX_SAMPLES,
                    cnt as int == count_label(labels@.take(j as int), cid),
                    cnt <= j,
                decreases labels@.len() - j,
            {
                proof {
                    assert(labels@.take(j + 1).drop_last() =~= labels@.take(j as int));
                }
                if labels[j] == cid {
                    cnt = cnt + 1;
                }
                j += 1;
            }
            proof {
                assert(labels@.take(labels@.len() as int) =~= labels@);
            }
            counts.push(cnt);
            ci += 1;
        }
        let mut sums: Vec<Vec<i128>> = Vec::new();
        let mut ci2: usize = 0;
        while ci2 < n_clust
            invariant
                ci2 <= n_clust,
                n_clust == ids@.len(),
                self.wf(),
                labels@.len() == self.ncols,
                sums@.len() == ci2,
                forall|k: int, g: int|
                    0 <= k < ci2 && 0 <= g < self.nrows ==> (#[trigger] sums@[k]@[g]) as int
                        == cluster_sum(self.data@, self.ncols as int, labels@, g, ids@[k]),
                forall|k: int| 0 <= k < ci2 ==> (#[trigger] sums@[k])@.len() == self.nrows,
            decreases n_clust - ci2,
        {
            let cid = ids[ci2];
            let dlen = self.data.len();
            let mut col: Vec<i128> = Vec::new();
            let mut g: usize = 0;
            while g < self.nrows
                invariant
                    g <= self.nrows,
                    self.wf(),
                    dlen == self.data@.len(),
                    labels@.len() == self.ncols,
                    col@.len() == g,
                    forall|g2: int|
                        0 <= g2 < g ==> (#[trigger] col@[g2]) as int == cluster_sum(
                            self.data@,
                            self.ncols as int,
                            labels@,
                            g2,
                            cid,
                        ),
                decreases self.nrows - g,
            {
                let mut acc: i128 = 0;
                let mut j: usize = 0;
                proof {
                    lemma_dims_bound(g as int, 0, self.nrows as int, self.ncols as int);
                }
                while j < self.ncols
                    invariant
                        j <= self.ncols,
                        g < self.nrows,
                        self.wf(),
                        dlen == self.data@.len(),
                        labels@.len() == self.ncols,
                        acc as int == csum(
                            self.data@,
                            self.ncols as int,
                            labels@,
                            g as int,
                            cid,
                            j as int,
                        ),
                        -9223372036854775808 * (j as int) <= acc as int <= 9223372036854775807 * (
                        j as int),
                    decreases self.ncols - j,
                {
                    proof {
                        lemma_dims_bound(g as int, j as int, self.nrows as int, self.ncols as int);
                        assert((-9223372036854775808) * (j as int) + (-9223372036854775808) == (
                        -9223372036854775808) * ((j + 1) as int)) by (nonlinear_arith);
                        assert(9223372036854775807 * (j as int) + 9223372036854775807
                            == 9223372036854775807 * ((j + 1) as int)) by (nonlinear_arith);
                        assert((-9223372036854775808) * ((j + 1) as int) >= (-9223372036854775808)
                            * 1000000000 && 9223372036854775807 * ((j + 1) as int)
                            <= 9223372036854775807 * 1000000000) by (nonlinear_arith)
                            requires
                                0 <= j < 1000000000,
                        ;
                    }
                    let e = self.data[g * self.ncols + j];
                    if labels[j] == cid {
                        match e {
                            Some(v) => {
                                acc = acc + (v.raw as i128);
                            },
                            None => {},
                        }
                    }
                    j += 1;
                }
                col.push(acc);
                g += 1;
            }
            sums.push(col);
            ci2 += 1;
        }
        ClusterView { nrows: self.nrows, ids, counts, sums }
    }
}

/// Row and column in range keep the flat index within the data.
proof fn lemma_dims_bound(g: int, j: int, nrows: int, ncols: int)
    requires
        0 <= g < nrows,
        0 <= j <= ncols,
    ensures
        j < ncols ==> 0 <= g * ncols + j < nrows * ncols,
        0 <= g * ncols <= nrows * ncols,
{
    assert(j < ncols ==> 0 <= g * ncols + j < nrows * ncols) by (nonlinear_arith)
        requires
            0 <= g < nrows,
            0 <= j <= ncols,
    ;
    assert(0 <= g * ncols <= nrows * ncols) by (nonlinear_arith)
        requires
            0 <= g < nrows,
            0 <= ncols,
    ;
}

/// How many samples carry a label.
pub open spec fn count_label(labels: Seq<u64>, c: u64) -> int
    decreases labels.len(),
{
    if labels.len() == 0 {
        0
    } else {
        count_label(labels.drop_last(), c) + if labels.last() == c {
            1int
        } else {
            0int
        }
    }
}

/// The sum, over the first `j` samples with label `c`, of the present
/// entries of feature row `g`.
pub open spec fn csum(
    data: Seq<Option<Fx>>,
    ncols: int,
    labels: Seq<u64>,
    g: int,
    c: u64,
    j: int,
) -> int
    decreases j,
{
    if j <= 0 {
        0
    } else {
        csum(data, ncols, labels, g, c, j - 1) + if labels[j - 1] == c && data[g * ncols + (j - 1)]
            is Some {
            data[g * ncols + (j - 1)]->0.raw as int
        } else {
            0int
        }
    }
}

/// The per-cluster sum of one feature row: present entries of the cluster's
/// samples, missing ones contributing nothing.
pub open spec fn cluster_sum(data: Seq<Option<Fx>>, ncols: int, labels: Seq<u64>, g: int, c: u64) -> int {
    csum(data, ncols, labels, g, c, labels.len() as int)
}

/// The ascending list of distinct labels: sort, then collapse adjacent
/// repetitions.
pub open spec fn dedup_adj(s: Seq<i128>) -> Seq<i128>
    decreases s.len(),
{
    if s.len() <= 1 {
        s
    } else if s[0] == s[1] {
        dedup_adj(s.drop_first())
    } else {
        seq![s[0]] + dedup_adj(s.drop_first())
    }
}

pub open spec fn pair_keys(s: Seq<(i128, usize)>) -> Seq<i128> {
    s.map_values(|p: (i128, usize)| p.0)
}

pub open spec fn label_keys(labels: Seq<u64>) -> Seq<(i128, usize)> {
    Seq::new(labels.len(), |i: int| (labels[i] as i128, i as usize))
}

/// The distinct labels of a sample set, ascending.
pub open spec fn unique_sorted(labels: Seq<u64>) -> Seq<u64> {
    dedup_adj(pair_keys(sorted_pairs(label_keys(labels)))).map_values(|k: i128| k as u64)
}

/// The ascending list of distinct labels, executably.
#[verifier::loop_isolation(false)]
pub fn sorted_unique(labels: &Vec<u64>) -> (r: Vec<u64>)
    ensures
        r@ == unique_sorted(labels@),
{
    let mut src: Vec<(i128, usize)> = Vec::new();
    let mut i: usize = 0;
    proof {
        assert(src@ =~= label_keys(labels@).take(0));
    }
    while i < labels.len()
        invariant
            i <= labels@.len(),
            src@ == label_keys(labels@).take(i as int),
        decreases labels@.len() - i,
    {
        src.push((labels[i] as i128, i));
        proof {
            assert(label_keys(labels@).take(i as int).push(label_keys(labels@)[i as int])
                =~= label_keys(labels@).take(i + 1));
        }
        i += 1;
    }
    proof {
        assert(label_keys(labels@).take(i as int) =~= label_keys(labels@));
    }
    let sorted = sort_pairs(&src);
    let ghost keys = pair_keys(sorted@);
    let mut out: Vec<u64> = Vec::new();
    let mut k: usize = 0;
    proof {
        assert(keys.skip(0) =~= keys);
        assert(out@.map_values(|v: u64| v as i128) =~= Seq::<i128>::empty());
    }
    while k < sorted.len()
        invariant
            k <= sorted@.len(),
            keys == pair_keys(sorted@),
            dedup_adj(keys) == out@.map_values(|v: u64| v as i128) + dedup_adj(
                keys.skip(k as int),
            ),
        decreases sorted@.len() - k,
    {
        let ghost rest = keys.skip(k as int);
        proof {
            assert(rest[0] == keys[k as int]);
            assert(keys[k as int] == sorted@[k as int].0);
        }
        if k + 1 < sorted.len() && sorted[k].0 == sorted[k + 1].0 {
            proof {
                assert(rest[1] == keys[k + 1]);
                assert(rest.drop_first() =~= keys.skip(k + 1));
            }
        } else {
            let v = sorted[k].0;
            proof {
                if k + 1 < sorted@.len() {
                    assert(rest[1] == keys[k + 1]);
                    assert(rest.drop_first() =~= keys.skip(k + 1));
                    assert(dedup_adj(rest) == seq![v] + dedup_adj(keys.skip(k + 1)));
                } else {
                    assert(rest.len() == 1);
                    assert(keys.skip(k + 1) =~= Seq::<i128>::empty());
                    assert(dedup_adj(rest) == rest);
                    assert(rest =~= seq![v] + dedup_adj(keys.skip(k + 1)));
                }
                broadcast use vstd::seq_lib::group_to_multiset_ensures;

                assert forall|a: int, b: int| 0 <= a < b < src@.len() implies (
                #[trigger] src@[a]).1 != (#[trigger] src@[b]).1 by {
                    assert(src@[a] == label_keys(labels@)[a]);
                    assert(src@[b] == label_keys(labels@)[b]);
                }
                assert(sorted@.contains(sorted@[k as int]));
                assert(src@.to_multiset().contains(sorted@[k as int]));
                assert(src@.contains(sorted@[k as int]));
                let w = choose|w: int| 0 <= w < src@.len() && src@[w] == sorted@[k as int];
                assert(src@[w] == label_keys(labels@)[w]);
                assert(src@[w].0 == labels@[w] as i128);
                assert(0 <= v <= u64::MAX);
                assert((out@.push((v as u64))).map_values(|x: u64| x as i128) =~= out@.map_values(
                    |x: u64| x as i128,
                ) + seq![v]);
                assert(out@.map_values(|x: u64| x as i128) + (seq![v] + dedup_adj(
                    keys.skip(k + 1),
                )) =~= (out@.map_values(|x: u64| x as i128) + seq![v]) + dedup_adj(
                    keys.skip(k + 1),
                ));
            }
            out.push(v as u64);
        }
        k += 1;
    }
    proof {
        assert(keys.skip(k as int) =~= Seq::<i128>::empty());
        assert(dedup_adj(keys) == out@.map_values(|v: u64| v as i128));
        let m = out@.map_values(|v: u64| v as i128);
        assert(out@ =~= m.map_values(|x: i128| x as u64)) by {
            assert(forall|t: int|
                0 <= t < out@.len() ==> m.map_values(|x: i128| x as u64)[t] == (#[trigger] out@[t]));
        }
        assert(out@ =~= unique_sorted(labels@));
    }
    out
}


/// A view that groups samples by cluster label: the ascending distinct
/// labels, each cluster's sample count, and each cluster's per-feature sums
/// of present entries.
///
/// A cluster's mean vector is its sum vector divided by its full sample
/// count — missing entries contribute nothing to the sum but still count in
/// the denominator, an intentional attenuation that keeps every mean
/// defined. Since all entries of one cluster column share that positive
/// denominator, the ranks of the sums equal the ranks of the means, and the
/// rank correlation below is computed on the sums.
#[derive(Debug)]
pub struct ClusterView {
    /// Feature count.
    pub nrows: usize,
    /// Ascending distinct cluster labels.
    pub ids: Vec<u64>,
    /// Per-cluster sample counts, parallel to `ids`.
    pub counts: Vec<u64>,
    /// Per-cluster sums of present entries, one vector of `nrows` sums per
    /// cluster, parallel to `ids`.
    pub sums: Vec<Vec<i128>>,
}

/// A sum column wrapped for pairwise deletion: every entry is present.
pub open spec fn opt_col(s: Seq<i128>) -> Seq<Option<i128>> {
    s.map_values(|v: i128| Some(v))
}

impl ClusterView {
    pub open spec fn wf(self) -> bool {
        &&& self.nrows <= MAX_RANK_LEN
        &&& self.ids@.len() == self.counts@.len()
        &&& self.ids@.len() == self.sums@.len()
        &&& forall|ci: int| 0 <= ci < self.sums@.len() ==> (#[trigger] self.sums@[ci])@.len() == self.nrows
    }

    /// The per-cluster sums and counts behind the cluster means, and the
    /// ascending cluster labels they are aligned with.
    pub fn cluster_means(&self) -> (r: (&Vec<Vec<i128>>, &Vec<u64>, &Vec<u64>))
        ensures
            *r.0 == self.sums,
            *r.1 == self.counts,
            *r.2 == self.ids,
    {
        (&self.sums, &self.counts, &self.ids)
    }

    /// The scaled Spearman correlation between every pair of cluster mean
    /// vectors, and one on the diagonal.
    pub fn spearman_between_clusters(&self) -> (r: Vec<Vec<Option<i128>>>)
        requires
            self.wf(),
        ensures
            r@.len() == self.ids@.len(),
            forall|i: int| 0 <= i < r@.len() ==> (#[trigger] r@[i])@.len() == self.ids@.len(),
            forall|i: int| 0 <= i < r@.len() ==> (#[trigger] r@[i])@[i] == Some(CORR_SCALE as i128),
            forall|i: int, j: int|
                0 <= i < r@.len() && 0 <= j < r@.len() && i != j ==> spearman_post(
                    opt_col(self.sums@[i]@),
                    opt_col(self.sums@[j]@),
                    (#[trigger] r@[i]@[j]),
                ),
            forall|i: int, j: int|
                0 <= i < r@.len() && 0 <= j < r@.len() && i != j ==> (#[trigger] r@[i]@[j])
                    == spearman_of(opt_col(self.sums@[i]@), opt_col(self.sums@[j]@)),
            forall|i: int, j: int|
                0 <= i < r@.len() && 0 <= j < r@.len() && (#[trigger] r@[i]@[j]) is Some
                    ==> -MAX_CORR_MAG <= r@[i]@[j]->0 <= MAX_CORR_MAG,
    {
        let n = self.ids.len();
        let mut rows: Vec<Vec<Option<i128>>> = Vec::new();
        let mut i: usize = 0;
        while i < n
            invariant
                i <= n,
                self.wf(),
                n == self.ids@.len(),
                rows@.len() == i,
                forall|a: int| 0 <= a < i ==> (#[trigger] rows@[a])@.len() == n,
                forall|a: int| 0 <= a < i ==> (#[trigger] rows@[a])@[a] == Some(CORR_SCALE as i128),
                forall|a: int, b: int|
                    0 <= a < i && 0 <= b < n && a != b ==> spearman_post(
                        opt_col(self.sums@[a]@),
                        opt_col(self.sums@[b]@),
                        (#[trigger] rows@[a]@[b]),
                    ),
                forall|a: int, b: int|
                    0 <= a < i && 0 <= b < n && a != b ==> (#[trigger] rows@[a]@[b])
                        == spearman_of(opt_col(self.sums@[a]@), opt_col(self.sums@[b]@)),
                forall|a: int, b: int|
                    0 <= a < i && 0 <= b < n && (#[trigger] rows@[a]@[b]) is Some ==> -MAX_CORR_MAG
                        <= rows@[a]@[b]->0 <= MAX_CORR_MAG,
            decreases n - i,
        {
            let xi = wrap_col(&self.sums[i]);
            let mut row: Vec<Option<i128>> = Vec::new();
            let mut j: usize = 0;
            while j < n
                invariant
                    j <= n,
                    i < n,
                    self.wf(),
                    n == self.ids@.len(),
                    xi@ == opt_col(self.sums@[i as int]@),
                    xi@.len() == self.nrows,
                    row@.len() == j,
                    forall|b: int| 0 <= b < j && b == i ==> (#[trigger] row@[b]) == Some(
                        CORR_SCALE as i128,
                    ),
                    forall|b: int|
                        0 <= b < j && b != i ==> spearman_post(
                            opt_col(self.sums@[i as int]@),
                            opt_col(self.sums@[b]@),
                            (#[trigger] row@[b]),
                        ),
                    forall|b: int|
                        0 <= b < j && b != i ==> (#[trigger] row@[b]) == spearman_of(
                            opt_col(self.sums@[i as int]@),
                            opt_col(self.sums@[b]@),
                        ),
                    forall|b: int|
                        0 <= b < j && (#[trigger] row@[b]) is Some ==> -MAX_CORR_MAG <= row@[b]->0
                            <= MAX_CORR_MAG,
                decreases n - j,
            {
                if j == i {
                    row.push(Some(CORR_SCALE as i128));
                } else {
                    let yj = wrap_col(&self.sums[j]);
                    let q = spearman_pairwise(&xi, &yj);
                    proof {
                        lemma_spearman_of_holds(xi@, yj@);
                        lemma_spearman_unique(xi@, yj@, q, spearman_of(xi@, yj@));
                    }
                    row.push(q);
                }
                j += 1;
            }
            rows.push(row);
            i += 1;
        }
        rows
    }

    /// A dendrogram leaf order from average-linkage clustering over distance
    /// one minus correlation: for two or fewer clusters, the labels in their
    /// ascending order; otherwise the leaf order of `n - 1` greedy merges,
    /// pinned exactly by [`upgma_leaves`] over [`dist_matrix`]. Each round
    /// scans candidate pairs in ascending index order and keeps the first
    /// strictly smaller linkage found; a pair whose linkage is undefined is
    /// never preferred, so when no round linkage is defined at all the two
    /// lowest-indexed live clusters merge. The result is always a
    /// permutation of the labels.
    #[verifier::loop_isolation(false)]
    pub fn upgma_order(&self) -> (r: Vec<u64>)
        requires
            self.wf(),
            self.ids@.len() <= MAX_CLUSTERS,
        ensures
            r@.len() == self.ids@.len(),
            self.ids@.len() <= 2 ==> r@ == self.ids@,
            self.ids@.len() > 2 ==> r@ == upgma_leaves(
                dist_matrix(self.sums@, self.ids@.len() as int),
                self.ids@.len() as int,
            ).map_values(ids_at(self.ids@)),
            r@.to_multiset() == self.ids@.to_multiset(),
    {
        broadcast use vstd::seq_lib::group_to_multiset_ensures;

        let n = self.ids.len();
        if n <= 2 {
            let r = clone_ids(&self.ids);
            return r;
        }
        let corr = self.spearman_between_clusters();
        let ghost dm = dist_matrix(self.sums@, n as int);
        // full distance matrix, one minus correlation
        let mut dist: Vec<Vec<Option<i128>>> = Vec::new();
        let mut i: usize = 0;
        while i < n
            invariant
                i <= n,
                dist@.len() == i,
                forall|a: int| 0 <= a < i ==> (#[trigger] dist@[a])@.len() == n,
                forall|a: int, b: int|
                    0 <= a < i && 0 <= b < n && (#[trigger] dist@[a]@[b]) is Some ==> 0 - 2
                        * MAX_CORR_MAG <= dist@[a]@[b]->0 <= 2 * MAX_CORR_MAG,
                forall|a: int| 0 <= a < i ==> (#[trigger] dist@[a])@ == dm[a],
            decreases n - i,
        {
            let mut drow: Vec<Option<i128>> = Vec::new();
            let mut j: usize = 0;
            while j < n
                invariant
                    j <= n,
                    i < n,
                    drow@.len() == j,
                    forall|b: int|
                        0 <= b < j && (#[trigger] drow@[b]) is Some ==> 0 - 2 * MAX_CORR_MAG
                            <= drow@[b]->0 <= 2 * MAX_CORR_MAG,
                    forall|b: int| 0 <= b < j ==> #[trigger] drow@[b] == dm[i as int][b],
                decreases n - j,
            {
                let d: Option<i128> = match corr[i][j] {
                    Some(q) => Some((CORR_SCALE as i128) - q),
                    None => None,
                };
                drow.push(d);
                j += 1;
            }
            dist.push(drow);
            proof {
                assert(dist@.last()@ =~= dm[i as int]);
            }
            i += 1;
        }
        proof {
            assert(dmat(dist@) =~= dm);
        }
        // live clusters: every position starts as its own singleton
        let mut members_idx: Vec<Vec<usize>> = Vec::new();
        let mut members_ids: Vec<Vec<u64>> = Vec::new();
        let mut active: Vec<bool> = Vec::new();
        let mut c: usize = 0;
        proof {
            assert(all_ids(members_ids@) =~= self.ids@.take(0).to_multiset()) by {
                assert(self.ids@.take(0) =~= Seq::<u64>::empty());
            }
        }
        while c < n
            invariant
                c <= n,
                members_idx@.len() == c,
                members_ids@.len() == c,
                active@.len() == c,
                forall|a: int| 0 <= a < c ==> (#[trigger] active@[a]) == true,
                forall|a: int| 0 <= a < c ==> (#[trigger] members_idx@[a])@ =~= seq![a as usize],
                forall|a: int| 0 <= a < c ==> (#[trigger] members_ids@[a])@ =~= seq![
                    self.ids@[a],
                ],
                all_ids(members_ids@) == self.ids@.take(c as int).to_multiset(),
                total_members(members_idx@) == c,
                count_active(active@) == c,
            decreases n - c,
        {
            let mut mi: Vec<usize> = Vec::new();
            mi.push(c);
            let mut md: Vec<u64> = Vec::new();
            md.push(self.ids[c]);
            let ghost prev = members_ids@;
            let ghost prev_i = members_idx@;
            let ghost prev_a = active@;
            members_idx.push(mi);
            members_ids.push(md);
            active.push(true);
            proof {
                assert(active@.drop_last() =~= prev_a);
                broadcast use vstd::multiset::group_multiset_axioms, vstd::seq_lib::group_to_multiset_ensures;

                lemma_total_members_push(prev_i, members_idx@.last());
                assert(members_idx@.drop_last() =~= prev_i);
                lemma_all_ids_push(prev, members_ids@.last());
                assert(members_ids@.drop_last() =~= prev);
                assert(members_ids@.last()@ =~= seq![self.ids@[c as int]]);
                assert(members_ids@.last()@.to_multiset() =~= Multiset::<u64>::empty().insert(
                    self.ids@[c as int],
                )) by {
                    assert(seq![self.ids@[c as int]] =~= Seq::<u64>::empty().push(
                        self.ids@[c as int],
                    ));
                    vstd::seq_lib::to_multiset_build(
                        Seq::<u64>::empty(),
                        self.ids@[c as int],
                    );
                    assert(Seq::<u64>::empty().to_multiset() =~= Multiset::<u64>::empty());
                }
                assert(self.ids@.take(c as int).push(self.ids@[c as int]) =~= self.ids@.take(
                    c + 1,
                ));
                vstd::seq_lib::to_multiset_build(self.ids@.take(c as int), self.ids@[c as int]);
                assert(all_ids(members_ids@) =~= self.ids@.take(c + 1).to_multiset());
            }
            c += 1;
        }
        proof {
            assert(self.ids@.take(n as int) =~= self.ids@);
            assert(idx_mat(members_idx@) =~= upgma_state(dm, n as int, 0).0) by {
                assert forall|a: int| 0 <= a < n implies idx_mat(members_idx@)[a] =~= seq![
                    a,
                ] by {
                    assert(idx_ints(members_idx@[a]@) =~= seq![a]);
                }
            }
            assert(active@ =~= upgma_state(dm, n as int, 0).1);
            assert forall|a: int| 0 <= a < n implies (#[trigger] members_ids@[a])@ == idx_ints(
                members_idx@[a]@,
            ).map_values(ids_at(self.ids@)) by {
                assert(idx_ints(members_idx@[a]@).map_values(ids_at(self.ids@)) =~= seq![
                    self.ids@[a],
                ]);
            }
        }
        // n - 1 greedy merge rounds, each mirroring one step of the spec
        let mut live: usize = n;
        let mut step: usize = 0;
        while step < n - 1
            invariant
                step <= n - 1,
                members_idx@.len() == n,
                members_ids@.len() == n,
                active@.len() == n,
                forall|a: int, m: int|
                    0 <= a < n && 0 <= m < members_idx@[a]@.len() ==> (
                    #[trigger] members_idx@[a]@[m]) < n,
                forall|a: int| 0 <= a < n ==> (#[trigger] members_ids@[a])@.len()
                    == members_idx@[a]@.len(),
                forall|a: int|
                    0 <= a < n && !active@[a] ==> (#[trigger] members_ids@[a])@.len() == 0,
                forall|a: int| 0 <= a < n ==> (#[trigger] members_idx@[a])@.len() <= n,
                count_active(active@) == live,
                live == n - step,
                all_ids(members_ids@) == self.ids@.to_multiset(),
                total_members(members_idx@) == n,
                idx_mat(members_idx@) == upgma_state(dm, n as int, step as int).0,
                active@ == upgma_state(dm, n as int, step as int).1,
                forall|a: int|
                    0 <= a < n ==> (#[trigger] members_ids@[a])@ == idx_ints(
                        members_idx@[a]@,
                    ).map_values(ids_at(self.ids@)),
            decreases n - 1 - step,
        {
            let ghost mems = idx_mat(members_idx@);
            // find the nearest live pair, first strictly smaller kept
            let mut best_a: usize = 0;
            let mut best_b: usize = 0;
            let mut have_pair = false;
            let mut best_d: Option<(i128, i128)> = None;
            let mut a: usize = 0;
            while a < n
                invariant
                    a <= n,
                    have_pair ==> best_a < n && best_b < n && best_a != best_b
                        && active@[best_a as int] && active@[best_b as int],
                    match best_d {
                        Some(p) => have_pair && 1 <= p.1 <= 1000000 && 0 - 2000000 * MAX_CORR_MAG
                            <= p.0 <= 2000000 * MAX_CORR_MAG,
                        None => true,
                    },
                    scan_a(
                        dm,
                        mems,
                        active@,
                        (best_a as int, best_b as int, opt_pair_view(best_d), have_pair),
                        a as int,
                        n as int,
                    ) == best_pair(dm, mems, active@, n as int),
                decreases n - a,
            {
                let ghost st_outer = (best_a as int, best_b as int, opt_pair_view(best_d), have_pair);
                if active[a] {
                    let mut b: usize = a + 1;
                    while b < n
                        invariant
                            a < b <= n,
                            a < n,
                            active@[a as int],
                            have_pair ==> best_a < n && best_b < n && best_a != best_b
                                && active@[best_a as int] && active@[best_b as int],
                            match best_d {
                                Some(p) => have_pair && 1 <= p.1 <= 1000000 && 0 - 2000000
                                    * MAX_CORR_MAG <= p.0 <= 2000000 * MAX_CORR_MAG,
                                None => true,
                            },
                            scan_b(
                                dm,
                                mems,
                                active@,
                                (
                                    best_a as int,
                                    best_b as int,
                                    opt_pair_view(best_d),
                                    have_pair,
                                ),
                                a as int,
                                b as int,
                                n as int,
                            ) == scan_b(dm, mems, active@, st_outer, a as int, a as int + 1, n as int),
                        decreases n - b,
                    {
                        let ghost cur = (best_a as int, best_b as int, opt_pair_view(best_d), have_pair);
                        if active[b] {
                            proof {
                                assert(mems[a as int] == idx_ints(members_idx@[a as int]@));
                                assert(mems[b as int] == idx_ints(members_idx@[b as int]@));
                            }
                            if !have_pair {
                                best_a = a;
                                best_b = b;
                                have_pair = true;
                                best_d = linkage(&dist, &members_idx[a], &members_idx[b]);
                                proof {
                                    assert(opt_pair_view(best_d) == linkage_of(
                                        dm,
                                        mems[a as int],
                                        mems[b as int],
                                    ));
                                }
                            } else {
                                let d = linkage(&dist, &members_idx[a], &members_idx[b]);
                                proof {
                                    assert(opt_pair_view(d) == linkage_of(
                                        dm,
                                        mems[a as int],
                                        mems[b as int],
                                    ));
                                }
                                match (d, best_d) {
                                    (Some(dn), Some(bo)) => {
                                        // dn.0 / dn.1 < bo.0 / bo.1
                                        proof {
                                            lemma_linkage_mul_ok(dn.0, dn.1, bo.0, bo.1);
                                        }
                                        if dn.0 * bo.1 < bo.0 * dn.1 {
                                            best_a = a;
                                            best_b = b;
                                            best_d = Some(dn);
                                        }
                                    },
                                    (Some(dn), None) => {
                                        best_a = a;
                                        best_b = b;
                                        best_d = Some(dn);
                                    },
                                    _ => {},
                                }
                            }
                            proof {
                                assert((
                                    best_a as int,
                                    best_b as int,
                                    opt_pair_view(best_d),
                                    have_pair,
                                ) == consider(dm, mems, cur, a as int, b as int));
                            }
                        }
                        b += 1;
                    }
                    proof {
                        assert(scan_b(
                            dm,
                            mems,
                            active@,
                            (best_a as int, best_b as int, opt_pair_view(best_d), have_pair),
                            a as int,
                            n as int,
                            n as int,
                        ) == (best_a as int, best_b as int, opt_pair_view(best_d), have_pair));
                    }
                }
                a += 1;
            }
            proof {
                assert(scan_a(
                    dm,
                    mems,
                    active@,
                    (best_a as int, best_b as int, opt_pair_view(best_d), have_pair),
                    n as int,
                    n as int,
                ) == (best_a as int, best_b as int, opt_pair_view(best_d), have_pair));
                lemma_best_pair_live(dm, mems, active@, n as int);
                assert(have_pair);
            }
            let ma = best_a;
            let mb = best_b;
            // merge mb into ma, retiring mb
            let ghost prev_idx = members_idx@;
            let ghost prev_ids = members_ids@;
            let ghost prev_active = active@;
            let mut moved_idx: Vec<usize> = Vec::new();
            members_idx.set_and_swap(mb, &mut moved_idx);
            let mut moved_ids: Vec<u64> = Vec::new();
            members_ids.set_and_swap(mb, &mut moved_ids);
            let mut base_idx: Vec<usize> = Vec::new();
            members_idx.set_and_swap(ma, &mut base_idx);
            let mut base_ids: Vec<u64> = Vec::new();
            members_ids.set_and_swap(ma, &mut base_ids);
            let mut t: usize = 0;
            while t < moved_idx.len()
                invariant
                    t <= moved_idx@.len(),
                    moved_ids@.len() == moved_idx@.len(),
                    base_idx@.len() == base_ids@.len(),
                    base_idx@ == prev_idx[ma as int]@ + moved_idx@.take(t as int),
                    base_ids@ == prev_ids[ma as int]@ + moved_ids@.take(t as int),
                decreases moved_idx@.len() - t,
            {
                base_idx.push(moved_idx[t]);
                base_ids.push(moved_ids[t]);
                proof {
                    assert(prev_idx[ma as int]@ + moved_idx@.take(t as int).push(
                        moved_idx@[t as int],
                    ) =~= prev_idx[ma as int]@ + moved_idx@.take(t + 1));
                    assert(prev_ids[ma as int]@ + moved_ids@.take(t as int).push(
                        moved_ids@[t as int],
                    ) =~= prev_ids[ma as int]@ + moved_ids@.take(t + 1));
                }
                t += 1;
            }
            proof {
                assert(moved_idx@.take(t as int) =~= moved_idx@);
                assert(moved_ids@.take(t as int) =~= moved_ids@);
            }
            members_idx.set(ma, base_idx);
            members_ids.set(ma, base_ids);
            active.set(mb, false);
            live = live - 1;
            proof {
                broadcast use vstd::multiset::group_multiset_axioms, vstd::seq_lib::group_to_multiset_ensures;

                let mid = prev_ids.update(mb as int, members_ids@[mb as int]);
                assert(members_ids@ =~= mid.update(ma as int, members_ids@[ma as int]));
                lemma_all_ids_update(prev_ids, mb as int, members_ids@[mb as int]);
                lemma_all_ids_update(mid, ma as int, members_ids@[ma as int]);
                assert(members_ids@[mb as int]@ =~= Seq::<u64>::empty());
                assert(mid[ma as int] == prev_ids[ma as int]);
                assert(moved_ids@ == prev_ids[mb as int]@);
                assert(members_ids@[ma as int]@ == prev_ids[ma as int]@ + moved_ids@);
                vstd::seq_lib::lemma_multiset_commutative(prev_ids[ma as int]@, moved_ids@);
                assert forall|e: u64| #[trigger] all_ids(members_ids@).count(e) == all_ids(
                    prev_ids,
                ).count(e) by {
                    assert(members_ids@[mb as int]@.to_multiset().count(e) == 0) by {
                        assert(!members_ids@[mb as int]@.contains(e));
                    }
                    assert(members_ids@[ma as int]@.to_multiset().count(e)
                        == prev_ids[ma as int]@.to_multiset().count(e)
                        + prev_ids[mb as int]@.to_multiset().count(e));
                    assert(all_ids(mid).count(e) == all_ids(prev_ids).count(e)
                        - prev_ids[mb as int]@.to_multiset().count(e));
                    assert(all_ids(members_ids@).count(e) == all_ids(mid).count(e) - mid[
                        ma as int
                    ]@.to_multiset().count(e) + members_ids@[ma as int]@.to_multiset().count(e));
                }
                assert(all_ids(members_ids@) =~= all_ids(prev_ids));
                lemma_count_active_update(prev_active, mb as int, false);
                let midx = prev_idx.update(mb as int, members_idx@[mb as int]);
                assert(members_idx@ =~= midx.update(ma as int, members_idx@[ma as int]));
                lemma_total_members_update(prev_idx, mb as int, members_idx@[mb as int]);
                lemma_total_members_update(midx, ma as int, members_idx@[ma as int]);
                assert(midx[ma as int] == prev_idx[ma as int]);
                assert(members_idx@[mb as int]@.len() == 0);
                assert(members_idx@[ma as int]@.len() == prev_idx[ma as int]@.len()
                    + moved_idx@.len());
                assert forall|x: int| 0 <= x < n implies (#[trigger] members_idx@[x])@.len()
                    <= n by {
                    lemma_member_le_total(members_idx@, x);
                }
                // one spec merge round took place, from the same state
                let st = best_pair(dm, mems, prev_active, n as int);
                assert(st == (ma as int, mb as int, opt_pair_view(best_d), true));
                assert(idx_ints(base_idx@) =~= idx_ints(prev_idx[ma as int]@) + idx_ints(
                    moved_idx@,
                ));
                assert(idx_ints(moved_idx@) == mems[mb as int]) by {
                    assert(moved_idx@ == prev_idx[mb as int]@);
                }
                assert(mems == idx_mat(prev_idx));
                assert forall|x: int| 0 <= x < n implies idx_mat(members_idx@)[x] == merge_members(
                    mems,
                    ma as int,
                    mb as int,
                )[x] by {
                    if x == ma as int {
                        assert(idx_mat(members_idx@)[x] == idx_ints(base_idx@));
                        assert(mems[ma as int] == idx_ints(prev_idx[ma as int]@));
                        assert(idx_ints(base_idx@) == mems[ma as int] + mems[mb as int]);
                    } else if x == mb as int {
                        assert(idx_ints(members_idx@[x]@) =~= Seq::<int>::empty());
                    } else {
                        assert(members_idx@[x] == prev_idx[x]);
                        assert(idx_mat(members_idx@)[x] == idx_ints(prev_idx[x]@));
                    }
                }
                assert(idx_mat(members_idx@) =~= merge_members(mems, ma as int, mb as int));
                assert(active@ =~= prev_active.update(mb as int, false));
                assert(upgma_state(dm, n as int, step + 1).0 == idx_mat(members_idx@));
                assert(upgma_state(dm, n as int, step + 1).1 == active@);
                // the label lists stay the index lists mapped through the labels
                assert forall|x: int| 0 <= x < n implies (#[trigger] members_ids@[x])@
                    == idx_ints(members_idx@[x]@).map_values(ids_at(self.ids@)) by {
                    if x == ma as int {
                        assert(base_ids@ =~= idx_ints(base_idx@).map_values(ids_at(self.ids@)));
                    } else if x == mb as int {
                        assert(members_ids@[x]@ =~= idx_ints(members_idx@[x]@).map_values(
                            ids_at(self.ids@),
                        ));
                    }
                }
            }
            step += 1;
        }
        let root = first_active(&active);
        proof {
            assert forall|a: int| 0 <= a < n && a != root implies (
            #[trigger] members_ids@[a])@.len() == 0 by {
                if active@[a] {
                    if a < root {
                        assert(!active@[a]);
                    } else {
                        lemma_count_ge_two(active@, root as int, a);
                    }
                }
            }
            lemma_all_ids_only(members_ids@, root as int);
            lemma_first_live_at(active@, root as int);
            assert(members_ids@[root as int]@ == upgma_leaves(dm, n as int).map_values(
                ids_at(self.ids@),
            ));
        }
        let mut moved: Vec<u64> = Vec::new();
        members_ids.set_and_swap(root, &mut moved);
        proof {
            broadcast use vstd::seq_lib::group_to_multiset_ensures;

            assert(moved@.to_multiset() == self.ids@.to_multiset());
            assert(moved@.to_multiset().len() == moved@.len());
            assert(self.ids@.to_multiset().len() == self.ids@.len());
        }
        moved
    }
}


/// The view of the distance matrix rows, and of member index lists, as pure
/// sequences.
pub open spec fn dmat(s: Seq<Vec<Option<i128>>>) -> Seq<Seq<Option<i128>>> {
    s.map_values(|v: Vec<Option<i128>>| v@)
}

pub open spec fn idx_ints(s: Seq<usize>) -> Seq<int> {
    s.map_values(|u: usize| u as int)
}

pub open spec fn idx_mat(s: Seq<Vec<usize>>) -> Seq<Seq<int>> {
    s.map_values(|v: Vec<usize>| idx_ints(v@))
}

/// The pairwise distance matrix the dendrogram ordering works on: one minus
/// the scaled correlation of the cluster mean vectors, zero on the
/// diagonal, undefined where the correlation is undefined.
pub open spec fn dist_matrix(sums: Seq<Vec<i128>>, n: int) -> Seq<Seq<Option<i128>>> {
    Seq::new(
        n as nat,
        |i: int|
            Seq::new(
                n as nat,
                |j: int|
                    if i == j {
                        Some(0i128)
                    } else {
                        match spearman_of(opt_col(sums[i]@), opt_col(sums[j]@)) {
                            Some(q) => Some(((CORR_SCALE - q as int)) as i128),
                            None => None,
                        }
                    },
            ),
    )
}

/// The sum of base distances from one member to every member of a list;
/// undefined when any base distance is undefined.
pub open spec fn row_link(dm: Seq<Seq<Option<i128>>>, x: int, ys: Seq<int>) -> Option<int>
    decreases ys.len(),
{
    if ys.len() == 0 {
        Some(0)
    } else {
        match (row_link(dm, x, ys.drop_last()), dm[x][ys.last()]) {
            (Some(s), Some(v)) => Some(s + v as int),
            _ => None,
        }
    }
}

/// The sum of base distances over all member pairs of two lists.
pub open spec fn link_sum(dm: Seq<Seq<Option<i128>>>, xs: Seq<int>, ys: Seq<int>) -> Option<int>
    decreases xs.len(),
{
    if xs.len() == 0 {
        Some(0)
    } else {
        match (link_sum(dm, xs.drop_last(), ys), row_link(dm, xs.last(), ys)) {
            (Some(a), Some(b)) => Some(a + b),
            _ => None,
        }
    }
}

/// The average linkage between two clusters, as an exact sum-and-count
/// fraction; undefined for an empty cluster or any undefined base distance.
pub open spec fn linkage_of(dm: Seq<Seq<Option<i128>>>, xs: Seq<int>, ys: Seq<int>) -> Option<
    (int, int),
> {
    if xs.len() == 0 || ys.len() == 0 {
        None
    } else {
        match link_sum(dm, xs, ys) {
            Some(s) => Some((s, xs.len() as int * ys.len() as int)),
            None => None,
        }
    }
}

/// One undefined base distance poisons a member's row sum.
proof fn lemma_row_link_poison(dm: Seq<Seq<Option<i128>>>, x: int, ys: Seq<int>, k: int)
    requires
        0 <= k < ys.len(),
        dm[x][ys[k]] is None,
    ensures
        row_link(dm, x, ys) is None,
    decreases ys.len(),
{
    if k == ys.len() - 1 {
    } else {
        assert(ys.drop_last()[k] == ys[k]);
        lemma_row_link_poison(dm, x, ys.drop_last(), k);
    }
}

/// One poisoned member poisons the whole pair sum.
proof fn lemma_link_sum_poison(dm: Seq<Seq<Option<i128>>>, xs: Seq<int>, ys: Seq<int>, k: int)
    requires
        0 <= k < xs.len(),
        row_link(dm, xs[k], ys) is None,
    ensures
        link_sum(dm, xs, ys) is None,
    decreases xs.len(),
{
    if k == xs.len() - 1 {
    } else {
        assert(xs.drop_last()[k] == xs[k]);
        lemma_link_sum_poison(dm, xs.drop_last(), ys, k);
    }
}


/// The view of an executable best-linkage value.
pub open spec fn opt_pair_view(o: Option<(i128, i128)>) -> Option<(int, int)> {
    match o {
        Some(p) => Some((p.0 as int, p.1 as int)),
        None => None,
    }
}

/// The map from a cluster position to its label, as a function value.
pub open spec fn ids_at(ids: Seq<u64>) -> spec_fn(int) -> u64 {
    |i: int| ids[i]
}

/// One candidate pair folded into the running best of the nearest-pair
/// scan: the first pair seen is taken as it stands; a later pair takes over
/// exactly when its linkage is defined and either the running best's is not
/// or its own is strictly smaller, by cross-multiplication of the two
/// average fractions.
pub open spec fn consider(
    dm: Seq<Seq<Option<i128>>>,
    mem: Seq<Seq<int>>,
    st: (int, int, Option<(int, int)>, bool),
    a: int,
    b: int,
) -> (int, int, Option<(int, int)>, bool) {
    if !st.3 {
        (a, b, linkage_of(dm, mem[a], mem[b]), true)
    } else {
        match (linkage_of(dm, mem[a], mem[b]), st.2) {
            (Some(dn), Some(bo)) => if dn.0 * bo.1 < bo.0 * dn.1 {
                (a, b, Some(dn), true)
            } else {
                st
            },
            (Some(dn), None) => (a, b, Some(dn), true),
            _ => st,
        }
    }
}

/// The scan over partners `b, b+1, ...` of one live cluster `a`.
pub open spec fn scan_b(
    dm: Seq<Seq<Option<i128>>>,
    mem: Seq<Seq<int>>,
    act: Seq<bool>,
    st: (int, int, Option<(int, int)>, bool),
    a: int,
    b: int,
    n: int,
) -> (int, int, Option<(int, int)>, bool)
    decreases n - b,
{
    if b < 0 || b >= n {
        st
    } else {
        let st2 = if act[b] {
            consider(dm, mem, st, a, b)
        } else {
            st
        };
        scan_b(dm, mem, act, st2, a, b + 1, n)
    }
}

/// The scan over candidate pairs in ascending `(a, b)` index order.
pub open spec fn scan_a(
    dm: Seq<Seq<Option<i128>>>,
    mem: Seq<Seq<int>>,
    act: Seq<bool>,
    st: (int, int, Option<(int, int)>, bool),
    a: int,
    n: int,
) -> (int, int, Option<(int, int)>, bool)
    decreases n - a,
{
    if a < 0 || a >= n {
        st
    } else {
        let st2 = if act[a] {
            scan_b(dm, mem, act, st, a, a + 1, n)
        } else {
            st
        };
        scan_a(dm, mem, act, st2, a + 1, n)
    }
}

/// The pair one merge round picks: the first strictly smaller linkage in
/// ascending index order, starting from nothing.
pub open spec fn best_pair(
    dm: Seq<Seq<Option<i128>>>,
    mem: Seq<Seq<int>>,
    act: Seq<bool>,
    n: int,
) -> (int, int, Option<(int, int)>, bool) {
    scan_a(dm, mem, act, (0, 0, None, false), 0, n)
}

/// Once some pair has been seen the scan keeps one.
proof fn lemma_scan_b_keeps(dm: Seq<Seq<Option<i128>>>, mem: Seq<Seq<int>>, act: Seq<bool>, st: (
    int,
    int,
    Option<(int, int)>,
    bool,
), a: int, b: int, n: int)
    requires
        st.3,
    ensures
        scan_b(dm, mem, act, st, a, b, n).3,
    decreases n - b,
{
    if 0 <= b < n {
        let st2 = if act[b] {
            consider(dm, mem, st, a, b)
        } else {
            st
        };
        lemma_scan_b_keeps(dm, mem, act, st2, a, b + 1, n);
    }
}

proof fn lemma_scan_a_keeps(dm: Seq<Seq<Option<i128>>>, mem: Seq<Seq<int>>, act: Seq<bool>, st: (
    int,
    int,
    Option<(int, int)>,
    bool,
), a: int, n: int)
    requires
        st.3,
    ensures
        scan_a(dm, mem, act, st, a, n).3,
    decreases n - a,
{
    if 0 <= a < n {
        let st2 = if act[a] {
            scan_b(dm, mem, act, st, a, a + 1, n)
        } else {
            st
        };
        if act[a] {
            lemma_scan_b_keeps(dm, mem, act, st, a, a + 1, n);
        }
        lemma_scan_a_keeps(dm, mem, act, st2, a + 1, n);
    }
}

/// A live partner in range guarantees the partner scan sees a pair.
proof fn lemma_scan_b_hits(dm: Seq<Seq<Option<i128>>>, mem: Seq<Seq<int>>, act: Seq<bool>, st: (
    int,
    int,
    Option<(int, int)>,
    bool,
), a: int, b0: int, n: int, b: int)
    requires
        0 <= b0 <= b < n,
        act[b],
    ensures
        scan_b(dm, mem, act, st, a, b0, n).3,
    decreases b - b0,
{
    let st2 = if act[b0] {
        consider(dm, mem, st, a, b0)
    } else {
        st
    };
    if b0 == b {
        assert(st2.3);
        lemma_scan_b_keeps(dm, mem, act, st2, a, b0 + 1, n);
    } else {
        lemma_scan_b_hits(dm, mem, act, st2, a, b0 + 1, n, b);
    }
}

/// Two live clusters guarantee the full scan picks a pair.
proof fn lemma_scan_a_hits(dm: Seq<Seq<Option<i128>>>, mem: Seq<Seq<int>>, act: Seq<bool>, st: (
    int,
    int,
    Option<(int, int)>,
    bool,
), a0: int, n: int, a: int, b: int)
    requires
        0 <= a0 <= a < b < n,
        act[a],
        act[b],
    ensures
        scan_a(dm, mem, act, st, a0, n).3,
    decreases a - a0,
{
    let st2 = if act[a0] {
        scan_b(dm, mem, act, st, a0, a0 + 1, n)
    } else {
        st
    };
    if a0 == a {
        lemma_scan_b_hits(dm, mem, act, st, a0, a0 + 1, n, b);
        lemma_scan_a_keeps(dm, mem, act, st2, a0 + 1, n);
    } else {
        lemma_scan_a_hits(dm, mem, act, st2, a0 + 1, n, a, b);
    }
}

/// The picked pair of a round is always live and ordered, and with at least
/// two live clusters a pair is always picked.
proof fn lemma_best_pair_live(
    dm: Seq<Seq<Option<i128>>>,
    mem: Seq<Seq<int>>,
    act: Seq<bool>,
    n: int,
)
    requires
        act.len() == n,
        count_active(act) >= 2,
    ensures
        best_pair(dm, mem, act, n).3,
{
    lemma_two_active(act, count_active(act));
    let (a, b) = choose|a: int, b: int| 0 <= a < b < act.len() && act[a] && act[b];
    lemma_scan_a_hits(dm, mem, act, (0, 0, None, false), 0, n, a, b);
}

/// Merging folds one member list into another and empties it.
pub open spec fn merge_members(mem: Seq<Seq<int>>, a: int, b: int) -> Seq<Seq<int>> {
    mem.update(a, mem[a] + mem[b]).update(b, Seq::<int>::empty())
}

/// The dendrogram state after a number of greedy merge rounds: each round
/// merges the picked pair's second cluster into its first and retires it.
pub open spec fn upgma_state(dm: Seq<Seq<Option<i128>>>, n: int, steps: int) -> (
    Seq<Seq<int>>,
    Seq<bool>,
)
    decreases steps,
{
    if steps <= 0 {
        (Seq::new(n as nat, |i: int| seq![i]), Seq::new(n as nat, |i: int| true))
    } else {
        let prev = upgma_state(dm, n, steps - 1);
        let st = best_pair(dm, prev.0, prev.1, n);
        if st.3 {
            (merge_members(prev.0, st.0, st.1), prev.1.update(st.1, false))
        } else {
            prev
        }
    }
}

/// The lowest live index at or above `i`.
pub open spec fn first_live(act: Seq<bool>, i: int) -> int
    decreases act.len() - i,
{
    if i < 0 || i >= act.len() {
        i
    } else if act[i] {
        i
    } else {
        first_live(act, i + 1)
    }
}

/// The dendrogram leaf order over cluster positions: the member list of the
/// last live cluster after `n - 1` greedy merge rounds.
pub open spec fn upgma_leaves(dm: Seq<Seq<Option<i128>>>, n: int) -> Seq<int> {
    let fin = upgma_state(dm, n, n - 1);
    fin.0[first_live(fin.1, 0)]
}

/// A live index with nothing live below it is the first live index.
proof fn lemma_first_live_at(act: Seq<bool>, r: int)
    requires
        0 <= r < act.len(),
        act[r],
        forall|a: int| 0 <= a < r ==> !act[a],
    ensures
        first_live(act, 0) == r,
{
    lemma_first_live_from(act, 0, r);
}

proof fn lemma_first_live_from(act: Seq<bool>, i: int, r: int)
    requires
        0 <= i <= r < act.len(),
        act[r],
        forall|a: int| 0 <= a < r ==> !act[a],
    ensures
        first_live(act, i) == r,
    decreases r - i,
{
    if i < r {
        lemma_first_live_from(act, i + 1, r);
    }
}

/// Wrap a sum column for pairwise deletion.
fn wrap_col(s: &Vec<i128>) -> (r: Vec<Option<i128>>)
    ensures
        r@ == opt_col(s@),
{
    let mut out: Vec<Option<i128>> = Vec::new();
    let mut i: usize = 0;
    proof {
        assert(out@ =~= opt_col(s@).take(0));
    }
    while i < s.len()
        invariant
            i <= s@.len(),
            out@ == opt_col(s@).take(i as int),
        decreases s@.len() - i,
    {
        out.push(Some(s[i]));
        proof {
            assert(opt_col(s@).take(i as int).push(opt_col(s@)[i as int]) =~= opt_col(s@).take(
                i + 1,
            ));
        }
        i += 1;
    }
    proof {
        assert(opt_col(s@).take(i as int) =~= opt_col(s@));
    }
    out
}

/// A fresh copy of the label list.
fn clone_ids(v: &Vec<u64>) -> (r: Vec<u64>)
    ensures
        r@ == v@,
{
    let mut out: Vec<u64> = Vec::new();
    let mut i: usize = 0;
    while i < v.len()
        invariant
            i <= v@.len(),
            out@ =~= v@.take(i as int),
        decreases v@.len() - i,
    {
        out.push(v[i]);
        proof {
            assert(out@ =~= v@.take(i + 1));
        }
        i += 1;
    }
    proof {
        assert(v@.take(i as int) =~= v@);
    }
    out
}

/// The average-linkage numerator and denominator between two member lists:
/// the sum of their pairwise base distances and the pair count, exactly
/// [`linkage_of`]; undefined when any base distance is undefined or either
/// list is empty.
fn linkage(dist: &Vec<Vec<Option<i128>>>, xs: &Vec<usize>, ys: &Vec<usize>) -> (r: Option<
    (i128, i128),
>)
    requires
        dist@.len() <= MAX_CLUSTERS,
        forall|x: int| 0 <= x < dist@.len() ==> (#[trigger] dist@[x])@.len() == dist@.len(),
        forall|x: int, y: int|
            0 <= x < dist@.len() && 0 <= y < dist@.len() && (#[trigger] dist@[x]@[y]) is Some ==> 0
                - 2 * MAX_CORR_MAG <= dist@[x]@[y]->0 <= 2 * MAX_CORR_MAG,
        forall|m: int| 0 <= m < xs@.len() ==> (#[trigger] xs@[m]) < dist@.len(),
        forall|m: int| 0 <= m < ys@.len() ==> (#[trigger] ys@[m]) < dist@.len(),
        xs@.len() <= MAX_CLUSTERS,
        ys@.len() <= MAX_CLUSTERS,
    ensures
        r is Some <==> linkage_of(dmat(dist@), idx_ints(xs@), idx_ints(ys@)) is Some,
        r is Some ==> (r->0).0 as int == (linkage_of(
            dmat(dist@),
            idx_ints(xs@),
            idx_ints(ys@),
        )->0).0 && (r->0).1 as int == (linkage_of(dmat(dist@), idx_ints(xs@), idx_ints(ys@))->0).1,
        match r {
            Some(p) => 1 <= p.1 <= 1000000 && 0 - 2000000 * MAX_CORR_MAG <= p.0 <= 2000000
                * MAX_CORR_MAG,
            None => true,
        },
{
    let ghost dm = dmat(dist@);
    let ghost xsv = idx_ints(xs@);
    let ghost ysv = idx_ints(ys@);
    if xs.len() == 0 || ys.len() == 0 {
        return None;
    }
    let mut sum: i128 = 0;
    let mut cnt: i128 = 0;
    let mut u: usize = 0;
    proof {
        assert(xsv.take(0) =~= Seq::<int>::empty());
    }
    while u < xs.len()
        invariant
            u <= xs@.len(),
            xs@.len() <= MAX_CLUSTERS,
            ys@.len() <= MAX_CLUSTERS,
            1 <= ys@.len(),
            dm == dmat(dist@),
            xsv == idx_ints(xs@),
            ysv == idx_ints(ys@),
            dist@.len() <= MAX_CLUSTERS,
            forall|x: int| 0 <= x < dist@.len() ==> (#[trigger] dist@[x])@.len() == dist@.len(),
            forall|x: int, y: int|
                0 <= x < dist@.len() && 0 <= y < dist@.len() && (#[trigger] dist@[x]@[y]) is Some
                    ==> 0 - 2 * MAX_CORR_MAG <= dist@[x]@[y]->0 <= 2 * MAX_CORR_MAG,
            forall|m: int| 0 <= m < xs@.len() ==> (#[trigger] xs@[m]) < dist@.len(),
            forall|m: int| 0 <= m < ys@.len() ==> (#[trigger] ys@[m]) < dist@.len(),
            cnt as int == u as int * ys@.len(),
            0 <= cnt <= 1000000,
            0 - 2000000 * MAX_CORR_MAG <= sum as int <= 2000000 * MAX_CORR_MAG,
            cnt as int * (2 * MAX_CORR_MAG) >= sum as int >= cnt as int * (0 - 2 * MAX_CORR_MAG),
            link_sum(dm, xsv.take(u as int), ysv) == Some(sum as int),
        decreases xs@.len() - u,
    {
        let ghost outer_sum = sum as int;
        let mut w: usize = 0;
        proof {
            assert(ysv.take(0) =~= Seq::<int>::empty());
        }
        while w < ys.len()
            invariant
                w <= ys@.len(),
                u < xs@.len(),
                xs@.len() <= MAX_CLUSTERS,
                ys@.len() <= MAX_CLUSTERS,
                dm == dmat(dist@),
                xsv == idx_ints(xs@),
                ysv == idx_ints(ys@),
                dist@.len() <= MAX_CLUSTERS,
                forall|x: int| 0 <= x < dist@.len() ==> (#[trigger] dist@[x])@.len() == dist@.len(),
                forall|x: int, y: int|
                    0 <= x < dist@.len() && 0 <= y < dist@.len() && (#[trigger] dist@[x]@[y])
                        is Some ==> 0 - 2 * MAX_CORR_MAG <= dist@[x]@[y]->0 <= 2 * MAX_CORR_MAG,
                forall|m: int| 0 <= m < xs@.len() ==> (#[trigger] xs@[m]) < dist@.len(),
                forall|m: int| 0 <= m < ys@.len() ==> (#[trigger] ys@[m]) < dist@.len(),
                cnt as int == u as int * ys@.len() + w as int,
                0 <= cnt <= 1000000,
                cnt as int * (2 * MAX_CORR_MAG) >= sum as int >= cnt as int * (0 - 2
                    * MAX_CORR_MAG),
                0 - 2000000 * MAX_CORR_MAG <= sum as int <= 2000000 * MAX_CORR_MAG,
                link_sum(dm, xsv.take(u as int), ysv) == Some(outer_sum),
                row_link(dm, xsv[u as int], ysv.take(w as int)) == Some(sum as int - outer_sum),
            decreases ys@.len() - w,
        {
            proof {
                assert(xsv[u as int] == xs@[u as int] as int);
                assert(ysv[w as int] == ys@[w as int] as int);
                assert(dm[xs@[u as int] as int] == dist@[xs@[u as int] as int]@);
            }
            let d = match dist[xs[u]][ys[w]] {
                Some(d) => d,
                None => {
                    proof {
                        lemma_row_link_poison(dm, xsv[u as int], ysv, w as int);
                        lemma_link_sum_poison(dm, xsv, ysv, u as int);
                    }
                    return None;
                },
            };
            proof {
                assert((cnt as int + 1) * (2 * MAX_CORR_MAG) == cnt as int * (2 * MAX_CORR_MAG) + 2
                    * MAX_CORR_MAG) by (nonlinear_arith);
                assert((cnt as int + 1) * (0 - 2 * MAX_CORR_MAG) == cnt as int * (0 - 2
                    * MAX_CORR_MAG) - 2 * MAX_CORR_MAG) by (nonlinear_arith);
                assert(cnt as int + 1 <= 1000000 ==> (cnt as int + 1) * (2 * MAX_CORR_MAG)
                    <= 2000000 * MAX_CORR_MAG) by (nonlinear_arith);
                assert(cnt as int + 1 <= 1000000 ==> (cnt as int + 1) * (0 - 2 * MAX_CORR_MAG) >= 0
                    - 2000000 * MAX_CORR_MAG) by (nonlinear_arith);
                assert(u as int * ys@.len() + w as int + 1 <= 1000000) by (nonlinear_arith)
                    requires
                        0 <= u < xs@.len() <= 1000,
                        0 <= w < ys@.len() <= 1000,
                ;
                assert(ysv.take(w + 1).drop_last() =~= ysv.take(w as int));
                assert(ysv.take(w + 1).last() == ysv[w as int]);
            }
            sum = sum + d;
            cnt = cnt + 1;
            w += 1;
        }
        proof {
            assert(u as int * ys@.len() + ys@.len() == (u as int + 1) * ys@.len())
                by (nonlinear_arith);
            assert(ysv.take(ysv.len() as int) =~= ysv);
            assert(xsv.take(u + 1).drop_last() =~= xsv.take(u as int));
            assert(xsv.take(u + 1).last() == xsv[u as int]);
        }
        u += 1;
    }
    proof {
        assert(xs@.len() as int * ys@.len() >= 1) by (nonlinear_arith)
            requires
                xs@.len() >= 1,
                ys@.len() >= 1,
        ;
        assert(xsv.take(xsv.len() as int) =~= xsv);
    }
    Some((sum, cnt))
}

/// Cross-multiplying two linkage fractions stays within `i128`.
proof fn lemma_linkage_mul_ok(s1: i128, c1: i128, s2: i128, c2: i128)
    requires
        1 <= c1 <= 1000000,
        1 <= c2 <= 1000000,
        0 - 2000000 * MAX_CORR_MAG <= s1 <= 2000000 * MAX_CORR_MAG,
        0 - 2000000 * MAX_CORR_MAG <= s2 <= 2000000 * MAX_CORR_MAG,
    ensures
        i128::MIN <= s1 as int * (c2 as int) <= i128::MAX,
        i128::MIN <= s2 as int * (c1 as int) <= i128::MAX,
{
    assert(s1 as int * (c2 as int) <= 2000000 * MAX_CORR_MAG * 1000000 && s1 as int * (c2 as int)
        >= 0 - 2000000 * MAX_CORR_MAG * 1000000) by (nonlinear_arith)
        requires
            1 <= c2 <= 1000000,
            0 - 2000000 * MAX_CORR_MAG <= s1 <= 2000000 * MAX_CORR_MAG,
    ;
    assert(s2 as int * (c1 as int) <= 2000000 * MAX_CORR_MAG * 1000000 && s2 as int * (c1 as int)
        >= 0 - 2000000 * MAX_CORR_MAG * 1000000) by (nonlinear_arith)
        requires
            1 <= c1 <= 1000000,
            0 - 2000000 * MAX_CORR_MAG <= s2 <= 2000000 * MAX_CORR_MAG,
    ;
}

/// The multiset of all labels held across the member lists.
pub open spec fn all_ids(s: Seq<Vec<u64>>) -> Multiset<u64>
    decreases s.len(),
{
    if s.len() == 0 {
        Multiset::empty()
    } else {
        all_ids(s.drop_last()).add(s.last()@.to_multiset())
    }
}

proof fn lemma_all_ids_push(s: Seq<Vec<u64>>, x: Vec<u64>)
    ensures
        all_ids(s.push(x)) == all_ids(s).add(x@.to_multiset()),
{
    assert(s.push(x).drop_last() =~= s);
}

/// Updating one member list exchanges exactly its contribution, count by
/// count.
proof fn lemma_all_ids_update(s: Seq<Vec<u64>>, i: int, x: Vec<u64>)
    requires
        0 <= i < s.len(),
    ensures
        forall|e: u64|
            #[trigger] all_ids(s.update(i, x)).count(e) == all_ids(s).count(e) - s[i]@.to_multiset().count(
                e,
            ) + x@.to_multiset().count(e),
    decreases s.len(),
{
    broadcast use vstd::multiset::group_multiset_axioms;

    let u = s.update(i, x);
    assert(all_ids(u) == all_ids(u.drop_last()).add(u.last()@.to_multiset()));
    assert(all_ids(s) == all_ids(s.drop_last()).add(s.last()@.to_multiset()));
    if i == s.len() - 1 {
        assert(u.drop_last() =~= s.drop_last());
        assert(u.last() == x);
        assert(s.last() == s[i]);
        assert forall|e: u64|
            #[trigger] all_ids(u).count(e) == all_ids(s).count(e) - s[i]@.to_multiset().count(e)
                + x@.to_multiset().count(e) by {
            assert(all_ids(u).count(e) == all_ids(s.drop_last()).count(e)
                + x@.to_multiset().count(e));
            assert(all_ids(s).count(e) == all_ids(s.drop_last()).count(e)
                + s[i]@.to_multiset().count(e));
        }
    } else {
        assert(u.drop_last() =~= s.drop_last().update(i, x));
        assert(s.drop_last()[i] == s[i]);
        lemma_all_ids_update(s.drop_last(), i, x);
        assert(u.last() == s.last());
        assert forall|e: u64|
            #[trigger] all_ids(u).count(e) == all_ids(s).count(e) - s[i]@.to_multiset().count(e)
                + x@.to_multiset().count(e) by {
            assert(all_ids(s.drop_last().update(i, x)).count(e) == all_ids(s.drop_last()).count(e)
                - s.drop_last()[i]@.to_multiset().count(e) + x@.to_multiset().count(e));
            assert(all_ids(u).count(e) == all_ids(s.drop_last().update(i, x)).count(e)
                + s.last()@.to_multiset().count(e));
            assert(all_ids(s).count(e) == all_ids(s.drop_last()).count(e)
                + s.last()@.to_multiset().count(e));
        }
    }
}

/// When every list but one is empty, the total is that one's contribution.
proof fn lemma_all_ids_only(s: Seq<Vec<u64>>, root: int)
    requires
        0 <= root < s.len(),
        forall|a: int| 0 <= a < s.len() && a != root ==> (#[trigger] s[a])@.len() == 0,
    ensures
        all_ids(s) =~= s[root]@.to_multiset(),
    decreases s.len(),
{
    broadcast use vstd::multiset::group_multiset_axioms, vstd::seq_lib::group_to_multiset_ensures;

    if root == s.len() - 1 {
        lemma_all_ids_empty(s.drop_last());
    } else {
        assert(s.last()@ =~= Seq::<u64>::empty());
        assert(s.last()@.to_multiset() =~= Multiset::<u64>::empty());
        assert(s.drop_last()[root] == s[root]);
        lemma_all_ids_only(s.drop_last(), root);
    }
}

proof fn lemma_all_ids_empty(s: Seq<Vec<u64>>)
    requires
        forall|a: int| 0 <= a < s.len() ==> (#[trigger] s[a])@.len() == 0,
    ensures
        all_ids(s) =~= Multiset::<u64>::empty(),
    decreases s.len(),
{
    broadcast use vstd::multiset::group_multiset_axioms, vstd::seq_lib::group_to_multiset_ensures;

    if s.len() > 0 {
        assert(s.last()@ =~= Seq::<u64>::empty());
        assert(s.last()@.to_multiset() =~= Multiset::<u64>::empty());
        lemma_all_ids_empty(s.drop_last());
    }
}

/// Two distinct live clusters witness a count of at least two.
proof fn lemma_count_ge_two(s: Seq<bool>, a: int, b: int)
    requires
        0 <= a < b < s.len(),
        s[a],
        s[b],
    ensures
        count_active(s) >= 2,
    decreases s.len(),
{
    lemma_count_active_nonneg(s.take(b));
    if b == s.len() - 1 {
        lemma_count_ge_one(s.drop_last(), a);
    } else {
        assert(s.drop_last()[a] == s[a]);
        assert(s.drop_last()[b] == s[b]);
        lemma_count_ge_two(s.drop_last(), a, b);
    }
}

proof fn lemma_count_ge_one(s: Seq<bool>, a: int)
    requires
        0 <= a < s.len(),
        s[a],
    ensures
        count_active(s) >= 1,
    decreases s.len(),
{
    lemma_count_active_nonneg(s);
    if a == s.len() - 1 {
        lemma_count_active_nonneg(s.drop_last());
    } else {
        assert(s.drop_last()[a] == s[a]);
        lemma_count_ge_one(s.drop_last(), a);
    }
}

proof fn lemma_count_active_nonneg(s: Seq<bool>)
    ensures
        count_active(s) >= 0,
    decreases s.len(),
{
    if s.len() > 0 {
        lemma_count_active_nonneg(s.drop_last());
    }
}

/// The total member count across all clusters.
pub open spec fn total_members(s: Seq<Vec<usize>>) -> int
    decreases s.len(),
{
    if s.len() == 0 {
        0
    } else {
        total_members(s.drop_last()) + s.last()@.len()
    }
}

proof fn lemma_total_members_update(s: Seq<Vec<usize>>, i: int, x: Vec<usize>)
    requires
        0 <= i < s.len(),
    ensures
        total_members(s.update(i, x)) == total_members(s) - s[i]@.len() + x@.len(),
    decreases s.len(),
{
    if s.len() > 0 {
        if i == s.len() - 1 {
            assert(s.update(i, x).drop_last() =~= s.drop_last());
        } else {
            assert(s.update(i, x).drop_last() =~= s.drop_last().update(i, x));
            lemma_total_members_update(s.drop_last(), i, x);
        }
    }
}

proof fn lemma_total_members_push(s: Seq<Vec<usize>>, x: Vec<usize>)
    ensures
        total_members(s.push(x)) == total_members(s) + x@.len(),
{
    assert(s.push(x).drop_last() =~= s);
}

/// One cluster's member count never exceeds the total.
proof fn lemma_member_le_total(s: Seq<Vec<usize>>, a: int)
    requires
        0 <= a < s.len(),
    ensures
        s[a]@.len() <= total_members(s),
    decreases s.len(),
{
    lemma_total_nonneg(s);
    if a == s.len() - 1 {
        lemma_total_nonneg(s.drop_last());
    } else {
        assert(s.drop_last()[a] == s[a]);
        lemma_member_le_total(s.drop_last(), a);
    }
}

proof fn lemma_total_nonneg(s: Seq<Vec<usize>>)
    ensures
        total_members(s) >= 0,
    decreases s.len(),
{
    if s.len() > 0 {
        lemma_total_nonneg(s.drop_last());
    }
}

/// How many clusters are still live.
pub open spec fn count_active(s: Seq<bool>) -> int
    decreases s.len(),
{
    if s.len() == 0 {
        0
    } else {
        count_active(s.drop_last()) + if s.last() {
            1int
        } else {
            0int
        }
    }
}

proof fn lemma_count_active_update(s: Seq<bool>, i: int, v: bool)
    requires
        0 <= i < s.len(),
        s[i],
        !v,
    ensures
        count_active(s.update(i, v)) == count_active(s) - 1,
    decreases s.len(),
{
    if s.len() > 0 {
        if i == s.len() - 1 {
            assert(s.update(i, v).drop_last() =~= s.drop_last());
        } else {
            assert(s.update(i, v).drop_last() =~= s.drop_last().update(i, v));
            lemma_count_active_update(s.drop_last(), i, v);
        }
    }
}

/// At least two clusters are live while the count says so.
proof fn lemma_two_active(s: Seq<bool>, live: int)
    requires
        count_active(s) == live,
        live >= 2,
    ensures
        exists|a: int, b: int| 0 <= a < b < s.len() && s[a] && s[b],
    decreases s.len(),
{
    assert(s.len() > 0);
    if s.last() {
        if count_active(s.drop_last()) >= 1 {
            lemma_one_active(s.drop_last());
            let a = choose|a: int| 0 <= a < s.len() - 1 && s.drop_last()[a];
            assert(s[a] && s[s.len() - 1]);
        } else {
            assert(false);
        }
    } else {
        lemma_two_active(s.drop_last(), live);
        let (a, b) = choose|a: int, b: int|
            0 <= a < b < s.len() - 1 && s.drop_last()[a] && s.drop_last()[b];
        assert(s[a] && s[b]);
    }
}

proof fn lemma_one_active(s: Seq<bool>)
    requires
        count_active(s) >= 1,
    ensures
        exists|a: int| 0 <= a < s.len() && s[a],
    decreases s.len(),
{
    assert(s.len() > 0);
    if s.last() {
        assert(s[s.len() - 1]);
    } else {
        lemma_one_active(s.drop_last());
        let a = choose|a: int| 0 <= a < s.len() - 1 && s.drop_last()[a];
        assert(s[a]);
    }
}

/// The lowest live index.
fn first_active(active: &Vec<bool>) -> (r: usize)
    requires
        count_active(active@) >= 1,
    ensures
        r < active@.len(),
        active@[r as int],
        forall|a: int| 0 <= a < r ==> !active@[a],
{
    let mut i: usize = 0;
    while i < active.len()
        invariant
            i <= active@.len(),
            count_active(active@) >= 1,
            forall|a: int| 0 <= a < i ==> !active@[a],
        decreases active@.len() - i,
    {
        if active[i] {
            return i;
        }
        i += 1;
    }
    proof {
        lemma_one_active(active@);
    }
    0
}


} // verus!
