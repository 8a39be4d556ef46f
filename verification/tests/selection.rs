//! Proximity selection and pseudo-bulk aggregation against a small session.

use printforge_core::projection::Coord3;
use printforge_core::store::{DataStore, SelectError};
use printforge_core::Fx;

const DEN: i64 = 1_000_000;

fn fx(units: i64) -> Fx {
    Fx { raw: units * DEN }
}

fn center_origin() -> Coord3 {
    Coord3 { x: fx(0), y: fx(0), z: fx(0) }
}

/// A dataset of one gene and `n` cells, cell `i` holding value `i + 1`, with
/// a projection that places cell `i` at `x = i + 1`.
fn session(n: usize) -> DataStore {
    let mut features = b"ENSG0\tG0\n".to_vec();
    let mut barcodes = Vec::new();
    let mut matrix = format!("%%MatrixMarket matrix coordinate real general\n1 {} {}\n", n, n)
        .into_bytes();
    let mut table = b"barcode\tx\ty\tz\n".to_vec();
    for i in 0..n {
        barcodes.extend_from_slice(format!("C{:03}\n", i).as_bytes());
        matrix.extend_from_slice(format!("1 {} {}\n", i + 1, i + 1).as_bytes());
        table.extend_from_slice(format!("C{:03}\t{}\t0\t0\n", i, i + 1).as_bytes());
    }
    features.truncate(features.len());
    let mut ds = DataStore::from_cellranger(&features, &barcodes, &matrix).unwrap();
    ds.load_projection_from_tsv(&b"umap".to_vec(), &table).unwrap();
    ds
}

#[test]
fn selection_is_idempotent() {
    let mut ds = session(4);
    // all four points lie within radius 10 of the origin
    let first = ds
        .select_cells(&b"umap".to_vec(), 7, &center_origin(), fx(10))
        .unwrap();
    assert_eq!(first.len(), 4);
    // the same call on the unmodified session newly affects nothing
    let second = ds
        .select_cells(&b"umap".to_vec(), 7, &center_origin(), fx(10))
        .unwrap();
    assert_eq!(second.len(), 0);
    // a different group re-marks every cell
    let third = ds
        .select_cells(&b"umap".to_vec(), 8, &center_origin(), fx(10))
        .unwrap();
    assert_eq!(third.len(), 4);
}

#[test]
fn selection_orders_by_distance_nearest_first() {
    // points at distances 3, 1, 2 from the center, in storage order
    let features = b"ENSG0\tG0\n".to_vec();
    let barcodes = b"AAA\nBBB\nCCC\n".to_vec();
    let matrix = b"%%MatrixMarket matrix coordinate real general\n1 3 3\n1 1 1\n1 2 1\n1 3 1\n"
        .to_vec();
    let table = b"barcode\tx\ty\tz\nAAA\t3\t0\t0\nBBB\t1\t0\t0\nCCC\t0\t2\t0\n".to_vec();
    let mut ds = DataStore::from_cellranger(&features, &barcodes, &matrix).unwrap();
    ds.load_projection_from_tsv(&b"umap".to_vec(), &table).unwrap();

    let changed = ds
        .select_cells(&b"umap".to_vec(), 1, &center_origin(), fx(5))
        .unwrap();
    // nearest first: distance 1 (cell 1), then 2 (cell 2), then 3 (cell 0)
    assert_eq!(changed, vec![1usize, 2, 0]);

    // the order column records ranks 1, 2, 3 in that spatial order
    let order = ds
        .cell_meta
        .as_numeric_vec(&b"group_000 order".to_vec())
        .unwrap();
    assert_eq!(order[1], Some(fx(0)));
    assert_eq!(order[2], Some(fx(1)));
    assert_eq!(order[0], Some(fx(2)));
}

#[test]
fn selection_skips_points_outside_the_sphere() {
    let mut ds = session(5);
    // only the two nearest points lie within radius 2.5
    let changed = ds
        .select_cells(&b"umap".to_vec(), 3, &center_origin(), Fx { raw: 5 * DEN / 2 })
        .unwrap();
    assert_eq!(changed, vec![0usize, 1]);
    let members = ds.cell_meta.as_numeric_vec(&b"group_000".to_vec()).unwrap();
    assert_eq!(members[0], Some(fx(3)));
    assert_eq!(members[1], Some(fx(3)));
    assert_eq!(members[2], None);
}

#[test]
fn selecting_in_an_unknown_projection_fails() {
    let mut ds = session(3);
    let r = ds.select_cells(&b"tsne".to_vec(), 1, &center_origin(), fx(1));
    assert_eq!(r.err(), Some(SelectError::UnknownProjection));
}

#[test]
fn pseudo_bulk_chunks_are_elementwise_means() {
    // one cluster of 25 ordered cells, mean aggregation, target chunk size
    // max(1, 25 / 10) = 2: twelve full chunks and a remainder chunk
    let mut ds = session(25);
    ds.select_cells(&b"umap".to_vec(), 5, &center_origin(), fx(100)).unwrap();

    let (cols, dens, labels) = ds.make_pseudo_samples(&b"group_000".to_vec(), true).unwrap();
    assert_eq!(labels.len(), 13);
    assert!(labels.iter().all(|&c| c == 5));
    assert_eq!(dens.len(), 13);
    for k in 0..12 {
        assert_eq!(dens[k], 2);
        // members are ordered by distance, so chunk k holds cells 2k, 2k+1
        // with values 2k+1 and 2k+2: the sum is 4k+3 units
        assert_eq!(cols[k][0], (4 * k as i128 + 3) * DEN as i128);
        // the chunk mean is the elementwise mean of its member rows
        assert_eq!(cols[k][0] % dens[k] as i128, 0);
        let mean_raw = cols[k][0] / dens[k] as i128;
        assert_eq!(mean_raw * 2, ((2 * k as i128 + 1) + (2 * k as i128 + 2)) * DEN as i128);
    }
    // the final chunk absorbs the remainder: the single cell of value 25
    assert_eq!(dens[12], 1);
    assert_eq!(cols[12][0], 25 * DEN as i128);
}

#[test]
fn pseudo_bulk_sums_when_means_are_not_requested() {
    let mut ds = session(4);
    ds.select_cells(&b"umap".to_vec(), 2, &center_origin(), fx(100)).unwrap();
    let (cols, dens, labels) = ds.make_pseudo_samples(&b"group_000".to_vec(), false).unwrap();
    // 4 members, chunk size 1: four chunks of one cell each
    assert_eq!(labels, vec![2u64; 4]);
    assert_eq!(dens, vec![1u64; 4]);
    let values: Vec<i128> = cols.iter().map(|c| c[0]).collect();
    assert_eq!(values, vec![DEN as i128, 2 * DEN as i128, 3 * DEN as i128, 4 * DEN as i128]);
}

#[test]
fn pseudo_bulk_splits_clusters_in_ascending_id_order() {
    let mut ds = session(6);
    // two selections: cells 0..3 into group 9, cells 3..6 into group 4
    ds.select_cells(&b"umap".to_vec(), 9, &Coord3 { x: fx(2), y: fx(0), z: fx(0) }, fx(1))
        .unwrap();
    ds.select_cells(&b"umap".to_vec(), 4, &Coord3 { x: fx(5), y: fx(0), z: fx(0) }, fx(1))
        .unwrap();
    let (_, _, labels) = ds.make_pseudo_samples(&b"group_000".to_vec(), false).unwrap();
    // ascending cluster identifiers, each cluster's chunks contiguous
    let first_nine = labels.iter().position(|&c| c == 9).unwrap();
    assert!(labels[..first_nine].iter().all(|&c| c == 4));
    assert!(labels[first_nine..].iter().all(|&c| c == 9));
}

#[test]
fn pseudo_bulk_needs_the_group_columns() {
    let ds = session(3);
    assert!(ds.make_pseudo_samples(&b"group_000".to_vec(), true).is_none());
}
