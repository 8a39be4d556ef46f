//! Dataset loading: name lists, both matrix value kinds, validation errors,
//! compressed input, and projection alignment.

use flate2::write::GzEncoder;
use flate2::Compression;
use printforge_core::store::{DataStore, LoadError, ProjError};
use std::io::Write;

const DEN: i64 = 1_000_000;

fn features_3() -> Vec<u8> {
    b"ENSG0\tG0\nENSG1\tG1\nENSG2\tG2\n".to_vec()
}

fn barcodes_4() -> Vec<u8> {
    b"AAA\nBBB\nCCC\nDDD\n".to_vec()
}

fn matrix_real() -> Vec<u8> {
    b"%%MatrixMarket matrix coordinate real general\n3 4 5\n1 1 1.5\n2 2 2\n3 3 2.5\n1 4 4\n3 1 1\n"
        .to_vec()
}

fn gzip(data: &[u8]) -> Vec<u8> {
    let mut enc = GzEncoder::new(Vec::new(), Compression::default());
    enc.write_all(data).unwrap();
    enc.finish().unwrap()
}

#[test]
fn load_yields_matching_counts_and_names() {
    // 3 genes, 4 cells, 5 stored entries
    let ds = DataStore::from_cellranger(&features_3(), &barcodes_4(), &matrix_real()).unwrap();
    assert_eq!(ds.gene_names, vec![b"G0".to_vec(), b"G1".to_vec(), b"G2".to_vec()]);
    assert_eq!(ds.cell_names.len(), 4);
    assert_eq!(ds.counts.nnz, 5);
    assert_eq!(ds.counts.nrows, 3);
    assert_eq!(ds.counts.ncols, 4);
    // row 0 holds its file-order entries with exact fixed-point values
    assert_eq!(ds.counts.rows[0].len(), 2);
    assert_eq!(ds.counts.rows[0][0].0, 0);
    assert_eq!(ds.counts.rows[0][0].1.raw, 3 * DEN / 2);
    assert_eq!(ds.counts.rows[0][1].0, 3);
    assert_eq!(ds.counts.rows[0][1].1.raw, 4 * DEN);
}

#[test]
fn load_accepts_gzip_compressed_files() {
    let ds = DataStore::from_cellranger(
        &gzip(&features_3()),
        &gzip(&barcodes_4()),
        &gzip(&matrix_real()),
    )
    .unwrap();
    assert_eq!(ds.gene_names.len(), 3);
    assert_eq!(ds.cell_names.len(), 4);
    assert_eq!(ds.counts.nnz, 5);
    // decompression really ran: the compressed bytes themselves are no
    // parseable text table
    assert!(DataStore::from_cellranger(&features_3(), &barcodes_4(), &gzip(&matrix_real())[..8].to_vec())
        .is_err());
}

#[test]
fn integer_matrix_parses_via_fallback() {
    let matrix =
        b"%%MatrixMarket matrix coordinate integer general\n3 4 3\n1 1 7\n2 3 12\n3 4 -2\n".to_vec();
    let ds = DataStore::from_cellranger(&features_3(), &barcodes_4(), &matrix).unwrap();
    assert_eq!(ds.counts.nnz, 3);
    // every stored value equals its integer source cast to fixed point
    assert_eq!(ds.counts.rows[0][0].1.raw, 7 * DEN);
    assert_eq!(ds.counts.rows[1][0].1.raw, 12 * DEN);
    assert_eq!(ds.counts.rows[2][0].1.raw, -2 * DEN);
}

#[test]
fn empty_feature_list_is_a_validation_error() {
    let ds = DataStore::from_cellranger(&Vec::new(), &barcodes_4(), &matrix_real());
    assert_eq!(ds.err(), Some(LoadError::NoGenes));
    // lines without a second field carry no gene symbol either
    let ds2 = DataStore::from_cellranger(&b"onlyonefield\n".to_vec(), &barcodes_4(), &matrix_real());
    assert_eq!(ds2.err(), Some(LoadError::NoGenes));
}

#[test]
fn empty_barcode_list_is_a_validation_error() {
    let ds = DataStore::from_cellranger(&features_3(), &Vec::new(), &matrix_real());
    assert_eq!(ds.err(), Some(LoadError::NoBarcodes));
}

#[test]
fn matrix_without_entries_is_a_validation_error() {
    let matrix = b"%%MatrixMarket matrix coordinate real general\n3 4 0\n".to_vec();
    let ds = DataStore::from_cellranger(&features_3(), &barcodes_4(), &matrix);
    assert_eq!(ds.err(), Some(LoadError::EmptyMatrix));
}

#[test]
fn unparseable_matrix_is_an_error() {
    let ds = DataStore::from_cellranger(&features_3(), &barcodes_4(), &b"not a matrix\n".to_vec());
    assert_eq!(ds.err(), Some(LoadError::MatrixParse));
}

#[test]
fn matrix_dimensions_must_match_name_lists() {
    let matrix = b"%%MatrixMarket matrix coordinate real general\n2 4 1\n1 1 1\n".to_vec();
    let ds = DataStore::from_cellranger(&features_3(), &barcodes_4(), &matrix);
    assert_eq!(ds.err(), Some(LoadError::DimensionMismatch));
}

#[test]
fn projection_loads_when_aligned() {
    let mut ds = DataStore::from_cellranger(&features_3(), &barcodes_4(), &matrix_real()).unwrap();
    let table =
        b"barcode\tx\ty\tz\nAAA\t1\t0\t0\nBBB\t2\t0\t0\nCCC\t3\t0\t0\nDDD\t4.5\t0\t0\n".to_vec();
    ds.load_projection_from_tsv(&b"umap".to_vec(), &table).unwrap();
    let proj = ds.get_projection(&b"umap".to_vec()).unwrap();
    assert_eq!(proj.points.len(), 4);
    assert_eq!(proj.points[3].unwrap().x.raw, 9 * DEN / 2);
    // an unknown name is absent, not an error
    assert!(ds.get_projection(&b"pca".to_vec()).is_none());
}

#[test]
fn permuted_projection_identities_are_rejected() {
    let mut ds = DataStore::from_cellranger(&features_3(), &barcodes_4(), &matrix_real()).unwrap();
    // same identity set as the barcodes, wrong order
    let table =
        b"barcode\tx\ty\tz\nBBB\t1\t0\t0\nAAA\t2\t0\t0\nCCC\t3\t0\t0\nDDD\t4\t0\t0\n".to_vec();
    let r = ds.load_projection_from_tsv(&b"umap".to_vec(), &table);
    assert!(matches!(r, Err(ProjError::IdentityMismatch(_))));
    assert!(ds.get_projection(&b"umap".to_vec()).is_none());
}

#[test]
fn projection_needs_three_coordinate_columns() {
    let mut ds = DataStore::from_cellranger(&features_3(), &barcodes_4(), &matrix_real()).unwrap();
    let table = b"barcode\tx\ty\nAAA\t1\t0\nBBB\t2\t0\nCCC\t3\t0\nDDD\t4\t0\n".to_vec();
    let r = ds.load_projection_from_tsv(&b"umap".to_vec(), &table);
    assert_eq!(r.err(), Some(ProjError::InsufficientColumns));
}

#[test]
fn unreadable_coordinates_become_missing_points() {
    let mut ds = DataStore::from_cellranger(&features_3(), &barcodes_4(), &matrix_real()).unwrap();
    let table =
        b"barcode\tx\ty\tz\nAAA\t1\t0\t0\nBBB\toops\t0\t0\nCCC\t3\t0\t0\nDDD\t4\t0\t0\n".to_vec();
    ds.load_projection_from_tsv(&b"umap".to_vec(), &table).unwrap();
    let proj = ds.get_projection(&b"umap".to_vec()).unwrap();
    assert!(proj.points[0].is_some());
    assert!(proj.points[1].is_none());
}

#[test]
fn unreadable_compressed_files_are_io_errors() {
    // gzip marker with a broken stream behind it
    let broken = vec![0x1fu8, 0x8b, 0x00, 0x01, 0x02];
    let r1 = DataStore::from_cellranger(&broken, &barcodes_4(), &matrix_real());
    assert_eq!(r1.err(), Some(LoadError::BadFeatureFile));
    let r2 = DataStore::from_cellranger(&features_3(), &broken, &matrix_real());
    assert_eq!(r2.err(), Some(LoadError::BadBarcodeFile));
    let r3 = DataStore::from_cellranger(&features_3(), &barcodes_4(), &broken);
    assert_eq!(r3.err(), Some(LoadError::BadMatrixFile));
}

#[test]
fn empty_projection_table_is_rejected() {
    let mut ds = DataStore::from_cellranger(&features_3(), &barcodes_4(), &matrix_real()).unwrap();
    let r = ds.load_projection_from_tsv(&b"umap".to_vec(), &Vec::new());
    assert_eq!(r.err(), Some(ProjError::Empty));
}

#[test]
fn reloading_a_projection_replaces_it() {
    let mut ds = DataStore::from_cellranger(&features_3(), &barcodes_4(), &matrix_real()).unwrap();
    let t1 = b"barcode\tx\ty\tz\nAAA\t1\t0\t0\nBBB\t2\t0\t0\nCCC\t3\t0\t0\nDDD\t4\t0\t0\n".to_vec();
    let t2 = b"barcode\tx\ty\tz\nAAA\t9\t0\t0\nBBB\t2\t0\t0\nCCC\t3\t0\t0\nDDD\t4\t0\t0\n".to_vec();
    ds.load_projection_from_tsv(&b"umap".to_vec(), &t1).unwrap();
    ds.load_projection_from_tsv(&b"umap".to_vec(), &t2).unwrap();
    let proj = ds.get_projection(&b"umap".to_vec()).unwrap();
    assert_eq!(proj.points[0].unwrap().x.raw, 9 * DEN);
}
