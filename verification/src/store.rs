//! The dataset session: expression matrix, name lists, metadata, projections
//! and the active selection group.

use vstd::prelude::*;
use crate::fixed::{Fx, FX_DEN};
use crate::gz::{decompress, plain_of};
use crate::matrix::{
    entries_of_row, mm_cols, mm_entries, mm_nnz, mm_ok, mm_rows, parse_coord_matrix, row_pairs,
    row_views, triplet_views, SparseMatrix,
};
use crate::meta::{compare_levels, LevelMismatch, MetaColumn, MetaTable, MAX_CODE};
use crate::projection::{
    coord_ok, parse_projection, proj_header_ok, proj_ids, proj_points, Coord3, ProjParseError,
    Projection, MAX_COORD,
};
use crate::sortutil::{pair_le_fn, sort_pairs, sorted_pairs};
use crate::text::{bytes_eq, clean_lines, fields_of, views};

verus! {

/// The gene symbols of a feature list: the second tab-separated field of
/// every line that has one.
pub open spec fn feature_names(text: Seq<u8>) -> Seq<Seq<u8>> {
    clean_lines(text).filter(|l: Seq<u8>| fields_of(l).len() >= 2).map_values(
        |l: Seq<u8>| fields_of(l)[1],
    )
}

/// The barcodes of a barcode list: the first tab-separated field of every
/// line.
pub open spec fn barcode_names(text: Seq<u8>) -> Seq<Seq<u8>> {
    clean_lines(text).map_values(|l: Seq<u8>| fields_of(l)[0])
}

/// The parse of the matrix file: first as real values, then, when that
/// fails, as integers cast to fixed point.
pub open spec fn matrix_parse(text: Seq<u8>) -> Option<(int, int, Seq<(int, int, int)>)> {
    if mm_ok(text, false) {
        Some((mm_rows(text), mm_cols(text), mm_entries(text, false)))
    } else if mm_ok(text, true) {
        Some((mm_rows(text), mm_cols(text), mm_entries(text, true)))
    } else {
        None
    }
}

/// Why a dataset fails to load. The first two kinds are file-level failures;
/// the rest are validation failures of well-read files.
#[derive(Clone, Copy, Debug, PartialEq, Eq, Structural)]
pub enum LoadError {
    /// The feature list is not readable as (possibly compressed) text.
    BadFeatureFile,
    /// The feature list holds no gene symbols.
    NoGenes,
    /// The barcode list is not readable as (possibly compressed) text.
    BadBarcodeFile,
    /// The barcode list holds no barcodes.
    NoBarcodes,
    /// The matrix file is not readable as (possibly compressed) text.
    BadMatrixFile,
    /// The matrix file parses neither as real nor as integer coordinates.
    MatrixParse,
    /// The matrix holds no stored entries at all.
    EmptyMatrix,
    /// The matrix dimensions disagree with the name list lengths.
    DimensionMismatch,
}

/// Why a projection fails to attach to a dataset.
#[derive(Clone, Copy, Debug, PartialEq, Eq, Structural)]
pub enum ProjError {
    /// The coordinate table holds no lines.
    Empty,
    /// The coordinate table names fewer than an identity plus three
    /// coordinate columns.
    InsufficientColumns,
    /// The identity column does not equal the dataset's barcodes element for
    /// element, in order.
    IdentityMismatch(LevelMismatch),
}

/// Why a selection call fails.
#[derive(Clone, Copy, Debug, PartialEq, Eq, Structural)]
pub enum SelectError {
    /// No projection of the given name is loaded.
    UnknownProjection,
}

/// The index of the projection a name denotes: the most recently loaded one.
pub open spec fn proj_index_in(ps: Seq<(Vec<u8>, Projection)>, name: Seq<u8>) -> int
    decreases ps.len(),
{
    if ps.len() == 0 {
        -1
    } else if ps.last().0@ == name {
        ps.len() - 1
    } else {
        proj_index_in(ps.drop_last(), name)
    }
}

/// The name of the selection group column for a group counter value:
/// `group_` followed by the counter, zero-padded to three digits.
pub open spec fn dec_digits(n: int) -> Seq<u8>
    decreases n,
{
    if n < 10 {
        seq![(48 + n) as u8]
    } else {
        dec_digits(n / 10).push((48 + n % 10) as u8)
    }
}

pub open spec fn group_col_name(id: int) -> Seq<u8> {
    let digits = if id < 10 {
        seq![48u8, 48u8] + dec_digits(id)
    } else if id < 100 {
        seq![48u8] + dec_digits(id)
    } else {
        dec_digits(id)
    };
    seq![103u8, 114u8, 111u8, 117u8, 112u8, 95u8] + digits
}

/// The name of the order column that accompanies a group column: the group
/// column's name followed by ` order`.
pub open spec fn order_col_name(g: Seq<u8>) -> Seq<u8> {
    g + seq![32u8, 111u8, 114u8, 100u8, 101u8, 114u8]
}

/// The decimal digits of a number, as bytes.
fn dec_digits_exec(n: u64) -> (r: Vec<u8>)
    ensures
        r@ == dec_digits(n as int),
        r@.len() >= 1,
    decreases n,
{
    if n < 10 {
        let mut v: Vec<u8> = Vec::new();
        v.push(48 + (n as u8));
        proof {
            assert(v@ =~= dec_digits(n as int));
        }
        v
    } else {
        let mut v = dec_digits_exec(n / 10);
        v.push(48 + ((n % 10) as u8));
        v
    }
}

/// Build the group column name for a counter value.
fn group_col_name_exec(id: u64) -> (r: Vec<u8>)
    ensures
        r@ == group_col_name(id as int),
{
    let mut out: Vec<u8> = Vec::new();
    out.push(103);
    out.push(114);
    out.push(111);
    out.push(117);
    out.push(112);
    out.push(95);
    if id < 10 {
        out.push(48);
        out.push(48);
    } else if id < 100 {
        out.push(48);
    }
    let digits = dec_digits_exec(id);
    let mut i: usize = 0;
    let ghost base = out@;
    while i < digits.len()
        invariant
            i <= digits@.len(),
            out@ == base + digits@.take(i as int),
        decreases digits@.len() - i,
    {
        out.push(digits[i]);
        proof {
            assert(base + digits@.take(i as int).push(digits@[i as int]) =~= base + digits@.take(
                i + 1,
            ));
        }
        i += 1;
    }
    proof {
        assert(digits@.take(i as int) =~= digits@);
        assert(out@ =~= group_col_name(id as int));
    }
    out
}

/// Build the order column name for a group column name.
fn order_col_name_exec(g: &Vec<u8>) -> (r: Vec<u8>)
    ensures
        r@ == order_col_name(g@),
{
    let mut out = g.clone();
    out.push(32);
    out.push(111);
    out.push(114);
    out.push(100);
    out.push(101);
    out.push(114);
    proof {
        assert(out@ =~= order_col_name(g@));
    }
    out
}

/// A dataset session: the loaded matrix and names, per-cell metadata, the
/// attached projections, and the active selection group.
#[derive(Debug)]
pub struct DataStore {
    /// Expression matrix, genes by cells.
    pub counts: SparseMatrix,
    /// Gene symbols, index-aligned with matrix rows.
    pub gene_names: Vec<Vec<u8>>,
    /// Cell barcodes, index-aligned with matrix columns.
    pub cell_names: Vec<Vec<u8>>,
    /// Per-cell annotations, selection groups included.
    pub cell_meta: MetaTable,
    /// Per-gene annotations.
    pub gene_meta: MetaTable,
    /// Named projections.
    pub drcs: Vec<(Vec<u8>, Projection)>,
    /// The active selection group's column name, once a session has made a
    /// selection.
    pub active_group: Option<Vec<u8>>,
    /// The counter from which the next group column name is formed.
    pub group_id: u64,
}

impl DataStore {
    pub open spec fn wf(self) -> bool {
        &&& self.counts.wf()
        &&& self.counts.nrows == self.gene_names@.len()
        &&& self.counts.ncols == self.cell_names@.len()
        &&& self.cell_meta.wf()
        &&& self.cell_meta.n_rows == self.cell_names@.len()
        &&& self.gene_meta.wf()
        &&& forall|k: int|
            0 <= k < self.drcs@.len() ==> (#[trigger] self.drcs@[k]).1.wf(
                self.cell_names@.len() as int,
            )
        &&& match self.active_group {
            Some(g) => self.cell_meta.is_codes(g@) && self.cell_meta.is_numeric(
                order_col_name(g@),
            ) && g@ != order_col_name(g@),
            None => true,
        }
    }

    /// Load a dataset from the three files of its directory: the feature
    /// list, the barcode list, and the sparse count matrix, each possibly
    /// gzip-compressed.
    ///
    /// The matrix is parsed first as real values; when that fails it is
    /// re-parsed as integers and every value is cast to fixed point.
    pub fn from_cellranger(features: &Vec<u8>, barcodes: &Vec<u8>, matrix: &Vec<u8>) -> (r: Result<
        DataStore,
        LoadError,
    >)
        ensures
            match r {
                Ok(ds) => {
                    &&& ds.wf()
                    &&& plain_of(features@) is Some
                    &&& plain_of(barcodes@) is Some
                    &&& plain_of(matrix@) is Some
                    &&& views(ds.gene_names@) == feature_names(plain_of(features@)->0)
                    &&& views(ds.cell_names@) == barcode_names(plain_of(barcodes@)->0)
                    &&& ds.gene_names@.len() > 0
                    &&& ds.cell_names@.len() > 0
                    &&& matrix_parse(plain_of(matrix@)->0) is Some
                    &&& {
                        let p = matrix_parse(plain_of(matrix@)->0)->0;
                        &&& ds.counts.nrows == p.0
                        &&& ds.counts.ncols == p.1
                        &&& ds.counts.nnz == p.2.len()
                        &&& ds.counts.nnz > 0
                        &&& forall|g: int|
                            0 <= g < p.0 ==> row_pairs(#[trigger] row_views(ds.counts.rows@)[g])
                                == entries_of_row(p.2, g)
                    }
                    &&& ds.cell_meta.cols@.len() == 1
                    &&& ds.cell_meta.cols@[0].0@ == seq![98u8, 97u8, 114u8, 99u8, 111u8, 100u8, 101u8]
                    &&& ds.cell_meta.cols@[0].1 is Labels
                    &&& views(ds.cell_meta.cols@[0].1->Labels_values@) == views(ds.cell_names@)
                    &&& ds.drcs@.len() == 0
                    &&& ds.active_group is None
                    &&& ds.group_id == 0
                },
                Err(LoadError::BadFeatureFile) => plain_of(features@) is None,
                Err(LoadError::NoGenes) => plain_of(features@) is Some && feature_names(
                    plain_of(features@)->0,
                ).len() == 0,
                Err(LoadError::BadBarcodeFile) => plain_of(features@) is Some && feature_names(
                    plain_of(features@)->0,
                ).len() > 0 && plain_of(barcodes@) is None,
                Err(LoadError::NoBarcodes) => plain_of(barcodes@) is Some && barcode_names(
                    plain_of(barcodes@)->0,
                ).len() == 0,
                Err(LoadError::BadMatrixFile) => plain_of(matrix@) is None,
                Err(LoadError::MatrixParse) => plain_of(matrix@) is Some && matrix_parse(
                    plain_of(matrix@)->0,
                ) is None,
                Err(LoadError::EmptyMatrix) => plain_of(matrix@) is Some && matrix_parse(
                    plain_of(matrix@)->0,
                ) is Some && (matrix_parse(plain_of(matrix@)->0)->0).2.len() == 0,
                Err(LoadError::DimensionMismatch) => {
                    &&& plain_of(matrix@) is Some
                    &&& matrix_parse(plain_of(matrix@)->0) is Some
                    &&& plain_of(features@) is Some
                    &&& plain_of(barcodes@) is Some
                    &&& feature_names(plain_of(features@)->0).len() > 0
                    &&& barcode_names(plain_of(barcodes@)->0).len() > 0
                    &&& {
                        let p = matrix_parse(plain_of(matrix@)->0)->0;
                        p.0 != feature_names(plain_of(features@)->0).len() || p.1 != barcode_names(
                            plain_of(barcodes@)->0,
                        ).len()
                    }
                },
            },
    {
        // feature list
        let ftext = match decompress(features) {
            Some(t) => t,
            None => {
                return Err(LoadError::BadFeatureFile);
            },
        };
        let gene_names = parse_feature_names(&ftext);
        if gene_names.len() == 0 {
            return Err(LoadError::NoGenes);
        }
        // barcode list
        let btext = match decompress(barcodes) {
            Some(t) => t,
            None => {
                return Err(LoadError::BadBarcodeFile);
            },
        };
        let cell_names = parse_barcode_names(&btext);
        if cell_names.len() == 0 {
            return Err(LoadError::NoBarcodes);
        }
        // matrix, real first, integer as fallback
        let mtext = match decompress(matrix) {
            Some(t) => t,
            None => {
                return Err(LoadError::BadMatrixFile);
            },
        };
        let (parsed, was_int) = match parse_coord_matrix(&mtext, false) {
            Some(p) => (p, false),
            None => match parse_coord_matrix(&mtext, true) {
                Some(p) => (p, true),
                None => {
                    return Err(LoadError::MatrixParse);
                },
            },
        };
        let (nr, nc, tri) = parsed;
        if tri.len() == 0 {
            return Err(LoadError::EmptyMatrix);
        }
        if nr != gene_names.len() || nc != cell_names.len() {
            return Err(LoadError::DimensionMismatch);
        }
        proof {
            let tv = triplet_views(tri@);
            let dl = crate::matrix::mm_data_lines(mtext@);
            assert forall|k: int| 0 <= k < tri@.len() implies (#[trigger] tri@[k]).row < nr
                && tri@[k].col < nc by {
                assert(tv[k] == (tri@[k].row as int, tri@[k].col as int, tri@[k].val.raw as int));
                assert(tv[k] == crate::matrix::mm_entry_val(dl.skip(1)[k], was_int));
                assert(dl.skip(1)[k] == dl[k + 1]);
                assert(crate::matrix::mm_entry_ok(dl[k + 1], was_int, nr as int, nc as int));
            }
        }
        let counts = SparseMatrix::from_triplets(nr, nc, &tri);
        let mut cell_meta = MetaTable::new(nc);
        let mut bname: Vec<u8> = Vec::new();
        bname.push(98);
        bname.push(97);
        bname.push(114);
        bname.push(99);
        bname.push(111);
        bname.push(100);
        bname.push(101);
        proof {
            assert(bname@ =~= seq![98u8, 97u8, 114u8, 99u8, 111u8, 100u8, 101u8]);
        }
        let barcode_col = clone_names(&cell_names);
        cell_meta.add_labels(&bname, barcode_col);
        let gene_meta = MetaTable::new(nr);
        let ds = DataStore {
            counts,
            gene_names,
            cell_names,
            cell_meta,
            gene_meta,
            drcs: Vec::new(),
            active_group: None,
            group_id: 0,
        };
        proof {
            assert(ds.cell_meta.cols@[0] == ds.cell_meta.cols@.last());
        }
        Ok(ds)
    }

    /// Attach one named coordinate table, parsed from tab-separated text.
    ///
    /// The table's identity column must equal the dataset's barcodes element
    /// for element, in order: a permutation of the right identities is
    /// rejected, because a silent misalignment would corrupt every later
    /// spatial and correlation computation.
    pub fn load_projection_from_tsv(&mut self, name: &Vec<u8>, data: &Vec<u8>) -> (r: Result<
        (),
        ProjError,
    >)
        requires
            old(self).wf(),
        ensures
            final(self).wf(),
            match r {
                Ok(()) => {
                    &&& proj_header_ok(data@)
                    &&& proj_ids(data@) == views(old(self).cell_names@)
                    &&& final(self).drcs@.len() == old(self).drcs@.len() + 1
                    &&& final(self).drcs@.drop_last() == old(self).drcs@
                    &&& final(self).drcs@.last().0@ == name@
                    &&& final(self).drcs@.last().1.points@ == proj_points(data@)
                },
                Err(ProjError::Empty) => *final(self) == *old(self) && clean_lines(data@).len()
                    == 0,
                Err(ProjError::InsufficientColumns) => *final(self) == *old(self) && clean_lines(
                    data@,
                ).len() >= 1 && fields_of(clean_lines(data@)[0]).len() < 4,
                Err(ProjError::IdentityMismatch(m)) => *final(self) == *old(self) && proj_header_ok(
                    data@,
                ) && proj_ids(data@) != views(old(self).cell_names@),
            },
            final(self).counts == old(self).counts,
            final(self).gene_names == old(self).gene_names,
            final(self).cell_names == old(self).cell_names,
            final(self).cell_meta == old(self).cell_meta,
            final(self).active_group == old(self).active_group,
            final(self).group_id == old(self).group_id,
    {
        let (ids, points) = match parse_projection(data) {
            Ok(p) => p,
            Err(ProjParseError::Empty) => {
                return Err(ProjError::Empty);
            },
            Err(ProjParseError::InsufficientColumns) => {
                return Err(ProjError::InsufficientColumns);
            },
        };
        match compare_levels(&ids, &self.cell_names) {
            Ok(()) => {},
            Err(m) => {
                proof {
                    match m {
                        LevelMismatch::Length => {
                            assert(views(ids@).len() != views(self.cell_names@).len());
                        },
                        LevelMismatch::Entry { row } => {
                            assert(views(ids@)[row as int] == ids@[row as int]@);
                            assert(views(self.cell_names@)[row as int]
                                == self.cell_names@[row as int]@);
                        },
                    }
                }
                return Err(ProjError::IdentityMismatch(m));
            },
        }
        let proj = Projection { points };
        let entry = (clone_name_bytes(name), proj);
        self.drcs.push(entry);
        proof {
            assert(self.drcs@.drop_last() =~= old(self).drcs@);
            assert(self.drcs@.last().1.points@.len() == views(old(self).cell_names@).len());
        }
        Ok(())
    }

    /// The stored projection a name denotes, or nothing: an absent
    /// projection is not an error.
    pub fn get_projection(&self, name: &Vec<u8>) -> (r: Option<&Projection>)
        ensures
            match r {
                Some(p) => proj_index_in(self.drcs@, name@) >= 0 && *p == self.drcs@[proj_index_in(
                    self.drcs@,
                    name@,
                )].1,
                None => proj_index_in(self.drcs@, name@) == -1,
            },
    {
        let mut i: usize = self.drcs.len();
        while i > 0
            invariant
                i <= self.drcs@.len(),
                forall|j: int| i <= j < self.drcs@.len() ==> (#[trigger] self.drcs@[j]).0@ != name@,
            decreases i,
        {
            i = i - 1;
            if bytes_eq(&self.drcs[i].0, name) {
                proof {
                    lemma_proj_index_found(self.drcs@, name@, i as int);
                }
                return Some(&self.drcs[i].1);
            }
        }
        proof {
            lemma_proj_index_absent(self.drcs@, name@);
        }
        None
    }

    /// Add a label column to the per-cell metadata.
    pub fn add_meta_column(&mut self, name: &Vec<u8>, values: Vec<Vec<u8>>)
        requires
            old(self).wf(),
            values@.len() == old(self).cell_names@.len(),
            match old(self).active_group {
                Some(g) => name@ != g@ && name@ != order_col_name(g@),
                None => true,
            },
        ensures
            final(self).wf(),
            final(self).cell_meta.cols@.len() == old(self).cell_meta.cols@.len() + 1,
            final(self).cell_meta.cols@.drop_last() == old(self).cell_meta.cols@,
            final(self).cell_meta.cols@.last().0@ == name@,
            final(self).cell_meta.cols@.last().1 == (MetaColumn::Labels { values }),
            final(self).counts == old(self).counts,
            final(self).cell_names == old(self).cell_names,
            final(self).gene_names == old(self).gene_names,
            final(self).drcs == old(self).drcs,
            final(self).active_group == old(self).active_group,
    {
        self.cell_meta.add_labels(name, values);
        proof {
            lemma_session_after_push(*old(self), *self, name@);
        }
    }

    /// Add a numeric column to the per-cell metadata.
    pub fn add_numeric_column(&mut self, name: &Vec<u8>, values: Vec<Option<Fx>>)
        requires
            old(self).wf(),
            values@.len() == old(self).cell_names@.len(),
            match old(self).active_group {
                Some(g) => name@ != g@ && name@ != order_col_name(g@),
                None => true,
            },
        ensures
            final(self).wf(),
            final(self).cell_meta.cols@.len() == old(self).cell_meta.cols@.len() + 1,
            final(self).cell_meta.cols@.drop_last() == old(self).cell_meta.cols@,
            final(self).cell_meta.cols@.last().0@ == name@,
            final(self).cell_meta.cols@.last().1 == (MetaColumn::Numeric { values }),
            final(self).counts == old(self).counts,
            final(self).cell_names == old(self).cell_names,
            final(self).gene_names == old(self).gene_names,
            final(self).drcs == old(self).drcs,
            final(self).active_group == old(self).active_group,
    {
        let nm = clone_name_bytes(name);
        let entry = (nm, MetaColumn::Numeric { values });
        self.cell_meta.cols.push(entry);
        proof {
            assert(self.cell_meta.cols@.drop_last() =~= old(self).cell_meta.cols@);
            lemma_session_after_push(*old(self), *self, name@);
        }
    }
}

/// Pushing a column whose name is neither session column keeps the session
/// columns reachable.
proof fn lemma_session_after_push(a: DataStore, b: DataStore, name: Seq<u8>)
    requires
        a.wf(),
        b.active_group == a.active_group,
        b.cell_meta.cols@.len() == a.cell_meta.cols@.len() + 1,
        b.cell_meta.cols@.drop_last() == a.cell_meta.cols@,
        b.cell_meta.cols@.last().0@ == name,
        match a.active_group {
            Some(g) => name != g@ && name != order_col_name(g@),
            None => true,
        },
    ensures
        (match b.active_group {
            Some(g) => b.cell_meta.is_codes(g@) && b.cell_meta.is_numeric(order_col_name(g@))
                && g@ != order_col_name(g@),
            None => true,
        }),
{
    if let Some(g) = a.active_group {
        assert(b.cell_meta.cols@ =~= a.cell_meta.cols@.push(b.cell_meta.cols@.last()));
        crate::meta::lemma_col_index_push(a.cell_meta.cols@, b.cell_meta.cols@.last(), g@);
        crate::meta::lemma_col_index_push(
            a.cell_meta.cols@,
            b.cell_meta.cols@.last(),
            order_col_name(g@),
        );
        crate::meta::lemma_col_index_in(a.cell_meta.cols@, g@);
        crate::meta::lemma_col_index_in(a.cell_meta.cols@, order_col_name(g@));
        assert(forall|j: int|
            0 <= j < a.cell_meta.cols@.len() ==> #[trigger] b.cell_meta.cols@[j]
                == a.cell_meta.cols@.push(b.cell_meta.cols@.last())[j]);
    }
}

proof fn lemma_proj_index_found(ps: Seq<(Vec<u8>, Projection)>, name: Seq<u8>, i: int)
    requires
        0 <= i < ps.len(),
        ps[i].0@ == name,
        forall|j: int| i < j < ps.len() ==> (#[trigger] ps[j]).0@ != name,
    ensures
        proj_index_in(ps, name) == i,
    decreases ps.len(),
{
    if i == ps.len() - 1 {
    } else {
        assert(forall|j: int| 0 <= j < ps.len() - 1 ==> ps.drop_last()[j] == ps[j]);
        lemma_proj_index_found(ps.drop_last(), name, i);
    }
}

proof fn lemma_proj_index_absent(ps: Seq<(Vec<u8>, Projection)>, name: Seq<u8>)
    requires
        forall|j: int| 0 <= j < ps.len() ==> (#[trigger] ps[j]).0@ != name,
    ensures
        proj_index_in(ps, name) == -1,
    decreases ps.len(),
{
    if ps.len() > 0 {
        assert(forall|j: int| 0 <= j < ps.len() - 1 ==> ps.drop_last()[j] == ps[j]);
        lemma_proj_index_absent(ps.drop_last(), name);
    }
}

/// The gene symbols of a feature list, executably.
fn parse_feature_names(text: &Vec<u8>) -> (r: Vec<Vec<u8>>)
    ensures
        views(r@) == feature_names(text@),
{
    let ls = crate::text::lines_of(text);
    let ghost all = clean_lines(text@);
    let ghost pred = |l: Seq<u8>| fields_of(l).len() >= 2;
    let ghost f = |l: Seq<u8>| fields_of(l)[1];
    let mut out: Vec<Vec<u8>> = Vec::new();
    let mut i: usize = 0;
    proof {
        reveal(Seq::filter);
        assert(all.take(0) =~= Seq::<Seq<u8>>::empty());
        assert(views(out@) =~= all.take(0).filter(pred).map_values(f));
    }
    while i < ls.len()
        invariant
            i <= ls.len(),
            views(ls@) == all,
            pred == (|l: Seq<u8>| fields_of(l).len() >= 2),
            f == (|l: Seq<u8>| fields_of(l)[1]),
            views(out@) == all.take(i as int).filter(pred).map_values(f),
        decreases ls.len() - i,
    {
        proof {
            assert(views(ls@)[i as int] == ls@[i as int]@);
        }
        let fs = crate::text::split_fields(&ls[i]);
        proof {
            let pre = all.take(i as int);
            let single = seq![all[i as int]];
            assert(pre + single =~= all.take(i + 1));
            Seq::filter_distributes_over_add(pre, single, pred);
            assert(single.filter(pred) == if pred(single[0]) {
                single
            } else {
                Seq::<Seq<u8>>::empty()
            }) by {
                reveal_with_fuel(Seq::filter, 3);
                assert(single.drop_last() =~= Seq::<Seq<u8>>::empty());
                assert(Seq::<Seq<u8>>::empty().filter(pred) =~= Seq::<Seq<u8>>::empty());
            }
            assert((pre.filter(pred) + single.filter(pred)).map_values(f) =~= pre.filter(
                pred,
            ).map_values(f) + single.filter(pred).map_values(f));
        }
        if fs.len() >= 2 {
            proof {
                assert(views(fs@)[1] == fs@[1]@);
                assert(views(out@.push(fs@[1 as int])) =~= views(out@) + seq![fs@[1 as int]@]);
                assert(seq![all[i as int]].map_values(f) =~= seq![f(all[i as int])]);
            }
            let name = fs[1].clone();
            out.push(name);
        }
        i += 1;
    }
    proof {
        assert(all.take(i as int) =~= all);
    }
    out
}

/// The barcodes of a barcode list, executably.
fn parse_barcode_names(text: &Vec<u8>) -> (r: Vec<Vec<u8>>)
    ensures
        views(r@) == barcode_names(text@),
{
    let ls = crate::text::lines_of(text);
    let ghost all = clean_lines(text@);
    let ghost f = |l: Seq<u8>| fields_of(l)[0];
    let mut out: Vec<Vec<u8>> = Vec::new();
    let mut i: usize = 0;
    proof {
        assert(views(out@) =~= all.take(0).map_values(f));
    }
    while i < ls.len()
        invariant
            i <= ls.len(),
            views(ls@) == all,
            f == (|l: Seq<u8>| fields_of(l)[0]),
            views(out@) == all.take(i as int).map_values(f),
        decreases ls.len() - i,
    {
        proof {
            assert(views(ls@)[i as int] == ls@[i as int]@);
        }
        let fs = crate::text::split_fields(&ls[i]);
        proof {
            crate::projection::lemma_split_len(ls@[i as int]@, crate::text::B_TAB);
            assert(views(fs@).len() >= 1);
            assert(views(fs@)[0] == fs@[0]@);
            assert(all.take(i as int).map_values(f).push(f(all[i as int])) =~= all.take(
                i + 1,
            ).map_values(f));
        }
        let name = fs[0].clone();
        proof {
            assert(views(out@.push(name)) =~= views(out@) + seq![name@]);
        }
        out.push(name);
        i += 1;
    }
    proof {
        assert(all.take(i as int) =~= all);
    }
    out
}

/// A fresh copy of a name.
fn clone_name_bytes(name: &Vec<u8>) -> (r: Vec<u8>)
    ensures
        r@ == name@,
{
    name.clone()
}

/// A fresh copy of a name list.
fn clone_names(names: &Vec<Vec<u8>>) -> (r: Vec<Vec<u8>>)
    ensures
        views(r@) == views(names@),
        r@.len() == names@.len(),
{
    let mut out: Vec<Vec<u8>> = Vec::new();
    let mut i: usize = 0;
    while i < names.len()
        invariant
            i <= names@.len(),
            views(out@) =~= views(names@).take(i as int),
        decreases names.len() - i,
    {
        let n = names[i].clone();
        proof {
            assert(views(names@)[i as int] == names@[i as int]@);
            assert(views(out@.push(n)) =~= views(out@) + seq![n@]);
            assert(views(names@).take(i as int).push(views(names@)[i as int]) =~= views(
                names@,
            ).take(i + 1));
        }
        out.push(n);
        i += 1;
    }
    proof {
        assert(views(names@).take(i as int) =~= views(names@));
    }
    out
}


/// Squared distance between a point and a center, in raw units squared.
pub open spec fn d2_of(p: Coord3, c: Coord3) -> int {
    (p.x.raw - c.x.raw) * (p.x.raw - c.x.raw) + (p.y.raw - c.y.raw) * (p.y.raw - c.y.raw) + (
    p.z.raw - c.z.raw) * (p.z.raw - c.z.raw)
}

/// Whether a cell's point lies within the query sphere; a missing point
/// never does.
pub open spec fn in_radius(p: Option<Coord3>, c: Coord3, r: int) -> bool {
    p is Some && d2_of(p->0, c) <= r * r
}

/// The `(squared distance, cell index)` pairs of the cells one selection
/// call newly affects: within the sphere, and not yet carrying this group.
pub open spec fn changed_pairs(
    points: Seq<Option<Coord3>>,
    mem: Seq<Option<u64>>,
    c: Coord3,
    r: int,
    gid: u64,
) -> Seq<(i128, usize)> {
    Seq::new(points.len(), |i: int| i).filter(
        |i: int| in_radius(points[i], c, r) && mem[i] != Some(gid),
    ).map_values(|i: int| (d2_of(points[i]->0, c) as i128, i as usize))
}

/// The membership column after one selection call: every cell in the sphere
/// carries the group, every other cell is untouched.
pub open spec fn mem_after(
    points: Seq<Option<Coord3>>,
    mem: Seq<Option<u64>>,
    c: Coord3,
    r: int,
    gid: u64,
) -> Seq<Option<u64>> {
    Seq::new(
        mem.len(),
        |i: int|
            if in_radius(points[i], c, r) {
                Some(gid)
            } else {
                mem[i]
            },
    )
}

/// Whether some entry among the first `k` carries this tag.
pub open spec fn tag_in_prefix(sp: Seq<(i128, usize)>, k: int, i2: int) -> bool {
    exists|j: int| 0 <= j < k && (#[trigger] sp[j]).1 == i2
}

/// The cell indices of a pair sequence, in order.
pub open spec fn pair_tags(s: Seq<(i128, usize)>) -> Seq<usize> {
    s.map_values(|p: (i128, usize)| p.1)
}

pub open spec fn distinct_tags(s: Seq<(i128, usize)>) -> bool {
    forall|a: int, b: int| 0 <= a < b < s.len() ==> (#[trigger] s[a]).1 != (#[trigger] s[b]).1
}

/// Sorting pairs with pairwise distinct tags keeps the tags distinct.
proof fn lemma_sort_distinct_tags(src: Seq<(i128, usize)>)
    requires
        distinct_tags(src),
    ensures
        distinct_tags(sorted_pairs(src)),
{
    crate::sortutil::lemma_pair_le_total();
    src.lemma_sort_by_ensures(pair_le_fn());
    let sp = sorted_pairs(src);
    assert(src.no_duplicates());
    src.lemma_multiset_has_no_duplicates();
    assert forall|x: (i128, usize)| sp.to_multiset().contains(x) implies sp.to_multiset().count(x)
        == 1 by {
        assert(src.to_multiset().contains(x));
    }
    sp.lemma_multiset_has_no_duplicates_conv();
    assert forall|a: int, b: int| 0 <= a < b < sp.len() implies (#[trigger] sp[a]).1 != (
    #[trigger] sp[b]).1 by {
        broadcast use vstd::seq_lib::group_to_multiset_ensures;

        if sp[a].1 == sp[b].1 {
            assert(sp.contains(sp[a]));
            assert(sp.contains(sp[b]));
            assert(src.to_multiset().contains(sp[a]));
            assert(src.to_multiset().contains(sp[b]));
            assert(src.contains(sp[a]));
            assert(src.contains(sp[b]));
            let i = choose|i: int| 0 <= i < src.len() && src[i] == sp[a];
            let j = choose|j: int| 0 <= j < src.len() && src[j] == sp[b];
            assert(src[i].1 == src[j].1);
            assert(i == j);
        }
    }
}

/// The square of a coordinate difference stays within `i128`.
proof fn lemma_sq_bound(d: int)
    requires
        -4000000000000000000 <= d <= 4000000000000000000,
    ensures
        0 <= d * d <= 16000000000000000000000000000000000000,
{
    assert(0 <= d * d <= 16000000000000000000000000000000000000) by (nonlinear_arith)
        requires
            -4000000000000000000 <= d <= 4000000000000000000,
    ;
}

impl DataStore {
    /// The membership column the next selection call starts from: the active
    /// group's codes, or a fresh all-missing column when no session is
    /// active yet.
    pub open spec fn session_mem(self) -> Seq<Option<u64>> {
        match self.active_group {
            Some(g) => self.cell_meta.codes_of(g@),
            None => Seq::new(self.cell_names@.len() as nat, |i: int| None::<u64>),
        }
    }

    /// The order column the next selection call starts from.
    pub open spec fn session_ord(self) -> Seq<Option<Fx>> {
        match self.active_group {
            Some(g) => self.cell_meta.numeric_of(order_col_name(g@)),
            None => Seq::new(self.cell_names@.len() as nat, |i: int| None::<Fx>),
        }
    }

    /// The order counter the next selection call starts from: creating a
    /// session resets it.
    pub open spec fn session_counter(self) -> int {
        match self.active_group {
            Some(g) => self.cell_meta.order_counter as int,
            None => 0,
        }
    }

    /// The index of the projection a name denotes, if any.
    fn find_proj(&self, name: &Vec<u8>) -> (r: Option<usize>)
        ensures
            match r {
                Some(i) => i as int == proj_index_in(self.drcs@, name@) && i < self.drcs@.len(),
                None => proj_index_in(self.drcs@, name@) == -1,
            },
    {
        let mut i: usize = self.drcs.len();
        while i > 0
            invariant
                i <= self.drcs@.len(),
                forall|j: int| i <= j < self.drcs@.len() ==> (#[trigger] self.drcs@[j]).0@ != name@,
            decreases i,
        {
            i = i - 1;
            if bytes_eq(&self.drcs[i].0, name) {
                proof {
                    lemma_proj_index_found(self.drcs@, name@, i as int);
                }
                return Some(i);
            }
        }
        proof {
            lemma_proj_index_absent(self.drcs@, name@);
        }
        None
    }

    /// Mark every cell of a projection within a sphere with a group
    /// identifier.
    ///
    /// The first call of a session creates the membership column and its
    /// order column; later calls reuse them. A cell already carrying the
    /// group is re-evaluated but not re-ordered: only cells whose stored
    /// value actually changes count as affected. Those are returned, and
    /// appended to the order column, sorted by ascending squared distance
    /// from the center, nearest first.
    pub fn select_cells(
        &mut self,
        projection_name: &Vec<u8>,
        group_id: u64,
        center: &Coord3,
        radius: Fx,
    ) -> (r: Result<Vec<usize>, SelectError>)
        requires
            old(self).wf(),
            group_id <= MAX_CODE,
            coord_ok(*center),
            0 <= radius.raw <= MAX_COORD,
            old(self).session_counter() + old(self).cell_names@.len() <= MAX_CODE,
        ensures
            final(self).wf(),
            final(self).counts == old(self).counts,
            final(self).gene_names == old(self).gene_names,
            final(self).cell_names == old(self).cell_names,
            final(self).drcs == old(self).drcs,
            final(self).group_id == old(self).group_id,
            match r {
                Err(SelectError::UnknownProjection) => *final(self) == *old(self) && proj_index_in(
                    old(self).drcs@,
                    projection_name@,
                ) == -1,
                Ok(changed) => {
                    let pts = old(self).drcs@[proj_index_in(old(self).drcs@, projection_name@)].1.points@;
                    let mem0 = old(self).session_mem();
                    let ord0 = old(self).session_ord();
                    let cnt0 = old(self).session_counter();
                    let sp = sorted_pairs(
                        changed_pairs(pts, mem0, *center, radius.raw as int, group_id),
                    );
                    let g = final(self).active_group->0@;
                    &&& proj_index_in(old(self).drcs@, projection_name@) >= 0
                    &&& final(self).active_group is Some
                    &&& match old(self).active_group {
                        Some(g0) => g == g0@,
                        None => g == group_col_name(old(self).group_id as int),
                    }
                    &&& changed@ == pair_tags(sp)
                    &&& final(self).cell_meta.is_codes(g)
                    &&& final(self).cell_meta.codes_of(g) == mem_after(
                        pts,
                        mem0,
                        *center,
                        radius.raw as int,
                        group_id,
                    )
                    &&& final(self).cell_meta.is_numeric(order_col_name(g))
                    &&& final(self).cell_meta.numeric_of(order_col_name(g)).len()
                        == old(self).cell_names@.len()
                    &&& forall|k: int|
                        0 <= k < sp.len() ==> final(self).cell_meta.numeric_of(order_col_name(g))[(
                        #[trigger] sp[k]).1 as int] == Some(Fx { raw: ((cnt0 + k) * FX_DEN) as i64 })
                    &&& forall|i: int|
                        0 <= i < pts.len() && !(in_radius(#[trigger] pts[i], *center, radius.raw as int)
                            && mem0[i] != Some(group_id)) ==> final(self).cell_meta.numeric_of(
                            order_col_name(g),
                        )[i] == ord0[i]
                    &&& final(self).cell_meta.order_counter == cnt0 + sp.len()
                },
            },
    {
        // the projection must exist
        let n = self.cell_names.len();
        let pidx = match self.find_proj(projection_name) {
            Some(i) => i,
            None => {
                return Err(SelectError::UnknownProjection);
            },
        };
        let ghost pts = self.drcs@[pidx as int].1.points@;
        proof {
            assert(pts.len() == n);
            if let Some(g0) = old(self).active_group {
                crate::meta::lemma_col_index_in(old(self).cell_meta.cols@, g0@);
                crate::meta::lemma_col_index_in(old(self).cell_meta.cols@, order_col_name(g0@));
            }
        }
        // initialize the session lazily
        let ghost mem0 = old(self).session_mem();
        let ghost ord0 = old(self).session_ord();
        let ghost cnt0 = old(self).session_counter();
        let gname: Vec<u8> = match &self.active_group {
            Some(g) => clone_name_bytes(g),
            None => {
                let gn = group_col_name_exec(self.group_id);
                let on = order_col_name_exec(&gn);
                proof {
                    assert(gn@.len() < on@.len());
                }
                self.cell_meta.add_dataset(&gn, true);
                proof {
                    crate::meta::lemma_col_index_push(
                        old(self).cell_meta.cols@,
                        self.cell_meta.cols@.last(),
                        gn@,
                    );
                }
                let ghost cols_g = self.cell_meta.cols@;
                self.cell_meta.add_dataset(&on, false);
                proof {
                    crate::meta::lemma_col_index_push(cols_g, self.cell_meta.cols@.last(), gn@);
                    crate::meta::lemma_col_index_push(cols_g, self.cell_meta.cols@.last(), on@);
                    crate::meta::lemma_col_index_in(cols_g, gn@);
                    assert(self.cell_meta.cols@.drop_last() == cols_g);
                    assert(forall|j: int|
                        0 <= j < cols_g.len() ==> #[trigger] self.cell_meta.cols@[j] == cols_g[j]);
                }
                self.cell_meta.reset_order();
                self.active_group = Some(clone_name_bytes(&gn));
                proof {
                    assert(self.cell_meta.is_codes(gn@));
                    assert(self.cell_meta.is_numeric(order_col_name(gn@)));
                    assert(self.cell_meta.codes_of(gn@) =~= mem0);
                    assert(self.cell_meta.numeric_of(order_col_name(gn@)) =~= ord0);
                }
                gn
            },
        };
        let oname = order_col_name_exec(&gname);
        proof {
            assert(gname@.len() < oname@.len());
            assert(self.cell_meta.is_codes(gname@));
            assert(self.cell_meta.is_numeric(oname@));
            assert(self.cell_meta.codes_of(gname@) == mem0);
            assert(self.cell_meta.numeric_of(oname@) == ord0);
            assert(self.cell_meta.order_counter as int == cnt0);
            assert(mem0.len() == n);
            assert(ord0.len() == n);
        }
        proof {
            lemma_sq_bound(radius.raw as int);
        }
        let r2: i128 = (radius.raw as i128) * (radius.raw as i128);
        let ghost rr = radius.raw as int;
        let ghost cond = |i: int| in_radius(pts[i], *center, rr) && mem0[i] != Some(group_id);
        let ghost tomap = |i: int| (d2_of(pts[i]->0, *center) as i128, i as usize);
        let mut pairs: Vec<(i128, usize)> = Vec::new();
        let mut i: usize = 0;
        proof {
            reveal(Seq::filter);
            assert(Seq::new(0, |j: int| j) =~= Seq::<int>::empty());
            assert(pairs@ =~= Seq::new(i as nat, |j: int| j).filter(cond).map_values(tomap));
        }
        while i < n
            invariant
                i <= n,
                n == old(self).cell_names@.len(),
                self.cell_names@.len() == n,
                self.wf(),
                self.counts == old(self).counts,
                self.gene_names == old(self).gene_names,
                self.cell_names == old(self).cell_names,
                self.drcs == old(self).drcs,
                self.group_id == old(self).group_id,
                self.active_group is Some && self.active_group->0@ == gname@,
                self.gene_meta == old(self).gene_meta,
                self.cell_meta.n_rows == n,
                r2 as int == rr * rr,
                0 <= pidx < self.drcs@.len(),
                pts == self.drcs@[pidx as int].1.points@,
                pts.len() == n,
                forall|k: int| 0 <= k < pts.len() && pts[k] is Some ==> coord_ok((#[trigger] pts[k])->0),
                group_id <= MAX_CODE,
                oname@ == order_col_name(gname@),
                gname@ != oname@,
                mem0.len() == n,
                ord0.len() == n,
                self.cell_meta.is_codes(gname@),
                self.cell_meta.is_numeric(oname@),
                self.cell_meta.codes_of(gname@) == Seq::new(
                    n as nat,
                    |j: int|
                        if j < i && in_radius(pts[j], *center, rr) {
                            Some(group_id)
                        } else {
                            mem0[j]
                        },
                ),
                self.cell_meta.numeric_of(oname@) == ord0,
                self.cell_meta.order_counter as int == cnt0,
                cnt0 + n <= MAX_CODE,
                rr == radius.raw as int,
                0 <= rr <= MAX_COORD,
                coord_ok(*center),
                cond == (|j: int| in_radius(pts[j], *center, rr) && mem0[j] != Some(group_id)),
                tomap == (|j: int| (d2_of(pts[j]->0, *center) as i128, j as usize)),
                pairs@ == Seq::new(i as nat, |j: int| j).filter(cond).map_values(tomap),
                forall|k: int| 0 <= k < pairs@.len() ==> 0 <= (#[trigger] pairs@[k]).1 < i,
                forall|k: int| 0 <= k < pairs@.len() ==> cond(((#[trigger] pairs@[k]).1) as int),
                distinct_tags(pairs@),
            decreases n - i,
        {
            let ghost prev_pairs = pairs@;
            let point = self.drcs[pidx].1.points[i];
            match point {
                Some(p) => {
                    proof {
                        assert(pts[i as int] == Some(p));
                        assert(coord_ok(p));
                    }
                    let dx = (p.x.raw as i128) - (center.x.raw as i128);
                    let dy = (p.y.raw as i128) - (center.y.raw as i128);
                    let dz = (p.z.raw as i128) - (center.z.raw as i128);
                    proof {
                        lemma_sq_bound(dx as int);
                        lemma_sq_bound(dy as int);
                        lemma_sq_bound(dz as int);
                    }
                    let d2 = dx * dx + dy * dy + dz * dz;
                    proof {
                        assert(d2 as int == d2_of(p, *center));
                        assert(r2 as int == rr * rr);
                    }
                    if d2 <= r2 {
                        let ghost mem_now = self.cell_meta.codes_of(gname@);
                        let ghost pre_meta = self.cell_meta;
                        let ch = self.cell_meta.update_value(&gname, i, group_id);
                        proof {
                            crate::meta::lemma_col_index_in(pre_meta.cols@, oname@);
                            crate::meta::lemma_col_index_in(pre_meta.cols@, gname@);
                            assert(self.cell_meta.numeric_of(oname@) == pre_meta.numeric_of(
                                oname@,
                            ));
                            assert(mem_now[i as int] == mem0[i as int]);
                            assert(ch == (mem0[i as int] != Some(group_id)));
                            assert(self.cell_meta.codes_of(gname@) =~= Seq::new(
                                n as nat,
                                |j: int|
                                    if j < i + 1 && in_radius(pts[j], *center, rr) {
                                        Some(group_id)
                                    } else {
                                        mem0[j]
                                    },
                            ));
                        }
                        if ch {
                            pairs.push((d2, i));
                        }
                    } else {
                        proof {
                            assert(!in_radius(pts[i as int], *center, rr));
                        }
                    }
                },
                None => {
                    proof {
                        assert(!in_radius(pts[i as int], *center, rr));
                    }
                },
            }
            proof {
                let idxs = Seq::new(i as nat, |j: int| j);
                let idxs2 = Seq::new((i + 1) as nat, |j: int| j);
                assert(idxs2 =~= idxs.push(i as int));
                Seq::filter_distributes_over_add(idxs, seq![i as int], cond);
                assert(seq![i as int].filter(cond) == if cond(i as int) {
                    seq![i as int]
                } else {
                    Seq::<int>::empty()
                }) by {
                    reveal_with_fuel(Seq::filter, 3);
                    assert(seq![i as int].drop_last() =~= Seq::<int>::empty());
                    assert(Seq::<int>::empty().filter(cond) =~= Seq::<int>::empty());
                }
                assert(idxs + seq![i as int] =~= idxs2);
                if cond(i as int) {
                    assert(in_radius(pts[i as int], *center, rr));
                    assert(d2_of(pts[i as int]->0, *center) <= rr * rr);
                    assert(pairs@ =~= prev_pairs.push(tomap(i as int)));
                    assert(idxs2.filter(cond).map_values(tomap) =~= idxs.filter(cond).map_values(
                        tomap,
                    ).push(tomap(i as int)));
                } else {
                    assert(pairs@ == prev_pairs);
                    assert(idxs2.filter(cond) =~= idxs.filter(cond));
                }
                if self.cell_meta.codes_of(gname@) != Seq::new(
                    n as nat,
                    |j: int|
                        if j < i + 1 && in_radius(pts[j], *center, rr) {
                            Some(group_id)
                        } else {
                            mem0[j]
                        },
                ) {
                    assert(self.cell_meta.codes_of(gname@) =~= Seq::new(
                        n as nat,
                        |j: int|
                            if j < i + 1 && in_radius(pts[j], *center, rr) {
                                Some(group_id)
                            } else {
                                mem0[j]
                            },
                    ));
                }
            }
            i += 1;
        }
        proof {
            assert(Seq::new(n as nat, |j: int| j) =~= Seq::new(pts.len(), |j: int| j));
            assert(pairs@ == changed_pairs(pts, mem0, *center, rr, group_id));
            assert(self.cell_meta.codes_of(gname@) =~= mem_after(pts, mem0, *center, rr, group_id));
        }
        // order the newly affected cells by ascending squared distance
        let sorted = sort_pairs(&pairs);
        proof {
            lemma_sort_distinct_tags(pairs@);
            assert forall|k: int| 0 <= k < sorted@.len() implies 0 <= (#[trigger] sorted@[k]).1 < n
                && cond((sorted@[k]).1 as int) by {
                broadcast use vstd::seq_lib::group_to_multiset_ensures;

                assert(sorted@.contains(sorted@[k]));
                assert(pairs@.to_multiset().contains(sorted@[k]));
                assert(pairs@.contains(sorted@[k]));
            }
            Seq::new(n as nat, |j: int| j).filter_lemma(cond);
        }
        let ghost sp = sorted@;
        let mut out: Vec<usize> = Vec::new();
        let mut k: usize = 0;
        proof {
            assert(out@ =~= pair_tags(sp).take(0));
        }
        while k < sorted.len()
            invariant
                k <= sorted@.len(),
                sorted@ == sp,
                out@ == pair_tags(sp).take(k as int),
                sp == sorted_pairs(changed_pairs(pts, mem0, *center, rr, group_id)),
                sp.len() <= n,
                n == old(self).cell_names@.len(),
                self.cell_names@.len() == n,
                self.wf(),
                self.counts == old(self).counts,
                self.gene_names == old(self).gene_names,
                self.cell_names == old(self).cell_names,
                self.drcs == old(self).drcs,
                self.group_id == old(self).group_id,
                self.active_group is Some && self.active_group->0@ == gname@,
                self.gene_meta == old(self).gene_meta,
                self.cell_meta.n_rows == n,
                oname@ == order_col_name(gname@),
                gname@ != oname@,
                ord0.len() == n,
                forall|j: int| 0 <= j < sp.len() ==> 0 <= (#[trigger] sp[j]).1 < n,
                forall|j: int| 0 <= j < sp.len() ==> cond(((#[trigger] sp[j]).1) as int),
                cond == (|j: int| in_radius(pts[j], *center, rr) && mem0[j] != Some(group_id)),
                distinct_tags(sp),
                self.cell_meta.is_codes(gname@),
                self.cell_meta.is_numeric(oname@),
                self.cell_meta.codes_of(gname@) == mem_after(pts, mem0, *center, rr, group_id),
                self.cell_meta.numeric_of(oname@).len() == n,
                forall|j: int|
                    0 <= j < k ==> self.cell_meta.numeric_of(oname@)[(#[trigger] sp[j]).1 as int]
                        == Some(Fx { raw: ((cnt0 + j) * FX_DEN) as i64 }),
                forall|i2: int|
                    0 <= i2 < n && !tag_in_prefix(sp, k as int, i2)
                        ==> #[trigger] self.cell_meta.numeric_of(oname@)[i2] == ord0[i2],
                self.cell_meta.order_counter as int == cnt0 + k,
                cnt0 + n <= MAX_CODE,
            decreases sorted@.len() - k,
        {
            let idx = sorted[k].1;
            let ghost pre_meta = self.cell_meta;
            self.cell_meta.update_order(&oname, idx);
            proof {
                crate::meta::lemma_col_index_in(pre_meta.cols@, gname@);
                crate::meta::lemma_col_index_in(pre_meta.cols@, oname@);
                assert(self.cell_meta.codes_of(gname@) == pre_meta.codes_of(gname@));
                assert(self.cell_meta.codes_of(gname@) == mem_after(
                    pts,
                    mem0,
                    *center,
                    rr,
                    group_id,
                ));
                assert forall|j: int| 0 <= j < k + 1 implies self.cell_meta.numeric_of(oname@)[(
                #[trigger] sp[j]).1 as int] == Some(Fx { raw: ((cnt0 + j) * FX_DEN) as i64 }) by {
                    if j < k {
                        assert(sp[j].1 != sp[k as int].1);
                    }
                }
            }
            out.push(idx);
            proof {
                assert(pair_tags(sp)[k as int] == sp[k as int].1);
                assert(out@ =~= pair_tags(sp).take(k + 1));
            }
            k += 1;
        }
        proof {
            assert(pair_tags(sp).take(k as int) =~= pair_tags(sp));
            assert forall|i2: int|
                0 <= i2 < pts.len() && !(in_radius(#[trigger] pts[i2], *center, rr) && mem0[i2]
                    != Some(group_id)) implies self.cell_meta.numeric_of(oname@)[i2]
                == ord0[i2] by {
                if tag_in_prefix(sp, k as int, i2) {
                    let j = choose|j: int| 0 <= j < k && (#[trigger] sp[j]).1 == i2;
                    assert(cond((sp[j]).1 as int));
                    assert(false);
                }
            }
        }
        Ok(out)
    }
}



/// Repeating an identical selection on an unmodified session affects no
/// cell: after one call, every cell of the sphere already carries the group,
/// so the same call again returns the empty list.
pub proof fn lemma_select_idempotent(
    points: Seq<Option<Coord3>>,
    mem: Seq<Option<u64>>,
    c: Coord3,
    r: int,
    gid: u64,
)
    requires
        mem.len() == points.len(),
    ensures
        changed_pairs(points, mem_after(points, mem, c, r, gid), c, r, gid).len() == 0,
        sorted_pairs(changed_pairs(points, mem_after(points, mem, c, r, gid), c, r, gid)).len()
            == 0,
{
    broadcast use vstd::seq_lib::group_to_multiset_ensures;

    let mem2 = mem_after(points, mem, c, r, gid);
    let idxs = Seq::new(points.len(), |i: int| i);
    let cond = |i: int| in_radius(points[i], c, r) && mem2[i] != Some(gid);
    assert forall|k: int| 0 <= k < idxs.len() implies !cond(#[trigger] idxs[k]) by {
        if in_radius(points[k], c, r) {
            assert(mem2[k] == Some(gid));
        }
    }
    lemma_filter_none(idxs, cond);
    let cp = changed_pairs(points, mem2, c, r, gid);
    assert(cp.len() == 0);
    cp.lemma_sort_by_ensures(pair_le_fn());
    assert(cp.to_multiset().len() == 0);
    assert(sorted_pairs(cp).len() == sorted_pairs(cp).to_multiset().len());
}

/// Filtering with a predicate that holds nowhere yields the empty sequence.
proof fn lemma_filter_none(s: Seq<int>, pred: spec_fn(int) -> bool)
    requires
        forall|k: int| 0 <= k < s.len() ==> !pred(#[trigger] s[k]),
    ensures
        s.filter(pred).len() == 0,
    decreases s.len(),
{
    reveal(Seq::filter);
    if s.len() > 0 {
        assert(forall|k: int| 0 <= k < s.len() - 1 ==> s.drop_last()[k] == s[k]);
        lemma_filter_none(s.drop_last(), pred);
    }
}

/// Whether a cell takes part in pseudo-bulk aggregation: its order value is
/// present and its cluster value is present and non-negative.
pub open spec fn valid_cell(cl: Seq<Option<Fx>>, ord: Seq<Option<Fx>>, i: int) -> bool {
    ord[i] is Some && cl[i] is Some && cl[i]->0.raw >= 0
}

/// The cluster identifier of a valid cell: the whole-unit part of its
/// cluster value.
pub open spec fn cid_of(cl: Seq<Option<Fx>>, i: int) -> u64 {
    (cl[i]->0.raw / (FX_DEN as i64)) as u64
}

/// The cluster identifiers of the valid cells, in cell order.
pub open spec fn valid_cids(cl: Seq<Option<Fx>>, ord: Seq<Option<Fx>>) -> Seq<u64> {
    Seq::new(cl.len(), |i: int| i).filter(|i: int| valid_cell(cl, ord, i)).map_values(
        |i: int| cid_of(cl, i),
    )
}

/// The `(order value, cell index)` pairs of one cluster's members.
pub open spec fn mpairs(cl: Seq<Option<Fx>>, ord: Seq<Option<Fx>>, c: u64) -> Seq<(i128, usize)> {
    Seq::new(cl.len(), |i: int| i).filter(
        |i: int| valid_cell(cl, ord, i) && cid_of(cl, i) == c,
    ).map_values(|i: int| (ord[i]->0.raw as i128, i as usize))
}

/// One cluster's member cells, sorted by ascending order value, ties by cell
/// index.
pub open spec fn members_of(cl: Seq<Option<Fx>>, ord: Seq<Option<Fx>>, c: u64) -> Seq<usize> {
    pair_tags(sorted_pairs(mpairs(cl, ord, c)))
}

/// The target chunk size for a member count: a tenth of it, at least one.
pub open spec fn chunk_size_of(count: int) -> int {
    if count / 10 >= 1 {
        count / 10
    } else {
        1
    }
}

/// How many chunks a member count yields.
pub open spec fn nchunks_of(count: int) -> int {
    (count + chunk_size_of(count) - 1) / chunk_size_of(count)
}

/// The length of chunk `k`: full chunks of the target size, the final chunk
/// holding the remainder.
pub open spec fn chunk_len_of(count: int, k: int) -> int {
    let cs = chunk_size_of(count);
    if (k + 1) * cs <= count {
        cs
    } else {
        count - k * cs
    }
}

/// The total of one expression row over one cell, duplicate entries summed.
pub open spec fn cell_total(row: Seq<(usize, Fx)>, c: usize) -> int
    decreases row.len(),
{
    if row.len() == 0 {
        0
    } else {
        cell_total(row.drop_last(), c) + if row.last().0 == c {
            row.last().1.raw as int
        } else {
            0int
        }
    }
}

/// The total of one expression row over a list of member cells.
pub open spec fn chunk_cell_sum(row: Seq<(usize, Fx)>, ms: Seq<usize>) -> int
    decreases ms.len(),
{
    if ms.len() == 0 {
        0
    } else {
        chunk_cell_sum(row, ms.drop_last()) + cell_total(row, ms.last())
    }
}

/// The `(cluster label, chunk length)` pairs of the first `ci` clusters'
/// pseudo-samples, in ascending cluster order, chunks in order.
pub open spec fn pseudo_meta(
    cl: Seq<Option<Fx>>,
    ord: Seq<Option<Fx>>,
    cids: Seq<u64>,
    ci: int,
) -> Seq<(u64, int)>
    decreases ci,
{
    if ci <= 0 {
        Seq::empty()
    } else {
        let c = cids[ci - 1];
        let count = mpairs(cl, ord, c).len() as int;
        pseudo_meta(cl, ord, cids, ci - 1) + Seq::new(
            nchunks_of(count) as nat,
            |k: int| (c, chunk_len_of(count, k)),
        )
    }
}

impl DataStore {
    /// Aggregate expression into pseudo-bulk samples per cluster.
    ///
    /// Cells whose order or cluster value is missing, or whose cluster value
    /// is negative, are excluded. Each cluster's members are sorted by
    /// ascending order value and split into contiguous chunks with target
    /// chunk size a tenth of the member count (at least one), the final
    /// chunk holding the remainder. Each chunk's gene vector is the
    /// elementwise sum of its members' expression rows; the returned
    /// denominators divide those sums into means when requested, and are one
    /// otherwise. Clusters are emitted in ascending identifier order.
    ///
    /// Returns the per-chunk gene sum columns, the per-chunk denominators,
    /// and the per-chunk cluster labels; nothing when the grouping column or
    /// its order column is absent.
    #[verifier::loop_isolation(false)]
    #[verifier::rlimit(80)]
    pub fn make_pseudo_samples(&self, group_name: &Vec<u8>, as_mean: bool) -> (r: Option<
        (Vec<Vec<i128>>, Vec<u64>, Vec<u64>),
    >)
        requires
            self.wf(),
            self.cell_names@.len() <= 10000000,
            self.counts.nnz <= 0x10000000000,
        ensures
            match r {
                Some(out) => {
                    let cl = self.cell_meta.col_of(group_name@).as_numeric();
                    let ord = self.cell_meta.col_of(order_col_name(group_name@)).as_numeric();
                    let cids = crate::cluster::unique_sorted(valid_cids(cl, ord));
                    let meta = pseudo_meta(cl, ord, cids, cids.len() as int);
                    &&& self.cell_meta.has_col(group_name@)
                    &&& self.cell_meta.has_col(order_col_name(group_name@))
                    &&& out.2@ == meta.map_values(|p: (u64, int)| p.0)
                    &&& out.1@.len() == meta.len()
                    &&& forall|j: int|
                        0 <= j < meta.len() ==> (#[trigger] out.1@[j]) as int == if as_mean {
                            meta[j].1
                        } else {
                            1int
                        }
                    &&& out.0@.len() == meta.len()
                    &&& forall|j: int|
                        0 <= j < meta.len() ==> (#[trigger] out.0@[j])@.len()
                            == self.gene_names@.len()
                    &&& forall|ci: int, k: int, g: int|
                        (0 <= ci < cids.len() && 0 <= k < nchunks_of(
                            cluster_count(cl, ord, cids[ci]),
                        ) && 0 <= g < self.gene_names@.len()) ==> #[trigger] grid(
                            out.0@,
                            col_base(cl, ord, cids, ci) + k,
                            g,
                        ) == chunk_value(
                            cl,
                            ord,
                            crate::matrix::row_views(self.counts.rows@),
                            cids[ci],
                            k,
                            g,
                        )
                },
                None => !self.cell_meta.has_col(group_name@) || !self.cell_meta.has_col(
                    order_col_name(group_name@),
                ),
            },
    {
        let n = self.cell_names.len();
        let cl_vec = match self.cell_meta.as_numeric_vec(group_name) {
            Some(v) => v,
            None => {
                return None;
            },
        };
        let oname = order_col_name_exec(group_name);
        let ord_vec = match self.cell_meta.as_numeric_vec(&oname) {
            Some(v) => v,
            None => {
                return None;
            },
        };
        let ghost cl = self.cell_meta.col_of(group_name@).as_numeric();
        let ghost ord = self.cell_meta.col_of(order_col_name(group_name@)).as_numeric();
        proof {
            crate::meta::lemma_col_index_in(self.cell_meta.cols@, group_name@);
            crate::meta::lemma_col_index_in(self.cell_meta.cols@, order_col_name(group_name@));
            assert(cl_vec@ == cl);
            assert(ord_vec@ == ord);
            assert(cl.len() == n);
            assert(ord.len() == n);
        }
        // the cluster identifiers of the valid cells
        let ghost vpred = |i: int| valid_cell(cl, ord, i);
        let ghost vmap = |i: int| cid_of(cl, i);
        let mut vcids: Vec<u64> = Vec::new();
        let mut i: usize = 0;
        proof {
            reveal(Seq::filter);
            assert(Seq::new(0, |j: int| j) =~= Seq::<int>::empty());
            assert(vcids@ =~= Seq::new(0, |j: int| j).filter(vpred).map_values(vmap));
        }
        while i < n
            invariant
                i <= n,
                vcids@ == Seq::new(i as nat, |j: int| j).filter(vpred).map_values(vmap),
            decreases n - i,
        {
            proof {
                let idxs = Seq::new(i as nat, |j: int| j);
                let idxs2 = Seq::new((i + 1) as nat, |j: int| j);
                assert(idxs2 =~= idxs.push(i as int));
                Seq::filter_distributes_over_add(idxs, seq![i as int], vpred);
                assert(seq![i as int].filter(vpred) == if vpred(i as int) {
                    seq![i as int]
                } else {
                    Seq::<int>::empty()
                }) by {
                    reveal_with_fuel(Seq::filter, 3);
                    assert(seq![i as int].drop_last() =~= Seq::<int>::empty());
                    assert(Seq::<int>::empty().filter(vpred) =~= Seq::<int>::empty());
                }
                assert(idxs + seq![i as int] =~= idxs2);
            }
            let take_it = match (cl_vec[i], ord_vec[i]) {
                (Some(cv), Some(_)) => cv.raw >= 0,
                _ => false,
            };
            if take_it {
                let cv = match cl_vec[i] {
                    Some(cv) => cv,
                    None => {
                        proof {
                            assert(false);
                        }
                        Fx { raw: 0 }
                    },
                };
                let code = (cv.raw / FX_DEN) as u64;
                vcids.push(code);
                proof {
                    let idxs = Seq::new(i as nat, |j: int| j);
                    let idxs2 = Seq::new((i + 1) as nat, |j: int| j);
                    assert(idxs2.filter(vpred).map_values(vmap) =~= idxs.filter(vpred).map_values(
                        vmap,
                    ).push(vmap(i as int)));
                    assert(code == cid_of(cl, i as int));
                }
            } else {
                proof {
                    let idxs = Seq::new(i as nat, |j: int| j);
                    let idxs2 = Seq::new((i + 1) as nat, |j: int| j);
                    assert(idxs2.filter(vpred) =~= idxs.filter(vpred));
                }
            }
            i += 1;
        }
        proof {
            assert(Seq::new(n as nat, |j: int| j) =~= Seq::new(cl.len(), |j: int| j));
            assert(vcids@ == valid_cids(cl, ord));
        }
        let cids = crate::cluster::sorted_unique(&vcids);
        let ghost cids_s = crate::cluster::unique_sorted(valid_cids(cl, ord));
        let n_genes = self.gene_names.len();
        let mut cols: Vec<Vec<i128>> = Vec::new();
        let mut dens: Vec<u64> = Vec::new();
        let mut labels: Vec<u64> = Vec::new();
        let mut ci: usize = 0;
        proof {
            assert(pseudo_meta(cl, ord, cids_s, 0) =~= Seq::<(u64, int)>::empty());
            assert(labels@ =~= pseudo_meta(cl, ord, cids_s, 0).map_values(|p: (u64, int)| p.0));
        }
        while ci < cids.len()
            invariant
                ci <= cids_s.len(),
                cids@ == cids_s,
                labels@ == pseudo_meta(cl, ord, cids_s, ci as int).map_values(
                    |p: (u64, int)| p.0,
                ),
                dens@.len() == pseudo_meta(cl, ord, cids_s, ci as int).len(),
                forall|j: int|
                    0 <= j < dens@.len() ==> (#[trigger] dens@[j]) as int == if as_mean {
                        pseudo_meta(cl, ord, cids_s, ci as int)[j].1
                    } else {
                        1int
                    },
                cols@.len() == pseudo_meta(cl, ord, cids_s, ci as int).len(),
                forall|j: int| 0 <= j < cols@.len() ==> (#[trigger] cols@[j])@.len() == n_genes,
                forall|ci2: int, k: int, g: int|
                    (0 <= ci2 < ci && 0 <= k < nchunks_of(cluster_count(cl, ord, cids_s[ci2])) && 0
                        <= g < n_genes) ==> #[trigger] grid(
                        cols@,
                        col_base(cl, ord, cids_s, ci2) + k,
                        g,
                    ) == chunk_value(
                        cl,
                        ord,
                        crate::matrix::row_views(self.counts.rows@),
                        cids_s[ci2],
                        k,
                        g,
                    ),
            decreases cids_s.len() - ci,
        {
            let c = cids[ci];
            // gather and sort this cluster's members
            let ghost mpred = |i2: int| valid_cell(cl, ord, i2) && cid_of(cl, i2) == c;
            let ghost mmap = |i2: int| (ord[i2]->0.raw as i128, i2 as usize);
            let mut pairs: Vec<(i128, usize)> = Vec::new();
            let mut i2: usize = 0;
            proof {
                assert(pairs@ =~= Seq::new(0, |j: int| j).filter(mpred).map_values(mmap));
            }
            while i2 < n
                invariant
                    i2 <= n,
                    pairs@ == Seq::new(i2 as nat, |j: int| j).filter(mpred).map_values(mmap),
                decreases n - i2,
            {
                proof {
                    let idxs = Seq::new(i2 as nat, |j: int| j);
                    let idxs2 = Seq::new((i2 + 1) as nat, |j: int| j);
                    assert(idxs2 =~= idxs.push(i2 as int));
                    Seq::filter_distributes_over_add(idxs, seq![i2 as int], mpred);
                    assert(seq![i2 as int].filter(mpred) == if mpred(i2 as int) {
                        seq![i2 as int]
                    } else {
                        Seq::<int>::empty()
                    }) by {
                        reveal_with_fuel(Seq::filter, 3);
                        assert(seq![i2 as int].drop_last() =~= Seq::<int>::empty());
                        assert(Seq::<int>::empty().filter(mpred) =~= Seq::<int>::empty());
                    }
                    assert(idxs + seq![i2 as int] =~= idxs2);
                }
                let take_it = match (cl_vec[i2], ord_vec[i2]) {
                    (Some(cv), Some(_)) => cv.raw >= 0 && (cv.raw / FX_DEN) as u64 == c,
                    _ => false,
                };
                if take_it {
                    let ov = match ord_vec[i2] {
                        Some(ov) => ov,
                        None => {
                            proof {
                                assert(false);
                            }
                            Fx { raw: 0 }
                        },
                    };
                    pairs.push((ov.raw as i128, i2));
                    proof {
                        let idxs = Seq::new(i2 as nat, |j: int| j);
                        let idxs2 = Seq::new((i2 + 1) as nat, |j: int| j);
                        assert(idxs2.filter(mpred).map_values(mmap) =~= idxs.filter(
                            mpred,
                        ).map_values(mmap).push(mmap(i2 as int)));
                    }
                } else {
                    proof {
                        let idxs = Seq::new(i2 as nat, |j: int| j);
                        let idxs2 = Seq::new((i2 + 1) as nat, |j: int| j);
                        assert(idxs2.filter(mpred) =~= idxs.filter(mpred));
                    }
                }
                i2 += 1;
            }
            proof {
                assert(Seq::new(n as nat, |j: int| j) =~= Seq::new(cl.len(), |j: int| j));
                assert(pairs@ == mpairs(cl, ord, c));
                Seq::new(cl.len(), |j: int| j).filter_lemma(mpred);
            }
            let sorted = sort_pairs(&pairs);
            let mut members: Vec<usize> = Vec::new();
            let mut m: usize = 0;
            proof {
                assert(members@ =~= pair_tags(sorted@).take(0));
            }
            while m < sorted.len()
                invariant
                    m <= sorted@.len(),
                    members@ == pair_tags(sorted@).take(m as int),
                decreases sorted@.len() - m,
            {
                members.push(sorted[m].1);
                proof {
                    assert(pair_tags(sorted@)[m as int] == sorted@[m as int].1);
                    assert(pair_tags(sorted@).take(m as int).push(pair_tags(sorted@)[m as int])
                        =~= pair_tags(sorted@).take(m + 1));
                }
                m += 1;
            }
            proof {
                assert(pair_tags(sorted@).take(m as int) =~= pair_tags(sorted@));
                assert(members@ == members_of(cl, ord, c));
            }
            let count = members.len();
            let ghost countg = mpairs(cl, ord, c).len() as int;
            proof {
                assert(count as int == countg);
                assert(countg <= n);
            }
            let cs = if count / 10 >= 1 {
                count / 10
            } else {
                1
            };
            proof {
                assert(cs as int == chunk_size_of(countg));
                assert(1 <= cs as int);
                assert(cs as int <= countg || countg == 0);
            }
            let nchunks = (count + cs - 1) / cs;
            proof {
                assert(nchunks as int == nchunks_of(countg));
                lemma_chunks(countg);
            }
            let ghost meta_before = pseudo_meta(cl, ord, cids_s, ci as int);
            let ghost cluster_meta = Seq::new(
                nchunks_of(countg) as nat,
                |k: int| (c, chunk_len_of(countg, k)),
            );
            let mut k: usize = 0;
            while k < nchunks
                invariant
                    k <= nchunks,
                    nchunks as int == nchunks_of(countg),
                    countg == mpairs(cl, ord, c).len(),
                    count as int == countg,
                    cs as int == chunk_size_of(countg),
                    c == cids_s[ci as int],
                    ci < cids_s.len(),
                    members@ == members_of(cl, ord, c),
                    members@.len() == countg,
                    labels@ == (meta_before + cluster_meta.take(k as int)).map_values(
                        |p: (u64, int)| p.0,
                    ),
                    dens@.len() == meta_before.len() + k,
                    forall|j: int|
                        0 <= j < dens@.len() ==> (#[trigger] dens@[j]) as int == if as_mean {
                            (meta_before + cluster_meta.take(k as int))[j].1
                        } else {
                            1int
                        },
                    cols@.len() == meta_before.len() + k,
                    forall|j: int| 0 <= j < cols@.len() ==> (#[trigger] cols@[j])@.len() == n_genes,
                    forall|ci2: int, k2: int, g: int|
                        (0 <= ci2 < ci && 0 <= k2 < nchunks_of(cluster_count(cl, ord, cids_s[ci2]))
                            && 0 <= g < n_genes) ==> #[trigger] grid(
                            cols@,
                            col_base(cl, ord, cids_s, ci2) + k2,
                            g,
                        ) == chunk_value(
                            cl,
                            ord,
                            crate::matrix::row_views(self.counts.rows@),
                            cids_s[ci2],
                            k2,
                            g,
                        ),
                    forall|k2: int, g: int|
                        (0 <= k2 < k && 0 <= g < n_genes) ==> #[trigger] grid(
                            cols@,
                            meta_before.len() + k2,
                            g,
                        ) == chunk_value(
                            cl,
                            ord,
                            crate::matrix::row_views(self.counts.rows@),
                            c,
                            k2,
                            g,
                        ),
                decreases nchunks - k,
            {
                proof {
                    assert(countg >= 1) by {
                        if countg == 0 {
                            assert(nchunks_of(0) == 0);
                        }
                    }
                    assert(nchunks_of(countg) <= countg) by (nonlinear_arith)
                        requires
                            countg >= 1,
                            chunk_size_of(countg) >= 1,
                            nchunks_of(countg) == (countg + chunk_size_of(countg) - 1)
                                / chunk_size_of(countg),
                    ;
                    lemma_chunk_bounds(countg, k as int);
                    assert((k as int + 1) * (cs as int) == k as int * (cs as int) + cs as int)
                        by (nonlinear_arith);
                }
                let lo = k * cs;
                let hi = if (k + 1) * cs <= count {
                    (k + 1) * cs
                } else {
                    count
                };
                proof {
                    assert(lo as int == k as int * chunk_size_of(countg));
                    assert(hi as int == lo as int + chunk_len_of(countg, k as int));
                }
                let clen = hi - lo;
                labels.push(c);
                dens.push(
                    if as_mean {
                        clen as u64
                    } else {
                        1
                    },
                );
                let mut col: Vec<i128> = Vec::new();
                let mut g: usize = 0;
                let ghost cms = members_of(cl, ord, c).subrange(lo as int, hi as int);
                while g < n_genes
                    invariant
                        g <= n_genes,
                        lo <= hi <= members@.len(),
                        members@ == members_of(cl, ord, c),
                        cms == members_of(cl, ord, c).subrange(lo as int, hi as int),
                        hi - lo <= 10000000,
                        col@.len() == g,
                        forall|g2: int|
                            0 <= g2 < g ==> (#[trigger] col@[g2]) as int == chunk_cell_sum(
                                crate::matrix::row_views(self.counts.rows@)[g2],
                                cms,
                            ),
                    decreases n_genes - g,
                {
                    let row = &self.counts.rows[g];
                    let ghost rowv = crate::matrix::row_views(self.counts.rows@)[g as int];
                    proof {
                        assert(rowv == row@);
                        crate::matrix::lemma_row_le_nnz(
                            crate::matrix::row_views(self.counts.rows@),
                            g as int,
                        );
                        assert(row@.len() <= self.counts.nnz);
                    }
                    let mut acc: i128 = 0;
                    let mut m2: usize = lo;
                    proof {
                        assert(cms.take(0) =~= Seq::<usize>::empty());
                        assert(acc as int == chunk_cell_sum(rowv, cms.take(0)));
                    }
                    while m2 < hi
                        invariant
                            lo <= m2 <= hi,
                            rowv == row@,
                            row@.len() <= 0x10000000000,
                            acc as int == chunk_cell_sum(rowv, cms.take(m2 - lo)),
                            -10145709240540252000000000000000 * ((m2 - lo) as int) <= acc as int
                                <= 10145709240540252000000000000000 * ((m2 - lo) as int),
                        decreases hi - m2,
                    {
                        let ct = cell_total_exec(row, members[m2]);
                        proof {
                            assert(cms[m2 - lo] == members@[m2 as int]);
                            assert(cms.take(m2 + 1 - lo).drop_last() =~= cms.take(m2 - lo));
                            assert(cms.take(m2 + 1 - lo).last() == cms[m2 - lo]);
                            lemma_acc_bound((m2 - lo) as int);
                        }
                        acc = acc + ct;
                        m2 += 1;
                    }
                    proof {
                        assert(cms.take(hi - lo) =~= cms);
                    }
                    col.push(acc);
                    g += 1;
                }
                let ghost prev_cols = cols@;
                cols.push(col);
                proof {
                    assert(cluster_meta.take(k + 1) =~= cluster_meta.take(k as int).push(
                        cluster_meta[k as int],
                    ));
                    assert((meta_before + cluster_meta.take(k + 1)) =~= (meta_before
                        + cluster_meta.take(k as int)).push(cluster_meta[k as int]));
                    assert(labels@ =~= (meta_before + cluster_meta.take(k + 1)).map_values(
                        |p: (u64, int)| p.0,
                    ));
                    assert forall|k2: int, g2: int|
                        (0 <= k2 < k + 1 && 0 <= g2 < n_genes) implies #[trigger] grid(
                        cols@,
                        meta_before.len() + k2,
                        g2,
                    ) == chunk_value(
                        cl,
                        ord,
                        crate::matrix::row_views(self.counts.rows@),
                        c,
                        k2,
                        g2,
                    ) by {
                        if k2 == k {
                            assert(cols@[meta_before.len() + k2] == col);
                            assert(grid(cols@, meta_before.len() + k2, g2) == col@[g2] as int);
                            assert(col@[g2] as int == chunk_cell_sum(
                                crate::matrix::row_views(self.counts.rows@)[g2],
                                cms,
                            ));
                            assert(cms == members_of(cl, ord, c).subrange(
                                k2 * chunk_size_of(countg),
                                k2 * chunk_size_of(countg) + chunk_len_of(countg, k2),
                            ));
                        } else {
                            assert(cols@[meta_before.len() + k2] == prev_cols[meta_before.len()
                                + k2]);
                            assert(grid(prev_cols, meta_before.len() + k2, g2) == chunk_value(
                                cl,
                                ord,
                                crate::matrix::row_views(self.counts.rows@),
                                c,
                                k2,
                                g2,
                            ));
                        }
                    }
                    assert forall|ci2: int, k2: int, g2: int|
                        (0 <= ci2 < ci && 0 <= k2 < nchunks_of(cluster_count(cl, ord, cids_s[ci2]))
                            && 0 <= g2 < n_genes) implies #[trigger] grid(
                        cols@,
                        col_base(cl, ord, cids_s, ci2) + k2,
                        g2,
                    ) == chunk_value(
                        cl,
                        ord,
                        crate::matrix::row_views(self.counts.rows@),
                        cids_s[ci2],
                        k2,
                        g2,
                    ) by {
                        lemma_col_base_mono(cl, ord, cids_s, ci2, ci as int);
                        assert(col_base(cl, ord, cids_s, ci2) + k2 < meta_before.len());
                        assert(cols@[col_base(cl, ord, cids_s, ci2) + k2] == prev_cols[col_base(
                            cl,
                            ord,
                            cids_s,
                            ci2,
                        ) + k2]);
                        assert(grid(prev_cols, col_base(cl, ord, cids_s, ci2) + k2, g2)
                            == chunk_value(
                            cl,
                            ord,
                            crate::matrix::row_views(self.counts.rows@),
                            cids_s[ci2],
                            k2,
                            g2,
                        ));
                    }
                }
                k += 1;
            }
            proof {
                assert(cluster_meta.take(nchunks as int) =~= cluster_meta);
                assert(pseudo_meta(cl, ord, cids_s, ci + 1) == meta_before + cluster_meta);
                assert(col_base(cl, ord, cids_s, ci as int) == meta_before.len());
            }
            ci += 1;
        }
        proof {
            assert(ci as int == cids_s.len());
        }
        Some((cols, dens, labels))
    }
}

/// One entry of a column-of-columns grid.
pub open spec fn grid(cols: Seq<Vec<i128>>, j: int, g: int) -> int {
    cols[j]@[g] as int
}

/// A cluster's member count.
pub open spec fn cluster_count(cl: Seq<Option<Fx>>, ord: Seq<Option<Fx>>, c: u64) -> int {
    mpairs(cl, ord, c).len() as int
}

/// The column index at which a cluster's chunks start.
pub open spec fn col_base(cl: Seq<Option<Fx>>, ord: Seq<Option<Fx>>, cids: Seq<u64>, ci: int) -> int {
    pseudo_meta(cl, ord, cids, ci).len() as int
}

/// The expected gene-row sum of one chunk: the totals of its member cells.
pub open spec fn chunk_value(
    cl: Seq<Option<Fx>>,
    ord: Seq<Option<Fx>>,
    rows: Seq<Seq<(usize, Fx)>>,
    c: u64,
    k: int,
    g: int,
) -> int {
    let count = cluster_count(cl, ord, c);
    chunk_cell_sum(
        rows[g],
        members_of(cl, ord, c).subrange(
            k * chunk_size_of(count),
            k * chunk_size_of(count) + chunk_len_of(count, k),
        ),
    )
}

/// An earlier cluster's chunks all lie below a later cluster's base.
proof fn lemma_col_base_mono(
    cl: Seq<Option<Fx>>,
    ord: Seq<Option<Fx>>,
    cids: Seq<u64>,
    a: int,
    b: int,
)
    requires
        0 <= a < b,
    ensures
        col_base(cl, ord, cids, a) + nchunks_of(cluster_count(cl, ord, cids[a])) <= col_base(
            cl,
            ord,
            cids,
            b,
        ),
    decreases b - a,
{
    lemma_chunks(cluster_count(cl, ord, cids[b - 1]));
    lemma_mpairs_nonneg(cl, ord, cids[b - 1]);
    if a == b - 1 {
    } else {
        lemma_col_base_mono(cl, ord, cids, a, b - 1);
    }
}

proof fn lemma_mpairs_nonneg(cl: Seq<Option<Fx>>, ord: Seq<Option<Fx>>, c: u64)
    ensures
        cluster_count(cl, ord, c) >= 0,
{
}

/// Chunk arithmetic: sizes are positive and chunks cover the members.
proof fn lemma_chunks(count: int)
    requires
        count >= 0,
    ensures
        chunk_size_of(count) >= 1,
        nchunks_of(count) >= 0,
        count > 0 ==> nchunks_of(count) >= 1,
        nchunks_of(count) * chunk_size_of(count) >= count,
{
    let cs = chunk_size_of(count);
    assert(nchunks_of(count) * cs >= count) by (nonlinear_arith)
        requires
            cs >= 1,
            count >= 0,
            nchunks_of(count) == (count + cs - 1) / cs,
    ;
    if count > 0 {
        assert(nchunks_of(count) >= 1) by (nonlinear_arith)
            requires
                cs >= 1,
                count >= 1,
                nchunks_of(count) == (count + cs - 1) / cs,
        ;
    }
    assert(nchunks_of(count) >= 0) by (nonlinear_arith)
        requires
            cs >= 1,
            count >= 0,
            nchunks_of(count) == (count + cs - 1) / cs,
    ;
}

/// Every chunk index below the chunk count yields a well-formed slice.
proof fn lemma_chunk_bounds(count: int, k: int)
    requires
        count >= 0,
        0 <= k < nchunks_of(count),
    ensures
        0 <= k * chunk_size_of(count) < count,
        k * chunk_size_of(count) + chunk_len_of(count, k) <= count,
        chunk_len_of(count, k) >= 1,
{
    let cs = chunk_size_of(count);
    assert(cs >= 1);
    assert(0 <= k * cs && k * cs < count && (k + 1) * cs <= count ==> k * cs + cs <= count && (k
        + 1) * cs > count ==> true) by (nonlinear_arith)
        requires
            cs >= 1,
            0 <= k < nchunks_of(count),
            nchunks_of(count) == (count + cs - 1) / cs,
            count >= 0,
    ;
    assert(k * cs < count) by (nonlinear_arith)
        requires
            cs >= 1,
            0 <= k < (count + cs - 1) / cs,
            count >= 0,
    ;
    assert(k * cs >= 0) by (nonlinear_arith)
        requires
            cs >= 1,
            k >= 0,
    ;
    assert((k + 1) * cs == k * cs + cs) by (nonlinear_arith);
}

/// Partial sums of per-cell totals stay well within `i128`.
proof fn lemma_acc_bound(m: int)
    requires
        0 <= m < 10000000,
    ensures
        10145709240540252000000000000000 * m + 10145709240540252000000000000000
            <= 101457092405402520000000000000000000000,
        10145709240540252000000000000000 * m == 10145709240540252000000000000000 * (m + 1)
            - 10145709240540252000000000000000,
{
    assert(10145709240540252000000000000000 * m + 10145709240540252000000000000000
        <= 101457092405402520000000000000000000000) by (nonlinear_arith)
        requires
            0 <= m < 10000000,
    ;
    assert(10145709240540252000000000000000 * m == 10145709240540252000000000000000 * (m + 1)
        - 10145709240540252000000000000000) by (nonlinear_arith);
}

/// The total of one expression row over one cell, executably.
fn cell_total_exec(row: &Vec<(usize, Fx)>, c: usize) -> (r: i128)
    requires
        row@.len() <= 0x10000000000,
    ensures
        r as int == cell_total(row@, c),
        -10145709240540252000000000000000 <= r <= 10145709240540252000000000000000,
{
    let mut acc: i128 = 0;
    let mut i: usize = 0;
    proof {
        assert(row@.take(0) =~= Seq::<(usize, Fx)>::empty());
    }
    while i < row.len()
        invariant
            i <= row@.len(),
            row@.len() <= 0x10000000000,
            acc as int == cell_total(row@.take(i as int), c),
            -9223372036854775808 * (i as int) <= acc as int <= 9223372036854775808 * (i as int),
        decreases row@.len() - i,
    {
        proof {
            assert(row@.take(i + 1).drop_last() =~= row@.take(i as int));
            assert(row@.take(i + 1).last() == row@[i as int]);
            assert(9223372036854775808 * (i as int) + 9223372036854775808 == 9223372036854775808
                * ((i + 1) as int)) by (nonlinear_arith);
            assert(9223372036854775808 * ((i + 1) as int) <= 9223372036854775808
                * 0x10000000000) by (nonlinear_arith)
                requires
                    0 <= i < 0x10000000000,
            ;
        }
        let (cell, v) = row[i];
        if cell == c {
            acc = acc + (v.raw as i128);
        }
        i += 1;
    }
    proof {
        assert(row@.take(row@.len() as int) =~= row@);
        assert(9223372036854775808 * (i as int) <= 10145709240540252000000000000000)
            by (nonlinear_arith)
            requires
                0 <= i <= 0x10000000000,
        ;
    }
    acc
}

} // verus!
