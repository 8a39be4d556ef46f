//! The sparse expression matrix and its coordinate text format.
//!
//! The matrix file is a coordinate-format text table: a banner line naming
//! the value kind (`real` or `integer`), optional `%`-comment lines, a size
//! line `rows cols nnz`, and one `row col value` line per stored entry with
//! one-based indices. Values are parsed as decimal fixed-point numbers on the
//! `real` path and as integers scaled to fixed point on the `integer` path.
//!
//! In memory the matrix is compressed row-major: the stored entries grouped
//! by row, in file order within each row.

use vstd::prelude::*;
use crate::fixed::Fx;
use crate::text::{
    all_digits, clean_lines, dec_val, lines_of, int_ok, int_val, fx_ok, fx_val, parse_fx, parse_i64,
    parse_u64, split_tokens, tokens_of, views,
};

verus! {

/// `%`, the comment marker of the coordinate format.
pub const B_PERCENT: u8 = 37;

/// Largest accepted row or column count.
pub const MAX_DIM: u64 = 100000000;

/// Largest integer whose fixed-point scaling stays within `i64`.
pub const MAX_INT_UNITS: i64 = 9000000000000;

/// One stored entry: zero-based row and column, fixed-point value.
#[derive(Clone, Copy, Debug, PartialEq, Eq, Structural)]
pub struct Triplet {
    pub row: usize,
    pub col: usize,
    pub val: Fx,
}

/// The view of a triplet sequence as integer tuples `(row, col, raw)`.
pub open spec fn triplet_views(s: Seq<Triplet>) -> Seq<(int, int, int)> {
    s.map_values(|t: Triplet| (t.row as int, t.col as int, t.val.raw as int))
}

/// Lines of the matrix file that carry data: comments (and the banner)
/// removed.
pub open spec fn noncomment_fn() -> spec_fn(Seq<u8>) -> bool {
    |l: Seq<u8>| !(l.len() >= 1 && l[0] == B_PERCENT)
}

pub open spec fn mm_data_lines(b: Seq<u8>) -> Seq<Seq<u8>> {
    clean_lines(b).filter(noncomment_fn())
}

/// The banner token naming real values.
pub open spec fn is_real_tag(s: Seq<u8>) -> bool {
    s =~= seq![114u8, 101u8, 97u8, 108u8]
}

/// The banner token naming integer values.
pub open spec fn is_integer_tag(s: Seq<u8>) -> bool {
    s =~= seq![105u8, 110u8, 116u8, 101u8, 103u8, 101u8, 114u8]
}

/// The banner: a first line starting with `%%`, whose fourth token names the
/// value kind.
pub open spec fn mm_banner_ok(b: Seq<u8>, integer: bool) -> bool {
    let ls = clean_lines(b);
    &&& ls.len() >= 1
    &&& ls[0].len() >= 2
    &&& ls[0][0] == B_PERCENT
    &&& ls[0][1] == B_PERCENT
    &&& tokens_of(ls[0]).len() >= 4
    &&& if integer {
        is_integer_tag(tokens_of(ls[0])[3])
    } else {
        is_real_tag(tokens_of(ls[0])[3])
    }
}

/// The size line: three decimal tokens within the accepted dimension bounds.
pub open spec fn mm_sizes_ok(l: Seq<u8>) -> bool {
    let t = tokens_of(l);
    &&& t.len() == 3
    &&& all_digits(t[0]) && t[0].len() >= 1 && dec_val(t[0]) <= MAX_DIM
    &&& all_digits(t[1]) && t[1].len() >= 1 && dec_val(t[1]) <= MAX_DIM
    &&& all_digits(t[2]) && t[2].len() >= 1 && dec_val(t[2]) <= u64::MAX
}

pub open spec fn mm_rows(b: Seq<u8>) -> int {
    dec_val(tokens_of(mm_data_lines(b)[0])[0])
}

pub open spec fn mm_cols(b: Seq<u8>) -> int {
    dec_val(tokens_of(mm_data_lines(b)[0])[1])
}

pub open spec fn mm_nnz(b: Seq<u8>) -> int {
    dec_val(tokens_of(mm_data_lines(b)[0])[2])
}

/// One entry line: `row col value` with one-based indices in range and a
/// value the chosen path can represent.
pub open spec fn mm_entry_ok(l: Seq<u8>, integer: bool, nr: int, nc: int) -> bool {
    let t = tokens_of(l);
    &&& t.len() == 3
    &&& all_digits(t[0]) && t[0].len() >= 1 && 1 <= dec_val(t[0]) <= nr
    &&& all_digits(t[1]) && t[1].len() >= 1 && 1 <= dec_val(t[1]) <= nc
    &&& if integer {
        int_ok(t[2]) && -MAX_INT_UNITS <= int_val(t[2]) <= MAX_INT_UNITS
    } else {
        fx_ok(t[2]) && -i64::MAX <= fx_val(t[2]) <= i64::MAX
    }
}

/// The `(row, col, raw)` value of a well-formed entry line, zero-based.
pub open spec fn mm_entry_val(l: Seq<u8>, integer: bool) -> (int, int, int) {
    let t = tokens_of(l);
    (
        dec_val(t[0]) - 1,
        dec_val(t[1]) - 1,
        if integer {
            int_val(t[2]) * 1000000
        } else {
            fx_val(t[2])
        },
    )
}

/// A well-formed coordinate matrix file for the chosen value kind.
pub open spec fn mm_ok(b: Seq<u8>, integer: bool) -> bool {
    let dl = mm_data_lines(b);
    &&& mm_banner_ok(b, integer)
    &&& dl.len() >= 1
    &&& mm_sizes_ok(dl[0])
    &&& dl.len() - 1 == mm_nnz(b)
    &&& forall|k: int|
        1 <= k < dl.len() ==> mm_entry_ok(#[trigger] dl[k], integer, mm_rows(b), mm_cols(b))
}

/// The entries of a well-formed coordinate matrix file, in file order.
pub open spec fn mm_entries(b: Seq<u8>, integer: bool) -> Seq<(int, int, int)> {
    mm_data_lines(b).skip(1).map_values(|l: Seq<u8>| mm_entry_val(l, integer))
}

/// Check one banner token executably.
fn check_tag(t: &Vec<u8>, integer: bool) -> (r: bool)
    ensures
        r == if integer {
            is_integer_tag(t@)
        } else {
            is_real_tag(t@)
        },
{
    if integer {
        t.len() == 7 && t[0] == 105 && t[1] == 110 && t[2] == 116 && t[3] == 101 && t[4] == 103
            && t[5] == 101 && t[6] == 114
    } else {
        t.len() == 4 && t[0] == 114 && t[1] == 101 && t[2] == 97 && t[3] == 108
    }
}

/// Parse a coordinate-format matrix file into dimensions and triplets.
///
/// Fails exactly when the file is not well-formed for the chosen value kind.
pub fn parse_coord_matrix(b: &Vec<u8>, integer: bool) -> (r: Option<(usize, usize, Vec<Triplet>)>)
    ensures
        match r {
            Some(t) => {
                &&& mm_ok(b@, integer)
                &&& t.0 as int == mm_rows(b@)
                &&& t.1 as int == mm_cols(b@)
                &&& triplet_views(t.2@) == mm_entries(b@, integer)
                &&& t.2@.len() == mm_nnz(b@)
            },
            None => !mm_ok(b@, integer),
        },
{
    let ls = lines_of(b);
    // banner
    if ls.len() == 0 {
        return None;
    }
    let banner = &ls[0];
    proof {
        assert(views(ls@)[0] == ls@[0]@);
    }
    if !(banner.len() >= 2 && banner[0] == B_PERCENT && banner[1] == B_PERCENT) {
        return None;
    }
    let btoks = split_tokens(banner);
    if btoks.len() < 4 {
        return None;
    }
    proof {
        assert(views(btoks@)[3] == btoks@[3]@);
    }
    if !check_tag(&btoks[3], integer) {
        return None;
    }
    // data lines: drop comments
    let ghost all_lines = clean_lines(b@);
    let ghost dl_spec = mm_data_lines(b@);
    let mut dl: Vec<Vec<u8>> = Vec::new();
    let mut i: usize = 0;
    proof {
        reveal(Seq::filter);
        assert(all_lines.take(0) =~= Seq::<Seq<u8>>::empty());
        assert(views(dl@) =~= all_lines.take(0).filter(noncomment_fn()));
    }
    while i < ls.len()
        invariant
            i <= ls.len(),
            views(ls@) == all_lines,
            dl_spec == all_lines.filter(noncomment_fn()),
            views(dl@) == all_lines.take(i as int).filter(noncomment_fn()),
        decreases ls.len() - i,
    {
        let line = ls[i].clone();
        proof {
            assert(views(ls@)[i as int] == ls@[i as int]@);
            let pre = all_lines.take(i as int);
            let single = seq![all_lines[i as int]];
            assert(pre + single =~= all_lines.take(i + 1));
            Seq::filter_distributes_over_add(pre, single, noncomment_fn());
            assert(single.filter(noncomment_fn()) == if noncomment_fn()(single[0]) {
                single
            } else {
                Seq::<Seq<u8>>::empty()
            }) by {
                reveal_with_fuel(Seq::filter, 3);
                assert(single.drop_last() =~= Seq::<Seq<u8>>::empty());
                assert(Seq::<Seq<u8>>::empty().filter(noncomment_fn()) =~= Seq::<
                    Seq<u8>,
                >::empty());
            }
        }
        if !(line.len() >= 1 && line[0] == B_PERCENT) {
            proof {
                assert(views(dl@.push(line)) =~= views(dl@) + seq![line@]);
            }
            dl.push(line);
        }
        i += 1;
    }
    proof {
        assert(all_lines.take(i as int) =~= all_lines);
    }
    // size line
    if dl.len() == 0 {
        return None;
    }
    proof {
        assert(views(dl@)[0] == dl@[0]@);
    }
    let stoks = split_tokens(&dl[0]);
    if stoks.len() != 3 {
        return None;
    }
    proof {
        assert(views(stoks@)[0] == stoks@[0]@);
        assert(views(stoks@)[1] == stoks@[1]@);
        assert(views(stoks@)[2] == stoks@[2]@);
    }
    let nr64 = match parse_u64(&stoks[0]) {
        Some(v) => v,
        None => {
            return None;
        },
    };
    let nc64 = match parse_u64(&stoks[1]) {
        Some(v) => v,
        None => {
            return None;
        },
    };
    let nnz64 = match parse_u64(&stoks[2]) {
        Some(v) => v,
        None => {
            return None;
        },
    };
    if nr64 > MAX_DIM || nc64 > MAX_DIM {
        return None;
    }
    let nr = nr64 as usize;
    let nc = nc64 as usize;
    // entry count
    let n_entries = dl.len() - 1;
    if n_entries as u64 != nnz64 {
        proof {
            assert(dl_spec.len() - 1 != mm_nnz(b@));
        }
        return None;
    }
    // entries
    let mut tri: Vec<Triplet> = Vec::new();
    let mut k: usize = 1;
    proof {
        assert(triplet_views(tri@) =~= dl_spec.skip(1).map_values(
            |l: Seq<u8>| mm_entry_val(l, integer),
        ).take(0));
    }
    while k < dl.len()
        invariant
            1 <= k <= dl.len(),
            views(dl@) == dl_spec,
            dl_spec == mm_data_lines(b@),
            dl_spec.len() >= 1,
            nr as int == dec_val(tokens_of(dl_spec[0])[0]),
            nc as int == dec_val(tokens_of(dl_spec[0])[1]),
            forall|j: int| 1 <= j < k ==> mm_entry_ok(#[trigger] dl_spec[j], integer, nr as int, nc as int),
            triplet_views(tri@) == dl_spec.skip(1).map_values(
                |l: Seq<u8>| mm_entry_val(l, integer),
            ).take(k - 1),
            tri@.len() == k - 1,
        decreases dl.len() - k,
    {
        proof {
            assert(views(dl@)[k as int] == dl@[k as int]@);
        }
        let toks = split_tokens(&dl[k]);
        if toks.len() != 3 {
            return None;
        }
        proof {
            assert(views(toks@)[0] == toks@[0]@);
            assert(views(toks@)[1] == toks@[1]@);
            assert(views(toks@)[2] == toks@[2]@);
        }
        let row1 = match parse_u64(&toks[0]) {
            Some(v) => v,
            None => {
                return None;
            },
        };
        let col1 = match parse_u64(&toks[1]) {
            Some(v) => v,
            None => {
                return None;
            },
        };
        if row1 < 1 || row1 > nr as u64 || col1 < 1 || col1 > nc as u64 {
            return None;
        }
        let val: Fx = if integer {
            let v = match parse_i64(&toks[2]) {
                Some(v) => v,
                None => {
                    proof {
                        if int_ok(toks@[2]@) && -MAX_INT_UNITS <= int_val(toks@[2]@)
                            <= MAX_INT_UNITS {
                            assert(-i64::MAX <= int_val(toks@[2]@) <= i64::MAX);
                        }
                    }
                    return None;
                },
            };
            if v < -MAX_INT_UNITS || v > MAX_INT_UNITS {
                return None;
            }
            Fx { raw: v * 1000000 }
        } else {
            match parse_fx(&toks[2]) {
                Some(v) => v,
                None => {
                    return None;
                },
            }
        };
        let t = Triplet { row: (row1 - 1) as usize, col: (col1 - 1) as usize, val };
        proof {
            let f = |l: Seq<u8>| mm_entry_val(l, integer);
            let m = dl_spec.skip(1).map_values(f);
            assert(mm_entry_ok(dl_spec[k as int], integer, nr as int, nc as int));
            assert(m[k - 1] == f(dl_spec.skip(1)[k - 1]));
            assert(dl_spec.skip(1)[k - 1] == dl_spec[k as int]);
            assert(triplet_views(tri@.push(t)) =~= triplet_views(tri@).push(
                (t.row as int, t.col as int, t.val.raw as int),
            ));
            assert(m.take(k - 1).push(m[k - 1]) =~= m.take(k as int));
        }
        tri.push(t);
        k += 1;
    }
    proof {
        let m = mm_data_lines(b@).skip(1).map_values(|l: Seq<u8>| mm_entry_val(l, integer));
        assert(m.take(k - 1) =~= m);
        assert(mm_ok(b@, integer));
    }
    Some((nr, nc, tri))
}

/// The view of the row vectors of a sparse matrix.
pub open spec fn row_views(s: Seq<Vec<(usize, Fx)>>) -> Seq<Seq<(usize, Fx)>> {
    s.map_values(|v: Vec<(usize, Fx)>| v@)
}

/// The `(col, raw)` pairs a row holds, as integers.
pub open spec fn row_pairs(s: Seq<(usize, Fx)>) -> Seq<(int, int)> {
    s.map_values(|e: (usize, Fx)| (e.0 as int, e.1.raw as int))
}

/// The entries of a triplet sequence that fall in row `g`, as `(col, raw)`
/// pairs in sequence order.
pub open spec fn entries_of_row(tri: Seq<(int, int, int)>, g: int) -> Seq<(int, int)> {
    tri.filter(|e: (int, int, int)| e.0 == g).map_values(|e: (int, int, int)| (e.1, e.2))
}

pub open spec fn sum_lens(s: Seq<Seq<(usize, Fx)>>) -> int
    decreases s.len(),
{
    if s.len() == 0 {
        0
    } else {
        sum_lens(s.drop_last()) + s.last().len()
    }
}

/// A sparse expression matrix: entries grouped by row, file order within a
/// row.
#[derive(Debug)]
pub struct SparseMatrix {
    pub nrows: usize,
    pub ncols: usize,
    pub rows: Vec<Vec<(usize, Fx)>>,
    pub nnz: usize,
}

impl SparseMatrix {
    /// Structural well-formedness: one bucket per row, all column indices in
    /// range, and the stored-entry count consistent.
    pub open spec fn wf(self) -> bool {
        &&& self.rows@.len() == self.nrows
        &&& forall|g: int, j: int|
            0 <= g < self.nrows && 0 <= j < self.rows@[g]@.len() ==> (#[trigger] self.rows@[g]@[j]).0
                < self.ncols
        &&& self.nnz as int == sum_lens(row_views(self.rows@))
    }

    /// Group validated triplets by row.
    pub fn from_triplets(nr: usize, nc: usize, tri: &Vec<Triplet>) -> (r: SparseMatrix)
        requires
            forall|k: int|
                0 <= k < tri@.len() ==> (#[trigger] tri@[k]).row < nr && tri@[k].col < nc,
        ensures
            r.wf(),
            r.nrows == nr,
            r.ncols == nc,
            r.nnz == tri@.len(),
            forall|g: int|
                0 <= g < nr ==> row_pairs(#[trigger] row_views(r.rows@)[g]) == entries_of_row(
                    triplet_views(tri@),
                    g,
                ),
    {
        let mut rows: Vec<Vec<(usize, Fx)>> = Vec::new();
        let mut i: usize = 0;
        while i < nr
            invariant
                i <= nr,
                rows@.len() == i,
                forall|g: int| 0 <= g < i ==> (#[trigger] rows@[g])@.len() == 0,
            decreases nr - i,
        {
            rows.push(Vec::new());
            i += 1;
        }
        proof {
            lemma_sum_lens_zero(row_views(rows@));
            assert forall|g: int| 0 <= g < nr implies row_pairs(#[trigger] row_views(rows@)[g])
                =~= entries_of_row(triplet_views(tri@).take(0), g) by {
                reveal(Seq::filter);
                assert(triplet_views(tri@).take(0) =~= Seq::<(int, int, int)>::empty());
            }
        }
        let mut k: usize = 0;
        let mut m = SparseMatrix { nrows: nr, ncols: nc, rows, nnz: 0 };
        while k < tri.len()
            invariant
                k <= tri@.len(),
                m.nrows == nr,
                m.ncols == nc,
                m.rows@.len() == nr,
                m.nnz == k,
                forall|k2: int|
                    0 <= k2 < tri@.len() ==> (#[trigger] tri@[k2]).row < nr && tri@[k2].col < nc,
                forall|g: int, j: int|
                    0 <= g < nr && 0 <= j < m.rows@[g]@.len() ==> (#[trigger] m.rows@[g]@[j]).0
                        < nc,
                m.nnz as int == sum_lens(row_views(m.rows@)),
                forall|g: int|
                    0 <= g < nr ==> row_pairs(#[trigger] row_views(m.rows@)[g]) == entries_of_row(
                        triplet_views(tri@).take(k as int),
                        g,
                    ),
            decreases tri@.len() - k,
        {
            let t = tri[k];
            let ghost prev_rows = m.rows@;
            let mut bucket: Vec<(usize, Fx)> = Vec::new();
            m.rows.set_and_swap(t.row, &mut bucket);
            bucket.push((t.col, t.val));
            m.rows.set(t.row, bucket);
            m.nnz = m.nnz + 1;
            proof {
                assert(row_views(m.rows@) =~= row_views(prev_rows).update(
                    t.row as int,
                    row_views(prev_rows)[t.row as int].push((t.col, t.val)),
                ));
                let tv = triplet_views(tri@);
                let e = (t.row as int, t.col as int, t.val.raw as int);
                assert(tv[k as int] == e);
                assert(tv.take(k as int).push(e) =~= tv.take(k + 1));
                lemma_sum_lens_update(
                    row_views(prev_rows),
                    t.row as int,
                    row_views(m.rows@)[t.row as int],
                );
                assert forall|g: int| 0 <= g < nr implies row_pairs(
                    #[trigger] row_views(m.rows@)[g],
                ) =~= entries_of_row(tv.take(k + 1), g) by {
                    let p = |e2: (int, int, int)| e2.0 == g;
                    Seq::filter_distributes_over_add(tv.take(k as int), seq![e], p);
                    assert(tv.take(k as int) + seq![e] =~= tv.take(k + 1));
                    assert(seq![e].filter(p) == if p(e) {
                        seq![e]
                    } else {
                        Seq::<(int, int, int)>::empty()
                    }) by {
                        reveal_with_fuel(Seq::filter, 3);
                        assert(seq![e].drop_last() =~= Seq::<(int, int, int)>::empty());
                        assert(Seq::<(int, int, int)>::empty().filter(p) =~= Seq::<
                            (int, int, int),
                        >::empty());
                    }
                    if g == t.row as int {
                        assert(row_views(m.rows@)[g] == row_views(prev_rows)[g].push((t.col, t.val)));
                        assert(row_pairs(row_views(m.rows@)[g]) =~= row_pairs(
                            row_views(prev_rows)[g],
                        ).push((t.col as int, t.val.raw as int)));
                        assert(entries_of_row(tv.take(k + 1), g) =~= entries_of_row(
                            tv.take(k as int),
                            g,
                        ).push((e.1, e.2)));
                    } else {
                        assert(row_views(m.rows@)[g] == row_views(prev_rows)[g]);
                        assert(entries_of_row(tv.take(k + 1), g) =~= entries_of_row(
                            tv.take(k as int),
                            g,
                        ));
                    }
                }
            }
            k += 1;
        }
        proof {
            assert(triplet_views(tri@).take(k as int) =~= triplet_views(tri@));
        }
        m
    }
}

/// One row holds at most the total number of stored entries.
pub proof fn lemma_row_le_nnz(s: Seq<Seq<(usize, Fx)>>, g: int)
    requires
        0 <= g < s.len(),
    ensures
        s[g].len() <= sum_lens(s),
    decreases s.len(),
{
    lemma_sum_lens_nonneg(s);
    if g == s.len() - 1 {
        lemma_sum_lens_nonneg(s.drop_last());
    } else {
        assert(s.drop_last()[g] == s[g]);
        lemma_row_le_nnz(s.drop_last(), g);
    }
}

pub proof fn lemma_sum_lens_nonneg(s: Seq<Seq<(usize, Fx)>>)
    ensures
        sum_lens(s) >= 0,
    decreases s.len(),
{
    if s.len() > 0 {
        lemma_sum_lens_nonneg(s.drop_last());
    }
}

proof fn lemma_sum_lens_zero(s: Seq<Seq<(usize, Fx)>>)
    requires
        forall|g: int| 0 <= g < s.len() ==> (#[trigger] s[g]).len() == 0,
    ensures
        sum_lens(s) == 0,
    decreases s.len(),
{
    if s.len() > 0 {
        lemma_sum_lens_zero(s.drop_last());
    }
}

/// Replacing one element by a sequence one longer raises the total length by
/// one.
proof fn lemma_sum_lens_update(s: Seq<Seq<(usize, Fx)>>, g: int, x: Seq<(usize, Fx)>)
    requires
        0 <= g < s.len(),
        x.len() == s[g].len() + 1,
    ensures
        sum_lens(s.update(g, x)) == sum_lens(s) + 1,
    decreases s.len(),
{
    if s.len() > 0 {
        if g == s.len() - 1 {
            assert(s.update(g, x).drop_last() =~= s.drop_last());
        } else {
            assert(s.update(g, x).drop_last() =~= s.drop_last().update(g, x));
            lemma_sum_lens_update(s.drop_last(), g, x);
        }
    }
}

} // verus!
