//! Per-cell metadata columns.
//!
//! A table maps column names (byte strings, like every identifier in the
//! crate) to columns of one of three kinds: string labels (the identity
//! column), categorical codes (selection groups), and numeric values
//! (selection order). Every column has one entry per cell; a missing value is
//! `None`. The table also owns the counter used to append successive order
//! indices, and a name added twice shadows its earlier column.

use vstd::prelude::*;
use crate::fixed::{Fx, FX_DEN};
use crate::text::{bytes_eq, views};

verus! {

/// Largest categorical code and largest order index: both stay exactly
/// representable once scaled to fixed point.
pub const MAX_CODE: u64 = 9000000000000;

/// One metadata column.
#[derive(Debug)]
pub enum MetaColumn {
    /// Per-cell string labels, such as the identity column.
    Labels { values: Vec<Vec<u8>> },
    /// Per-cell categorical codes, such as selection group identifiers.
    Codes { values: Vec<Option<u64>> },
    /// Per-cell numeric values, such as selection order indices.
    Numeric { values: Vec<Option<Fx>> },
}

impl MetaColumn {
    pub open spec fn len(self) -> int {
        match self {
            MetaColumn::Labels { values } => values@.len() as int,
            MetaColumn::Codes { values } => values@.len() as int,
            MetaColumn::Numeric { values } => values@.len() as int,
        }
    }

    pub open spec fn codes_ok(self) -> bool {
        match self {
            MetaColumn::Codes { values } => forall|i: int|
                0 <= i < values@.len() && values@[i] is Some ==> (#[trigger] values@[i])->0
                    <= MAX_CODE,
            _ => true,
        }
    }

    /// Every column read as a numeric vector: labels are non-numeric and
    /// surface as missing, codes are scaled to fixed point, numeric columns
    /// are themselves.
    pub open spec fn as_numeric(self) -> Seq<Option<Fx>> {
        match self {
            MetaColumn::Labels { values } => Seq::new(values@.len(), |i: int| None),
            MetaColumn::Codes { values } => Seq::new(
                values@.len(),
                |i: int|
                    match values@[i] {
                        Some(v) => Some(Fx { raw: (v * FX_DEN) as i64 }),
                        None => None,
                    },
            ),
            MetaColumn::Numeric { values } => values@,
        }
    }
}

/// The index of the column a name denotes: the most recently added one, or
/// `-1` when the name is absent.
pub open spec fn col_index_in(cols: Seq<(Vec<u8>, MetaColumn)>, name: Seq<u8>) -> int
    decreases cols.len(),
{
    if cols.len() == 0 {
        -1
    } else if cols.last().0@ == name {
        cols.len() - 1
    } else {
        col_index_in(cols.drop_last(), name)
    }
}

pub proof fn lemma_col_index_in(cols: Seq<(Vec<u8>, MetaColumn)>, name: Seq<u8>)
    ensures
        -1 <= col_index_in(cols, name) < cols.len(),
        col_index_in(cols, name) >= 0 ==> cols[col_index_in(cols, name)].0@ == name,
        forall|j: int| col_index_in(cols, name) < j < cols.len() ==> cols[j].0@ != name,
    decreases cols.len(),
{
    if cols.len() > 0 && cols.last().0@ != name {
        lemma_col_index_in(cols.drop_last(), name);
        assert(forall|j: int|
            0 <= j < cols.len() - 1 ==> cols.drop_last()[j] == cols[j]);
    }
}

/// Looking a name up after a push finds the pushed column when the names
/// match and is otherwise undisturbed.
pub proof fn lemma_col_index_push(
    cols: Seq<(Vec<u8>, MetaColumn)>,
    c: (Vec<u8>, MetaColumn),
    name: Seq<u8>,
)
    ensures
        col_index_in(cols.push(c), name) == if c.0@ == name {
            cols.len() as int
        } else {
            col_index_in(cols, name)
        },
{
    assert(cols.push(c).drop_last() =~= cols);
}

/// Looking a name up is unaffected by updating a column whose name differs.
pub proof fn lemma_col_index_update(
    cols: Seq<(Vec<u8>, MetaColumn)>,
    i: int,
    c: (Vec<u8>, MetaColumn),
    name: Seq<u8>,
)
    requires
        0 <= i < cols.len(),
        c.0@ == cols[i].0@,
    ensures
        col_index_in(cols.update(i, c), name) == col_index_in(cols, name),
    decreases cols.len(),
{
    if cols.len() > 0 {
        if i == cols.len() - 1 {
            assert(cols.update(i, c).drop_last() =~= cols.drop_last());
        } else {
            assert(cols.update(i, c).drop_last() =~= cols.drop_last().update(i, c));
            lemma_col_index_update(cols.drop_last(), i, c, name);
        }
    }
}

/// The table of per-cell metadata columns.
#[derive(Debug)]
pub struct MetaTable {
    pub n_rows: usize,
    pub cols: Vec<(Vec<u8>, MetaColumn)>,
    pub order_counter: u64,
}

impl MetaTable {
    pub open spec fn wf(self) -> bool {
        &&& forall|i: int|
            0 <= i < self.cols@.len() ==> (#[trigger] self.cols@[i]).1.len() == self.n_rows
        &&& forall|i: int| 0 <= i < self.cols@.len() ==> (#[trigger] self.cols@[i]).1.codes_ok()
        &&& self.order_counter <= MAX_CODE
    }

    pub open spec fn has_col(self, name: Seq<u8>) -> bool {
        col_index_in(self.cols@, name) >= 0
    }

    pub open spec fn col_of(self, name: Seq<u8>) -> MetaColumn {
        self.cols@[col_index_in(self.cols@, name)].1
    }

    pub open spec fn is_codes(self, name: Seq<u8>) -> bool {
        self.has_col(name) && self.col_of(name) is Codes
    }

    pub open spec fn is_numeric(self, name: Seq<u8>) -> bool {
        self.has_col(name) && self.col_of(name) is Numeric
    }

    pub open spec fn codes_of(self, name: Seq<u8>) -> Seq<Option<u64>> {
        self.col_of(name)->Codes_values@
    }

    pub open spec fn numeric_of(self, name: Seq<u8>) -> Seq<Option<Fx>> {
        self.col_of(name)->Numeric_values@
    }

    /// An empty table for a fixed number of cells.
    pub fn new(n_rows: usize) -> (r: MetaTable)
        ensures
            r.wf(),
            r.n_rows == n_rows,
            r.cols@.len() == 0,
            r.order_counter == 0,
    {
        MetaTable { n_rows, cols: Vec::new(), order_counter: 0 }
    }

    /// The most recently added column a name denotes, if any.
    fn find_col(&self, name: &Vec<u8>) -> (r: Option<usize>)
        ensures
            match r {
                Some(i) => i as int == col_index_in(self.cols@, name@),
                None => col_index_in(self.cols@, name@) == -1,
            },
    {
        let mut i: usize = self.cols.len();
        while i > 0
            invariant
                i <= self.cols@.len(),
                forall|j: int| i <= j < self.cols@.len() ==> (#[trigger] self.cols@[j]).0@ != name@,
            decreases i,
        {
            i = i - 1;
            if bytes_eq(&self.cols[i].0, name) {
                proof {
                    lemma_col_index_found(self.cols@, name@, i as int);
                }
                return Some(i);
            }
        }
        proof {
            lemma_col_index_absent(self.cols@, name@);
        }
        None
    }

    /// Whether a column of this name exists.
    pub fn contains_col(&self, name: &Vec<u8>) -> (r: bool)
        ensures
            r == self.has_col(name@),
    {
        self.find_col(name).is_some()
    }

    /// Add a label column holding one string per cell.
    pub fn add_labels(&mut self, name: &Vec<u8>, values: Vec<Vec<u8>>)
        requires
            old(self).wf(),
            values@.len() == old(self).n_rows,
        ensures
            final(self).wf(),
            final(self).n_rows == old(self).n_rows,
            final(self).order_counter == old(self).order_counter,
            final(self).cols@.len() == old(self).cols@.len() + 1,
            final(self).cols@.drop_last() == old(self).cols@,
            final(self).cols@.last().0@ == name@,
            final(self).cols@.last().1 == (MetaColumn::Labels { values }),
    {
        let entry = (clone_name(name), MetaColumn::Labels { values });
        self.cols.push(entry);
        proof {
            assert(self.cols@.drop_last() =~= old(self).cols@);
        }
    }

    /// Create a new, all-missing column of the declared kind: categorical
    /// codes or numeric values.
    pub fn add_dataset(&mut self, name: &Vec<u8>, categorical: bool)
        requires
            old(self).wf(),
        ensures
            final(self).wf(),
            final(self).n_rows == old(self).n_rows,
            final(self).order_counter == old(self).order_counter,
            final(self).cols@.len() == old(self).cols@.len() + 1,
            final(self).cols@.drop_last() == old(self).cols@,
            final(self).cols@.last().0@ == name@,
            categorical ==> final(self).cols@.last().1 is Codes
                && final(self).cols@.last().1->Codes_values@ == Seq::new(
                old(self).n_rows as nat,
                |i: int| None::<u64>,
            ),
            !categorical ==> final(self).cols@.last().1 is Numeric
                && final(self).cols@.last().1->Numeric_values@ == Seq::new(
                old(self).n_rows as nat,
                |i: int| None::<Fx>,
            ),
    {
        let col = if categorical {
            MetaColumn::Codes { values: none_codes(self.n_rows) }
        } else {
            MetaColumn::Numeric { values: none_numeric(self.n_rows) }
        };
        let entry = (clone_name(name), col);
        self.cols.push(entry);
        proof {
            assert(self.cols@.drop_last() =~= old(self).cols@);
        }
    }

    /// Set one cell of a categorical column and report whether the stored
    /// value actually changed.
    pub fn update_value(&mut self, name: &Vec<u8>, row: usize, value: u64) -> (changed: bool)
        requires
            old(self).wf(),
            old(self).is_codes(name@),
            row < old(self).n_rows,
            value <= MAX_CODE,
        ensures
            final(self).wf(),
            final(self).n_rows == old(self).n_rows,
            final(self).order_counter == old(self).order_counter,
            changed == (old(self).codes_of(name@)[row as int] != Some(value)),
            final(self).cols@.len() == old(self).cols@.len(),
            final(self).is_codes(name@),
            final(self).codes_of(name@) == old(self).codes_of(name@).update(
                row as int,
                Some(value),
            ),
            forall|n2: Seq<u8>|
                n2 != name@ ==> col_index_in(final(self).cols@, n2) == col_index_in(
                    old(self).cols@,
                    n2,
                ),
            forall|j: int|
                0 <= j < old(self).cols@.len() && j != col_index_in(old(self).cols@, name@)
                    ==> final(self).cols@[j] == old(self).cols@[j],
            forall|j: int|
                0 <= j < old(self).cols@.len() ==> (#[trigger] final(self).cols@[j]).0
                    == old(self).cols@[j].0,
    {
        proof {
            lemma_col_index_in(self.cols@, name@);
        }
        let idx = match self.find_col(name) {
            Some(i) => i,
            None => {
                proof {
                    assert(false);
                }
                0
            },
        };
        let mut entry = (Vec::new(), MetaColumn::Codes { values: Vec::new() });
        self.cols.set_and_swap(idx, &mut entry);
        let (nm, col) = entry;
        let mut vals = match col {
            MetaColumn::Codes { values } => values,
            MetaColumn::Labels { values: _ } => {
                proof {
                    assert(false);
                }
                Vec::new()
            },
            MetaColumn::Numeric { values: _ } => {
                proof {
                    assert(false);
                }
                Vec::new()
            },
        };
        let changed = match vals[row] {
            Some(v) => v != value,
            None => true,
        };
        vals.set(row, Some(value));
        self.cols.set(idx, (nm, MetaColumn::Codes { values: vals }));
        proof {
            let oldc = old(self).cols@;
            assert(self.cols@ =~= oldc.update(idx as int, self.cols@[idx as int]));
            assert(self.cols@[idx as int].0@ == name@);
            lemma_col_index_update(oldc, idx as int, self.cols@[idx as int], name@);
            assert forall|n2: Seq<u8>| n2 != name@ implies col_index_in(self.cols@, n2)
                == col_index_in(oldc, n2) by {
                lemma_col_index_update(oldc, idx as int, self.cols@[idx as int], n2);
            }
        }
        changed
    }

    /// Append the next order index for one cell into a numeric order column.
    pub fn update_order(&mut self, name: &Vec<u8>, row: usize)
        requires
            old(self).wf(),
            old(self).is_numeric(name@),
            row < old(self).n_rows,
            old(self).order_counter < MAX_CODE,
        ensures
            final(self).wf(),
            final(self).n_rows == old(self).n_rows,
            final(self).order_counter == old(self).order_counter + 1,
            final(self).is_numeric(name@),
            final(self).numeric_of(name@) == old(self).numeric_of(name@).update(
                row as int,
                Some(Fx { raw: (old(self).order_counter * FX_DEN) as i64 }),
            ),
            final(self).cols@.len() == old(self).cols@.len(),
            forall|n2: Seq<u8>|
                n2 != name@ ==> col_index_in(final(self).cols@, n2) == col_index_in(
                    old(self).cols@,
                    n2,
                ),
            forall|j: int|
                0 <= j < old(self).cols@.len() && j != col_index_in(old(self).cols@, name@)
                    ==> final(self).cols@[j] == old(self).cols@[j],
            forall|j: int|
                0 <= j < old(self).cols@.len() ==> (#[trigger] final(self).cols@[j]).0
                    == old(self).cols@[j].0,
    {
        proof {
            lemma_col_index_in(self.cols@, name@);
        }
        let idx = match self.find_col(name) {
            Some(i) => i,
            None => {
                proof {
                    assert(false);
                }
                0
            },
        };
        let mut entry = (Vec::new(), MetaColumn::Codes { values: Vec::new() });
        self.cols.set_and_swap(idx, &mut entry);
        let (nm, col) = entry;
        let mut vals = match col {
            MetaColumn::Numeric { values } => values,
            MetaColumn::Labels { values: _ } => {
                proof {
                    assert(false);
                }
                Vec::new()
            },
            MetaColumn::Codes { values: _ } => {
                proof {
                    assert(false);
                }
                Vec::new()
            },
        };
        let raw: i64 = (self.order_counter as i64) * (FX_DEN as i64);
        vals.set(row, Some(Fx { raw }));
        self.cols.set(idx, (nm, MetaColumn::Numeric { values: vals }));
        self.order_counter = self.order_counter + 1;
        proof {
            let oldc = old(self).cols@;
            assert(self.cols@ =~= oldc.update(idx as int, self.cols@[idx as int]));
            assert(self.cols@[idx as int].0@ == name@);
            lemma_col_index_update(oldc, idx as int, self.cols@[idx as int], name@);
            assert forall|n2: Seq<u8>| n2 != name@ implies col_index_in(self.cols@, n2)
                == col_index_in(oldc, n2) by {
                lemma_col_index_update(oldc, idx as int, self.cols@[idx as int], n2);
            }
        }
    }

    /// Reset the order counter for a fresh selection session.
    pub fn reset_order(&mut self)
        requires
            old(self).wf(),
        ensures
            final(self).wf(),
            final(self).order_counter == 0,
            final(self).cols@ == old(self).cols@,
            final(self).n_rows == old(self).n_rows,
    {
        self.order_counter = 0;
    }

    /// Read a column as a numeric vector: label entries surface as missing,
    /// codes are scaled to fixed point.
    pub fn as_numeric_vec(&self, name: &Vec<u8>) -> (r: Option<Vec<Option<Fx>>>)
        requires
            self.wf(),
        ensures
            match r {
                Some(v) => self.has_col(name@) && v@ == self.col_of(name@).as_numeric(),
                None => !self.has_col(name@),
            },
    {
        let idx = match self.find_col(name) {
            Some(i) => i,
            None => {
                return None;
            },
        };
        proof {
            lemma_col_index_in(self.cols@, name@);
        }
        match &self.cols[idx].1 {
            MetaColumn::Labels { values } => {
                let mut out: Vec<Option<Fx>> = Vec::new();
                let mut i: usize = 0;
                while i < values.len()
                    invariant
                        i <= values@.len(),
                        out@ =~= Seq::new(i as nat, |j: int| None::<Fx>),
                    decreases values@.len() - i,
                {
                    out.push(None);
                    proof {
                        assert(out@ =~= Seq::new((i + 1) as nat, |j: int| None::<Fx>));
                    }
                    i += 1;
                }
                proof {
                    assert(out@ =~= self.col_of(name@).as_numeric());
                }
                Some(out)
            },
            MetaColumn::Codes { values } => {
                let ghost c = self.col_of(name@);
                let mut out: Vec<Option<Fx>> = Vec::new();
                let mut i: usize = 0;
                while i < values.len()
                    invariant
                        i <= values@.len(),
                        c == self.col_of(name@),
                        c is Codes,
                        values@ == c->Codes_values@,
                        c.codes_ok(),
                        out@ =~= c.as_numeric().take(i as int),
                    decreases values@.len() - i,
                {
                    let v = match values[i] {
                        Some(v) => Some(Fx { raw: (v as i64) * (FX_DEN as i64) }),
                        None => None,
                    };
                    out.push(v);
                    proof {
                        assert(out@ =~= c.as_numeric().take(i + 1));
                    }
                    i += 1;
                }
                proof {
                    assert(c.as_numeric().take(values@.len() as int) =~= c.as_numeric());
                }
                Some(out)
            },
            MetaColumn::Numeric { values } => {
                let mut out: Vec<Option<Fx>> = Vec::new();
                let mut i: usize = 0;
                while i < values.len()
                    invariant
                        i <= values@.len(),
                        values@ == self.col_of(name@)->Numeric_values@,
                        self.col_of(name@) is Numeric,
                        out@ =~= values@.take(i as int),
                    decreases values@.len() - i,
                {
                    out.push(values[i]);
                    proof {
                        assert(out@ =~= values@.take(i + 1));
                    }
                    i += 1;
                }
                proof {
                    assert(values@.take(values@.len() as int) =~= values@);
                }
                Some(out)
            },
        }
    }
}

/// Why two categorical columns fail to agree.
#[derive(Clone, Copy, Debug, PartialEq, Eq, Structural)]
pub enum LevelMismatch {
    /// The columns have different lengths.
    Length,
    /// The columns first differ at this row.
    Entry { row: usize },
}

/// Compare two label columns element for element, in order: a permutation of
/// the same labels does not pass.
pub fn compare_levels(a: &Vec<Vec<u8>>, b: &Vec<Vec<u8>>) -> (r: Result<(), LevelMismatch>)
    ensures
        match r {
            Ok(()) => views(a@) == views(b@),
            Err(LevelMismatch::Length) => a@.len() != b@.len(),
            Err(LevelMismatch::Entry { row }) => {
                &&& a@.len() == b@.len()
                &&& row < a@.len()
                &&& a@[row as int]@ != b@[row as int]@
                &&& forall|j: int| 0 <= j < row ==> (#[trigger] a@[j])@ == b@[j]@
            },
        },
{
    if a.len() != b.len() {
        return Err(LevelMismatch::Length);
    }
    let mut i: usize = 0;
    while i < a.len()
        invariant
            i <= a@.len(),
            a@.len() == b@.len(),
            forall|j: int| 0 <= j < i ==> (#[trigger] a@[j])@ == b@[j]@,
        decreases a.len() - i,
    {
        if !bytes_eq(&a[i], &b[i]) {
            return Err(LevelMismatch::Entry { row: i });
        }
        i += 1;
    }
    proof {
        assert(views(a@) =~= views(b@));
    }
    Ok(())
}

/// A fresh copy of a column name.
fn clone_name(name: &Vec<u8>) -> (r: Vec<u8>)
    ensures
        r@ == name@,
{
    name.clone()
}

fn none_codes(n: usize) -> (r: Vec<Option<u64>>)
    ensures
        r@ == Seq::new(n as nat, |i: int| None::<u64>),
{
    let mut out: Vec<Option<u64>> = Vec::new();
    let mut i: usize = 0;
    while i < n
        invariant
            i <= n,
            out@ =~= Seq::new(i as nat, |j: int| None::<u64>),
        decreases n - i,
    {
        out.push(None);
        proof {
            assert(out@ =~= Seq::new((i + 1) as nat, |j: int| None::<u64>));
        }
        i += 1;
    }
    out
}

fn none_numeric(n: usize) -> (r: Vec<Option<Fx>>)
    ensures
        r@ == Seq::new(n as nat, |i: int| None::<Fx>),
{
    let mut out: Vec<Option<Fx>> = Vec::new();
    let mut i: usize = 0;
    while i < n
        invariant
            i <= n,
            out@ =~= Seq::new(i as nat, |j: int| None::<Fx>),
        decreases n - i,
    {
        out.push(None);
        proof {
            assert(out@ =~= Seq::new((i + 1) as nat, |j: int| None::<Fx>));
        }
        i += 1;
    }
    out
}

/// A clean prefix up to a matching name pins the lookup index down.
proof fn lemma_col_index_found(cols: Seq<(Vec<u8>, MetaColumn)>, name: Seq<u8>, i: int)
    requires
        0 <= i < cols.len(),
        cols[i].0@ == name,
        forall|j: int| i < j < cols.len() ==> (#[trigger] cols[j]).0@ != name,
    ensures
        col_index_in(cols, name) == i,
    decreases cols.len(),
{
    if i == cols.len() - 1 {
    } else {
        assert(forall|j: int| 0 <= j < cols.len() - 1 ==> cols.drop_last()[j] == cols[j]);
        lemma_col_index_found(cols.drop_last(), name, i);
    }
}

proof fn lemma_col_index_absent(cols: Seq<(Vec<u8>, MetaColumn)>, name: Seq<u8>)
    requires
        forall|j: int| 0 <= j < cols.len() ==> (#[trigger] cols[j]).0@ != name,
    ensures
        col_index_in(cols, name) == -1,
    decreases cols.len(),
{
    if cols.len() > 0 {
        assert(forall|j: int| 0 <= j < cols.len() - 1 ==> cols.drop_last()[j] == cols[j]);
        lemma_col_index_absent(cols.drop_last(), name);
    }
}

} // verus!
