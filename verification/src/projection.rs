//! Named 3D coordinate tables aligned to the dataset's cells.
//!
//! A projection file is a tab-separated table with a header line; column 0
//! of each data row is the cell identity string and columns 1 to 3 are the
//! x, y, z coordinates. A row whose coordinates cannot all be read as
//! in-range numbers yields a missing point, which no proximity query ever
//! matches.

use vstd::prelude::*;
use crate::fixed::Fx;
use crate::text::{clean_lines, fields_of, first_index, fx_ok, fx_val, lines_of, parse_fx,
    split_fields, views, B_TAB};

verus! {

/// Largest coordinate magnitude, in raw millionths: keeps every squared
/// distance within `i128`.
pub const MAX_COORD: i64 = 1000000000000000000;

/// One 3D point.
#[derive(Clone, Copy, Debug, PartialEq, Eq, Structural)]
pub struct Coord3 {
    pub x: Fx,
    pub y: Fx,
    pub z: Fx,
}

pub open spec fn coord_ok(c: Coord3) -> bool {
    &&& -MAX_COORD <= c.x.raw <= MAX_COORD
    &&& -MAX_COORD <= c.y.raw <= MAX_COORD
    &&& -MAX_COORD <= c.z.raw <= MAX_COORD
}

/// A named projection's point table; entry `i` belongs to cell `i`.
#[derive(Debug)]
pub struct Projection {
    pub points: Vec<Option<Coord3>>,
}

impl Projection {
    pub open spec fn wf(self, n_cells: int) -> bool {
        &&& self.points@.len() == n_cells
        &&& forall|i: int|
            0 <= i < self.points@.len() && self.points@[i] is Some ==> coord_ok(
                (#[trigger] self.points@[i])->0,
            )
    }
}

/// A coordinate field read as an in-range fixed-point number.
pub open spec fn coord_from(f: Seq<u8>) -> Option<Fx> {
    if fx_ok(f) && -MAX_COORD <= fx_val(f) <= MAX_COORD {
        Some(Fx { raw: fx_val(f) as i64 })
    } else {
        None
    }
}

/// The identity string of a data row: its first field.
pub open spec fn row_id(l: Seq<u8>) -> Seq<u8> {
    fields_of(l)[0]
}

/// The point of a data row: present when the row has an identity plus three
/// readable in-range coordinates.
pub open spec fn row_point(l: Seq<u8>) -> Option<Coord3> {
    let fs = fields_of(l);
    if fs.len() >= 4 && coord_from(fs[1]) is Some && coord_from(fs[2]) is Some && coord_from(
        fs[3],
    ) is Some {
        Some(
            Coord3 {
                x: coord_from(fs[1])->0,
                y: coord_from(fs[2])->0,
                z: coord_from(fs[3])->0,
            },
        )
    } else {
        None
    }
}

pub open spec fn proj_header_ok(b: Seq<u8>) -> bool {
    clean_lines(b).len() >= 1 && fields_of(clean_lines(b)[0]).len() >= 4
}

pub open spec fn proj_ids(b: Seq<u8>) -> Seq<Seq<u8>> {
    clean_lines(b).skip(1).map_values(|l: Seq<u8>| row_id(l))
}

pub open spec fn proj_points(b: Seq<u8>) -> Seq<Option<Coord3>> {
    clean_lines(b).skip(1).map_values(|l: Seq<u8>| row_point(l))
}

/// Why a coordinate table is rejected before any alignment check.
#[derive(Clone, Copy, Debug, PartialEq, Eq, Structural)]
pub enum ProjParseError {
    /// The file holds no lines at all.
    Empty,
    /// The header names fewer than an identity plus three coordinate
    /// columns.
    InsufficientColumns,
}

/// Splitting at a separator always yields at least one piece.
pub proof fn lemma_split_len(b: Seq<u8>, sep: u8)
    ensures
        crate::text::split_on(b, sep).len() >= 1,
{
    crate::text::lemma_first_index(b, sep);
}

/// Parse a coordinate table into its identity column and its points.
pub fn parse_projection(b: &Vec<u8>) -> (r: Result<(Vec<Vec<u8>>, Vec<Option<Coord3>>), ProjParseError>)
    ensures
        match r {
            Ok(p) => {
                &&& proj_header_ok(b@)
                &&& views(p.0@) == proj_ids(b@)
                &&& p.1@ == proj_points(b@)
                &&& p.0@.len() == p.1@.len()
            },
            Err(ProjParseError::Empty) => clean_lines(b@).len() == 0,
            Err(ProjParseError::InsufficientColumns) => clean_lines(b@).len() >= 1
                && fields_of(clean_lines(b@)[0]).len() < 4,
        },
{
    let ls = lines_of(b);
    if ls.len() == 0 {
        return Err(ProjParseError::Empty);
    }
    proof {
        assert(views(ls@)[0] == ls@[0]@);
    }
    let header_fields = split_fields(&ls[0]);
    if header_fields.len() < 4 {
        return Err(ProjParseError::InsufficientColumns);
    }
    let mut ids: Vec<Vec<u8>> = Vec::new();
    let mut points: Vec<Option<Coord3>> = Vec::new();
    let mut i: usize = 1;
    proof {
        assert(views(ids@) =~= clean_lines(b@).skip(1).map_values(|l: Seq<u8>| row_id(l)).take(0));
        assert(points@ =~= clean_lines(b@).skip(1).map_values(|l: Seq<u8>| row_point(l)).take(0));
    }
    while i < ls.len()
        invariant
            1 <= i <= ls.len(),
            views(ls@) == clean_lines(b@),
            views(ids@) == clean_lines(b@).skip(1).map_values(|l: Seq<u8>| row_id(l)).take(i - 1),
            points@ == clean_lines(b@).skip(1).map_values(|l: Seq<u8>| row_point(l)).take(i - 1),
            ids@.len() == i - 1,
            points@.len() == i - 1,
        decreases ls.len() - i,
    {
        proof {
            assert(views(ls@)[i as int] == ls@[i as int]@);
        }
        let fs = split_fields(&ls[i]);
        proof {
            lemma_split_len(ls@[i as int]@, B_TAB);
            assert(views(fs@).len() >= 1);
            assert(views(fs@)[0] == fs@[0]@);
        }
        let id = fs[0].clone();
        let point: Option<Coord3> = if fs.len() >= 4 {
            proof {
                assert(views(fs@)[1] == fs@[1]@);
                assert(views(fs@)[2] == fs@[2]@);
                assert(views(fs@)[3] == fs@[3]@);
            }
            let x = parse_coord(&fs[1]);
            let y = parse_coord(&fs[2]);
            let z = parse_coord(&fs[3]);
            match (x, y, z) {
                (Some(x), Some(y), Some(z)) => Some(Coord3 { x, y, z }),
                _ => None,
            }
        } else {
            None
        };
        proof {
            let m_ids = clean_lines(b@).skip(1).map_values(|l: Seq<u8>| row_id(l));
            let m_pts = clean_lines(b@).skip(1).map_values(|l: Seq<u8>| row_point(l));
            assert(clean_lines(b@).skip(1)[i - 1] == clean_lines(b@)[i as int]);
            assert(id@ == row_id(ls@[i as int]@));
            assert(point == row_point(ls@[i as int]@));
            assert(views(ids@.push(id)) =~= views(ids@) + seq![id@]);
            assert(m_ids.take(i - 1).push(m_ids[i - 1]) =~= m_ids.take(i as int));
            assert(m_pts.take(i - 1).push(m_pts[i - 1]) =~= m_pts.take(i as int));
        }
        ids.push(id);
        points.push(point);
        i += 1;
    }
    proof {
        let m_ids = clean_lines(b@).skip(1).map_values(|l: Seq<u8>| row_id(l));
        let m_pts = clean_lines(b@).skip(1).map_values(|l: Seq<u8>| row_point(l));
        assert(m_ids.take(i - 1) =~= m_ids);
        assert(m_pts.take(i - 1) =~= m_pts);
    }
    Ok((ids, points))
}

/// Read one coordinate field; ill-formed or out-of-range fields are missing.
fn parse_coord(f: &Vec<u8>) -> (r: Option<Fx>)
    ensures
        r == coord_from(f@),
{
    match parse_fx(f) {
        Some(v) => {
            if -MAX_COORD <= v.raw && v.raw <= MAX_COORD {
                Some(v)
            } else {
                None
            }
        },
        None => None,
    }
}

} // verus!
