//! Computational core for interactive exploration of single-cell expression
//! datasets: a sparse count-matrix loader, per-cell metadata columns, 3D
//! projection stores with identity-alignment checks, proximity selection with
//! ordered session bookkeeping, pseudo-bulk aggregation, and cluster-level
//! rank-correlation statistics with a dendrogram leaf order.
//!
//! All numeric data is carried as exact decimal fixed-point values so that
//! every computation can be stated and proved precisely; the hosting layer
//! converts to and from its own floating-point representation at the boundary.

use vstd::prelude::*;

pub mod fixed;
pub mod sortutil;
pub mod text;
pub mod gz;
pub mod matrix;
pub mod meta;
pub mod projection;
pub mod store;
pub mod cluster;
pub mod color;

pub use cluster::{ClusterView, DenseMiniMatrix};
pub use color::CellUVec4;
pub use fixed::Fx;
pub use matrix::SparseMatrix;
pub use meta::MetaTable;
pub use projection::{Coord3, Projection};
pub use store::DataStore;

verus! {

} // verus!
