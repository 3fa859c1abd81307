//! Domain decomposition for stencil computations on a periodic square grid.
//!
//! A fixed set of cooperating processes each own one tile of the grid. This
//! crate holds the rules they all follow: how the process count is split into
//! a process grid, which tile and which neighbours a rank has, what is packed
//! and unpacked in a halo exchange, how a kernel is applied to a tile, how
//! gathered tiles are put back into global order, and the turn-taking
//! protocol that serialises per-rank text at one coordinating process. The
//! message passing itself is left to the caller: every function here maps
//! plain values to plain values, and where processes have to talk to each
//! other it says which transfer is to be made next and takes what the
//! transfer has brought.
//!
//! - [`dims`]: the split of a process count into a process grid.
//! - [`grid`]: the decomposition as one process holds it.
//! - [`tile`]: filling a tile.
//! - [`halo`]: the halo exchange.
//! - [`stencil`]: applying a kernel.
//! - [`gather`]: gathering and reordering.
//! - [`ring`]: the same for a line of cells.
//! - [`stdout`]: rank-ordered output.
//! - [`text`]: the text of dumps.
//! - [`report`]: what the coordinator holds after a dump of all tiles.
//! - [`error`]: the error classes.

pub mod dims;
pub mod error;
pub mod gather;
pub mod grid;
pub mod halo;
pub mod report;
pub mod ring;
pub mod stencil;
pub mod stdout;
pub mod text;
pub mod tile;

pub use crate::dims::compute_dims;
pub use crate::dims::mpi_dims_create;
pub use crate::grid::MPIinfo;
