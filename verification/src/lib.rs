//! Direct construction of a Hamiltonian cycle on the discocube lattice graphs.
//!
//! The graph of order-index `n` has the lattice points with odd coordinates and
//! L1-norm at most `2n + 1` as vertices; two vertices are joined when they differ
//! by two along exactly one axis. The cycle is woven level by level from a single
//! inward spiral, mirrored across the mid-plane and merged into one tour:
//!
//! - `point`: lattice points, their model, norm and adjacency;
//! - `info`: the constants of a graph: order, radius, levels;
//! - `spin`: the spiral that covers a level;
//! - `color`: the two templates that the levels are cut from;
//! - `cut`: the fragment of a level, cut at the pins of the level below;
//! - `loom`: the threads, their extension, their pins and their mirror image;
//! - `edge`: the candidate edges and the bridge between two cycles;
//! - `merge`: the lead cycle and the merge of another cycle into it;
//! - `weave`: the whole construction;
//! - `certify`: the verdict on a finished tour;
//! - `grade`: counts of edges by axis and of straight runs.
//!
//! `weave::weave` returns the tour that `weave::weave_spec` describes, and
//! every tour that it returns is a Hamiltonian cycle of the graph. The proof
//! lives in `chains` (sequences of points), `levels` (the levels hold every
//! vertex once), `splice` (every pin is spliced away) and `woven` (the tour).
pub mod point;
pub mod info;
pub mod spin;
pub mod color;
pub mod cut;
pub mod loom;
pub mod edge;
pub mod merge;
pub mod weave;
pub mod certify;
pub mod grade;
pub mod chains;
pub mod levels;
pub mod splice;
pub mod woven;
