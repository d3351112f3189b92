//! The discrete layer of a simulated world's physics: deterministic random streams, the
//! topology of the grids the solvers march on (which samples exist, where they sit in their
//! arrays, which are held and what a boundary touches), the catalog of glasses by name, the
//! quadrant shift and bit-reversed order of a spectrum, and a scheduler's decisions.

use vstd::prelude::*;

pub mod acoustic;
pub mod axis;
pub mod block;
pub mod cavity;
pub mod grid;
pub mod material;
pub mod rng;
pub mod scene;
pub mod sim;
pub mod transform;
pub mod waves;

pub use acoustic::{Hall, Room};
pub use axis::Axis;
pub use block::{Block, Face};
pub use cavity::{Boundary, Cavity, Component, Wall};
pub use material::Glass;
pub use rng::Rng;
pub use scene::{check_face_count, FaceCountMismatch};
pub use sim::{after_pass, first_unrestorable, start_coupling, substeps, Coupling, Kind, Schedule};
pub use transform::{bit_reverse_order, fftshift};
pub use waves::Waves;
