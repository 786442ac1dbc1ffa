//! Core of a blight simulation: a double-buffered terrain grid that spreads
//! contamination by kernel dilation, a registry of placed structures backed by
//! a spatial index, and a pipe network that propagates power from water
//! sources to consumers.

mod dilate;
mod grid;
mod index;
mod pipe;
mod power;
mod registry;
mod session;
mod structure;
mod terrain;

pub use grid::{GridBuffer, Shape, BLIGHT, CLEAN, WIDTH, HEIGHT, CELL_COUNT};
pub use pipe::Pipe;
pub use structure::{Structure, StructureType, POS_LIMIT};
pub use registry::{StructureRegistry, STRUCTURE_HEALTH};
pub use session::{Session, TerrainMapping, BlightUpdated, AmountsUpdated, QueryResult, random_positions};
pub use power::{PipeNetwork, PowerState};
pub use terrain::{TerrainSim, simulate_step};
