//! A floor-field cellular-automaton model of pedestrian evacuation.
//!
//! The crate provides an obstacle grid with a set of named layouts, a
//! potential field giving each walkable cell its accumulated path cost to
//! the nearest exit, two agent movement policies, and a simulation engine
//! that advances the whole population one tick at a time while resolving
//! conflicts between agents that target the same cell.
//!
//! All quantities that the floor field works with are fixed-point numbers
//! in thousandths of a cell step, so an axis-aligned step costs 1000 and a
//! diagonal step costs 1414.

pub mod agent;
pub mod direction;
pub mod floor_field;
pub mod grid;
pub mod rng;
pub mod simulation;

pub use agent::Agent;
pub use simulation::SimError;
pub use simulation::Simulation;
pub use floor_field::FloorField;
pub use grid::CellType;
pub use grid::Grid;
pub use grid::ObstaclePattern;
