//! A sparse, infinite 2D grid of cells for constraint-propagating tile
//! generation. Each cell is either collapsed to a tile, holds a narrowed
//! superposition, or is still described by the shared base superposition.
pub mod bounding;
pub mod cell;
pub mod parity;
pub mod save;
pub mod shades;
pub mod tagged;
pub mod twolayer;
pub mod world;
