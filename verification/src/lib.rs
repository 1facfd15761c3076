//! Map layout for a text game's room graph: reading each exit's compass
//! bearing, judging whether a component's bearings can all hold, grid
//! geometry, and the store of hand-made corrections with its export.

pub mod text;
pub mod split;
pub mod model;
pub mod direction;
pub mod keyed;
pub mod overrides;
pub mod geometry;
pub mod labels;
pub mod regions;
pub mod group;
pub mod export;
pub mod paths;
pub mod satisfiable;
pub mod derived;
pub mod classifier;
pub mod areas;
pub mod positioner;
pub mod packer;
pub mod packing;
pub mod shelf;
pub mod inspect;
pub mod pipeline;
