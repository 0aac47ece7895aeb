//! Dots and Boxes on a 3×3 box grid: the edge model, chain and loop
//! discovery, a structural heuristic and an alpha-beta search agent.

pub mod tile;
pub mod board;
pub mod game;
pub mod agent;
pub mod structure;
