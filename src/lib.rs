//! Perfect maze generation: a grid of cells with walls, carved by a
//! randomized depth-first search into a spanning tree, and drawn as text.

pub mod generator;
pub mod graph;
pub mod maze;
pub mod render;
