//! The MagicTile puzzle model: slice masks, puzzle state, twist history, saved-file formats,
//! group presentations and the other combinatorial parts of the puzzle, each with its contract.

pub mod cayley;
pub mod cayley_graph;
pub mod cell;
pub mod config;
pub mod controller;
pub mod draw;
pub mod geometry2d;
pub mod group_presentation;
pub mod library;
pub mod macros;
pub mod models;
pub mod near_tree;
pub mod netfmt;
pub mod nethash;
pub mod polygon;
pub mod puzzle;
pub mod scene;
pub mod slice_mask;
pub mod state;
pub mod text;
pub mod texture_helper;
pub mod topology;
pub mod twist;
pub mod twist_data;
pub mod util;
pub mod view;
pub mod xml;
