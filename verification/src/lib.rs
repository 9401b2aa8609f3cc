//! A directory-tree visualizer: builds a tree of directories and files from a
//! captured directory listing, honouring a depth limit, a directories-only
//! mode and exclude patterns, and renders it with box-drawing connectors.

pub mod node;
pub mod render;
pub mod pattern;
pub mod listing;
pub mod order;
pub mod exclusion;
pub mod printer;
pub mod laws;
