//! Closure-graph exploration core: the dependency graph model, rankings,
//! root paths, the filtered render graph, highlight sets and the quadtree
//! structure used by the layout simulation.

pub mod graph;
pub mod rank;
pub mod paths;
pub mod text;
pub mod collect;
pub mod render;
pub mod highlight;
pub mod quadtree;
pub mod lod;
pub mod search;
