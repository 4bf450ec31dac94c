pub mod centrality;
pub mod components;
pub mod degree;
pub mod distance;
pub mod graph;
pub mod reach;
pub mod visit;
