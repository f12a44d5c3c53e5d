pub mod aldous_broder;
pub mod generator;
pub mod kruskal;
pub mod prims;
pub mod recursive_backtracker;
