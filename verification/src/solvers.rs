pub mod astar;
pub mod bfs_solver;
pub mod dfs_solver;
pub mod dijkstra;
pub mod search;
pub mod solver;
