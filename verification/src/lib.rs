pub mod cell;
pub mod dsu;
pub mod generators;
pub mod grid;
pub mod maze;
pub mod maze_pprint;
pub mod priority_queue;
pub mod progress;
pub mod queue;
mod random;
pub mod solvers;
pub mod stack;
