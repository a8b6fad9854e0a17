pub mod paths;
pub mod target;
pub mod cache;
pub mod graph;
pub mod scheduler;
pub mod deps;
