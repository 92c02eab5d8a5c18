pub mod adjacency;
pub mod direction;
pub mod tilemap;
