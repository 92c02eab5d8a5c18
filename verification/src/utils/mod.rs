pub mod order;
pub mod task;
pub mod text;
