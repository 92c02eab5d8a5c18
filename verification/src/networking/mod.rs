pub mod controls;
pub mod grid;
pub mod identity;
pub mod messaging;
pub mod players;
pub mod registry;
pub mod role;
pub mod variable;
pub mod visibility;
pub mod spawning;
