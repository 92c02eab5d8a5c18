//! Items and the containers that store them.
pub mod containers;

use vstd::prelude::*;
use crate::maps::direction::UVec2;

verus! {

/// Something that can be picked up and stored, taking up `size` cells in a container.
pub struct Item {
    pub name: String,
    pub size: UVec2,
}

impl Default for Item {
    /// A one-cell item with a placeholder name.
    fn default() -> (r: Self)
        ensures
            r.name@ == "Default item name"@,
            r.size == (UVec2 { x: 1, y: 1 }),
    {
        Item { name: "Default item name".to_owned(), size: UVec2 { x: 1, y: 1 } }
    }
}

} // verus!
