//! Identifiers of the entities of the game world.
use vstd::prelude::*;

verus! {

/// An entity of the game world, by its number.
#[derive(Clone, Copy, PartialEq, Eq, Structural, Debug, Hash)]
pub struct Entity(pub u64);

} // verus!
