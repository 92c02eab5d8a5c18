//! BYOND map files in the TGM text format.
pub mod conversion;
pub mod grammar;
pub mod loader;
pub mod model;
pub mod numeric;
pub mod parsing;
pub mod tiles;
