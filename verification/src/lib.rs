//! The logic of a multiplayer station game: text accents, map files and tile maps,
//! the bookkeeping of networked state, items, jobs and chat.
use vstd::prelude::*;

pub mod accents;
pub mod chars;
pub mod tgm;
pub mod utils;
pub mod networking;
pub mod maps;
pub mod entity;
pub mod keyed;
pub mod config;
pub mod items;
pub mod job;
pub mod communication;
pub mod body;
