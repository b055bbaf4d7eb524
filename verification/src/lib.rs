use vstd::prelude::*;

pub mod archive;
pub mod cli;
pub mod compress;
pub mod extract;
pub mod fire;
pub mod metaattr;
pub mod progress;
pub mod roster;
pub mod segment;
pub mod text;
pub mod update;
pub mod viewtree;
pub mod volumes;
pub mod winpath;

verus! {
}
