use vstd::prelude::*;

pub mod geometry;
pub mod tiling;
pub mod snap;
pub mod ssd;
pub mod pose;
pub mod placement;
pub mod keymap;
pub mod text;
pub mod config;
pub mod counters;
pub mod outputs;
pub mod switcher;
pub mod windows;
pub mod pointer;
pub mod wallpaper;
pub mod timing;
pub mod query;
pub mod close_pending;
pub mod trust;
pub mod pacing;
pub mod cards;
pub mod icons;
pub mod states;
pub mod unique;

verus! {

} // verus!
