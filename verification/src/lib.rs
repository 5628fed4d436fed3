//! Game logic of a colony-building game on a tiled asteroid: generational entity sets,
//! chunked tile maps, conveyor networks, inventories, buildings and path finding.
#![allow(unused_imports)]

pub mod building;
pub mod building_tick;
pub mod construction;
pub mod conveyor;
pub mod conveyor_plan;
pub mod crew;
pub mod crew_cabin;
pub mod direction;
pub mod entity;
pub mod game;
pub mod global_task;
pub mod hash;
pub mod heap;
pub mod inventory;
pub mod items;
pub mod orders;
pub mod power;
pub mod push_pull;
pub mod restore;
pub mod rng;
pub mod task;
pub mod task_steps;
pub mod tile;
pub mod transport;

use vstd::prelude::*;

verus! {

/// A position on the tile grid: `[x, y]`.
pub type Pos = [i32; 2];

/// Width of the initial asteroid area in tiles.
pub const WIDTH: usize = 100;

/// Height of the initial asteroid area in tiles.
pub const HEIGHT: usize = 100;

} // verus!

