//! Global constants of the game.
use vstd::prelude::*;

verus! {

/// Number of players (countries); index 0 is the neutral placeholder.
pub const MAX_PLAYER: usize = 8;

/// Neutral player id.
pub const NEUTRAL_ID: u8 = 0;

/// Unit classes; only citizens exist.
pub const MAX_CLASS: usize = 1;

/// Maximum map width.
pub const MAX_WIDTH: usize = 40;

/// Maximum map height.
pub const MAX_HEIGHT: usize = 29;

/// Number of neighbours of a hex tile.
pub const DIRECTIONS: usize = 6;

/// Population cap per (tile, player).
pub const MAX_POP: i32 = 499;

/// Size of the ring buffer of timeline samples.
pub const MAX_TIMELINE_MARK: usize = 72;

/// Power of an individual flag when placed.
pub const FLAG_POWER: i32 = 8;

/// Price of upgrading grassland to a village.
pub const PRICE_VILLAGE: i64 = 160;

/// Price of upgrading a village to a town.
pub const PRICE_TOWN: i64 = 240;

/// Price of upgrading a town to a castle.
pub const PRICE_CASTLE: i64 = 320;

/// Sentinel meaning "no inequality constraint".
pub const RANDOM_INEQUALITY: i32 = -1;

/// Maximum number of starting locations supported by any stencil.
pub const MAX_AVLBL_LOC: usize = 7;

/// Escape key code.
pub const ESCAPE: u8 = 0x1B;

/// Arrow-up key code.
pub const K_UP: u8 = 65;

/// Arrow-down key code.
pub const K_DOWN: u8 = 66;

/// Arrow-right key code.
pub const K_RIGHT: u8 = 67;

/// Arrow-left key code.
pub const K_LEFT: u8 = 68;

} // verus!
