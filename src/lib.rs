//! Navigation and hostile-agent logic for a top-down stealth game on a tile grid.
//!
//! World positions are fixed-point integers: `UNITS_PER_PIXEL` units make one pixel.

pub mod tile;
pub mod path;
pub mod level;
pub mod bounds;
pub mod perception;
pub mod motion;
pub mod enemy;
pub mod boss;
pub mod population;
