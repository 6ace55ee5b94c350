//! Verified core of a driver for a row-multiplexed LED matrix.
//!
//! The crate decides which output line is to be driven to which level and
//! when to wait; it touches no hardware. A board layer performs the actions
//! it hands out, in order.
//!
//! - [`layout`]: where each cell of the 5x5 image sits in the drive matrix
//!   of a board.
//! - [`line`]: lines, levels, actions, and what actions do to the lines.
//! - [`scan`]: what a scan is, and what holds of the lines while it runs.
//! - [`gpio`]: the lines of a board and the writes requested of them.
//! - [`led`]: the scan driver.

pub mod gpio;
pub mod layout;
pub mod led;
pub mod line;
pub mod scan;
