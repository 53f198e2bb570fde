//! A binary-space-partition layout engine for tiling windows, and the screen
//! bookkeeping that feeds it a usable area.

pub mod balance;
pub mod bsplayout;
pub mod config;
pub mod utils;
pub mod window_set;
