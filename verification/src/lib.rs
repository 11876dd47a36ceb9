//! Dice rolls written in the compact `NdM` notation: parsing and rendering the
//! notation, sampling the dice, and formatting what was rolled.

pub mod decimal;
pub mod engine;
pub mod notation;
pub mod output;
pub mod shares;
pub mod text;
