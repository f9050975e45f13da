//! Watches auction listings for configured items and reports the cheapest matches.

pub mod auction;
pub mod items;
pub mod report;
pub mod text;
