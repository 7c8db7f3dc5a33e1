//! Verified core of the TokenBar usage lenses: number formatting, the
//! contribution-graph week grid, activity streaks, the hour-of-day fold and
//! the ranked list rows that the GTK front end renders.

pub mod text;
pub mod format;
pub mod binary64;
pub mod tray;
pub mod payload;
pub mod calendar;
pub mod grid;
pub mod stats;
pub mod hourly;
pub mod ranking;
pub mod rows;
pub mod cache;
