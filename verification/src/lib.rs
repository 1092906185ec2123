//! Input translation, menu navigation and scene/menu loading rules of the
//! walk-and-talk game template, as verified plain-data logic.
//!
//! Engine values are held as plain data: entities as their 64-bit ids,
//! keys, buttons and axes as numeric codes, times and durations in whole
//! microseconds, and analog axis positions in millionths of full deflection.
pub mod inputs;
pub mod menu;
pub mod scenes;
