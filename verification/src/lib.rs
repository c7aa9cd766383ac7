//! Aggregation and smoothing core for a live network-usage dashboard.
//!
//! Each sampling tick delivers a raw per-connection traffic snapshot and a
//! mapping from connections to their owning processes.  The library folds
//! that data into a fresh [`ui_state::UIState`]: per-process, per-remote-address
//! and per-connection bandwidth aggregates, plus global totals, with an
//! exponential-decay moving average carried from tick to tick so that the
//! displayed rates stay visually stable.
//!
//! All byte counters are 128-bit unsigned integers, so a single tick can
//! account for up to 2^128 - 1 bytes per counter — practically unbounded
//! for per-tick traffic.  A tick that would exceed that ceiling is
//! reported by [`ui_state::UIState::build`] returning `None` rather than
//! wrapping around.

pub mod laws;
pub mod model;
pub mod net;
pub mod ui_state;
