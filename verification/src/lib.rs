//! Verified core of a "most-reacted messages" leaderboard over a chat
//! export: fixed-offset timezone resolution, timezone-aware date
//! normalization, year filtering, reaction aggregation, stable ranking,
//! and deep-link rendering.

pub mod dates;
pub mod numparse;
pub mod timezone;
pub mod process;
pub mod rank;
pub mod render;
pub mod pipeline;
