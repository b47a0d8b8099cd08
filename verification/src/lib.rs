//! Fetching a user's most played beatmaps page by page, within a request
//! limit and with retries, and summing the plays up by beatmap set.
//!
//! The library decides and computes; sending requests, sleeping and printing
//! are left to the caller.
pub mod cli;
pub mod fetch;
pub mod limiter;
pub mod model;
pub mod most_played;
pub mod pages;
pub mod utils;
