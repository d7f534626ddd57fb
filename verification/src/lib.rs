//! Chooses the cheapest hours for charging an electric vehicle from a list of
//! priced intervals, and groups the chosen hours into charging sessions.
//!
//! All quantities are integers. Prices are counted in a fixed smallest unit
//! chosen by the caller, instants in nanoseconds since the Unix epoch.

pub mod charge;
pub mod fetcher;
pub mod parser;
pub mod plan;
pub mod prices;
pub mod sessions;
