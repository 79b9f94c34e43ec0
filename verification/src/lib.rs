//! Log sanitization engine for a public game-log archive server.
//!
//! The library holds the privacy-relevant logic: per-kind sanitization
//! strategies for raw round logs (game-log censoring, runtime-log scrubbing
//! and condensing), the filename dispatcher that picks a strategy, and the
//! ongoing-round guard that withholds logs of rounds still being written.
//! The surrounding process supplies raw text, directory entries and
//! liveness reports, and serves what comes back.
pub mod classify;
pub mod condense;
pub mod game;
pub mod guard;
pub mod ip_scrub;
pub mod listing;
pub mod runtimes;
pub mod text;
