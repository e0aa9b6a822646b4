//! Drill core for a flashcard collection: spaced-repetition scheduling,
//! review-state storage, session building and the in-memory session runtime.
//!
//! The scheduler is pure; `now` is always passed in. The session freezes a
//! single `started_at` instant and uses it for every due comparison, so cards
//! do not appear or disappear mid-session.

pub mod builder;
pub mod codec;
pub mod config;
pub mod digest;
pub mod protocol;
pub mod scheduler;
pub mod session;
pub mod store;
pub mod types;
