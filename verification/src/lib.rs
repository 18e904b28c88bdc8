//! A shared, append-only graph of architectural intents. Independent agents
//! publish what they decide; any agent can ask which published intents
//! overlap its own and what it should change before it goes on.
//!
//! The parts, leaves first: `text` and `matching` bring names, type
//! spellings, signatures and constraint targets into normal forms and
//! compare them; `stability` scores an intent by its evidence; `graph`,
//! `overlap` and `summary` keep the published intents with their secondary
//! index and answer queries; `resolve` weighs a candidate against what
//! overlaps it. `normal_forms`, `roundtrip` and `resolution_laws` state
//! what holds of these across calls.
//!
//! Stabilities are fixed-point numbers in millionths; points in time are
//! seconds and nanoseconds since the Unix epoch.

pub mod decimal;
pub mod graph;
pub mod labels;
pub mod matching;
pub mod models;
pub mod normal_forms;
pub mod overlap;
pub mod providers;
pub mod resolution_laws;
pub mod resolve;
pub mod roundtrip;
pub mod stability;
pub mod summary;
pub mod text;
