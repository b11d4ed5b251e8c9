//! Time-decayed vote aggregation for polling themes.
//!
//! Votes lose influence in steps as they age; the library turns a vote
//! history into the current share of each choice and into two look-back
//! series of such shares.

pub mod decay;
pub mod aggregate;
pub mod sampler;
pub mod pipeline;
