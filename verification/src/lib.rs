//! Cash-flow projection for an engine maintenance programme, and the search
//! for the hourly billing rate that brings the cumulative profit to a target.
//!
//! Every number is an IEEE 754 binary64 value held by its 64-bit encoding;
//! the arithmetic on these encodings is part of the verified code.

pub mod binary64;
pub mod params;
pub mod rounding;
pub mod nearest;
pub mod packing;
pub mod arith;
pub mod values;
pub mod errors;
pub mod projection;
pub mod schedule;
pub mod rate_order;
pub mod solver;
pub mod goal;
