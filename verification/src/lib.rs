//! Market indicators over one-minute trade history.
//!
//! Real quantities are held by their [`order::Key`], so that every comparison a
//! rule makes is a comparison of integers. Instants are microseconds since the
//! Unix epoch.

pub mod absorption;
pub mod avwap;
pub mod bootstrap;
pub mod clock;
pub mod cvd;
pub mod depth;
pub mod divergence;
pub mod events;
pub mod exhaustion;
pub mod funding;
pub mod grouping;
pub mod history;
pub mod incremental;
pub mod initiation;
pub mod json;
pub mod kline;
pub mod liquidation;
pub mod order;
pub mod outbox;
pub mod packing;
pub mod pivots;
pub mod positioning;
pub mod publisher;
pub mod pulse;
pub mod ranking;
pub mod relay;
pub mod rolling;
pub mod rvwap;
pub mod text;
pub mod tpo;
pub mod windows;
