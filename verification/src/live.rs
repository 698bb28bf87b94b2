//! The live-inference adapter: market data in, target positions out.

pub mod account;
pub mod agreement;
pub mod command;
pub mod config;
pub mod ctpd;
pub mod feed;
pub mod json;
pub mod likeness;
pub mod linkit;
pub mod market_time;
pub mod model;
pub mod parity;
pub mod protocol;
pub mod publication;
pub mod readiness;
pub mod recovery;
pub mod restoring;
pub mod seed;
pub mod signals;
