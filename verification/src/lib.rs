//! Event-driven quantitative research engine.

pub mod arrange;
pub mod averages;
pub mod backtest;
pub mod binary64;
pub mod calendar;
pub mod cli;
pub mod data;
pub mod decimal;
pub mod engine;
pub mod events;
pub mod execution;
pub mod features;
pub mod fills;
pub mod fixed_capital;
pub mod live;
pub mod market;
pub mod ml;
pub mod ordered;
pub mod portfolio;
pub mod renderings;
pub mod report;
pub mod rounding;
pub mod rows;
pub mod statistics;
pub mod strategy;
pub mod text;
