//! Funding-rate research for perpetual swaps: scanning, alerting, backtesting.

pub mod account_laws;
pub mod accuracy;
pub mod alerts;
pub mod arithmetic;
pub mod backtest;
pub mod binary64;
pub mod dates;
pub mod decimal;
pub mod deviation_laws;
pub mod figure_laws;
pub mod funding_laws;
pub mod grouping;
pub mod history;
pub mod market_laws;
pub mod messages;
pub mod metrics;
pub mod monitor;
pub mod monotony;
pub mod order;
pub mod ranking_laws;
pub mod report;
pub mod result_laws;
pub mod rounding;
pub mod rule_laws;
pub mod scan;
pub mod signals;
pub mod simulation;
pub mod stats;
pub mod summary;
pub mod sweep;
pub mod text_laws;
pub mod tier;
pub mod time_laws;
pub mod trading_laws;
pub mod util;
pub mod watch;
