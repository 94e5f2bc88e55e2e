//! Verified core of a long/flat momentum backtest: the daily trading signal,
//! exposure counting, and the `date,price` CSV format the prices come in.

pub mod price;
pub mod signal;

pub use price::price_above;
pub use signal::{days_long, momentum_positions, FLAT, LONG};
pub mod csv;

pub use csv::{first_read_error, parse_price_table, PriceRow, PriceTable, ReadError};
