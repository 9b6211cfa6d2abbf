//! Per-hour, per-ticker volume-weighted average prices from an ITCH 5.0
//! message stream: message framing, trade decoding and exact aggregation.
pub mod bytes;
pub mod framing;
pub mod trade;
pub mod vwap;

pub use framing::{msg_size, next_record, Record, Truncated, TRADE_TAG};
pub use trade::{get_hour, parse_trade, write_trade_fields, Trade, NS_PER_HOUR};
pub use vwap::{trim_ticker, vwap_rows, VwapError, VwapRow, VwapTable};
