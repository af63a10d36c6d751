//! A line-delimited wire codec for a market-data feed that carries bid/ask
//! price ticks and keep-alive signals over a byte stream: framing, message
//! classification, tick field encoding and the two textual date encodings
//! the protocol uses.

pub mod ascii;
pub mod bid_ask_data;
pub mod bid_ask_tcp_model;
pub mod bid_ask_tcp_serializer;
pub mod date_utils;
pub mod float_text;

pub use ascii::ascii_to_string;
pub use ascii::utf8_to_string;
pub use bid_ask_data::{BidAskDataTcpModel, BidAskView, SerializeError};
pub use bid_ask_tcp_model::{BidAskMessageView, BidAskTcpMessage};
pub use bid_ask_tcp_serializer::{BidAskTcpSerializer, TcpFeedSerializerFactory};
pub use date_utils::{
    parse_fix_date, parse_number, parse_tcp_feed_date, to_fix_date_string, write_date,
    DateParseError, Timestamp,
};
pub use float_text::check_float_token;
