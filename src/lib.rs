//! The engine of a multi-channel CAN bus analyzer: frames and filters, a uniform back-end
//! interface with a virtual loopback, channels and their statistics, DBC and symbol-file
//! databases with a bit-exact signal decoder, and the CSV and TRC trace formats with a
//! logger and a player. Timestamps are held in microseconds and scalings as exact
//! decimals.
use vstd::prelude::*;

pub mod text;
pub mod message;
pub mod filter;
pub mod decimal;
pub mod dbc;
pub mod dbc_parser;
pub mod sym_parser;
pub mod trace_format;
pub mod trace_parse;
pub mod trace_player;
pub mod round_trip;
pub mod trace_logger;
pub mod hal;
pub mod pcan;
pub mod virtual_can;
pub mod bus_stats;
pub mod channel;
pub mod project;

verus! {

} // verus!
