//! A small catalogue of named TCP port sets, with a parser for port
//! specifications, a positionally indexed record store and a sequential
//! reachability scan driven one connection attempt at a time.
pub mod ports;
pub mod store;
pub mod scan;
