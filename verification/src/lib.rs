//! Core of a small MQTT v5 broker for memory-constrained targets.
//!
//! The crate is organised around three subsystems:
//! - the frame codec (`codec`, `packets`, `varint`), which turns a byte
//!   stream into MQTT v5 control packets and back;
//! - the distributor (`distributor`, `topics_list`, `bitset`), a bounded
//!   pub/sub fabric shared by all connections;
//! - the connection driver (`connection`), the per-connection decision
//!   logic between inbound packets and outbound deliveries.
//!
//! A small client-side reader (`packet_reader`) sits beside the broker
//! core and shares its framing logic.
//!
//! All I/O stays outside this crate: callers feed bytes in and send the
//! returned bytes out.

pub mod bitset;
pub mod codec;
pub mod config;
pub mod connection;
pub mod distributor;
pub mod errors;
pub mod packet_reader;
pub mod packets;
pub mod topics_list;
pub mod varint;
