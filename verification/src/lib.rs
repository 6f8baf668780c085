//! A line-oriented ping counter service, written without any socket in it.
//!
//! Clients send newline-delimited text. A line equal to `ping` increments a
//! counter shared by the whole service and is answered with the new count in
//! decimal; every other line is ignored. The crate holds the logic of such a
//! service: the framing of lines over a byte stream, the state machine of one
//! connection, and the multiplexer that advances every connection in turn.
//! The driver that owns the sockets performs the non-blocking reads and
//! writes and hands their outcomes to the multiplexer.

pub mod codec;
pub mod connection;
pub mod error;
pub mod frame;
pub mod history;
pub mod line;
pub mod multiplexer;
pub mod service;
