//! The decisions of an editor-integration server for the notation: which
//! diagnostic an error becomes, what the table of open documents holds after
//! each notification, and how requests are framed on a byte stream.
//!
//! Reading, writing and the wire protocol itself are left to the program
//! that embeds these functions.

pub mod server;
pub mod stdio_transport;
