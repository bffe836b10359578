//! A client for a line protocol that sets the address of a host name at a
//! dynamic-DNS service.
//!
//! A command is a frame of tokens, one to a line, closed by a line with a
//! single `.`; the response is a frame whose first line opens with a status
//! code. An update reads the server's greeting, logs in, points a host name
//! at an IPv4 address and logs out, and logs out as well where the server
//! refuses a step.
//!
//! Nothing here touches a socket. [`Command`] stands for a session with the
//! server, and what it does is told in steps ([`Steps`]). [`Client`] is one
//! side of a connection held in memory, for whoever owns the socket to feed
//! and to drain; of it every step is known exactly.

pub mod address;
pub mod client;
pub mod command;
pub mod error;
pub mod frame;
pub mod information;
pub mod input;
pub mod response;
pub mod steps;
pub mod text;

pub use address::{AddrParseError, Ipv4Address, ToIpAddrs};
pub use client::Client;
pub use command::{classify, Command, CommandModip, CommandModipExt};
pub use error::{CallError, TransportError};
pub use frame::encode_frame;
pub use information::Information;
pub use input::{parse_line, requested_address, KEY};
pub use response::{res_verify, ResponseError};
pub use steps::Steps;
