//! # easycom
//!
//! The Easycom antenna rotator control protocol, supporting the Yaesu
//! GS-232A/B command set, Easycomm II, and Easycomm III: command and response
//! frames, incremental parsers for both directions, and a request/response
//! session over a byte transport.

pub mod ascii;
pub mod command;
pub mod error;
pub mod framing;
pub mod properties;
pub mod session;
pub mod transport;

pub use command::Command;
pub use command::DeviceStatus;
pub use command::Response;
pub use error::Error;
pub use framing::decode_command;
pub use framing::CommandParser;
pub use session::Session;
pub use transport::Transport;
