//! Host-side driver for daisy-chained Lynxmotion smart servos.
//!
//! The servos speak an ASCII, carriage-return framed request/response
//! protocol. This crate turns commands into wire bytes, splits a possibly
//! fragmented byte stream back into reply frames, and extracts typed values
//! from those frames, over any byte transport.
use vstd::prelude::*;

pub mod wire;
pub mod command;
pub mod error;
pub mod response;
pub mod codec;
pub mod transport;
pub mod framed;
pub mod driver;

pub use command::LssCommand;
pub use driver::{LSSDriver, LedColor, DEFAULT_BAUD_RATE};
pub use error::{IoError, LssError, ProtocolError};
pub use framed::FramedDriver;
pub use response::LssResponse;
pub use transport::{ScriptedTransport, Transport};
