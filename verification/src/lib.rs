//! Verified core of an LED-matrix audio visualiser: the framing protocol
//! spoken between client and server, the pixel grid, the MAX7219 chain
//! driver logic and the protocol state machines of both ends.

pub mod codec;
pub mod config;
pub mod grid;
pub mod matrix;
pub mod protocol;
pub mod session;
