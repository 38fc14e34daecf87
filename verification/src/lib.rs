//! Core of a line-oriented multi-user chat service.
//!
//! The crate holds the parts of a chat server that decide things: how a byte
//! stream is cut into frames, who is registered under which name, what a line
//! of input means, and who receives what. It performs no I/O. A caller owns
//! the sockets, feeds the bytes it reads to a [`session::Session`], and writes
//! out the deliveries that come back.
//!
//! All text is handled as bytes. A client's outbound write handle is known to
//! the crate only by a number, its [`registry::SinkId`].

pub mod text;
pub mod codec;
pub mod registry;
pub mod message;
pub mod notice;
pub mod router;
pub mod session;
