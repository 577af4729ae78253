//! Client-side library for the MessagePack-RPC dialect spoken by Neovim
//! over a bidirectional byte stream.
//!
//! The crate verifies the two hard parts of such a client:
//! the wire codec (frames to and from bytes, with a proved round trip)
//! and the multiplexer state machine (identifier assignment, response
//! correlation, failure fan-out).  The asynchronous shell that owns the
//! actual stream lives outside the library and drives these functions.

use vstd::prelude::*;

pub mod codec;
pub mod convert;
pub mod handler;
pub mod model;
pub mod requester;
pub mod value;

verus! {

/// Discriminant of a request frame on the wire.
pub const REQUEST_TYPE: u64 = 0;

/// Discriminant of a response frame on the wire.
pub const RESPONSE_TYPE: u64 = 1;

/// Discriminant of a notification frame on the wire.
pub const NOTIFICATION_TYPE: u64 = 2;

} // verus!

pub use codec::{DecodeError, EncodeError};
pub use convert::{FromVal, IntoVal};
pub use handler::DefaultHandler;
pub use model::{decode, encode, RpcMessage};
pub use requester::{find_sender, Dispatch, Requester};
pub use value::Value;
