//! An SNMPv2c client without its sockets: the codec for messages in the
//! Basic Encoding Rules, and the rules that tie a response to its request.
//!
//! - [`value`]: the values a variable binding can carry, and how each is
//!   encoded.
//! - [`length`], [`integer`], [`oid`], [`tlv`]: the encodings that values and
//!   messages are made of.
//! - [`message`]: the layout of a whole message.
//! - [`buf`], [`pdu`]: the send buffer and the builders of requests.
//! - [`decode`]: reading received bytes.
//! - [`session`]: request identifiers and the checks on a response.
//! - [`laws`]: what holds between encoding and decoding.
//!
//! Nothing here does input or output. A caller sends what a builder wrote,
//! and hands over what it received.

pub mod buf;
pub mod decode;
pub mod error;
pub mod integer;
pub mod laws;
pub mod length;
pub mod message;
pub mod oid;
pub mod pdu;
pub mod session;
pub mod tlv;
pub mod value;

pub use crate::buf::BUFFER_SIZE;
pub use crate::error::{SnmpError, SnmpResult};
pub use crate::message::{SnmpMessageType, SnmpPdu, VarBind};
pub use crate::value::Value;
