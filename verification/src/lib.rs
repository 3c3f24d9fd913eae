//! A verified implementation of the RFC 4251 wire codec and the OpenSSH
//! agent message model built on top of it: length-prefixed framing,
//! primitive encodings (byte, boolean, uint32, uint64, string, mpint),
//! tagged agent messages, canonical key re-encoding for fingerprints,
//! and the per-session observation state of a transparent agent proxy.

pub mod bytes;
pub mod error;
pub mod fingerprint;
pub mod frame;
pub mod laws;
pub mod message;
pub mod mpint;
pub mod pack;
pub mod read;
pub mod session;
pub mod unpack;

pub use error::Error;
pub use message::{Identity, IdentityView, KeyBlob, KeyBlobView, Message, MessageView};
pub use mpint::Mpint;
pub use pack::{Pack, Packer};
pub use read::{Data, Reader};
pub use session::{Session, SessionEvent, SessionState, SignInfo};
pub use unpack::{Unpack, Unpacker};
