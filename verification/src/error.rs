use vstd::prelude::*;

verus! {

/// Everything that can go wrong while decoding agent protocol bytes.
/// All decode errors are fatal for the current decode; the proxy that
/// uses this library forwards the raw bytes regardless. Transport
/// failures are not decode errors and stay with the caller's I/O layer.
#[derive(Clone, Copy, Debug, PartialEq, Eq, Structural)]
pub enum Error {
    /// The cursor held fewer bytes than the decoder required.
    InsufficientData,
    /// A text string was not valid UTF-8.
    InvalidUtf8,
    /// A top-level decode finished with bytes still unread.
    TrailingData,
    /// An ed25519 public key whose length is not exactly 32 bytes.
    InvalidKeyLength,
    /// A message tag or key algorithm outside the known set, reported
    /// only by the strict decoders; the lenient decoders produce an
    /// `Unknown` variant instead.
    UnknownVariant,
}

} // verus!
