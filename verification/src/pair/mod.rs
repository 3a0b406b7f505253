//! Pairing: the code and its renderings, the direction rule between two nodes, the
//! join URL, the QR rendering, and the refusals each step answers with.

use vstd::prelude::*;



pub mod code;
pub mod handshake;
pub mod join;
pub mod qr;
pub mod spake2;
pub mod window;

pub use window::{Pairing, PairingSnapshot};



verus! {

/// A code lives this many seconds; a window may be opened for less, never for more.
pub const TTL_SECS: u64 = 120;

/// Five attempts per code; the fifth failure destroys it and issues a new one.
pub const MAX_ATTEMPTS: u8 = 5;

/// One attempt per this many seconds per source.
pub const SOURCE_INTERVAL_SECS: u64 = 2;

/// Why the node refused a step of pairing. Each carries the WebSocket close code it is
/// answered with, and none carries anything the peer sent.
#[derive(Debug, Clone, Copy, PartialEq, Eq)]
pub enum PairError {
    /// No window is open.
    Closed,
    /// This source tried less than two seconds ago.
    RateLimited,
    /// The code's five attempts are spent; a new code is on the node's screen.
    Exhausted,
    /// The confirmation did not verify: the other side had a different code.
    WrongCode,
    /// A message was malformed, or the device ID did not derive from its key.
    Format,
    /// A node asked to be admitted, which this build does not do.
    NodeKind,
    /// The device's key is already registered; a key is never re-registered.
    DeviceKnown,
    /// A window was asked for outside one second to two minutes.
    Ttl,
    /// Two nodes that are both established members of clusters cannot pair.
    TwoClusters,
    /// Neither side can admit the other; the text says which re-admission is needed.
    NoAdmitter(&'static str),
    /// A signature over the transcript is missing, malformed or wrong.
    Signature,
    /// The admit message did not verify.
    Admit,
}

/// The close code each refusal is answered with.
pub open spec fn close_code_of(e: PairError) -> u16 {
    match e {
        PairError::Closed => 4404,
        PairError::RateLimited | PairError::Exhausted => 4429,
        PairError::WrongCode | PairError::Signature | PairError::Admit => 4401,
        PairError::Format | PairError::Ttl => 4400,
        PairError::NodeKind | PairError::DeviceKnown | PairError::TwoClusters
        | PairError::NoAdmitter(_) => 4403,
    }
}

impl PairError {
    /// The WebSocket close code for this refusal.
    pub fn close_code(&self) -> (r: u16)
        ensures
            r == close_code_of(*self),
    {
        match self {
            PairError::Closed => 4404,
            PairError::RateLimited | PairError::Exhausted => 4429,
            PairError::WrongCode | PairError::Signature | PairError::Admit => 4401,
            PairError::Format | PairError::Ttl => 4400,
            PairError::NodeKind | PairError::DeviceKnown | PairError::TwoClusters
            | PairError::NoAdmitter(_) => 4403,
        }
    }
}

/// Every refusal closes the socket with a code in the application range the protocol
/// reserves for pairing, `4400..=4429`.
pub proof fn lemma_close_codes_in_range(e: PairError)
    ensures
        4400 <= close_code_of(e) <= 4429,
{
}

} // verus!
