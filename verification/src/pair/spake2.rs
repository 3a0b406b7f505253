//! The parts of the key exchange that are plain data: which party a side is, what a run
//! can refuse, and the two identities the transcript binds.

use vstd::prelude::*;
use vstd::string::StringSliceAdditionalSpecFns;

verus! {

/// What went wrong in a run of the protocol. Nothing here carries peer input.
#[derive(Debug, Clone, Copy, PartialEq, Eq)]
pub enum Spake2Error {
    /// The peer's message is not a canonical encoding of a point in the prime-order
    /// subgroup's coset, or the shared point is the identity.
    InvalidMessage,
    /// The password scalar or a fresh secret reduced to zero — a one in 2²⁵² event that
    /// is refused rather than reasoned about.
    ZeroScalar,
}

impl Spake2Error {
    /// The message shown for this refusal.
    pub fn message(&self) -> (r: &'static str)
        ensures
            r@ == match self {
                Spake2Error::InvalidMessage => "cannot pair: the other side sent an invalid key-exchange message"@,
                Spake2Error::ZeroScalar => "cannot pair: a zero scalar was drawn; try again"@,
            },
    {
        match self {
            Spake2Error::InvalidMessage => "cannot pair: the other side sent an invalid key-exchange message",
            Spake2Error::ZeroScalar => "cannot pair: a zero scalar was drawn; try again",
        }
    }
}

/// Which party this side is: the client is `A`, the node `B`.
#[derive(Debug, Clone, Copy, PartialEq, Eq)]
pub enum Side {
    /// The device pairing: sends `pA`, verifies `cB`, then sends `cA`.
    A,
    /// The node: answers `pA` with `pB` and `cB`, then verifies `cA`.
    B,
}

/// The two identities the transcript binds: `"pv/1 device "` and `"pv/1 node "` followed
/// by the respective Ed25519 public key in base64.
#[derive(Debug, Clone, PartialEq, Eq)]
pub struct Identities {
    a: Vec<u8>,
    b: Vec<u8>,
}

/// The bytes of `"pv/1 device "`.
pub open spec fn device_tag() -> Seq<u8> {
    seq![112u8, 118u8, 47u8, 49u8, 32u8, 100u8, 101u8, 118u8, 105u8, 99u8, 101u8, 32u8]
}

/// The bytes of `"pv/1 node "`.
pub open spec fn node_tag() -> Seq<u8> {
    seq![112u8, 118u8, 47u8, 49u8, 32u8, 110u8, 111u8, 100u8, 101u8, 32u8]
}

impl View for Identities {
    type V = (Seq<u8>, Seq<u8>);

    closed spec fn view(&self) -> (Seq<u8>, Seq<u8>) {
        (self.a@, self.b@)
    }
}

fn push_bytes(out: &mut Vec<u8>, bytes: &[u8])
    ensures
        final(out)@ == old(out)@ + bytes@,
{
    let ghost start = out@;
    let mut i: usize = 0;
    while i < bytes.len()
        invariant
            i <= bytes@.len(),
            out@ == start + bytes@.take(i as int),
        decreases bytes.len() - i,
    {
        out.push(bytes[i]);
        assert(bytes@.take(i + 1) =~= bytes@.take(i as int).push(bytes@[i as int]));
        i = i + 1;
    }
    assert(bytes@.take(bytes@.len() as int) =~= bytes@);
}

impl Identities {
    /// Build the pair from the two base64 public keys as they travel on the wire.
    pub fn new(device_ed25519_base64: &str, node_ed25519_base64: &str) -> (r: Identities)
        ensures
            r@.0 == device_tag() + device_ed25519_base64.spec_bytes(),
            r@.1 == node_tag() + node_ed25519_base64.spec_bytes(),
    {
        let mut a: Vec<u8> = Vec::new();
        a.push(112);
        a.push(118);
        a.push(47);
        a.push(49);
        a.push(32);
        a.push(100);
        a.push(101);
        a.push(118);
        a.push(105);
        a.push(99);
        a.push(101);
        a.push(32);
        assert(a@ =~= device_tag());
        push_bytes(&mut a, device_ed25519_base64.as_bytes());
        let mut b: Vec<u8> = Vec::new();
        b.push(112);
        b.push(118);
        b.push(47);
        b.push(49);
        b.push(32);
        b.push(110);
        b.push(111);
        b.push(100);
        b.push(101);
        b.push(32);
        assert(b@ =~= node_tag());
        push_bytes(&mut b, node_ed25519_base64.as_bytes());
        Identities { a, b }
    }
}

} // verus!
