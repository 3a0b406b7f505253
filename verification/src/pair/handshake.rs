//! The messages of the pairing socket as plain data, the direction rule between two
//! nodes, the check of a signature over the key-exchange transcript, and the node's
//! first message.

use vstd::prelude::*;
use base64::Engine as _;
use super::PairError;
use crate::text::{chars_of, push_str, string_of, utf8_len, utf8_len_capped};
use crate::json::{json_quoted, json_string};

verus! {

/// The `kind` a node declares when it is the client.
pub const KIND_NODE: &'static str = "node";

/// A node's own state at admission, carried in its sealed message so the two sides
/// decide the direction by one rule.
#[derive(Debug, Clone, Copy, PartialEq, Eq)]
pub struct Flags {
    /// Disposable: paired nothing and admitted nobody since it entered its cluster.
    pub disposable: bool,
    /// Its own certificate has expired.
    pub expired: bool,
}

/// Which side admits the other.
#[derive(Debug, Clone, Copy, PartialEq, Eq)]
pub enum Direction {
    /// The node whose owner opened the window admits the dialer.
    NodeAdmits,
    /// The dialer admits the node whose window it answered.
    ClientAdmits,
}

pub open spec fn both_expired_text() -> &'static str {
    "both certificates have expired; re-admit each from an established member of its cluster"
}

pub open spec fn fresh_admitter_text() -> &'static str {
    "an expired node is re-admitted by an established member of its cluster, not by a fresh node"
}

/// The direction rule, from the two sides' flags.
pub open spec fn direction_spec(node: Flags, client: Flags) -> Result<Direction, PairError> {
    if node.expired && client.expired {
        Err(PairError::NoAdmitter(both_expired_text()))
    } else if node.expired {
        if client.disposable {
            Err(PairError::NoAdmitter(fresh_admitter_text()))
        } else {
            Ok(Direction::ClientAdmits)
        }
    } else if client.expired {
        if node.disposable {
            Err(PairError::NoAdmitter(fresh_admitter_text()))
        } else {
            Ok(Direction::NodeAdmits)
        }
    } else if client.disposable {
        Ok(Direction::NodeAdmits)
    } else if node.disposable {
        Ok(Direction::ClientAdmits)
    } else {
        Err(PairError::TwoClusters)
    }
}

/// The direction rule between the node whose window was answered and the node that
/// dialed it. Pure, and the same function on both sides, which is what keeps them from
/// each waiting for the other's `admit`.
pub fn direction(node: Flags, client: Flags) -> (r: Result<Direction, PairError>)
    ensures
        r == direction_spec(node, client),
{
    if node.expired && client.expired {
        Err(PairError::NoAdmitter(
            "both certificates have expired; re-admit each from an established member of its cluster",
        ))
    } else if node.expired {
        if client.disposable {
            Err(PairError::NoAdmitter(
                "an expired node is re-admitted by an established member of its cluster, not by a fresh node",
            ))
        } else {
            Ok(Direction::ClientAdmits)
        }
    } else if client.expired {
        if node.disposable {
            Err(PairError::NoAdmitter(
                "an expired node is re-admitted by an established member of its cluster, not by a fresh node",
            ))
        } else {
            Ok(Direction::NodeAdmits)
        }
    } else if client.disposable {
        Ok(Direction::NodeAdmits)
    } else if node.disposable {
        Ok(Direction::ClientAdmits)
    } else {
        Err(PairError::TwoClusters)
    }
}

/// An expired side never admits, and is admitted only by a side that is neither expired
/// nor disposable; two established members of clusters are refused, and a disposable
/// dialer whose certificate is current joins the node whose window it answered.
pub proof fn lemma_direction_rule(node: Flags, client: Flags)
    ensures
        direction_spec(node, client) == Ok::<Direction, PairError>(Direction::NodeAdmits) ==> !node.expired
            && !node.disposable || (!client.expired && client.disposable && !node.expired),
        direction_spec(node, client) == Ok::<Direction, PairError>(Direction::ClientAdmits) ==> !client.expired
            && (!client.disposable || !node.expired),
        node.expired ==> direction_spec(node, client) != Ok::<Direction, PairError>(
            Direction::NodeAdmits,
        ),
        client.expired ==> direction_spec(node, client) != Ok::<Direction, PairError>(
            Direction::ClientAdmits,
        ),
        node.expired && direction_spec(node, client) is Ok ==> !client.expired && !client.disposable,
        client.expired && direction_spec(node, client) is Ok ==> !node.expired && !node.disposable,
        !node.expired && !client.expired && !node.disposable && !client.disposable
            ==> direction_spec(node, client) == Err::<Direction, PairError>(PairError::TwoClusters),
        !node.expired && !client.expired && client.disposable ==> direction_spec(node, client)
            == Ok::<Direction, PairError>(Direction::NodeAdmits),
{
}

/// The node's first message: its version, ID, Ed25519 key and whether pairing is open.
#[derive(Debug, Clone, PartialEq, Eq)]
pub struct NodeHello {
    /// Protocol major; only 1 is accepted.
    pub v: u32,
    /// Node ID.
    pub id: String,
    /// The node's Ed25519 public key, standard padded base64 (`pub` on the wire).
    pub public: String,
    /// Whether a window is open. `false` is followed by close code 4404.
    pub open: bool,
}

/// The client's first message: its identity, its kind and `pA`.
#[derive(Debug, Clone, PartialEq, Eq)]
pub struct ClientStart {
    /// Protocol major; only 1 is accepted.
    pub v: u32,
    /// Device ID, which must derive from `pub`.
    pub dev: String,
    /// The device's Ed25519 public key, standard padded base64 (`pub` on the wire).
    pub public: String,
    /// `browser`, `desktop`, `mobile` or `node`.
    pub kind: String,
    /// `pA`, base64.
    pub pa: String,
}

/// The node's answer to `pA`.
#[derive(Debug, Clone, PartialEq, Eq)]
pub struct NodeReply {
    /// `pB`, base64.
    pub pb: String,
    /// `cB`, base64.
    pub cb: String,
}

/// The client's confirmation.
#[derive(Debug, Clone, PartialEq, Eq)]
pub struct ClientConfirm {
    /// `cA`, base64.
    pub ca: String,
}

/// The node's sealed message: what a device pins. The last four fields exist for a node
/// as the client alone and are absent for every other kind.
#[derive(Debug, Clone, PartialEq, Eq)]
pub struct NodeSealed {
    /// The node's X25519 static public key, base64.
    pub x25519: String,
    /// The node's certificate, base64.
    pub cert: String,
    /// The cluster ID.
    pub cluster_id: String,
    /// The cluster public key, base64 — what the device pins.
    pub cluster_pub: String,
    /// The node's Ed25519 signature over the key-exchange transcript, base64.
    pub sig: Option<String>,
    /// Whether the node is disposable.
    pub disposable: Option<bool>,
    /// Whether the node's certificate has expired.
    pub expired: Option<bool>,
    /// The node's display name, for the row the client writes when it admits.
    pub label: Option<String>,
}

/// The client's sealed message: its X25519 key and what the devices page shows. The
/// last three fields are a node's alone.
#[derive(Debug, Clone, PartialEq, Eq)]
pub struct ClientSealed {
    /// The device's X25519 public key, base64.
    pub x25519: String,
    /// A suggested label, e.g. the device's model name.
    pub label: Option<String>,
    /// The browser's user agent, for browsers.
    pub ua: Option<String>,
    /// The client's Ed25519 signature over the key-exchange transcript, base64.
    pub sig: Option<String>,
    /// Whether the client node is disposable.
    pub disposable: Option<bool>,
    /// Whether the client node's certificate has expired.
    pub expired: Option<bool>,
}

/// The admitter's message: the one place the cluster private key crosses a network.
#[derive(Clone, PartialEq, Eq)]
pub struct Admit {
    /// The 32-byte Ed25519 seed of the cluster key, base64.
    pub cluster_key: String,
    /// The joiner's certificate, base64.
    pub cert: String,
    /// The instant the admitter records as the joiner's `paired_at`.
    pub paired_at: String,
    /// The admitter's `_sys` Lamport counter, which the joiner folds.
    pub lam: u64,
}

/// The joiner's answer, sent once it has adopted the cluster.
#[derive(Debug, Clone, Copy, PartialEq, Eq)]
pub struct Joined {
    /// Always `true`; a joiner that could not adopt closes instead.
    pub joined: bool,
}

/// What standard padded base64 decodes `text` to, or `None` where it is not such an
/// encoding.
pub uninterp spec fn base64_decoded(text: Seq<char>) -> Option<Seq<u8>>;

/// The standard padded base64 encoding of `bytes`.
pub uninterp spec fn base64_encoded(bytes: Seq<u8>) -> Seq<char>;

/// Whether `sig` is a valid strict Ed25519 signature of `msg` under the public key whose
/// compressed encoding is `public` (a key that does not decompress accepts nothing).
pub uninterp spec fn ed25519_accepts(public: Seq<u8>, msg: Seq<u8>, sig: Seq<u8>) -> bool;

/// `base64::engine::general_purpose::STANDARD.decode`: the bytes `text` encodes, or
/// `None` where the crate refuses it. What it accepts is named, not restated.
#[verifier::external_body]
fn base64_decode(text: &str) -> (r: Option<Vec<u8>>)
    ensures
        match r {
            Some(v) => base64_decoded(text@) == Some(v@),
            None => base64_decoded(text@) is None,
        },
{
    base64::engine::general_purpose::STANDARD.decode(text).ok()
}

/// `base64::engine::general_purpose::STANDARD.encode`: the padded encoding of `bytes`.
#[verifier::external_body]
fn base64_encode(bytes: &[u8]) -> (r: String)
    ensures
        r@ == base64_encoded(bytes@),
{
    base64::engine::general_purpose::STANDARD.encode(bytes)
}

/// `ed25519_dalek::VerifyingKey::from_bytes` followed by `verify_strict`: whether `sig`
/// verifies over `msg` under `public`. A key that does not decompress is `false`, as a
/// signature that does not verify is.
#[verifier::external_body]
fn ed25519_verify_strict(public: &[u8], msg: &[u8], sig: &[u8]) -> (r: bool)
    requires
        public@.len() == 32,
        sig@.len() == 64,
    ensures
        r == ed25519_accepts(public@, msg@, sig@),
{
    let key: [u8; 32] = public.try_into().unwrap_or([0u8; 32]);
    let sig: [u8; 64] = sig.try_into().unwrap_or([0u8; 64]);
    match ed25519_dalek::VerifyingKey::from_bytes(&key) {
        Ok(key) => key.verify_strict(msg, &ed25519_dalek::Signature::from_bytes(&sig)).is_ok(),
        Err(_) => false,
    }
}

/// 32 bytes of standard padded base64, and only that encoding of them.
pub open spec fn decode32_spec(text: Seq<char>) -> Result<Seq<u8>, PairError> {
    if utf8_len(text) != 44 {
        Err(PairError::Format)
    } else {
        match base64_decoded(text) {
            None => Err(PairError::Format),
            Some(b) => if base64_encoded(b) != text || b.len() != 32 {
                Err(PairError::Format)
            } else {
                Ok(b)
            },
        }
    }
}

/// 32 bytes of standard padded base64, and only that encoding of them.
pub fn decode32(text: &str) -> (r: Result<Vec<u8>, PairError>)
    ensures
        match r {
            Ok(v) => decode32_spec(text@) == Ok::<Seq<u8>, PairError>(v@),
            Err(e) => decode32_spec(text@) == Err::<Seq<u8>, PairError>(e),
        },
{
    let chars = chars_of(text);
    if utf8_len_capped(chars.as_slice(), 45) != 44 {
        return Err(PairError::Format);
    }
    match base64_decode(text) {
        None => Err(PairError::Format),
        Some(bytes) => {
            let again = base64_encode(bytes.as_slice());
            let again_chars = chars_of(again.as_str());
            if !crate::text::same_chars(again_chars.as_slice(), chars.as_slice())
                || bytes.len() != 32 {
                Err(PairError::Format)
            } else {
                Ok(bytes)
            }
        },
    }
}

/// Whether the other side's signature over the transcript verifies against the key it
/// named: missing, malformed, by another key or over other bytes is a refusal.
pub open spec fn verify_signature_spec(
    public_b64: Seq<char>,
    transcript: Seq<u8>,
    sig: Option<Seq<char>>,
) -> Result<(), PairError> {
    match sig {
        None => Err(PairError::Signature),
        Some(s) => if utf8_len(s) != 88 {
            Err(PairError::Signature)
        } else {
            match base64_decoded(s) {
                None => Err(PairError::Signature),
                Some(b) => if b.len() != 64 {
                    Err(PairError::Signature)
                } else {
                    match decode32_spec(public_b64) {
                        Err(e) => Err(e),
                        Ok(p) => if ed25519_accepts(p, transcript, b) {
                            Ok(())
                        } else {
                            Err(PairError::Signature)
                        },
                    }
                },
            }
        },
    }
}

/// Verify the other side's signature over the transcript against the key it named:
/// missing, malformed, by another key or over other bytes is [`PairError::Signature`];
/// a named key that is not 32 bytes of canonical base64 is [`PairError::Format`].
pub fn verify_signature(public_b64: &str, transcript: &[u8], sig: Option<&str>) -> (r: Result<
    (),
    PairError,
>)
    ensures
        r == verify_signature_spec(public_b64@, transcript@, match sig {
            Some(s) => Some(s@),
            None => None,
        }),
{
    let sig = match sig {
        None => return Err(PairError::Signature),
        Some(s) => s,
    };
    let sig_chars = chars_of(sig);
    if utf8_len_capped(sig_chars.as_slice(), 89) != 88 {
        return Err(PairError::Signature);
    }
    let bytes = match base64_decode(sig) {
        None => return Err(PairError::Signature),
        Some(b) => b,
    };
    if bytes.len() != 64 {
        return Err(PairError::Signature);
    }
    let public = match decode32(public_b64) {
        Err(e) => return Err(e),
        Ok(p) => p,
    };
    if ed25519_verify_strict(public.as_slice(), transcript, bytes.as_slice()) {
        Ok(())
    } else {
        Err(PairError::Signature)
    }
}

/// The text of the node's first message for the node `id` with the Ed25519 key
/// `public`: `{"v":1,"id":…,"pub":…,"open":…}`.
pub open spec fn node_hello_text(id: Seq<char>, public: Seq<char>, open: bool) -> Seq<char> {
    "{\"v\":1,\"id\":"@ + json_string(id) + ",\"pub\":"@ + json_string(public) + ",\"open\":"@
        + (if open { "true"@ } else { "false"@ }) + "}"@
}

/// The node's first text frame, for the node `id` with the Ed25519 key `public` and the
/// window state given.
pub fn node_hello(id: &str, public: &str, open: bool) -> (r: String)
    ensures
        r@ == node_hello_text(id@, public@, open),
{
    let mut out: Vec<char> = Vec::new();
    push_str(&mut out, "{\"v\":1,\"id\":");
    let q = json_quoted(id);
    push_str(&mut out, q.as_str());
    push_str(&mut out, ",\"pub\":");
    let q = json_quoted(public);
    push_str(&mut out, q.as_str());
    push_str(&mut out, ",\"open\":");
    if open {
        push_str(&mut out, "true");
    } else {
        push_str(&mut out, "false");
    }
    push_str(&mut out, "}");
    string_of(out.as_slice())
}

} // verus!
