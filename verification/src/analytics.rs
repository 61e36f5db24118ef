//! Identity anonymization: a one-way transform of a raw client identity
//! (such as a forwarded network address) into a stable pseudonymous token.
//!
//! The token is the SHA-256 digest of the identity, rendered in standard
//! base64. Determinism is what lets distinct requests from the same client
//! resolve to the same visitor record without ever storing the identity.

use base64::Engine;
use sha2::Digest;
use vstd::prelude::*;

verus! {

/// One captured visit, ready to be recorded: the anonymized identity token,
/// the requested path, and the time of the request in epoch milliseconds.
pub struct AnalyticsRequest {
    pub hashed_ip: String,
    pub path: String,
    pub created_at_milis: i64,
}

/// The SHA-256 digest of a byte sequence. The digest is a pure function of
/// its input, so it is given a name here rather than a definition; nothing
/// in this crate depends on which bytes the digest actually holds.
pub uninterp spec fn sha256_of(bytes: Seq<u8>) -> Seq<u8>;

/// The standard base64 rendering (with padding) of a byte sequence; a pure
/// function of its input, named rather than defined.
pub uninterp spec fn base64_of(bytes: Seq<u8>) -> Seq<char>;

/// Relies on sha2::Sha256 (update, then finalize): the digest is a function
/// of the input bytes alone, and is always 32 bytes long.
#[verifier::external_body]
fn sha256_digest(body: &[u8]) -> (digest: Vec<u8>)
    ensures
        digest@ == sha256_of(body@),
        digest@.len() == 32,
{
    let mut hasher = sha2::Sha256::new();
    hasher.update(body);
    hasher.finalize().to_vec()
}

/// Relies on base64::prelude::BASE64_STANDARD.encode: the rendering is a
/// function of the input bytes alone, four characters for every three bytes
/// of input (rounded up, with `=` padding).
#[verifier::external_body]
fn base64_encode(bytes: &Vec<u8>) -> (text: String)
    ensures
        text@ == base64_of(bytes@),
        text@.len() == 4 * ((bytes@.len() + 2) / 3),
{
    base64::prelude::BASE64_STANDARD.encode(bytes)
}

/// Generates a SHA-256 digest of the provided buffer, encoded in base64.
///
/// This is the anonymizer: it is total (any byte string, including the
/// empty one), deterministic, and its result never exposes a reversible
/// form of the input.
pub fn sha256_hash(body: &[u8]) -> (token: String)
    ensures
        token@ == token_of(body@),
        token@.len() == 44,
{
    let digest = sha256_digest(body);
    base64_encode(&digest)
}

/// The identity token a raw identity anonymizes to: the base64 rendering of
/// its SHA-256 digest. A pure function of the identity's bytes — the same
/// client always resolves to the same token.
pub open spec fn token_of(identity: Seq<u8>) -> Seq<char> {
    base64_of(sha256_of(identity))
}

/// The capture decision around one handled request: record the visit only
/// when the trusted forwarding header was present and the response
/// succeeded; in that case anonymize the forwarded address and stamp the
/// event. Absence of the header is not an error — the visit simply goes
/// unrecorded — and nothing here touches the response itself.
pub fn capture_event(real_ip: Option<String>, success: bool, path: String, now: i64) -> (r: Option<
    AnalyticsRequest,
>)
    ensures
        r is Some <==> (real_ip is Some && success),
        r matches Some(req) ==> real_ip matches Some(ip) && req.hashed_ip@ == token_of(
            vstd::utf8::encode_utf8(ip@),
        ) && req.path@ == path@ && req.created_at_milis == now,
{
    if !success {
        return None;
    }
    match real_ip {
        Some(ip) => {
            let hashed_ip = sha256_hash(ip.as_str().as_bytes());
            Some(AnalyticsRequest { hashed_ip, path, created_at_milis: now })
        },
        None => None,
    }
}

} // verus!
