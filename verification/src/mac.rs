//! HMAC Verifier, RFC 5849 §3.4.2: the signing key is the consumer
//! secret followed by `&` (no token secret), the HMAC-SHA1 digest is
//! computed over the base string, and the digest is compared against the
//! base64-decoded signature from the request in constant time. The
//! digest itself comes from the hmac and sha1 crates; everything around
//! the call is verified.

use crate::LaunchError;
use vstd::prelude::*;

verus! {

/// The HMAC-SHA1 digest as a function of key and message. What the
/// digest is on given values is not stated anywhere: it stands for what
/// the hmac crate computes.
pub uninterp spec fn hmac_sha1(key: Seq<u8>, msg: Seq<u8>) -> Seq<u8>;

/// Relies on `Hmac<Sha1>` of the hmac crate over the sha1 crate: the
/// digest depends on key and message alone, and a SHA-1 digest is 20
/// bytes. HMAC accepts keys of any length, so `new_from_slice` cannot
/// fail here.
#[verifier::external_body]
fn hmac_sha1_digest(key: &[u8], msg: &[u8]) -> (r: Vec<u8>)
    ensures
        r@ == hmac_sha1(key@, msg@),
        r@.len() == 20,
{
    let mut mac = <hmac::Hmac<sha1::Sha1> as hmac::Mac>::new_from_slice(key).unwrap();
    hmac::Mac::update(&mut mac, msg);
    hmac::Mac::finalize(mac).into_bytes().to_vec()
}

/// What base64 decoding yields of an input: bytes exactly when the
/// input is valid base64.
pub uninterp spec fn base64_decoded(s: Seq<u8>) -> Option<Seq<u8>>;

/// Relies on `base64::decode` (standard alphabet, with padding): the
/// outcome is a function of the input alone, and invalid base64 is
/// refused rather than decoded.
#[verifier::external_body]
pub(crate) fn decode_base64(s: &[u8]) -> (r: Option<Vec<u8>>)
    ensures
        r is Some <==> base64_decoded(s@) is Some,
        r matches Some(v) ==> base64_decoded(s@) == Some(v@),
{
    match base64::decode(s) {
        Ok(v) => Some(v),
        Err(_) => None,
    }
}

/// Byte-string equality accumulated over every position, with no early
/// exit: on equal lengths, the running time does not depend on where the
/// inputs first differ.
pub fn constant_time_eq(a: &[u8], b: &[u8]) -> (r: bool)
    ensures
        r == (a@ == b@),
{
    if a.len() != b.len() {
        return false;
    }
    let n = a.len();
    let mut acc: u8 = 0;
    for i in 0..n
        invariant
            n == a@.len() == b@.len(),
            (acc == 0) <==> (forall|k: int| 0 <= k < i ==> a@[k] == b@[k]),
    {
        let ai = a[i];
        let bi = b[i];
        let ghost acc0 = acc;
        acc = acc | (ai ^ bi);
        proof {
            assert((acc0 | (ai ^ bi)) == 0 <==> acc0 == 0 && ai == bi) by (bit_vector);
        }
    }
    if acc == 0 {
        proof {
            assert(a@ =~= b@);
        }
        true
    } else {
        false
    }
}

/// The signing key: the shared consumer secret with `&` appended, the
/// consumer-secret-only form taken when no token secret is in play.
pub open spec fn signing_key(secret: Seq<u8>) -> Seq<u8> {
    secret + seq![0x26u8]
}

/// Verify already-decoded signature bytes against the HMAC-SHA1 digest
/// of the base string under the key derived from the shared secret.
/// Accepts exactly when the digest equals the signature; the comparison
/// is constant-time.
pub fn verify_signature(base_string: &[u8], signature: &[u8], secret: &[u8]) -> (r: Result<
    (),
    LaunchError,
>)
    ensures
        r is Ok <==> signature@ == hmac_sha1(signing_key(secret@), base_string@),
        r matches Err(e) ==> e == LaunchError::SignatureMismatch,
{
    let mut key: Vec<u8> = Vec::new();
    let n = secret.len();
    for i in 0..n
        invariant
            n == secret@.len(),
            key@ =~= secret@.take(i as int),
    {
        key.push(secret[i]);
    }
    key.push(0x26);
    proof {
        assert(secret@.take(n as int) =~= secret@);
        assert(key@ =~= signing_key(secret@));
    }
    let digest = hmac_sha1_digest(key.as_slice(), base_string);
    if constant_time_eq(digest.as_slice(), signature) {
        Ok(())
    } else {
        Err(LaunchError::SignatureMismatch)
    }
}

/// A signature accepted for a base string and secret is the only one:
/// altering the accepted signature in any way makes verification reject
/// it.
pub proof fn lemma_signature_tamper(base: Seq<u8>, secret: Seq<u8>, good: Seq<u8>, bad: Seq<u8>)
    requires
        good == hmac_sha1(signing_key(secret), base),
        bad != good,
    ensures
        bad != hmac_sha1(signing_key(secret), base),
{
}

} // verus!
