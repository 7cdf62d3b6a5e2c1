//! Verification of OAuth 1.0 signed launch requests (RFC 5849 §3.4.1,
//! HMAC-SHA1 variant), as sent by an external learning platform.
//!
//! The pipeline normalizes an HTTP request into OAuth1 canonical form,
//! reconstructs the signature base string, compares the HMAC-SHA1 digest
//! against the signature supplied with the request, and on success
//! establishes a session for the launching user.

use vstd::prelude::*;

pub mod base_string;
pub mod encode;
pub mod form;
pub mod params;
pub mod mac;
pub mod session;

verus! {

/// The request-scoped failure kinds of a launch verification attempt.
/// Every kind is an expected, non-fatal outcome; callers are expected to
/// collapse all of them into one authorization-denied response.
#[derive(Clone, Copy, Debug, PartialEq, Eq, Structural)]
pub enum LaunchError {
    /// The request body is not valid UTF-8 once form-decoded.
    MalformedBody,
    /// No `oauth_signature` parameter is present in the body.
    MissingSignature,
    /// The `oauth_signature` value is not valid base64.
    MalformedSignature,
    /// The request carries no `Host` header.
    MissingHostHeader,
    /// The computed HMAC-SHA1 digest differs from the supplied signature.
    SignatureMismatch,
    /// Verification succeeded but a required launch attribute is absent.
    MissingRequiredAttribute,
}

/// The outcome a launch attempt owes for given inputs: the display-name
/// bytes on success, else the failure kind, with the checks made in
/// pipeline order — body decoding, signature presence, `Host` presence,
/// base64 decoding, digest comparison, attribute extraction.
pub open spec fn launch_outcome(
    method: Seq<u8>,
    proto: Option<Seq<u8>>,
    host: Option<Seq<u8>>,
    path: Seq<u8>,
    body: Seq<u8>,
    secret: Seq<u8>,
) -> Result<Seq<u8>, LaunchError> {
    if !form::body_well_formed(body) {
        Err(LaunchError::MalformedBody)
    } else {
        let raw = form::body_pairs(body);
        match params::extracted_signature(raw) {
            None => Err(LaunchError::MissingSignature),
            Some(sig_b64) => match host {
                None => Err(LaunchError::MissingHostHeader),
                Some(h) => {
                    let bs = base_string::base_string_of(
                        method,
                        proto,
                        h,
                        path,
                        params::normalized_string(raw),
                    );
                    match mac::base64_decoded(sig_b64) {
                        None => Err(LaunchError::MalformedSignature),
                        Some(sig) => if sig != mac::hmac_sha1(mac::signing_key(secret), bs) {
                            Err(LaunchError::SignatureMismatch)
                        } else {
                            match session::lookup(params::normalized_pairs(raw), session::name_key()) {
                                None => Err(LaunchError::MissingRequiredAttribute),
                                Some(nm) => Ok(nm),
                            }
                        },
                    }
                },
            },
        }
    }
}

/// Run a whole verification attempt: decode the body, normalize the
/// parameters, rebuild the base string, check the signature, and
/// establish the session. The result is exactly what `launch_outcome`
/// names for these inputs: the session on success, with the extracted
/// display name and a zeroed counter, else the failure kind.
pub fn launch(
    method: &[u8],
    forwarded_proto: Option<&[u8]>,
    host: Option<&[u8]>,
    path_and_query: &[u8],
    body: &[u8],
    secret: &[u8],
) -> (r: Result<session::Session, LaunchError>)
    ensures
        ({
            let o = launch_outcome(
                method@,
                base_string::opt_view(forwarded_proto),
                base_string::opt_view(host),
                path_and_query@,
                body@,
                secret@,
            );
            match r {
                Ok(s) => o matches Ok(nm) && s.display_name@ == vstd::utf8::decode_utf8(nm)
                    && s.visit_count == 0,
                Err(e) => o == Err::<Seq<u8>, LaunchError>(e),
            }
        }),
{
    let ghost raw = form::body_pairs(body@);
    let pairs = match form::parse_body(body) {
        Ok(p) => p,
        Err(e) => {
            return Err(e);
        },
    };
    let normalized = match params::normalize(pairs) {
        Ok(nm) => nm,
        Err(e) => {
            return Err(e);
        },
    };
    let base = match base_string::build_base_string(
        method,
        forwarded_proto,
        host,
        path_and_query,
        normalized.param_string.as_slice(),
    ) {
        Ok(b) => b,
        Err(e) => {
            return Err(e);
        },
    };
    let signature = match mac::decode_base64(normalized.signature.as_slice()) {
        Some(v) => v,
        None => {
            return Err(LaunchError::MalformedSignature);
        },
    };
    match mac::verify_signature(base.as_slice(), signature.as_slice(), secret) {
        Ok(()) => (),
        Err(e) => {
            return Err(e);
        },
    }
    proof {
        params::lemma_normalized_pairs_utf8(raw);
    }
    match session::establish(&normalized.pairs) {
        Ok(s) => Ok(s),
        Err(e) => Err(e),
    }
}

} // verus!
