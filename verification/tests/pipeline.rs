use lti_launch::base_string::build_base_string;
use lti_launch::encode::percent_encode;
use lti_launch::launch;
use lti_launch::params::normalize;
use lti_launch::LaunchError;

use hmac::Mac;

fn reference_signature_b64(secret: &str, base: &[u8]) -> String {
    let key = format!("{}&", secret);
    let mut mac = hmac::Hmac::<sha1::Sha1>::new_from_slice(key.as_bytes()).unwrap();
    mac.update(base);
    base64::encode(mac.finalize().into_bytes())
}

/// The parameter string of a body that carries no signature yet: a dummy
/// signature is appended so that normalization has one to strip.
fn param_string_of(body_without_sig: &str) -> Vec<u8> {
    let with_dummy = format!("{}&oauth_signature=x", body_without_sig);
    let parsed = lti_launch::form::parse_body(with_dummy.as_bytes()).unwrap();
    normalize(parsed).unwrap().param_string
}

/// Sign a body for the given URL parts and return the complete body,
/// signature appended.
fn signed_body(
    body: &str,
    method: &[u8],
    proto: Option<&[u8]>,
    host: &[u8],
    path: &[u8],
    secret: &str,
) -> String {
    let ps = param_string_of(body);
    let base = build_base_string(method, proto, Some(host), path, &ps).unwrap();
    let sig = reference_signature_b64(secret, &base);
    let escaped = percent_encode(sig.as_bytes());
    format!("{}&oauth_signature={}", body, String::from_utf8(escaped).unwrap())
}

const BODY: &str = "oauth_consumer_key=key&oauth_nonce=abc&oauth_timestamp=100&lis_person_name_full=Ada+Lovelace";

#[test]
fn base_string_is_reproducible() {
    let ps = param_string_of(BODY);
    let one = build_base_string(b"POST", Some(b"https"), Some(b"example.org"), b"/lti", &ps);
    let two = build_base_string(b"POST", Some(b"https"), Some(b"example.org"), b"/lti", &ps);
    assert_eq!(one.unwrap(), two.unwrap());
}

#[test]
fn base_string_has_the_documented_shape() {
    let base = build_base_string(b"post", None, Some(b"h.example"), b"/a/b?q=1", b"a=1&b=2")
        .unwrap();
    assert_eq!(
        base,
        b"POST&http%3A%2F%2Fh.example%2Fa%2Fb%3Fq%3D1&a%3D1%26b%3D2".to_vec()
    );
}

#[test]
fn base_string_needs_a_host() {
    let r = build_base_string(b"POST", None, None, b"/lti", b"a=1");
    assert_eq!(r.err(), Some(LaunchError::MissingHostHeader));
}

#[test]
fn launch_accepts_a_correctly_signed_request() {
    let body = signed_body(BODY, b"POST", Some(b"https"), b"example.org", b"/lti", "shh");
    let session = launch(
        b"POST",
        Some(b"https"),
        Some(b"example.org"),
        b"/lti",
        body.as_bytes(),
        b"shh",
    )
    .unwrap();
    assert_eq!(session.display_name, "Ada Lovelace");
    assert_eq!(session.visit_count, 0);
}

#[test]
fn launch_accepts_the_same_parameters_in_any_order() {
    let body = signed_body(BODY, b"POST", None, b"example.org", b"/lti", "shh");
    // split off the signature pair and move it to the front
    let (rest, sig) = body.rsplit_once('&').unwrap();
    let reordered = format!("{}&{}", sig, rest);
    let session = launch(
        b"POST",
        None,
        Some(b"example.org"),
        b"/lti",
        reordered.as_bytes(),
        b"shh",
    )
    .unwrap();
    assert_eq!(session.display_name, "Ada Lovelace");
}

#[test]
fn launch_rejects_a_tampered_parameter() {
    let body = signed_body(BODY, b"POST", None, b"example.org", b"/lti", "shh");
    let tampered = body.replace("oauth_nonce=abc", "oauth_nonce=abd");
    assert_ne!(body, tampered);
    let r = launch(b"POST", None, Some(b"example.org"), b"/lti", tampered.as_bytes(), b"shh");
    assert_eq!(r.err(), Some(LaunchError::SignatureMismatch));
}

#[test]
fn launch_rejects_the_wrong_secret() {
    let body = signed_body(BODY, b"POST", None, b"example.org", b"/lti", "shh");
    let r = launch(b"POST", None, Some(b"example.org"), b"/lti", body.as_bytes(), b"sh_");
    assert_eq!(r.err(), Some(LaunchError::SignatureMismatch));
}

#[test]
fn launch_is_sensitive_to_the_forwarded_proto() {
    // signed as plain http: acceptable without the header, rejected with it
    let body = signed_body(BODY, b"POST", None, b"example.org", b"/lti", "shh");
    assert!(launch(b"POST", None, Some(b"example.org"), b"/lti", body.as_bytes(), b"shh").is_ok());
    let r = launch(
        b"POST",
        Some(b"https"),
        Some(b"example.org"),
        b"/lti",
        body.as_bytes(),
        b"shh",
    );
    assert_eq!(r.err(), Some(LaunchError::SignatureMismatch));
}

#[test]
fn launch_reports_a_missing_host() {
    let body = signed_body(BODY, b"POST", None, b"example.org", b"/lti", "shh");
    let r = launch(b"POST", None, None, b"/lti", body.as_bytes(), b"shh");
    assert_eq!(r.err(), Some(LaunchError::MissingHostHeader));
}

#[test]
fn launch_reports_a_missing_signature() {
    let r = launch(b"POST", None, Some(b"example.org"), b"/lti", BODY.as_bytes(), b"shh");
    assert_eq!(r.err(), Some(LaunchError::MissingSignature));
}

#[test]
fn launch_reports_a_malformed_signature() {
    let body = format!("{}&oauth_signature=%21%21", BODY);
    let r = launch(b"POST", None, Some(b"example.org"), b"/lti", body.as_bytes(), b"shh");
    assert_eq!(r.err(), Some(LaunchError::MalformedSignature));
}

#[test]
fn launch_reports_a_malformed_body() {
    let r = launch(b"POST", None, Some(b"example.org"), b"/lti", b"a=%ff", b"shh");
    assert_eq!(r.err(), Some(LaunchError::MalformedBody));
}

#[test]
fn launch_reports_a_missing_display_name() {
    let body_no_name = "oauth_consumer_key=key&oauth_nonce=abc&oauth_timestamp=100";
    let body = signed_body(body_no_name, b"POST", None, b"example.org", b"/lti", "shh");
    let r = launch(b"POST", None, Some(b"example.org"), b"/lti", body.as_bytes(), b"shh");
    assert_eq!(r.err(), Some(LaunchError::MissingRequiredAttribute));
}
