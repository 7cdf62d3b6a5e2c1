use lti_launch::encode::percent_encode;
use lti_launch::form::parse_body;
use lti_launch::mac::constant_time_eq;
use lti_launch::mac::verify_signature;
use lti_launch::params::normalize;
use lti_launch::params::sort_pairs;
use lti_launch::session::establish;
use lti_launch::session::increment;
use lti_launch::session::Session;
use lti_launch::LaunchError;

use hmac::Mac;

fn pairs(raw: &[(&str, &str)]) -> Vec<(Vec<u8>, Vec<u8>)> {
    raw.iter().map(|(k, v)| (k.as_bytes().to_vec(), v.as_bytes().to_vec())).collect()
}

#[test]
fn encode_leaves_unreserved_untouched() {
    let input = b"AZaz09-._~";
    assert_eq!(percent_encode(input), input.to_vec());
}

#[test]
fn encode_escapes_reserved_as_uppercase_hex() {
    assert_eq!(percent_encode(b" "), b"%20".to_vec());
    assert_eq!(percent_encode(b"!*'()"), b"%21%2A%27%28%29".to_vec());
    assert_eq!(percent_encode(b"a&b=c"), b"a%26b%3Dc".to_vec());
    // multi-byte UTF-8: every byte of the encoding is escaped
    assert_eq!(percent_encode("\u{e9}".as_bytes()), b"%C3%A9".to_vec());
    assert_eq!(percent_encode("\u{20ac}".as_bytes()), b"%E2%82%AC".to_vec());
}

#[test]
fn encode_does_not_double_encode() {
    let once = percent_encode(b"a b");
    let twice = percent_encode(&once);
    assert_eq!(once, b"a%20b".to_vec());
    assert_eq!(twice, b"a%2520b".to_vec());
    assert_ne!(once, twice);
}

#[test]
fn encode_matches_percent_encoding_crate() {
    const SET: &percent_encoding::AsciiSet = &percent_encoding::NON_ALPHANUMERIC
        .remove(b'-')
        .remove(b'.')
        .remove(b'_')
        .remove(b'~');
    for s in ["", "plain", "a b&c=d", "Ada Lovelace", "100%", "~/.profile", "\u{e9}\u{20ac}x"] {
        let expected = percent_encoding::utf8_percent_encode(s, SET).to_string();
        assert_eq!(percent_encode(s.as_bytes()), expected.as_bytes().to_vec());
    }
}

#[test]
fn parse_body_splits_pairs() {
    let ps = parse_body(b"a=1&b=2").unwrap();
    assert_eq!(ps, pairs(&[("a", "1"), ("b", "2")]));
}

#[test]
fn parse_body_skips_empty_segments() {
    let ps = parse_body(b"&&a=1&").unwrap();
    assert_eq!(ps, pairs(&[("a", "1")]));
}

#[test]
fn parse_body_without_equals_has_empty_value() {
    let ps = parse_body(b"flag").unwrap();
    assert_eq!(ps, pairs(&[("flag", "")]));
}

#[test]
fn parse_body_decodes_plus_and_percent() {
    let ps = parse_body(b"x=1+2%41&y=%7e").unwrap();
    assert_eq!(ps, pairs(&[("x", "1 2A"), ("y", "~")]));
}

#[test]
fn parse_body_keeps_bad_escape_literal() {
    let ps = parse_body(b"x=%zz&y=%2").unwrap();
    assert_eq!(ps, pairs(&[("x", "%zz"), ("y", "%2")]));
}

#[test]
fn parse_body_rejects_invalid_utf8() {
    assert_eq!(parse_body(b"x=%FF"), Err(LaunchError::MalformedBody));
}

#[test]
fn parse_body_matches_form_urlencoded_crate() {
    for body in ["a=1&b=2", "&&a=1&", "flag", "x=1+2%41&y=%7e", "k%20ey=v%26alue"] {
        let expected: Vec<(Vec<u8>, Vec<u8>)> = form_urlencoded::parse(body.as_bytes())
            .into_owned()
            .map(|(k, v)| (k.into_bytes(), v.into_bytes()))
            .collect();
        assert_eq!(parse_body(body.as_bytes()).unwrap(), expected);
    }
}

#[test]
fn sort_orders_by_key_then_value() {
    let sorted = sort_pairs(pairs(&[("b", "2"), ("a", "9"), ("a", "1"), ("b", "10")]));
    assert_eq!(sorted, pairs(&[("a", "1"), ("a", "9"), ("b", "10"), ("b", "2")]));
}

#[test]
fn normalize_extracts_and_removes_signature() {
    let nm = normalize(pairs(&[
        ("oauth_signature", "c2ln"),
        ("z", "last"),
        ("a", "first"),
    ]))
    .unwrap();
    assert_eq!(nm.signature, b"c2ln".to_vec());
    assert_eq!(nm.pairs, pairs(&[("a", "first"), ("z", "last")]));
    assert_eq!(nm.param_string, b"a=first&z=last".to_vec());
}

#[test]
fn normalize_encodes_keys_and_values() {
    let nm = normalize(pairs(&[("oauth_signature", "x"), ("na me", "Ada Lovelace&co")])).unwrap();
    assert_eq!(nm.param_string, b"na%20me=Ada%20Lovelace%26co".to_vec());
}

#[test]
fn normalize_is_order_insensitive() {
    let one = normalize(pairs(&[
        ("oauth_signature", "x"),
        ("b", "2"),
        ("a", "1"),
        ("c", "3"),
    ]))
    .unwrap();
    let two = normalize(pairs(&[
        ("c", "3"),
        ("a", "1"),
        ("b", "2"),
        ("oauth_signature", "x"),
    ]))
    .unwrap();
    assert_eq!(one.param_string, two.param_string);
    assert_eq!(one.pairs, two.pairs);
    assert_eq!(one.signature, two.signature);
}

#[test]
fn normalize_without_signature_fails() {
    let r = normalize(pairs(&[("a", "1")]));
    assert_eq!(r.err(), Some(LaunchError::MissingSignature));
}

#[test]
fn constant_time_eq_compares_bytes() {
    assert!(constant_time_eq(b"", b""));
    assert!(constant_time_eq(b"abc", b"abc"));
    assert!(!constant_time_eq(b"abc", b"abd"));
    assert!(!constant_time_eq(b"abc", b"abcd"));
}

fn reference_digest(secret: &str, base: &[u8]) -> Vec<u8> {
    let key = format!("{}&", secret);
    let mut mac = hmac::Hmac::<sha1::Sha1>::new_from_slice(key.as_bytes()).unwrap();
    mac.update(base);
    mac.finalize().into_bytes().to_vec()
}

#[test]
fn verify_accepts_exactly_the_reference_digest() {
    let base = b"POST&https%3A%2F%2Fexample.org%2Flti&a%3D1";
    let good = reference_digest("shh", base);
    assert_eq!(verify_signature(base, &good, b"shh"), Ok(()));
    // flipping any single byte of the signature is rejected
    for i in 0..good.len() {
        let mut bad = good.clone();
        bad[i] ^= 0x01;
        assert_eq!(verify_signature(base, &bad, b"shh"), Err(LaunchError::SignatureMismatch));
    }
    // flipping any single byte of the base string is rejected
    for i in 0..base.len() {
        let mut tampered = base.to_vec();
        tampered[i] ^= 0x01;
        assert_eq!(
            verify_signature(&tampered, &good, b"shh"),
            Err(LaunchError::SignatureMismatch)
        );
    }
    // flipping any single byte of the secret is rejected
    for i in 0..3 {
        let mut secret = b"shh".to_vec();
        secret[i] ^= 0x01;
        assert_eq!(
            verify_signature(base, &good, &secret),
            Err(LaunchError::SignatureMismatch)
        );
    }
}

#[test]
fn establish_needs_the_display_name() {
    let r = establish(&pairs(&[("oauth_consumer_key", "key")]));
    assert_eq!(r.err(), Some(LaunchError::MissingRequiredAttribute));
}

#[test]
fn establish_builds_a_fresh_session() {
    let s = establish(&pairs(&[
        ("lis_person_name_full", "Ada Lovelace"),
        ("oauth_consumer_key", "key"),
    ]))
    .unwrap();
    assert_eq!(s.display_name, "Ada Lovelace");
    assert_eq!(s.visit_count, 0);
}

#[test]
fn increment_advances_the_counter() {
    let s = Session { display_name: "Ada Lovelace".to_string(), visit_count: 0 };
    let s = increment(s);
    assert_eq!(s.display_name, "Ada Lovelace");
    assert_eq!(s.visit_count, 1);
    let s = increment(s);
    assert_eq!(s.visit_count, 2);
}
