//! Base String Builder, RFC 5849 §3.4.1: the externally visible request
//! URL is reconstructed as `scheme://host{path}`, where the scheme comes
//! from a forwarded-proto header when one is present (a reverse proxy
//! terminating TLS) and defaults to `http`, the authority comes verbatim
//! from the `Host` header, and the path and query are the original
//! request's, before any prefix rewriting. The base string is
//! `METHOD&enc(url)&enc(params)`: the method upper-cased, then the URL
//! and the already-encoded parameter string each percent-encoded once
//! more as single opaque tokens, the three joined by literal `&`.

use crate::encode::lemma_percent_encoded_append;
use crate::encode::lemma_percent_encoded_identity;
use crate::encode::percent_encode;
use crate::encode::percent_encoded;
use crate::LaunchError;
use vstd::prelude::*;

verus! {

/// ASCII upper-casing of one byte.
pub open spec fn upper_byte(b: u8) -> u8 {
    if 0x61 <= b && b <= 0x7a {
        (b - 0x20) as u8
    } else {
        b
    }
}

/// ASCII upper-casing of a byte string.
pub open spec fn upper(s: Seq<u8>) -> Seq<u8> {
    s.map_values(|b: u8| upper_byte(b))
}

/// The bytes of `http`, the default scheme.
pub open spec fn http_bytes() -> Seq<u8> {
    seq![0x68u8, 0x74, 0x74, 0x70]
}

/// The bytes of `https`.
pub open spec fn https_bytes() -> Seq<u8> {
    seq![0x68u8, 0x74, 0x74, 0x70, 0x73]
}

/// The scheme the base string uses: the forwarded proto when present,
/// else `http`.
pub open spec fn scheme_of(proto: Option<Seq<u8>>) -> Seq<u8> {
    match proto {
        Some(p) => p,
        None => http_bytes(),
    }
}

/// The reconstructed URL: `scheme://host` followed by the original path
/// and query.
pub open spec fn url_of(proto: Option<Seq<u8>>, host: Seq<u8>, path: Seq<u8>) -> Seq<u8> {
    scheme_of(proto) + seq![0x3au8, 0x2f, 0x2f] + host + path
}

/// The signature base string.
pub open spec fn base_string_of(
    method: Seq<u8>,
    proto: Option<Seq<u8>>,
    host: Seq<u8>,
    path: Seq<u8>,
    params: Seq<u8>,
) -> Seq<u8> {
    upper(method) + seq![0x26u8] + percent_encoded(url_of(proto, host, path)) + seq![0x26u8]
        + percent_encoded(params)
}

/// The view of an optional header value.
pub open spec fn opt_view(o: Option<&[u8]>) -> Option<Seq<u8>> {
    match o {
        Some(p) => Some(p@),
        None => None,
    }
}

fn append_bytes(dst: &mut Vec<u8>, src: &[u8])
    ensures
        final(dst)@ == old(dst)@ + src@,
{
    let n = src.len();
    for i in 0..n
        invariant
            n == src@.len(),
            dst@ =~= old(dst)@ + src@.take(i as int),
    {
        dst.push(src[i]);
    }
    proof {
        assert(src@.take(n as int) =~= src@);
    }
}

fn append_upper(dst: &mut Vec<u8>, src: &[u8])
    ensures
        final(dst)@ == old(dst)@ + upper(src@),
{
    let n = src.len();
    for i in 0..n
        invariant
            n == src@.len(),
            dst@ =~= old(dst)@ + upper(src@).take(i as int),
    {
        let b = src[i];
        if 0x61 <= b && b <= 0x7a {
            dst.push(b - 0x20);
        } else {
            dst.push(b);
        }
        proof {
            assert(upper(src@)[i as int] == upper_byte(src@[i as int]));
        }
    }
    proof {
        assert(upper(src@).take(n as int) =~= upper(src@));
    }
}

/// Build the signature base string from the request method, the optional
/// forwarded-proto header, the `Host` header, the original path and
/// query, and the normalized parameter string. Fails exactly when the
/// request carries no `Host` header.
pub fn build_base_string(
    method: &[u8],
    forwarded_proto: Option<&[u8]>,
    host: Option<&[u8]>,
    path_and_query: &[u8],
    encoded_params: &[u8],
) -> (r: Result<Vec<u8>, LaunchError>)
    ensures
        r is Ok <==> host is Some,
        r matches Ok(bs) ==> host matches Some(h) && bs@ == base_string_of(
            method@,
            opt_view(forwarded_proto),
            h@,
            path_and_query@,
            encoded_params@,
        ),
        r matches Err(e) ==> e == LaunchError::MissingHostHeader,
{
    let host = match host {
        Some(h) => h,
        None => {
            return Err(LaunchError::MissingHostHeader);
        },
    };
    let mut url: Vec<u8> = Vec::new();
    match forwarded_proto {
        Some(p) => append_bytes(&mut url, p),
        None => {
            url.push(0x68);
            url.push(0x74);
            url.push(0x74);
            url.push(0x70);
            proof {
                assert(url@ =~= http_bytes());
            }
        },
    }
    url.push(0x3a);
    url.push(0x2f);
    url.push(0x2f);
    append_bytes(&mut url, host);
    append_bytes(&mut url, path_and_query);
    proof {
        assert(url@ =~= url_of(opt_view(forwarded_proto), host@, path_and_query@));
    }
    let mut out: Vec<u8> = Vec::new();
    append_upper(&mut out, method);
    out.push(0x26);
    let encoded_url = percent_encode(url.as_slice());
    append_bytes(&mut out, encoded_url.as_slice());
    out.push(0x26);
    let encoded_ps = percent_encode(encoded_params);
    append_bytes(&mut out, encoded_ps.as_slice());
    proof {
        assert(out@ =~= base_string_of(
            method@,
            opt_view(forwarded_proto),
            host@,
            path_and_query@,
            encoded_params@,
        ));
    }
    Ok(out)
}

/// The base string is one fixed value of its inputs: building it again
/// from the same method, URL parts, and parameter string yields
/// byte-identical output.
pub proof fn lemma_base_string_deterministic(
    m1: Seq<u8>,
    p1: Option<Seq<u8>>,
    h1: Seq<u8>,
    q1: Seq<u8>,
    s1: Seq<u8>,
    m2: Seq<u8>,
    p2: Option<Seq<u8>>,
    h2: Seq<u8>,
    q2: Seq<u8>,
    s2: Seq<u8>,
)
    requires
        m1 == m2,
        p1 == p2,
        h1 == h2,
        q1 == q2,
        s1 == s2,
    ensures
        base_string_of(m1, p1, h1, q1, s1) == base_string_of(m2, p2, h2, q2, s2),
{
}

/// A forwarded proto of `https` and an absent forwarded proto never
/// produce the same base string: the scheme in use is really signed.
pub proof fn lemma_proxy_scheme_sensitivity(
    method: Seq<u8>,
    host: Seq<u8>,
    path: Seq<u8>,
    params: Seq<u8>,
)
    ensures
        base_string_of(method, Some(https_bytes()), host, path, params) != base_string_of(
            method,
            None,
            host,
            path,
            params,
        ),
{
    let u1 = url_of(Some(https_bytes()), host, path);
    let u2 = url_of(None, host, path);
    assert(u1.take(4) =~= http_bytes());
    assert(u2.take(4) =~= http_bytes());
    assert(u1 =~= u1.take(4) + u1.skip(4));
    assert(u2 =~= u2.take(4) + u2.skip(4));
    lemma_percent_encoded_append(u1.take(4), u1.skip(4));
    lemma_percent_encoded_append(u2.take(4), u2.skip(4));
    assert forall|i: int| 0 <= i < http_bytes().len() implies crate::encode::is_unreserved(
        #[trigger] http_bytes()[i],
    ) by {}
    lemma_percent_encoded_identity(http_bytes());
    let e1 = percent_encoded(u1);
    let e2 = percent_encoded(u2);
    assert(u1.skip(4)[0] == 0x73);
    assert(u2.skip(4)[0] == 0x3a);
    assert(percent_encoded(u1.skip(4))[0] == crate::encode::encoded_byte(0x73)[0]);
    assert(percent_encoded(u2.skip(4))[0] == crate::encode::encoded_byte(0x3a)[0]);
    assert(crate::encode::encoded_byte(0x73) == seq![0x73u8]);
    assert(crate::encode::encoded_byte(0x3a)[0] == 0x25);
    assert(e1[4] == 0x73);
    assert(e2[4] == 0x25);
    let b1 = base_string_of(method, Some(https_bytes()), host, path, params);
    let b2 = base_string_of(method, None, host, path, params);
    let m = upper(method).len() as int;
    assert(b1[m + 1 + 4] == e1[4]);
    assert(b2[m + 1 + 4] == e2[4]);
}

} // verus!
