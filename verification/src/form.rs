//! Decoding of `application/x-www-form-urlencoded` request bodies into
//! key/value pairs of byte strings.
//!
//! The grammar: the body is split on `&`; empty segments are skipped; each
//! segment is split at its first `=` into key and value (a segment without
//! `=` has an empty value); `+` decodes to a space and `%XY` (either hex
//! case) to the named byte, a `%` not followed by two hex digits stays
//! literal. Decoding to bytes is total; a decoded key or value that is not
//! valid UTF-8 is a hard failure.

use crate::LaunchError;
use vstd::prelude::*;
use vstd::utf8::decode_utf8;
use vstd::utf8::valid_utf8;

verus! {

/// True of ASCII hex digits, either case.
pub open spec fn is_hex_digit(b: u8) -> bool {
    ||| 0x30 <= b && b <= 0x39
    ||| 0x41 <= b && b <= 0x46
    ||| 0x61 <= b && b <= 0x66
}

/// Numeric value of an ASCII hex digit.
pub open spec fn hex_value(b: u8) -> u8
    recommends
        is_hex_digit(b),
{
    if 0x30 <= b && b <= 0x39 {
        (b - 0x30) as u8
    } else if 0x41 <= b && b <= 0x46 {
        (b - 0x37) as u8
    } else {
        (b - 0x57) as u8
    }
}

/// The decoding of one form token: `+` becomes a space, a valid `%XY`
/// escape becomes its byte, everything else stays as it is.
pub open spec fn form_decoded(s: Seq<u8>) -> Seq<u8>
    decreases s.len(),
{
    if s.len() == 0 {
        Seq::empty()
    } else if s[0] == 0x2b {
        seq![0x20u8] + form_decoded(s.skip(1))
    } else if s[0] == 0x25 && s.len() >= 3 && is_hex_digit(s[1]) && is_hex_digit(s[2]) {
        seq![(hex_value(s[1]) * 16 + hex_value(s[2])) as u8] + form_decoded(s.skip(3))
    } else {
        seq![s[0]] + form_decoded(s.skip(1))
    }
}

/// The part of a segment before its first `=`.
pub open spec fn segment_key(seg: Seq<u8>) -> Seq<u8>
    decreases seg.len(),
{
    if seg.len() == 0 || seg[0] == 0x3d {
        Seq::empty()
    } else {
        seq![seg[0]] + segment_key(seg.skip(1))
    }
}

/// The part of a segment after its first `=`; empty when there is none.
pub open spec fn segment_value(seg: Seq<u8>) -> Seq<u8>
    decreases seg.len(),
{
    if seg.len() == 0 {
        Seq::empty()
    } else if seg[0] == 0x3d {
        seg.skip(1)
    } else {
        segment_value(seg.skip(1))
    }
}

/// The prefix of the body up to (not including) its first `&`.
pub open spec fn first_segment(s: Seq<u8>) -> Seq<u8>
    decreases s.len(),
{
    if s.len() == 0 || s[0] == 0x26 {
        Seq::empty()
    } else {
        seq![s[0]] + first_segment(s.skip(1))
    }
}

proof fn lemma_first_segment_len(s: Seq<u8>)
    ensures
        first_segment(s).len() <= s.len(),
    decreases s.len(),
{
    if s.len() > 0 && s[0] != 0x26 {
        lemma_first_segment_len(s.skip(1));
    }
}

/// The undecoded `(key, value)` segments of a body, in body order.
pub open spec fn raw_pairs(s: Seq<u8>) -> Seq<(Seq<u8>, Seq<u8>)>
    decreases s.len(),
    via raw_pairs_decreases
{
    if s.len() == 0 {
        Seq::empty()
    } else {
        let seg = first_segment(s);
        let rest = if seg.len() == s.len() {
            Seq::<u8>::empty()
        } else {
            s.skip(seg.len() as int + 1)
        };
        if seg.len() == 0 {
            raw_pairs(rest)
        } else {
            seq![(segment_key(seg), segment_value(seg))] + raw_pairs(rest)
        }
    }
}

#[via_fn]
proof fn raw_pairs_decreases(s: Seq<u8>) {
    if s.len() > 0 {
        lemma_first_segment_len(s);
    }
}

/// The decoded key/value pairs of a body, in body order.
pub open spec fn body_pairs(s: Seq<u8>) -> Seq<(Seq<u8>, Seq<u8>)> {
    raw_pairs(s).map_values(|p: (Seq<u8>, Seq<u8>)| (form_decoded(p.0), form_decoded(p.1)))
}

/// Every key and value of a pair sequence is valid UTF-8.
pub open spec fn pairs_utf8(pairs: Seq<(Seq<u8>, Seq<u8>)>) -> bool {
    forall|i: int|
        #![trigger pairs[i]]
        0 <= i < pairs.len() ==> valid_utf8(pairs[i].0) && valid_utf8(pairs[i].1)
}

/// Every decoded key and value of the body is valid UTF-8.
pub open spec fn body_well_formed(s: Seq<u8>) -> bool {
    pairs_utf8(body_pairs(s))
}

/// The mathematical view of a vector of byte-string pairs.
pub open spec fn pairs_view(v: Seq<(Vec<u8>, Vec<u8>)>) -> Seq<(Seq<u8>, Seq<u8>)> {
    v.map_values(|p: (Vec<u8>, Vec<u8>)| (p.0@, p.1@))
}

/// Relies on std's `str::from_utf8` (with `to_owned`): it succeeds exactly
/// on valid UTF-8 input, and returns the characters that the bytes encode.
#[verifier::external_body]
pub(crate) fn utf8_to_string(b: &[u8]) -> (r: Option<String>)
    ensures
        r is Some <==> valid_utf8(b@),
        r matches Some(s) ==> s@ == decode_utf8(b@),
{
    match std::str::from_utf8(b) {
        Ok(s) => Some(s.to_owned()),
        Err(_) => None,
    }
}

fn hex_digit_value(b: u8) -> (r: Option<u8>)
    ensures
        r is Some <==> is_hex_digit(b),
        r matches Some(v) ==> v == hex_value(b) && v < 16,
{
    if 0x30 <= b && b <= 0x39 {
        Some(b - 0x30)
    } else if 0x41 <= b && b <= 0x46 {
        Some(b - 0x37)
    } else if 0x61 <= b && b <= 0x66 {
        Some(b - 0x57)
    } else {
        None
    }
}

/// Decode one form token to its bytes.
pub fn form_decode(s: &[u8]) -> (r: Vec<u8>)
    ensures
        r@ == form_decoded(s@),
{
    let mut out: Vec<u8> = Vec::new();
    let n = s.len();
    let mut i: usize = 0;
    proof {
        assert(s@.skip(0) =~= s@);
    }
    while i < n
        invariant
            i <= n,
            n == s@.len(),
            form_decoded(s@) =~= out@ + form_decoded(s@.skip(i as int)),
        decreases n - i,
    {
        proof {
            assert(s@.skip(i as int)[0] == s@[i as int]);
            assert(s@.skip(i as int).skip(1) =~= s@.skip(i as int + 1));
        }
        let b = s[i];
        if b == 0x2b {
            out.push(0x20);
            i = i + 1;
        } else if b == 0x25 && n - i >= 3 {
            proof {
                assert(s@.skip(i as int)[1] == s@[i as int + 1]);
                assert(s@.skip(i as int)[2] == s@[i as int + 2]);
                assert(s@.skip(i as int).skip(3) =~= s@.skip(i as int + 3));
            }
            match (hex_digit_value(s[i + 1]), hex_digit_value(s[i + 2])) {
                (Some(hi), Some(lo)) => {
                    out.push(hi * 16 + lo);
                    i = i + 3;
                },
                _ => {
                    out.push(b);
                    i = i + 1;
                },
            }
        } else {
            out.push(b);
            i = i + 1;
        }
    }
    proof {
        assert(s@.skip(n as int) =~= Seq::<u8>::empty());
    }
    out
}

/// Split one segment at its first `=`.
fn split_segment(seg: &[u8]) -> (r: (Vec<u8>, Vec<u8>))
    ensures
        r.0@ == segment_key(seg@),
        r.1@ == segment_value(seg@),
{
    let n = seg.len();
    let mut key: Vec<u8> = Vec::new();
    let mut k: usize = 0;
    proof {
        assert(seg@.skip(0) =~= seg@);
    }
    while k < n && seg[k] != 0x3d
        invariant
            k <= n,
            n == seg@.len(),
            segment_key(seg@) =~= key@ + segment_key(seg@.skip(k as int)),
            segment_value(seg@) == segment_value(seg@.skip(k as int)),
        decreases n - k,
    {
        proof {
            assert(seg@.skip(k as int)[0] == seg@[k as int]);
            assert(seg@.skip(k as int).skip(1) =~= seg@.skip(k as int + 1));
        }
        key.push(seg[k]);
        k = k + 1;
    }
    let mut value: Vec<u8> = Vec::new();
    if k < n {
        proof {
            assert(seg@.skip(k as int)[0] == seg@[k as int]);
            assert(segment_value(seg@) =~= seg@.skip(k as int).skip(1));
            assert(seg@.skip(k as int).skip(1) =~= seg@.skip(k as int + 1));
        }
        let mut m: usize = k + 1;
        while m < n
            invariant
                k + 1 <= m <= n,
                n == seg@.len(),
                value@ =~= seg@.subrange(k as int + 1, m as int),
            decreases n - m,
        {
            value.push(seg[m]);
            m = m + 1;
        }
        proof {
            assert(seg@.subrange(k as int + 1, n as int) =~= seg@.skip(k as int + 1));
        }
    } else {
        proof {
            assert(seg@.skip(k as int) =~= Seq::<u8>::empty());
        }
    }
    (key, value)
}

/// Split a body into its raw (undecoded) key/value segments.
fn split_raw(body: &[u8]) -> (r: Vec<(Vec<u8>, Vec<u8>)>)
    ensures
        pairs_view(r@) == raw_pairs(body@),
{
    let n = body.len();
    let mut out: Vec<(Vec<u8>, Vec<u8>)> = Vec::new();
    let mut i: usize = 0;
    proof {
        assert(body@.skip(0) =~= body@);
        assert(pairs_view(Seq::<(Vec<u8>, Vec<u8>)>::empty()) =~= Seq::<
            (Seq<u8>, Seq<u8>),
        >::empty());
    }
    while i < n
        invariant
            i <= n,
            n == body@.len(),
            raw_pairs(body@) =~= pairs_view(out@) + raw_pairs(body@.skip(i as int)),
        decreases n - i,
    {
        proof {
            assert(body@.skip(i as int)[0] == body@[i as int]);
        }
        if body[i] == 0x26 {
            proof {
                assert(first_segment(body@.skip(i as int)) =~= Seq::<u8>::empty());
                assert(body@.skip(i as int).skip(1) =~= body@.skip(i as int + 1));
            }
            i = i + 1;
        } else {
            // collect the segment that starts at i
            let mut seg: Vec<u8> = Vec::new();
            let mut j: usize = i;
            while j < n && body[j] != 0x26
                invariant
                    i <= j <= n,
                    n == body@.len(),
                    first_segment(body@.skip(i as int)) =~= seg@ + first_segment(
                        body@.skip(j as int),
                    ),
                    seg@.len() == j - i,
                decreases n - j,
            {
                proof {
                    assert(body@.skip(j as int)[0] == body@[j as int]);
                    assert(body@.skip(j as int).skip(1) =~= body@.skip(j as int + 1));
                }
                seg.push(body[j]);
                j = j + 1;
            }
            proof {
                assert(first_segment(body@.skip(j as int)) =~= Seq::<u8>::empty());
                assert(first_segment(body@.skip(i as int)) =~= seg@);
            }
            let pair = split_segment(seg.as_slice());
            let ghost prev = out@;
            out.push(pair);
            proof {
                let s = body@.skip(i as int);
                assert(pairs_view(out@) =~= pairs_view(prev) + seq![
                    (segment_key(seg@), segment_value(seg@)),
                ]);
                if j == n {
                    assert(seg@.len() == s.len());
                    assert(raw_pairs(s) =~= seq![(segment_key(seg@), segment_value(seg@))]
                        + raw_pairs(Seq::<u8>::empty()));
                } else {
                    assert(seg@.len() < s.len());
                    assert(s.skip(seg@.len() as int + 1) =~= body@.skip(j as int + 1));
                    assert(raw_pairs(s) =~= seq![(segment_key(seg@), segment_value(seg@))]
                        + raw_pairs(body@.skip(j as int + 1)));
                }
            }
            if j < n {
                i = j + 1;
            } else {
                i = n;
            }
        }
    }
    proof {
        assert(body@.skip(n as int) =~= Seq::<u8>::empty());
        assert(pairs_view(out@) =~= pairs_view(out@) + raw_pairs(Seq::<u8>::empty()));
    }
    out
}

/// Decode a form-encoded body into its key/value pairs, in body order.
/// Succeeds exactly when every decoded key and value is valid UTF-8;
/// otherwise the body is rejected as malformed.
#[verifier::loop_isolation(false)]
pub fn parse_body(body: &[u8]) -> (r: Result<Vec<(Vec<u8>, Vec<u8>)>, LaunchError>)
    ensures
        match r {
            Ok(ps) => body_well_formed(body@) && pairs_view(ps@) == body_pairs(body@),
            Err(e) => e == LaunchError::MalformedBody && !body_well_formed(body@),
        },
{
    let raw = split_raw(body);
    let mut out: Vec<(Vec<u8>, Vec<u8>)> = Vec::new();
    let n = raw.len();
    proof {
        assert(body_pairs(body@).len() == raw@.len());
    }
    for idx in 0..n
        invariant
            n == raw@.len(),
            pairs_view(raw@) == raw_pairs(body@),
            pairs_view(out@) =~= body_pairs(body@).take(idx as int),
            forall|i: int|
                #![trigger body_pairs(body@)[i]]
                0 <= i < idx ==> valid_utf8(body_pairs(body@)[i].0) && valid_utf8(
                    body_pairs(body@)[i].1,
                ),
    {
        let p = &raw[idx];
        let k = form_decode(p.0.as_slice());
        let v = form_decode(p.1.as_slice());
        proof {
            assert(pairs_view(raw@)[idx as int] == (p.0@, p.1@));
            assert(body_pairs(body@)[idx as int] == (form_decoded(p.0@), form_decoded(p.1@)));
        }
        if utf8_to_string(k.as_slice()).is_none() || utf8_to_string(v.as_slice()).is_none() {
            proof {
                assert(0 <= idx < body_pairs(body@).len());
                assert(!(valid_utf8(body_pairs(body@)[idx as int].0) && valid_utf8(
                    body_pairs(body@)[idx as int].1,
                )));
                assert(!body_well_formed(body@));
            }
            return Err(LaunchError::MalformedBody);
        }
        let ghost prev = out@;
        out.push((k, v));
        proof {
            assert(valid_utf8(form_decoded(p.0@)));
            assert(valid_utf8(form_decoded(p.1@)));
            assert(valid_utf8(body_pairs(body@)[idx as int].0));
            assert(valid_utf8(body_pairs(body@)[idx as int].1));
            assert(pairs_view(out@) =~= pairs_view(prev) + seq![
                (form_decoded(p.0@), form_decoded(p.1@)),
            ]);
            assert(body_pairs(body@).take(idx + 1) =~= body_pairs(body@).take(idx as int) + seq![
                body_pairs(body@)[idx as int],
            ]);
        }
    }
    proof {
        assert(body_pairs(body@).take(n as int) =~= body_pairs(body@));
    }
    Ok(out)
}

} // verus!
