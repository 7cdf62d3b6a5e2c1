//! Percent-encoding over the RFC 5849 §3.6 unreserved set: alphanumerics
//! plus `-`, `.`, `_`, `~`. Every other byte is written `%XX` with
//! upper-case hex. This set is deliberately narrower than generic URL
//! encoding (`!*'()` are escaped here), and the encoding feeds a
//! cryptographic comparison, so it is pinned down byte for byte.

use vstd::prelude::*;

verus! {

/// True of the bytes RFC 5849 leaves unencoded: `A`-`Z`, `a`-`z`, `0`-`9`,
/// `-`, `.`, `_`, `~`.
pub open spec fn is_unreserved(b: u8) -> bool {
    ||| 0x41 <= b && b <= 0x5a
    ||| 0x61 <= b && b <= 0x7a
    ||| 0x30 <= b && b <= 0x39
    ||| b == 0x2d
    ||| b == 0x2e
    ||| b == 0x5f
    ||| b == 0x7e
}

/// Upper-case hex digit (as an ASCII byte) for one nibble.
pub open spec fn hex_upper(n: u8) -> u8
    recommends
        n < 16,
{
    if n < 10 {
        (0x30 + n) as u8
    } else {
        (0x37 + n) as u8
    }
}

/// The percent-encoding of a single byte: itself if unreserved, else
/// `%` followed by two upper-case hex digits.
pub open spec fn encoded_byte(b: u8) -> Seq<u8> {
    if is_unreserved(b) {
        seq![b]
    } else {
        seq![0x25u8, hex_upper(b / 16), hex_upper(b % 16)]
    }
}

/// The percent-encoding of a whole byte string.
pub open spec fn percent_encoded(s: Seq<u8>) -> Seq<u8>
    decreases s.len(),
{
    if s.len() == 0 {
        Seq::empty()
    } else {
        encoded_byte(s[0]) + percent_encoded(s.skip(1))
    }
}

fn unreserved(b: u8) -> (r: bool)
    ensures
        r == is_unreserved(b),
{
    (0x41 <= b && b <= 0x5a) || (0x61 <= b && b <= 0x7a) || (0x30 <= b && b <= 0x39) || b == 0x2d
        || b == 0x2e || b == 0x5f || b == 0x7e
}

fn hex_upper_byte(n: u8) -> (r: u8)
    requires
        n < 16,
    ensures
        r == hex_upper(n),
{
    if n < 10 {
        0x30 + n
    } else {
        0x37 + n
    }
}

/// Percent-encode a byte string over the RFC 5849 unreserved set.
pub fn percent_encode(s: &[u8]) -> (r: Vec<u8>)
    ensures
        r@ == percent_encoded(s@),
{
    let mut out: Vec<u8> = Vec::new();
    let n = s.len();
    proof {
        assert(s@.skip(0) =~= s@);
    }
    for i in 0..n
        invariant
            n == s@.len(),
            percent_encoded(s@) =~= out@ + percent_encoded(s@.skip(i as int)),
    {
        let b = s[i];
        proof {
            assert(s@.skip(i as int)[0] == s@[i as int]);
            assert(s@.skip(i as int).skip(1) =~= s@.skip(i as int + 1));
        }
        if unreserved(b) {
            out.push(b);
        } else {
            out.push(0x25);
            out.push(hex_upper_byte(b / 16));
            out.push(hex_upper_byte(b % 16));
        }
    }
    proof {
        assert(s@.skip(n as int) =~= Seq::<u8>::empty());
    }
    out
}

/// Encoding distributes over concatenation.
pub proof fn lemma_percent_encoded_append(s: Seq<u8>, t: Seq<u8>)
    ensures
        percent_encoded(s + t) == percent_encoded(s) + percent_encoded(t),
    decreases s.len(),
{
    if s.len() == 0 {
        assert(s + t =~= t);
        assert(percent_encoded(s) + percent_encoded(t) =~= percent_encoded(t));
    } else {
        assert((s + t).skip(1) =~= s.skip(1) + t);
        assert((s + t)[0] == s[0]);
        lemma_percent_encoded_append(s.skip(1), t);
        assert(encoded_byte(s[0]) + (percent_encoded(s.skip(1)) + percent_encoded(t)) =~= (
        encoded_byte(s[0]) + percent_encoded(s.skip(1))) + percent_encoded(t));
    }
}

/// A string of unreserved bytes is left untouched by the encoder.
pub proof fn lemma_percent_encoded_identity(s: Seq<u8>)
    requires
        forall|i: int| 0 <= i < s.len() ==> is_unreserved(#[trigger] s[i]),
    ensures
        percent_encoded(s) == s,
    decreases s.len(),
{
    if s.len() == 0 {
        assert(percent_encoded(s) =~= s);
    } else {
        lemma_percent_encoded_identity(s.skip(1));
        assert(percent_encoded(s) =~= seq![s[0]] + s.skip(1));
        assert(seq![s[0]] + s.skip(1) =~= s);
    }
}

/// The encoding is never shorter than its input.
pub proof fn lemma_percent_encoded_len(s: Seq<u8>)
    ensures
        percent_encoded(s).len() >= s.len(),
    decreases s.len(),
{
    if s.len() > 0 {
        lemma_percent_encoded_len(s.skip(1));
    }
}

/// A string with at least one reserved byte strictly grows when encoded.
pub proof fn lemma_percent_encoded_grows(s: Seq<u8>)
    requires
        exists|i: int| 0 <= i < s.len() && !is_unreserved(#[trigger] s[i]),
    ensures
        percent_encoded(s).len() > s.len(),
    decreases s.len(),
{
    let i = choose|i: int| 0 <= i < s.len() && !is_unreserved(#[trigger] s[i]);
    if i == 0 {
        lemma_percent_encoded_len(s.skip(1));
    } else {
        assert(!is_unreserved(s.skip(1)[i - 1]));
        lemma_percent_encoded_grows(s.skip(1));
    }
}

/// The encoding of a string with a reserved byte itself contains a
/// reserved byte (the `%` that escapes it).
pub proof fn lemma_percent_encoded_has_reserved(s: Seq<u8>)
    requires
        exists|i: int| 0 <= i < s.len() && !is_unreserved(#[trigger] s[i]),
    ensures
        exists|j: int|
            0 <= j < percent_encoded(s).len() && !is_unreserved(#[trigger] percent_encoded(s)[j]),
    decreases s.len(),
{
    let i = choose|i: int| 0 <= i < s.len() && !is_unreserved(#[trigger] s[i]);
    if !is_unreserved(s[0]) {
        assert(percent_encoded(s)[0] == 0x25);
        assert(!is_unreserved(percent_encoded(s)[0]));
    } else {
        assert(!is_unreserved(s.skip(1)[i - 1]));
        lemma_percent_encoded_has_reserved(s.skip(1));
        let j = choose|j: int|
            0 <= j < percent_encoded(s.skip(1)).len() && !is_unreserved(
                #[trigger] percent_encoded(s.skip(1))[j],
            );
        assert(percent_encoded(s)[j + 1] == percent_encoded(s.skip(1))[j]);
    }
}

/// Encoding twice differs from encoding once whenever the input holds a
/// reserved byte: the encoder never double-encodes on its own.
pub proof fn lemma_no_double_encoding(s: Seq<u8>)
    requires
        exists|i: int| 0 <= i < s.len() && !is_unreserved(#[trigger] s[i]),
    ensures
        percent_encoded(percent_encoded(s)) != percent_encoded(s),
{
    lemma_percent_encoded_has_reserved(s);
    lemma_percent_encoded_grows(percent_encoded(s));
}

} // verus!
