//! Parameter normalization, RFC 5849 §3.4.1.3.2: the decoded pairs are
//! sorted ascending by key with the value as tie-break (byte-wise order),
//! the `oauth_signature` pair is located and removed, and the remaining
//! pairs are percent-encoded and joined as `key=value` pairs separated by
//! `&`. Where the key occurs more than once, the extracted signature is
//! the first occurrence in sorted order, and every occurrence is removed.

use crate::encode::percent_encode;
use crate::encode::percent_encoded;
use crate::form::pairs_view;
use crate::LaunchError;
use vstd::prelude::*;
use vstd::relations::sorted_by;
use vstd::relations::total_ordering;
use vstd::seq_lib::group_to_multiset_ensures;
use vstd::seq_lib::lemma_multiset_commutative;
use vstd::seq_lib::lemma_sorted_unique;
use vstd::utf8::valid_utf8;

verus! {

broadcast use group_to_multiset_ensures, vstd::multiset::group_multiset_axioms;

/// Byte-wise (ordinal) lexicographic order on byte strings.
pub open spec fn bytes_le(a: Seq<u8>, b: Seq<u8>) -> bool
    decreases a.len(),
{
    if a.len() == 0 {
        true
    } else if b.len() == 0 {
        false
    } else if a[0] < b[0] {
        true
    } else if a[0] > b[0] {
        false
    } else {
        bytes_le(a.skip(1), b.skip(1))
    }
}

/// Pair order: ascending by key, value as tie-break.
pub open spec fn pair_le(x: (Seq<u8>, Seq<u8>), y: (Seq<u8>, Seq<u8>)) -> bool {
    if x.0 == y.0 {
        bytes_le(x.1, y.1)
    } else {
        bytes_le(x.0, y.0)
    }
}

/// The pair order as a relation value, the form the sorting lemmas take.
pub open spec fn pair_order() -> spec_fn((Seq<u8>, Seq<u8>), (Seq<u8>, Seq<u8>)) -> bool {
    |x: (Seq<u8>, Seq<u8>), y: (Seq<u8>, Seq<u8>)| pair_le(x, y)
}

proof fn lemma_bytes_le_connected(a: Seq<u8>, b: Seq<u8>)
    ensures
        bytes_le(a, b) || bytes_le(b, a),
    decreases a.len(),
{
    if a.len() > 0 && b.len() > 0 && a[0] == b[0] {
        lemma_bytes_le_connected(a.skip(1), b.skip(1));
    }
}

proof fn lemma_bytes_le_antisymmetric(a: Seq<u8>, b: Seq<u8>)
    requires
        bytes_le(a, b),
        bytes_le(b, a),
    ensures
        a == b,
    decreases a.len(),
{
    if a.len() == 0 {
        assert(a =~= b);
    } else {
        lemma_bytes_le_antisymmetric(a.skip(1), b.skip(1));
        assert(a =~= seq![a[0]] + a.skip(1));
        assert(b =~= seq![b[0]] + b.skip(1));
    }
}

proof fn lemma_bytes_le_transitive(a: Seq<u8>, b: Seq<u8>, c: Seq<u8>)
    requires
        bytes_le(a, b),
        bytes_le(b, c),
    ensures
        bytes_le(a, c),
    decreases a.len(),
{
    if a.len() > 0 && b.len() > 0 && c.len() > 0 && a[0] == b[0] && b[0] == c[0] {
        lemma_bytes_le_transitive(a.skip(1), b.skip(1), c.skip(1));
    }
}

/// The pair order is a total order, so sorting by it is canonical.
pub proof fn lemma_pair_order_total()
    ensures
        total_ordering(pair_order()),
{
    let leq = pair_order();
    assert forall|x: (Seq<u8>, Seq<u8>), y: (Seq<u8>, Seq<u8>)| #[trigger]
        leq(x, y) && #[trigger] leq(y, x) implies x == y by {
        if x.0 == y.0 {
            lemma_bytes_le_antisymmetric(x.1, y.1);
        } else {
            lemma_bytes_le_antisymmetric(x.0, y.0);
        }
    }
    assert forall|x: (Seq<u8>, Seq<u8>), y: (Seq<u8>, Seq<u8>), z: (Seq<u8>, Seq<u8>)| #[trigger]
        leq(x, y) && #[trigger] leq(y, z) implies leq(x, z) by {
        if x.0 == y.0 && y.0 == z.0 {
            lemma_bytes_le_transitive(x.1, y.1, z.1);
        } else if x.0 == y.0 {
            assert(bytes_le(y.0, z.0));
        } else if y.0 == z.0 {
            assert(bytes_le(x.0, y.0));
        } else {
            lemma_bytes_le_transitive(x.0, y.0, z.0);
            if x.0 == z.0 {
                lemma_bytes_le_antisymmetric(x.0, y.0);
            }
        }
    }
    assert forall|x: (Seq<u8>, Seq<u8>), y: (Seq<u8>, Seq<u8>)| #[trigger]
        leq(x, y) || #[trigger] leq(y, x) by {
        if x.0 == y.0 {
            lemma_bytes_le_connected(x.1, y.1);
        } else {
            lemma_bytes_le_connected(x.0, y.0);
        }
    }
}

fn le_bytes(a: &[u8], b: &[u8]) -> (r: bool)
    ensures
        r == bytes_le(a@, b@),
{
    let mut i: usize = 0;
    proof {
        assert(a@.skip(0) =~= a@);
        assert(b@.skip(0) =~= b@);
    }
    while i < a.len() && i < b.len() && a[i] == b[i]
        invariant
            i <= a@.len(),
            i <= b@.len(),
            bytes_le(a@, b@) == bytes_le(a@.skip(i as int), b@.skip(i as int)),
        decreases a@.len() - i,
    {
        proof {
            assert(a@.skip(i as int)[0] == a@[i as int]);
            assert(b@.skip(i as int)[0] == b@[i as int]);
            assert(a@.skip(i as int).skip(1) =~= a@.skip(i as int + 1));
            assert(b@.skip(i as int).skip(1) =~= b@.skip(i as int + 1));
        }
        i = i + 1;
    }
    proof {
        if i < a.len() && i < b.len() {
            assert(a@.skip(i as int)[0] == a@[i as int]);
            assert(b@.skip(i as int)[0] == b@[i as int]);
        }
    }
    if i >= a.len() {
        true
    } else if i >= b.len() {
        false
    } else {
        a[i] < b[i]
    }
}

pub(crate) fn eq_bytes(a: &[u8], b: &[u8]) -> (r: bool)
    ensures
        r == (a@ == b@),
{
    if a.len() != b.len() {
        return false;
    }
    let n = a.len();
    for i in 0..n
        invariant
            n == a@.len() == b@.len(),
            forall|k: int| 0 <= k < i ==> a@[k] == b@[k],
    {
        if a[i] != b[i] {
            return false;
        }
    }
    proof {
        assert(a@ =~= b@);
    }
    true
}

fn le_pairs(x: &(Vec<u8>, Vec<u8>), y: &(Vec<u8>, Vec<u8>)) -> (r: bool)
    ensures
        r == pair_le((x.0@, x.1@), (y.0@, y.1@)),
{
    if eq_bytes(x.0.as_slice(), y.0.as_slice()) {
        le_bytes(x.1.as_slice(), y.1.as_slice())
    } else {
        le_bytes(x.0.as_slice(), y.0.as_slice())
    }
}

#[verifier::loop_isolation(false)]
fn find_pos(v: &Vec<(Vec<u8>, Vec<u8>)>, x: &(Vec<u8>, Vec<u8>)) -> (j: usize)
    ensures
        j <= v@.len(),
        forall|k: int| 0 <= k < j ==> pair_le(#[trigger] pairs_view(v@)[k], (x.0@, x.1@)),
        j < v@.len() ==> !pair_le(pairs_view(v@)[j as int], (x.0@, x.1@)),
{
    let n = v.len();
    for j in 0..n
        invariant
            n == v@.len(),
            forall|k: int| 0 <= k < j ==> pair_le(#[trigger] pairs_view(v@)[k], (x.0@, x.1@)),
    {
        proof {
            assert(pairs_view(v@)[j as int] == (v@[j as int].0@, v@[j as int].1@));
        }
        if !le_pairs(&v[j], x) {
            return j;
        }
    }
    n
}

fn insert_sorted(v: &mut Vec<(Vec<u8>, Vec<u8>)>, x: (Vec<u8>, Vec<u8>))
    requires
        sorted_by(pairs_view(old(v)@), pair_order()),
    ensures
        sorted_by(pairs_view(final(v)@), pair_order()),
        pairs_view(final(v)@).to_multiset() == pairs_view(old(v)@).to_multiset().insert(
            (x.0@, x.1@),
        ),
{
    let ghost xv = (x.0@, x.1@);
    let ghost a = pairs_view(old(v)@);
    let j = find_pos(v, &x);
    proof {
        lemma_pair_order_total();
        if j < v@.len() {
            assert(!pair_le(pairs_view(v@)[j as int], xv));
            assert(pair_order()(pairs_view(v@)[j as int], xv) || pair_order()(
                xv,
                pairs_view(v@)[j as int],
            ));
            assert(pair_le(xv, pairs_view(v@)[j as int]));
        }
    }
    v.insert(j, x);
    proof {
        let b = pairs_view(v@);
        assert(b =~= a.insert(j as int, xv));
        assert(b.to_multiset() == a.to_multiset().insert(xv));
        assert forall|m: int, n: int| 0 <= m < n < b.len() implies #[trigger] pair_order()(
            b[m],
            b[n],
        ) by {
            if n < j {
                assert(b[m] == a[m] && b[n] == a[n]);
            } else if m < j && n == j {
                assert(b[m] == a[m] && b[n] == xv);
            } else if m < j && n > j {
                // m <= j - 1 and n >= j + 1, so m < n - 1
                assert(b[m] == a[m] && b[n] == a[n - 1]);
                assert(pair_order()(a[m], a[n - 1]));
            } else if m == j {
                assert(b[m] == xv && b[n] == a[n - 1]);
                assert(pair_le(xv, a[j as int]));
                if n - 1 > j {
                    assert(pair_order()(a[j as int], a[n - 1]));
                }
            } else {
                assert(b[m] == a[m - 1] && b[n] == a[n - 1]);
                assert(pair_order()(a[m - 1], a[n - 1]));
            }
        }
    }
}

/// Sort decoded pairs ascending by key, value as tie-break.
pub fn sort_pairs(v: Vec<(Vec<u8>, Vec<u8>)>) -> (r: Vec<(Vec<u8>, Vec<u8>)>)
    ensures
        pairs_view(r@) == pairs_view(v@).sort_by(pair_order()),
{
    let ghost orig = pairs_view(v@);
    let mut rest = v;
    let mut out: Vec<(Vec<u8>, Vec<u8>)> = Vec::new();
    proof {
        assert(pairs_view(out@) =~= Seq::<(Seq<u8>, Seq<u8>)>::empty());
        assert(pairs_view(out@).to_multiset().add(pairs_view(rest@).to_multiset())
            =~= orig.to_multiset());
    }
    while rest.len() > 0
        invariant
            sorted_by(pairs_view(out@), pair_order()),
            pairs_view(out@).to_multiset().add(pairs_view(rest@).to_multiset())
                == orig.to_multiset(),
        decreases rest@.len(),
    {
        let ghost old_out = pairs_view(out@);
        let ghost old_rest = pairs_view(rest@);
        let x = rest.remove(0);
        let ghost xv = (x.0@, x.1@);
        proof {
            assert(old_rest[0] == xv);
            assert(pairs_view(rest@) =~= old_rest.remove(0));
            assert(pairs_view(rest@).to_multiset() == old_rest.to_multiset().remove(xv));
            assert(old_rest.to_multiset().contains(xv));
        }
        insert_sorted(&mut out, x);
        proof {
            let new_out = pairs_view(out@);
            let new_rest = pairs_view(rest@);
            assert(new_out.to_multiset() == old_out.to_multiset().insert(xv));
            assert(new_out.to_multiset().add(new_rest.to_multiset()) =~= old_out.to_multiset().add(
                old_rest.to_multiset(),
            ));
        }
    }
    proof {
        assert(pairs_view(rest@) =~= Seq::<(Seq<u8>, Seq<u8>)>::empty());
        assert(pairs_view(out@).to_multiset() =~= orig.to_multiset());
        lemma_pair_order_total();
        orig.lemma_sort_by_ensures(pair_order());
        lemma_sorted_unique(pairs_view(out@), orig.sort_by(pair_order()), pair_order());
    }
    out
}

/// The bytes of the key `oauth_signature`.
pub open spec fn sig_key() -> Seq<u8> {
    seq![0x6fu8, 0x61, 0x75, 0x74, 0x68, 0x5f, 0x73, 0x69, 0x67, 0x6e, 0x61, 0x74, 0x75, 0x72, 0x65]
}

fn sig_key_bytes() -> (r: Vec<u8>)
    ensures
        r@ == sig_key(),
{
    let mut v: Vec<u8> = Vec::new();
    v.push(0x6f);
    v.push(0x61);
    v.push(0x75);
    v.push(0x74);
    v.push(0x68);
    v.push(0x5f);
    v.push(0x73);
    v.push(0x69);
    v.push(0x67);
    v.push(0x6e);
    v.push(0x61);
    v.push(0x74);
    v.push(0x75);
    v.push(0x72);
    v.push(0x65);
    proof {
        assert(v@ =~= sig_key());
    }
    v
}

/// The pairs left once every `oauth_signature` pair is removed.
pub open spec fn without_sig(pairs: Seq<(Seq<u8>, Seq<u8>)>) -> Seq<(Seq<u8>, Seq<u8>)>
    decreases pairs.len(),
{
    if pairs.len() == 0 {
        Seq::empty()
    } else if pairs[0].0 == sig_key() {
        without_sig(pairs.skip(1))
    } else {
        seq![pairs[0]] + without_sig(pairs.skip(1))
    }
}

/// The value of the first `oauth_signature` pair, if any.
pub open spec fn sig_of(pairs: Seq<(Seq<u8>, Seq<u8>)>) -> Option<Seq<u8>>
    decreases pairs.len(),
{
    if pairs.len() == 0 {
        None
    } else if pairs[0].0 == sig_key() {
        Some(pairs[0].1)
    } else {
        sig_of(pairs.skip(1))
    }
}

/// `key=value`, both sides percent-encoded.
pub open spec fn encoded_pair(p: (Seq<u8>, Seq<u8>)) -> Seq<u8> {
    percent_encoded(p.0) + seq![0x3du8] + percent_encoded(p.1)
}

/// The encoded pairs joined with `&`.
pub open spec fn param_string(pairs: Seq<(Seq<u8>, Seq<u8>)>) -> Seq<u8>
    decreases pairs.len(),
{
    if pairs.len() == 0 {
        Seq::empty()
    } else if pairs.len() == 1 {
        encoded_pair(pairs[0])
    } else {
        param_string(pairs.drop_last()) + seq![0x26u8] + encoded_pair(pairs.last())
    }
}

/// The sorted pairs of a raw parameter set, signature removed.
pub open spec fn normalized_pairs(raw: Seq<(Seq<u8>, Seq<u8>)>) -> Seq<(Seq<u8>, Seq<u8>)> {
    without_sig(raw.sort_by(pair_order()))
}

/// The signature value a raw parameter set carries, if any.
pub open spec fn extracted_signature(raw: Seq<(Seq<u8>, Seq<u8>)>) -> Option<Seq<u8>> {
    sig_of(raw.sort_by(pair_order()))
}

/// The normalized, encoded parameter string of a raw parameter set.
pub open spec fn normalized_string(raw: Seq<(Seq<u8>, Seq<u8>)>) -> Seq<u8> {
    param_string(normalized_pairs(raw))
}

/// What normalization yields: the extracted (still base64-encoded)
/// signature value, the remaining sorted pairs, and their encoded join.
pub struct Normalized {
    /// The raw `oauth_signature` value, still base64-encoded.
    pub signature: Vec<u8>,
    /// The sorted pairs, `oauth_signature` removed.
    pub pairs: Vec<(Vec<u8>, Vec<u8>)>,
    /// The percent-encoded `key=value` pairs joined with `&`.
    pub param_string: Vec<u8>,
}

/// Normalize a raw decoded parameter set: sort, extract and remove the
/// signature, and build the encoded parameter string. Fails exactly when
/// no `oauth_signature` parameter is present.
pub fn normalize(raw: Vec<(Vec<u8>, Vec<u8>)>) -> (r: Result<Normalized, LaunchError>)
    ensures
        r is Ok <==> extracted_signature(pairs_view(raw@)) is Some,
        r matches Ok(nm) ==> Some(nm.signature@) == extracted_signature(pairs_view(raw@))
            && pairs_view(nm.pairs@) == normalized_pairs(pairs_view(raw@)) && nm.param_string@
            == normalized_string(pairs_view(raw@)),
        r matches Err(e) ==> e == LaunchError::MissingSignature,
{
    let ghost rawv = pairs_view(raw@);
    let mut rest = sort_pairs(raw);
    let ghost sv = pairs_view(rest@);
    let key = sig_key_bytes();
    let mut kept: Vec<(Vec<u8>, Vec<u8>)> = Vec::new();
    let mut sig: Option<Vec<u8>> = None;
    proof {
        assert(pairs_view(kept@) =~= Seq::<(Seq<u8>, Seq<u8>)>::empty());
        assert(without_sig(sv) =~= pairs_view(kept@) + without_sig(pairs_view(rest@)));
    }
    while rest.len() > 0
        invariant
            key@ == sig_key(),
            without_sig(sv) =~= pairs_view(kept@) + without_sig(pairs_view(rest@)),
            sig is None ==> sig_of(sv) == sig_of(pairs_view(rest@)),
            sig matches Some(s) ==> sig_of(sv) == Some(s@),
        decreases rest@.len(),
    {
        let ghost old_rest = pairs_view(rest@);
        let ghost old_kept = pairs_view(kept@);
        let p = rest.remove(0);
        proof {
            assert(old_rest[0] == (p.0@, p.1@));
            assert(pairs_view(rest@) =~= old_rest.skip(1));
        }
        if eq_bytes(p.0.as_slice(), key.as_slice()) {
            if sig.is_none() {
                sig = Some(p.1);
            }
        } else {
            kept.push(p);
            proof {
                assert(pairs_view(kept@) =~= old_kept + seq![(p.0@, p.1@)]);
                assert(old_kept + seq![(p.0@, p.1@)] + without_sig(pairs_view(rest@)) =~= old_kept
                    + (seq![(p.0@, p.1@)] + without_sig(pairs_view(rest@))));
            }
        }
    }
    proof {
        assert(pairs_view(rest@) =~= Seq::<(Seq<u8>, Seq<u8>)>::empty());
        assert(without_sig(sv) =~= pairs_view(kept@));
    }
    let signature = match sig {
        Some(s) => s,
        None => {
            return Err(LaunchError::MissingSignature);
        },
    };
    // build the encoded parameter string from the kept pairs
    let mut ps: Vec<u8> = Vec::new();
    let n = kept.len();
    let ghost kv = pairs_view(kept@);
    proof {
        assert(kv.take(0) =~= Seq::<(Seq<u8>, Seq<u8>)>::empty());
    }
    for i in 0..n
        invariant
            n == kept@.len(),
            kv == pairs_view(kept@),
            ps@ =~= param_string(kv.take(i as int)),
    {
        if i > 0 {
            ps.push(0x26);
        }
        let pair = &kept[i];
        let ek = percent_encode(pair.0.as_slice());
        let ev = percent_encode(pair.1.as_slice());
        let ekn = ek.len();
        for m in 0..ekn
            invariant
                ekn == ek@.len(),
                ps@ =~= (if i > 0 {
                    param_string(kv.take(i as int)) + seq![0x26u8]
                } else {
                    param_string(kv.take(i as int))
                }) + ek@.take(m as int),
        {
            ps.push(ek[m]);
        }
        ps.push(0x3d);
        let evn = ev.len();
        for m in 0..evn
            invariant
                evn == ev@.len(),
                ps@ =~= (if i > 0 {
                    param_string(kv.take(i as int)) + seq![0x26u8]
                } else {
                    param_string(kv.take(i as int))
                }) + ek@ + seq![0x3du8] + ev@.take(m as int),
        {
            ps.push(ev[m]);
        }
        proof {
            assert(ek@.take(ekn as int) =~= ek@);
            assert(ev@.take(evn as int) =~= ev@);
            assert(kv.take(i + 1).drop_last() =~= kv.take(i as int));
            assert(kv.take(i + 1).last() == kv[i as int]);
            assert(encoded_pair(kv[i as int]) == percent_encoded(pair.0@) + seq![0x3du8]
                + percent_encoded(pair.1@));
            if i == 0 {
                assert(param_string(kv.take(1)) == encoded_pair(kv[0]));
                assert(ps@ =~= param_string(kv.take(i + 1)));
            } else {
                assert(param_string(kv.take(i + 1)) == param_string(kv.take(i as int))
                    + seq![0x26u8] + encoded_pair(kv[i as int]));
                assert(ps@ =~= param_string(kv.take(i + 1)));
            }
        }
    }
    proof {
        assert(kv.take(n as int) =~= kv);
    }
    Ok(Normalized { signature, pairs: kept, param_string: ps })
}

/// Two parameter sets holding the same pairs, in any textual order,
/// normalize identically: same extracted signature, same remaining
/// pairs, and the identical encoded parameter string.
pub proof fn lemma_order_insensitive(p1: Seq<(Seq<u8>, Seq<u8>)>, p2: Seq<(Seq<u8>, Seq<u8>)>)
    requires
        p1.to_multiset() == p2.to_multiset(),
    ensures
        extracted_signature(p1) == extracted_signature(p2),
        normalized_pairs(p1) == normalized_pairs(p2),
        normalized_string(p1) == normalized_string(p2),
{
    lemma_pair_order_total();
    p1.lemma_sort_by_ensures(pair_order());
    p2.lemma_sort_by_ensures(pair_order());
    lemma_sorted_unique(p1.sort_by(pair_order()), p2.sort_by(pair_order()), pair_order());
}

proof fn lemma_without_sig_utf8(s: Seq<(Seq<u8>, Seq<u8>)>)
    requires
        crate::form::pairs_utf8(s),
    ensures
        crate::form::pairs_utf8(without_sig(s)),
    decreases s.len(),
{
    if s.len() > 0 {
        assert forall|i: int| 0 <= i < s.skip(1).len() implies valid_utf8(
            #[trigger] s.skip(1)[i].0,
        ) && valid_utf8(s.skip(1)[i].1) by {
            assert(s.skip(1)[i] == s[i + 1]);
        }
        lemma_without_sig_utf8(s.skip(1));
        if s[0].0 != sig_key() {
            let w = without_sig(s);
            assert forall|i: int| 0 <= i < w.len() implies valid_utf8(#[trigger] w[i].0)
                && valid_utf8(w[i].1) by {
                if i == 0 {
                    assert(w[0] == s[0]);
                } else {
                    assert(w[i] == without_sig(s.skip(1))[i - 1]);
                }
            }
        }
    }
}

/// UTF-8 validity of the keys and values survives normalization: the
/// sorted pairs with the signature removed still hold UTF-8 text.
pub proof fn lemma_normalized_pairs_utf8(raw: Seq<(Seq<u8>, Seq<u8>)>)
    requires
        crate::form::pairs_utf8(raw),
    ensures
        crate::form::pairs_utf8(normalized_pairs(raw)),
{
    lemma_pair_order_total();
    raw.lemma_sort_by_ensures(pair_order());
    let s = raw.sort_by(pair_order());
    assert forall|i: int| 0 <= i < s.len() implies valid_utf8(#[trigger] s[i].0) && valid_utf8(
        s[i].1,
    ) by {
        assert(s.to_multiset().count(s[i]) > 0);
        assert(raw.to_multiset().count(s[i]) > 0);
        assert(raw.contains(s[i]));
        let j = choose|j: int| 0 <= j < raw.len() && raw[j] == s[i];
        assert(valid_utf8(raw[j].0) && valid_utf8(raw[j].1));
    }
    lemma_without_sig_utf8(s);
}

} // verus!
