//! Session Establisher: once a launch request verifies, the launching
//! user's full display name is extracted from the parameter set and a
//! session value with a zeroed visit counter is produced. The caller
//! owns the session from then on; advancing the counter on a later
//! visit is the one further operation offered here.

use crate::form::pairs_utf8;
use crate::form::pairs_view;
use crate::form::utf8_to_string;
use crate::params::eq_bytes;
use crate::LaunchError;
use vstd::prelude::*;
use vstd::utf8::decode_utf8;
use vstd::utf8::valid_utf8;

verus! {

/// The bytes of the key `lis_person_name_full`, the launch attribute
/// holding the user's full display name.
pub open spec fn name_key() -> Seq<u8> {
    seq![
        0x6cu8,
        0x69,
        0x73,
        0x5f,
        0x70,
        0x65,
        0x72,
        0x73,
        0x6f,
        0x6e,
        0x5f,
        0x6e,
        0x61,
        0x6d,
        0x65,
        0x5f,
        0x66,
        0x75,
        0x6c,
        0x6c,
    ]
}

fn name_key_bytes() -> (r: Vec<u8>)
    ensures
        r@ == name_key(),
{
    let mut v: Vec<u8> = Vec::new();
    v.push(0x6c);
    v.push(0x69);
    v.push(0x73);
    v.push(0x5f);
    v.push(0x70);
    v.push(0x65);
    v.push(0x72);
    v.push(0x73);
    v.push(0x6f);
    v.push(0x6e);
    v.push(0x5f);
    v.push(0x6e);
    v.push(0x61);
    v.push(0x6d);
    v.push(0x65);
    v.push(0x5f);
    v.push(0x66);
    v.push(0x75);
    v.push(0x6c);
    v.push(0x6c);
    proof {
        assert(v@ =~= name_key());
    }
    v
}

/// The value under the first occurrence of a key, if any.
pub open spec fn lookup(pairs: Seq<(Seq<u8>, Seq<u8>)>, key: Seq<u8>) -> Option<Seq<u8>>
    decreases pairs.len(),
{
    if pairs.len() == 0 {
        None
    } else if pairs[0].0 == key {
        Some(pairs[0].1)
    } else {
        lookup(pairs.skip(1), key)
    }
}

/// An authenticated session: the launching user's display name and a
/// visit counter, zero when the session is established.
pub struct Session {
    /// The user's full display name, from `lis_person_name_full`.
    pub display_name: String,
    /// How many authenticated visits the session has seen.
    pub visit_count: u64,
}

/// Establish a session from the verified parameter set: the display
/// name is extracted and the counter starts at zero. Fails exactly when
/// the display-name attribute is absent.
#[verifier::loop_isolation(false)]
pub fn establish(params: &Vec<(Vec<u8>, Vec<u8>)>) -> (r: Result<Session, LaunchError>)
    requires
        pairs_utf8(pairs_view(params@)),
    ensures
        r is Ok <==> lookup(pairs_view(params@), name_key()) is Some,
        r matches Ok(s) ==> lookup(pairs_view(params@), name_key()) matches Some(nm)
            && s.display_name@ == decode_utf8(nm) && s.visit_count == 0,
        r matches Err(e) ==> e == LaunchError::MissingRequiredAttribute,
{
    let key = name_key_bytes();
    let ghost pv = pairs_view(params@);
    let n = params.len();
    proof {
        assert(pv.skip(0) =~= pv);
    }
    for i in 0..n
        invariant
            n == params@.len(),
            key@ == name_key(),
            lookup(pv, name_key()) == lookup(pv.skip(i as int), name_key()),
    {
        proof {
            assert(pv.skip(i as int)[0] == pv[i as int]);
            assert(pv[i as int] == (params@[i as int].0@, params@[i as int].1@));
            assert(pv.skip(i as int).skip(1) =~= pv.skip(i as int + 1));
        }
        let p = &params[i];
        if eq_bytes(p.0.as_slice(), key.as_slice()) {
            proof {
                assert(lookup(pv, name_key()) == Some(p.1@));
                assert(valid_utf8(pv[i as int].1));
            }
            let name = utf8_to_string(p.1.as_slice()).unwrap();
            return Ok(Session { display_name: name, visit_count: 0 });
        }
    }
    proof {
        assert(pv.skip(n as int) =~= Seq::<(Seq<u8>, Seq<u8>)>::empty());
    }
    Err(LaunchError::MissingRequiredAttribute)
}

/// Advance the visit counter of an established session by one; the
/// display name is kept as it is.
pub fn increment(s: Session) -> (r: Session)
    requires
        s.visit_count < u64::MAX,
    ensures
        r.display_name == s.display_name,
        r.visit_count == s.visit_count + 1,
{
    Session { display_name: s.display_name, visit_count: s.visit_count + 1 }
}

} // verus!
