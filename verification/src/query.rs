//! Resolving a connection-upgrade request: room identifier and display
//! name from the raw query string.
//!
//! The query string is parsed into key/value pairs by an outside parser
//! behind a trusted wrapper; everything after that — which key counts,
//! the first-occurrence rule, the anonymous default name, and when the
//! request is rejected — is verified here.

use vstd::prelude::*;

use crate::message::RoomId;
use vstd::string::StringExecFns;

verus! {

/// What `serde_urlencoded` parses the query string into: the key/value
/// pairs in order, or nothing for a malformed query. A pure function of
/// the characters alone.
pub uninterp spec fn parsed_query(s: Seq<char>) -> Option<Seq<(Seq<char>, Seq<char>)>>;

/// What `uuid` parses a textual room identifier into: the 128-bit value,
/// or nothing for a malformed identifier. A pure function of the
/// characters alone.
pub uninterp spec fn parsed_uuid(s: Seq<char>) -> Option<u128>;

/// Relies on `serde_urlencoded::from_str`: it deserializes an
/// `application/x-www-form-urlencoded` string into the key/value pairs
/// in order, or fails; the outcome depends on the input alone.
#[verifier::external_body]
fn parse_query_pairs(s: &str) -> (r: Option<Vec<(String, String)>>)
    ensures
        match r {
            Some(v) => parsed_query(s@) == Some(v.deep_view()),
            None => parsed_query(s@) is None,
        },
{
    serde_urlencoded::from_str::<Vec<(String, String)>>(s).ok()
}

/// Relies on `uuid::Uuid::parse_str` and `Uuid::as_u128`: parsing accepts
/// the textual UUID forms and yields the 128-bit value; the outcome
/// depends on the input alone.
#[verifier::external_body]
fn parse_uuid_raw(s: &str) -> (r: Option<u128>)
    ensures
        r == parsed_uuid(s@),
{
    match uuid::Uuid::parse_str(s) {
        Ok(u) => Some(u.as_u128()),
        Err(_) => None,
    }
}

/// The value of the first pair with this key, if any.
pub open spec fn lookup(pairs: Seq<(Seq<char>, Seq<char>)>, key: Seq<char>) -> Option<Seq<char>>
    decreases pairs.len(),
{
    if pairs.len() == 0 {
        None
    } else if pairs[0].0 == key {
        Some(pairs[0].1)
    } else {
        lookup(pairs.drop_first(), key)
    }
}

/// The display name resolved from the parsed pairs: the first `username`
/// value, or the anonymous placeholder `guest` when absent.
pub open spec fn spec_identity(pairs: Seq<(Seq<char>, Seq<char>)>) -> Seq<char> {
    match lookup(pairs, "username"@) {
        Some(n) => n,
        None => "guest"@,
    }
}

/// Why a connection-upgrade request was rejected.
#[derive(Clone, Copy, PartialEq, Eq, Structural, Debug)]
pub enum QueryError {
    /// The query string itself does not parse.
    BadQuery,
    /// The `roomId` parameter is missing or not a valid identifier.
    BadRoom,
}

/// What a session starts from: the resolved room and display name.
#[derive(Debug)]
pub struct SessionParams {
    pub room: RoomId,
    pub name: String,
}

// the value of the first pair with this key, as owned text
fn lookup_value(pairs: &Vec<(String, String)>, key: &String) -> (r: Option<String>)
    ensures
        match r {
            Some(v) => lookup(pairs.deep_view(), key@) == Some(v@),
            None => lookup(pairs.deep_view(), key@) is None,
        },
{
    let n = pairs.len();
    let mut i: usize = 0;
    proof {
        assert(pairs.deep_view().skip(0) =~= pairs.deep_view());
    }
    while i < n
        invariant
            n == pairs@.len(),
            i <= n,
            pairs.deep_view().len() == n,
            lookup(pairs.deep_view(), key@) == lookup(pairs.deep_view().skip(i as int), key@),
        decreases n - i,
    {
        let ghost suffix = pairs.deep_view().skip(i as int);
        proof {
            assert(suffix.len() == n - i);
            assert(suffix[0] == pairs.deep_view()[i as int]);
            assert(suffix.drop_first() =~= pairs.deep_view().skip(i as int + 1));
        }
        if pairs[i].0 == *key {
            let v = pairs[i].1.clone();
            proof {
                assert(pairs.deep_view()[i as int].0 == key@);
                assert(lookup(suffix, key@) == Some(suffix[0].1));
                assert(suffix[0].1 == v@);
            }
            return Some(v);
        }
        proof {
            assert(pairs.deep_view()[i as int].0 != key@);
        }
        i += 1;
    }
    proof {
        assert(pairs.deep_view().skip(n as int) =~= Seq::<(Seq<char>, Seq<char>)>::empty());
    }
    None
}

/// Resolve room and display name from the raw query string of a
/// connection-upgrade request.
///
/// A malformed query string is a client error; so is a missing or
/// malformed `roomId` (it is never treated as some default room). A
/// missing `username` is not an error: the name defaults to the anonymous
/// placeholder `guest`.
pub fn resolve_request(query: &str) -> (r: Result<SessionParams, QueryError>)
    ensures
        match parsed_query(query@) {
            None => r == Result::<SessionParams, QueryError>::Err(QueryError::BadQuery),
            Some(pairs) => match lookup(pairs, "roomId"@) {
                None => r == Result::<SessionParams, QueryError>::Err(QueryError::BadRoom),
                Some(raw) => match parsed_uuid(raw) {
                    None => r == Result::<SessionParams, QueryError>::Err(QueryError::BadRoom),
                    Some(v) => r matches Ok(p) && p.room == (RoomId { raw: v }) && p.name@
                        == spec_identity(pairs),
                },
            },
        },
{
    match parse_query_pairs(query) {
        None => Err(QueryError::BadQuery),
        Some(pairs) => {
            let room_key = String::from_str("roomId");
            match lookup_value(&pairs, &room_key) {
                None => Err(QueryError::BadRoom),
                Some(raw) => match parse_uuid_raw(raw.as_str()) {
                    None => Err(QueryError::BadRoom),
                    Some(v) => {
                        let name_key = String::from_str("username");
                        let name = match lookup_value(&pairs, &name_key) {
                            Some(n) => n,
                            None => String::from_str("guest"),
                        };
                        Ok(SessionParams { room: RoomId { raw: v }, name })
                    },
                },
            }
        },
    }
}

} // verus!
