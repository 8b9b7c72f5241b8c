//! The transposition cache: a mapping from canonical board keys to explored
//! outcomes, alive for one top-level solve call.
//!
//! The map itself is hashbrown's hash table, held behind a small trusted
//! surface: the contents are named by `cache_entries`, and each wrapper
//! states over that name what hashbrown's documentation promises of the
//! call it makes.

use vstd::prelude::*;
use crate::basic::Token;

verus! {

/// A transposition cache from canonical 64-bit board keys to encoded
/// outcomes.
#[verifier::external_body]
pub struct OutcomeCache {
    map: hashbrown::HashMap<u64, u8>,
}

/// What the cache holds: a map from each stored key to its stored value.
pub uninterp spec fn cache_entries(c: OutcomeCache) -> Map<u64, u8>;

/// Relies on hashbrown::HashMap::new: a freshly created map is empty.
#[verifier::external_body]
pub fn cache_new() -> (c: OutcomeCache)
    ensures
        forall|k: u64| !cache_entries(c).contains_key(k),
{
    OutcomeCache { map: hashbrown::HashMap::new() }
}

/// Relies on hashbrown::HashMap::get: returns the value stored under the
/// key, or None if the key is absent.
#[verifier::external_body]
pub fn cache_get(c: &OutcomeCache, k: u64) -> (r: Option<u8>)
    ensures
        r == (if cache_entries(*c).contains_key(k) {
            Some(cache_entries(*c)[k])
        } else {
            None::<u8>
        }),
{
    c.map.get(&k).copied()
}

/// Relies on hashbrown::HashMap::insert: stores the value under the key,
/// replacing any earlier value.
#[verifier::external_body]
pub fn cache_insert(c: &mut OutcomeCache, k: u64, v: u8)
    ensures
        cache_entries(*final(c)) == cache_entries(*old(c)).insert(k, v),
{
    c.map.insert(k, v);
}

/// The encoding of a search outcome as a cache byte.
pub open spec fn decode_outcome(v: u8) -> Option<Token> {
    if v == 1 {
        Some(Token::Yellow)
    } else if v == 2 {
        Some(Token::Red)
    } else {
        None
    }
}

/// Encodes a search outcome as a cache byte.
pub fn encode_outcome(o: Option<Token>) -> (v: u8)
    ensures
        decode_outcome(v) == o,
{
    match o {
        None => 0,
        Some(Token::Yellow) => 1,
        Some(Token::Red) => 2,
    }
}

/// Decodes a cache byte back to the outcome it stands for.
pub fn outcome_of_code(v: u8) -> (o: Option<Token>)
    ensures
        o == decode_outcome(v),
{
    if v == 1 {
        Some(Token::Yellow)
    } else if v == 2 {
        Some(Token::Red)
    } else {
        None
    }
}

} // verus!
