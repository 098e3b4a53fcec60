//! The 40-bit name hash that addresses struct fields and hashed values.
use vstd::prelude::*;

verus! {

/// The hash40 of a string: a CRC-32 of its ASCII-lowercased bytes, with the
/// byte length in the next eight bits.
pub uninterp spec fn hash40_of(s: Seq<char>) -> u64;

/// Relies on `hash40::hash40`, which depends on the string alone.
#[verifier::external_body]
pub(crate) fn hash_str(s: &str) -> (r: u64)
    ensures
        r == hash40_of(s@),
{
    hash40::hash40(s).0
}

} // verus!
