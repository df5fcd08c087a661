//! The compressed codepoint set of the `ucd_trie` crate, as the resolver and
//! the compiler see it: an opaque value whose members are a set of `u32`.

use vstd::prelude::*;
use std::collections::HashSet;
use ucd_trie::TrieSetOwned;

verus! {

/// `ucd_trie::TrieSetOwned`, a set of codepoints in compressed form. What
/// is inside a value is not looked at here.
#[verifier::external_type_specification]
#[verifier::external_body]
pub struct ExTrieSetOwned(ucd_trie::TrieSetOwned);

/// The codepoints that a trie set holds.
pub uninterp spec fn trie_members(t: TrieSetOwned) -> Set<u32>;

/// Whether a set of codepoints can be compressed into a trie set: whether
/// the levels of the trie get by with the 256 distinct chunks that a byte
/// can name.
pub uninterp spec fn trie_fits(codepoints: Set<u32>) -> bool;

/// Why a trie set could not be built.
#[derive(Debug, Clone, Copy, PartialEq, Eq, Structural)]
pub enum TrieError {
    /// The set holds this value, which is larger than the largest
    /// codepoint.
    InvalidCodepoint(u32),
    /// The set could not be compressed into a trie.
    GaveUp,
}

/// The largest codepoint.
pub const MAX_CODEPOINT: u32 = 0x10FFFF;

/// `TrieSetOwned::contains_char` answers membership of the scalar value in
/// the set that the trie was built from.
pub assume_specification[ TrieSetOwned::contains_char ](t: &TrieSetOwned, c: char) -> (r: bool)
    ensures
        r == trie_members(*t).contains(c as u32),
;

/// `TrieSetOwned::from_codepoints` on the members of a set. It refuses a
/// set with a member above the largest codepoint, and names one such
/// member; of any other set it builds the trie set with exactly those
/// members, unless the set cannot be compressed.
#[verifier::external_body]
pub(crate) fn trie_from_codepoints(codepoints: &HashSet<u32>) -> (r: Result<TrieSetOwned, TrieError>)
    ensures
        match r {
            Ok(t) => {
                &&& trie_members(t) == codepoints@
                &&& trie_fits(codepoints@)
                &&& forall|cp: u32| codepoints@.contains(cp) ==> cp <= MAX_CODEPOINT
            },
            Err(TrieError::InvalidCodepoint(cp)) => codepoints@.contains(cp) && cp > MAX_CODEPOINT,
            Err(TrieError::GaveUp) => {
                &&& !trie_fits(codepoints@)
                &&& forall|cp: u32| codepoints@.contains(cp) ==> cp <= MAX_CODEPOINT
            },
        },
{
    match TrieSetOwned::from_codepoints(codepoints.iter()) {
        Ok(t) => Ok(t),
        Err(ucd_trie::Error::InvalidCodepoint(cp)) => Err(TrieError::InvalidCodepoint(cp)),
        Err(ucd_trie::Error::GaveUp) => Err(TrieError::GaveUp),
    }
}

} // verus!
