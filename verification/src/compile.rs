//! The multi-level table compiler: from the dense width array to the three
//! tiers of the lookup table.

use vstd::prelude::*;
use std::collections::HashSet;
use ucd_trie::TrieSetOwned;
use crate::bucket::{sorted_by_codepoint, BucketView, Entry};
use crate::flat::lemma_compiled_is_flat;
use crate::roundtrip::lemma_first_tier_fits;
pub use crate::width::NUM_CODEPOINTS;
use crate::width::MAX_WIDTH;
use crate::table::{group_views, table_of, Table, TableView};
use crate::trie::{trie_fits, trie_from_codepoints, trie_members, TrieError, MAX_CODEPOINT};

verus! {

/// Number of bits of the largest codepoint.
pub const MAX_CODEPOINT_BITS: u32 = 21;

/// The width-class byte of a codepoint that no rule has touched.
pub const UNSET: u8 = 0xFF;

/// The dense width array, one width class per codepoint, and the set of
/// codepoints whose width a variation selector can change.
pub struct CodePointData {
    pub widths: Vec<u8>,
    pub emoji_variations: HashSet<u32>,
}

/// Why compiled tables could not be emitted.
#[derive(Debug, Clone, Copy, PartialEq, Eq, Structural)]
pub enum CompileError {
    /// A tier that is emitted as bucket indices has an index that does not
    /// fit in a byte: the tier, 0 or 1.
    TooManyBuckets(u8),
    /// The last tier has an entry whose bucket does not stand for one width
    /// class.
    NotFlat,
    /// The variation set holds this value, which is larger than the largest
    /// codepoint.
    InvalidCodepoint(u32),
    /// The variation set could not be compressed into a trie.
    TrieGaveUp,
}

/// The three tiers of the lookup table, from the top bits down.
pub struct TierTables {
    pub tier_0: Table,
    pub tier_1: Table,
    pub tier_2: Table,
}

/// The width that a dense-array byte stands for: a codepoint that no rule
/// has touched is narrow.
pub open spec fn clamp_width(width: u8) -> u8 {
    if width == UNSET {
        1
    } else {
        width
    }
}

/// The dense array as entries: each codepoint with its clamped width, in
/// ascending order.
pub open spec fn clamped_entries(widths: Seq<u8>) -> Seq<Entry> {
    Seq::new(widths.len(), |i: int| (i as u32, clamp_width(widths[i])))
}

/// `group` holds the members of `bucket` in ascending order of codepoint.
pub open spec fn is_sorted_group(bucket: BucketView, group: Seq<Entry>) -> bool {
    group.to_multiset() == bucket.codepoints.to_multiset() && sorted_by_codepoint(group)
}

/// `groups` holds, for each bucket of the tier, its members in ascending
/// order of codepoint: what the next tier is built from.
pub open spec fn groups_of(t: TableView, groups: Seq<Seq<Entry>>) -> bool {
    &&& groups.len() == t.buckets.len()
    &&& forall|m: int| 0 <= m < groups.len() ==> is_sorted_group(t.buckets[m], #[trigger] groups[m])
}

/// The three tiers are what the compiler builds from the dense array: the
/// first on bits 13..21 of all codepoints, each of the others on the next
/// bits of the sorted members of the buckets of the tier before.
pub open spec fn compiled_from(widths: Seq<u8>, t0: TableView, t1: TableView, t2: TableView) -> bool {
    &&& t0 == table_of(seq![clamped_entries(widths)], 13, MAX_CODEPOINT_BITS)
    &&& exists|groups: Seq<Seq<Entry>>| #[trigger]
        groups_of(t0, groups) && t1 == table_of(groups, 6, 13)
    &&& exists|groups: Seq<Seq<Entry>>| #[trigger]
        groups_of(t1, groups) && t2 == table_of(groups, 0, 6)
}

/// A dense width array: for each codepoint a width class, or the mark of a
/// codepoint that no rule has touched.
pub open spec fn is_dense_array(widths: Seq<u8>) -> bool {
    &&& widths.len() == NUM_CODEPOINTS
    &&& forall|i: int| 0 <= i < widths.len() ==> clamp_width(#[trigger] widths[i]) <= MAX_WIDTH
}

impl CodePointData {
    /// The dense array covers the codepoint space and holds width classes.
    pub open spec fn wf(&self) -> bool {
        is_dense_array(self.widths@)
    }

    /// Compresses the dense width array into the three tiers. The first
    /// tier never has more buckets than a byte can name, and the last is
    /// always flat.
    pub fn compress_widths(&self) -> (tiers: TierTables)
        requires
            self.wf(),
        ensures
            compiled_from(self.widths@, tiers.tier_0@, tiers.tier_1@, tiers.tier_2@),
            tiers.tier_0@.fits_bytes(),
            tiers.tier_2@.is_flat(),
    {
        let mut entries: Vec<Entry> = Vec::with_capacity(NUM_CODEPOINTS);
        let mut i: usize = 0;
        while i < self.widths.len()
            invariant
                i <= self.widths.len(),
                self.widths.len() == NUM_CODEPOINTS,
                entries@ == clamped_entries(self.widths@.take(i as int)),
            decreases self.widths.len() - i,
        {
            let width: u8 = if self.widths[i] == UNSET {
                1
            } else {
                self.widths[i]
            };
            entries.push((i as u32, width));
            assert(entries@ =~= clamped_entries(self.widths@.take(i + 1)));
            i += 1;
        }
        assert(self.widths@.take(self.widths.len() as int) =~= self.widths@);
        let mut groups: Vec<Vec<Entry>> = Vec::new();
        groups.push(entries);
        assert(group_views(groups@) =~= seq![clamped_entries(self.widths@)]);
        let tier_0 = Table::new(groups.as_slice(), 13, MAX_CODEPOINT_BITS);
        let groups = sorted_groups(&tier_0);
        let tier_1 = Table::new(groups.as_slice(), 6, 13);
        let groups = sorted_groups(&tier_1);
        let tier_2 = Table::new(groups.as_slice(), 0, 6);
        proof {
            lemma_first_tier_fits(self.widths@, tier_0@, tier_1@, tier_2@);
            lemma_compiled_is_flat(self.widths@, tier_0@, tier_1@, tier_2@);
        }
        TierTables { tier_0, tier_1, tier_2 }
    }

    /// Compresses the set of variation-sensitive emoji into a trie set.
    pub fn compress_emoji_variations(&self) -> (r: Result<TrieSetOwned, CompileError>)
        ensures
            match r {
                Ok(t) => {
                    &&& trie_members(t) == self.emoji_variations@
                    &&& trie_fits(self.emoji_variations@)
                    &&& forall|cp: u32| self.emoji_variations@.contains(cp) ==> cp <= MAX_CODEPOINT
                },
                Err(CompileError::InvalidCodepoint(cp)) => self.emoji_variations@.contains(cp) && cp
                    > MAX_CODEPOINT,
                Err(CompileError::TrieGaveUp) => {
                    &&& !trie_fits(self.emoji_variations@)
                    &&& forall|cp: u32| self.emoji_variations@.contains(cp) ==> cp <= MAX_CODEPOINT
                },
                Err(_) => false,
            },
    {
        match trie_from_codepoints(&self.emoji_variations) {
            Ok(t) => Ok(t),
            Err(TrieError::InvalidCodepoint(cp)) => Err(CompileError::InvalidCodepoint(cp)),
            Err(TrieError::GaveUp) => Err(CompileError::TrieGaveUp),
        }
    }
}

/// The members of each bucket of a tier, in ascending order of codepoint.
fn sorted_groups(table: &Table) -> (groups: Vec<Vec<Entry>>)
    ensures
        groups_of(table@, group_views(groups@)),
{
    let mut groups: Vec<Vec<Entry>> = Vec::with_capacity(table.buckets.len());
    let mut m: usize = 0;
    while m < table.buckets.len()
        invariant
            m <= table.buckets.len(),
            groups.len() == m,
            forall|j: int| 0 <= j < m ==> is_sorted_group(table.buckets@[j]@, #[trigger] groups@[j]@),
        decreases table.buckets.len() - m,
    {
        groups.push(table.buckets[m].codepoints());
        m += 1;
    }
    assert forall|j: int| 0 <= j < group_views(groups@).len() implies is_sorted_group(
        table@.buckets[j],
        #[trigger] group_views(groups@)[j],
    ) by {
        assert(group_views(groups@)[j] == groups@[j]@);
    }
    groups
}

} // verus!
