//! The runtime width resolver: constant-time lookups in the compiled tables.

use vstd::prelude::*;
use vstd::utf8::{encode_scalar, encode_utf8};
use ucd_trie::TrieSetOwned;
use crate::trie::trie_members;

verus! {

/// Selects how emoji variation selectors affect widths.
///
/// The tables always describe the newest Unicode version they were compiled
/// from; what differs between terminal emulators is whether a variation
/// selector may switch an emoji between text and emoji presentation.
#[derive(Debug, Clone, Copy, PartialEq, Eq, Structural, PartialOrd, Ord, Hash)]
pub enum UnicodeCompat {
    /// Variation selectors never change the width of the preceding
    /// codepoint. This matches most terminal emulators.
    Unicode9,
    /// A variation selector that follows a variation-sensitive emoji picks
    /// text presentation (one column) or emoji presentation (two columns).
    Unicode14,
}

impl Default for UnicodeCompat {
    fn default() -> (r: UnicodeCompat)
        ensures
            r == UnicodeCompat::Unicode9,
    {
        UnicodeCompat::Unicode9
    }
}

/// Number of codepoints: `0..0x110000`.
pub const NUM_CODEPOINTS: usize = 0x110000;

/// The largest width class.
pub const MAX_WIDTH: u8 = 2;

/// Number of entries of the first tier: one per value of bits 13..21.
pub const TIER_0_LEN: usize = 256;

/// Entries per sub-table of the second tier: one per value of bits 6..13.
pub const TIER_1_BLOCK: usize = 128;

/// Bytes per sub-table of the third tier: 64 two-bit widths, four per byte.
pub const TIER_2_BLOCK: usize = 16;

/// U+FE0E, the selector that asks for text presentation.
pub const TEXT_SELECTOR: char = '\u{FE0E}';

/// U+FE0F, the selector that asks for emoji presentation.
pub const EMOJI_SELECTOR: char = '\u{FE0F}';

/// Length in bytes of an encoded variation selector.
pub const SELECTOR_LEN: usize = 3;

/// Width of an ASCII codepoint: 0 for the C0 controls and DEL, else 1.
pub open spec fn ascii_width(cp: u32) -> u8 {
    if cp < 0x20 || cp == 0x7F {
        0
    } else {
        1
    }
}

/// The mathematical content of a set of compiled tables.
pub struct TablesView {
    pub version: (u8, u8, u8),
    pub table_0: Seq<u8>,
    pub table_1: Seq<u8>,
    pub table_2: Seq<u8>,
    pub variations: Set<u32>,
}

/// The two-bit width stored in slot `slot` (0 to 3) of a packed byte.
pub open spec fn unpack(packed: u8, slot: u32) -> u8 {
    if slot == 0 {
        packed & 0b11
    } else if slot == 1 {
        (packed >> 2) & 0b11
    } else if slot == 2 {
        (packed >> 4) & 0b11
    } else {
        (packed >> 6) & 0b11
    }
}

/// Index into the first tier: bits 13..21 of the codepoint.
pub open spec fn tier_0_index(cp: u32) -> int {
    ((cp >> 13) & 0xFF) as int
}

/// Index into a second-tier sub-table: bits 6..13 of the codepoint.
pub open spec fn tier_1_index(cp: u32) -> int {
    ((cp >> 6) & 0x7F) as int
}

/// Index into a third-tier sub-table: bits 2..6 of the codepoint.
pub open spec fn tier_2_index(cp: u32) -> int {
    ((cp >> 2) & 0xF) as int
}

/// Every walk through the three tiers stays in bounds, and no packed slot
/// holds the unused value 3.
pub open spec fn tiers_wf(t0: Seq<u8>, t1: Seq<u8>, t2: Seq<u8>) -> bool {
    &&& t0.len() == TIER_0_LEN
    &&& forall|i: int|
        0 <= i < t0.len() ==> TIER_1_BLOCK * (#[trigger] t0[i] as int) + TIER_1_BLOCK <= t1.len()
    &&& forall|j: int|
        0 <= j < t1.len() ==> TIER_2_BLOCK * (#[trigger] t1[j] as int) + TIER_2_BLOCK <= t2.len()
    &&& forall|k: int, slot: u32|
        0 <= k < t2.len() && slot < 4 ==> #[trigger] unpack(t2[k], slot) <= MAX_WIDTH
}

/// The width that the three tiers record for a codepoint.
pub open spec fn tier_width(t0: Seq<u8>, t1: Seq<u8>, t2: Seq<u8>, cp: u32) -> u8 {
    let sub_1 = t0[tier_0_index(cp)] as int;
    let sub_2 = t1[TIER_1_BLOCK * sub_1 + tier_1_index(cp)] as int;
    unpack(t2[TIER_2_BLOCK * sub_2 + tier_2_index(cp)], cp & 0b11)
}

impl TablesView {
    /// The tables are well formed.
    pub open spec fn wf(self) -> bool {
        tiers_wf(self.table_0, self.table_1, self.table_2)
    }

    /// The table width of a codepoint.
    pub open spec fn table_width(self, cp: u32) -> u8 {
        tier_width(self.table_0, self.table_1, self.table_2, cp)
    }

    /// Width of a single character when no variation selector is consulted.
    pub open spec fn char_width(self, c: char) -> u8 {
        if (c as u32) < 0x80 {
            ascii_width(c as u32)
        } else {
            self.table_width(c as u32)
        }
    }

    /// The width that a variation selector at the head of `rest` forces on
    /// `c`, if `c` is variation sensitive and such a selector is there.
    pub open spec fn selector_override(self, c: char, rest: Seq<char>) -> Option<u8> {
        if (c as u32) >= 0x80 && self.variations.contains(c as u32) && rest.len() > 0 {
            if rest[0] == TEXT_SELECTOR {
                Some(1u8)
            } else if rest[0] == EMOJI_SELECTOR {
                Some(2u8)
            } else {
                None
            }
        } else {
            None
        }
    }

    /// True if, under `mode`, `c` followed by `rest` takes a selector with it.
    pub open spec fn consumes_selector(self, c: char, rest: Seq<char>, mode: UnicodeCompat) -> bool {
        mode == UnicodeCompat::Unicode14 && self.selector_override(c, rest) is Some
    }

    /// Width of `c` when it is followed by `rest`, under `mode`.
    pub open spec fn unit_width(self, c: char, rest: Seq<char>, mode: UnicodeCompat) -> u8 {
        if self.consumes_selector(c, rest, mode) {
            self.selector_override(c, rest)->0
        } else {
            self.char_width(c)
        }
    }

    /// Total width of `s[from..]`, scored unit by unit from the left. A
    /// selector that is consumed by the codepoint before it is not scored.
    pub open spec fn width_from(self, s: Seq<char>, from: int, mode: UnicodeCompat) -> nat
        decreases s.len() - from,
    {
        if from < 0 || from >= s.len() {
            0
        } else if self.consumes_selector(s[from], s.skip(from + 1), mode) {
            self.unit_width(s[from], s.skip(from + 1), mode) as nat + self.width_from(
                s,
                from + 2,
                mode,
            )
        } else {
            self.char_width(s[from]) as nat + self.width_from(s, from + 1, mode)
        }
    }

    /// Total width of a text that is not segmented into clusters.
    pub open spec fn text_width(self, s: Seq<char>, mode: UnicodeCompat) -> nat {
        self.width_from(s, 0, mode)
    }

    /// Sum of the widths in a cluster: the selector rule applies to the
    /// first codepoint only, the others are scored by themselves.
    pub open spec fn cluster_sum(self, s: Seq<char>, mode: UnicodeCompat) -> nat {
        if s.len() == 0 {
            0
        } else if self.consumes_selector(s[0], s.skip(1), mode) {
            self.unit_width(s[0], s.skip(1), mode) as nat + self.width_from(
                s,
                2,
                UnicodeCompat::Unicode9,
            )
        } else {
            self.char_width(s[0]) as nat + self.width_from(s, 1, UnicodeCompat::Unicode9)
        }
    }

    /// Width of a grapheme cluster: the cluster sum, at most 2.
    pub open spec fn grapheme_width(self, s: Seq<char>, mode: UnicodeCompat) -> nat {
        if self.cluster_sum(s, mode) > 2 {
            2
        } else {
            self.cluster_sum(s, mode)
        }
    }

    /// Width of a grapheme cluster for callers that need every cluster to
    /// take up room: the grapheme width, at least 1.
    pub open spec fn grapheme_width_non_zero(self, s: Seq<char>, mode: UnicodeCompat) -> nat {
        if self.grapheme_width(s, mode) < 1 {
            1
        } else {
            self.grapheme_width(s, mode)
        }
    }
}

/// In well-formed tables the walk through the tiers stays in bounds and ends
/// at a width class.
pub proof fn lemma_tier_walk(v: TablesView, cp: u32)
    requires
        v.wf(),
    ensures
        0 <= tier_0_index(cp) < v.table_0.len(),
        0 <= TIER_1_BLOCK * (v.table_0[tier_0_index(cp)] as int) + tier_1_index(cp)
            < v.table_1.len(),
        0 <= TIER_2_BLOCK * (v.table_1[TIER_1_BLOCK * (v.table_0[tier_0_index(cp)] as int)
            + tier_1_index(cp)] as int) + tier_2_index(cp) < v.table_2.len(),
        v.table_width(cp) <= MAX_WIDTH,
{
    assert(((cp >> 13) & 0xFF) < 256) by (bit_vector);
    assert(((cp >> 6) & 0x7F) < 128) by (bit_vector);
    assert(((cp >> 2) & 0xF) < 16) by (bit_vector);
    assert(cp & 0b11 < 4) by (bit_vector);
    let sub_1 = v.table_0[tier_0_index(cp)] as int;
    let j = TIER_1_BLOCK * sub_1 + tier_1_index(cp);
    let sub_2 = v.table_1[j] as int;
    let k = TIER_2_BLOCK * sub_2 + tier_2_index(cp);
    assert(unpack(v.table_2[k], cp & 0b11) <= MAX_WIDTH);
}

/// Compiled width tables together with the set of variation-sensitive emoji.
///
/// A value of this type always describes tables in which every lookup stays
/// in bounds, so the resolver functions need no precondition.
pub struct WidthTables {
    version: (u8, u8, u8),
    table_0: Vec<u8>,
    table_1: Vec<u8>,
    table_2: Vec<u8>,
    emoji_variations: TrieSetOwned,
}

impl View for WidthTables {
    type V = TablesView;

    closed spec fn view(&self) -> TablesView {
        TablesView {
            version: self.version,
            table_0: self.table_0@,
            table_1: self.table_1@,
            table_2: self.table_2@,
            variations: trie_members(self.emoji_variations),
        }
    }
}

impl WidthTables {
    #[verifier::type_invariant]
    spec fn inv(self) -> bool {
        tiers_wf(self.table_0@, self.table_1@, self.table_2@)
    }

    /// Takes compiled tables into a resolver handle, if they are well formed.
    pub fn new(
        version: (u8, u8, u8),
        table_0: Vec<u8>,
        table_1: Vec<u8>,
        table_2: Vec<u8>,
        emoji_variations: TrieSetOwned,
    ) -> (r: Option<WidthTables>)
        ensures
            r is Some <==> tiers_wf(table_0@, table_1@, table_2@),
            r matches Some(t) ==> t@ == (TablesView {
                version,
                table_0: table_0@,
                table_1: table_1@,
                table_2: table_2@,
                variations: trie_members(emoji_variations),
            }),
    {
        if table_0.len() != TIER_0_LEN {
            return None;
        }
        let mut i: usize = 0;
        while i < table_0.len()
            invariant
                i <= table_0.len(),
                forall|x: int|
                    0 <= x < i ==> TIER_1_BLOCK * (#[trigger] table_0[x] as int) + TIER_1_BLOCK
                        <= table_1.len(),
            decreases table_0.len() - i,
        {
            if TIER_1_BLOCK * (table_0[i] as usize) + TIER_1_BLOCK > table_1.len() {
                return None;
            }
            i += 1;
        }
        let mut j: usize = 0;
        while j < table_1.len()
            invariant
                j <= table_1.len(),
                forall|x: int|
                    0 <= x < j ==> TIER_2_BLOCK * (#[trigger] table_1[x] as int) + TIER_2_BLOCK
                        <= table_2.len(),
            decreases table_1.len() - j,
        {
            if TIER_2_BLOCK * (table_1[j] as usize) + TIER_2_BLOCK > table_2.len() {
                return None;
            }
            j += 1;
        }
        let mut k: usize = 0;
        while k < table_2.len()
            invariant
                k <= table_2.len(),
                forall|x: int, slot: u32|
                    0 <= x < k && slot < 4 ==> #[trigger] unpack(table_2[x], slot) <= 2,
            decreases table_2.len() - k,
        {
            let b: u8 = table_2[k];
            let ok = b & 0x03 != 0x03 && b & 0x0C != 0x0C && b & 0x30 != 0x30 && b & 0xC0 != 0xC0;
            assert(ok <==> (unpack(b, 0) <= 2 && unpack(b, 1) <= 2 && unpack(b, 2) <= 2 && unpack(
                b,
                3,
            ) <= 2)) by (bit_vector)
                requires
                    ok == (b & 0x03 != 0x03 && b & 0x0C != 0x0C && b & 0x30 != 0x30 && b & 0xC0
                        != 0xC0),
            ;
            if !ok {
                assert(!(forall|x: int, slot: u32|
                    0 <= x < table_2.len() && slot < 4 ==> #[trigger] unpack(table_2[x], slot)
                        <= 2)) by {
                    if unpack(b, 0) > 2 {
                        assert(unpack(table_2[k as int], 0) > 2);
                    } else if unpack(b, 1) > 2 {
                        assert(unpack(table_2[k as int], 1) > 2);
                    } else if unpack(b, 2) > 2 {
                        assert(unpack(table_2[k as int], 2) > 2);
                    } else {
                        assert(unpack(table_2[k as int], 3) > 2);
                    }
                }
                return None;
            }
            assert forall|x: int, slot: u32| 0 <= x < k + 1 && slot < 4 implies #[trigger] unpack(
                table_2[x],
                slot,
            ) <= 2 by {
                if x == k {
                    assert(slot == 0 || slot == 1 || slot == 2 || slot == 3);
                }
            }
            k += 1;
        }
        Some(WidthTables { version, table_0, table_1, table_2, emoji_variations })
    }

    /// The version of the Unicode Character Database that the tables were
    /// compiled from, as major, minor and patch number.
    pub fn unicode_version(&self) -> (version: (u8, u8, u8))
        ensures
            version == self@.version,
    {
        self.version
    }

    /// The first tier: for bits 13..21 of a codepoint, the number of a
    /// sub-table of the second tier.
    pub fn table_0(&self) -> (table: &[u8])
        ensures
            table@ == self@.table_0,
    {
        self.table_0.as_slice()
    }

    /// The second tier: sub-tables of 128 entries, each for bits 6..13 of a
    /// codepoint the number of a sub-table of the third tier.
    pub fn table_1(&self) -> (table: &[u8])
        ensures
            table@ == self@.table_1,
    {
        self.table_1.as_slice()
    }

    /// The third tier: sub-tables of 16 bytes, each byte with the widths of
    /// four codepoints.
    pub fn table_2(&self) -> (table: &[u8])
        ensures
            table@ == self@.table_2,
    {
        self.table_2.as_slice()
    }

    /// The set of emoji whose width a variation selector can change.
    pub fn emoji_variations(&self) -> (set: &TrieSetOwned)
        ensures
            trie_members(*set) == self@.variations,
    {
        &self.emoji_variations
    }
}

/// Width of a codepoint as recorded in the three-tier table. The codepoint
/// may be any in `0..0x110000`, a surrogate too.
pub fn lookup_codepoint(tables: &WidthTables, cp: u32) -> (w: u8)
    requires
        cp < NUM_CODEPOINTS,
    ensures
        w == tables@.table_width(cp),
        w <= MAX_WIDTH,
{
    proof {
        use_type_invariant(tables);
        lemma_tier_walk(tables@, cp);
    }
    assert(((cp >> 13) & 0xFF) < 256 && ((cp >> 6) & 0x7F) < 128 && ((cp >> 2) & 0xF) < 16)
        by (bit_vector);
    let i0: usize = ((cp >> 13) & 0xFF) as usize;
    let t1_offset: usize = tables.table_0[i0] as usize;
    let i1: usize = ((cp >> 6) & 0x7F) as usize;
    let t2_offset: usize = tables.table_1[TIER_1_BLOCK * t1_offset + i1] as usize;
    let i2: usize = ((cp >> 2) & 0xF) as usize;
    let packed: u8 = tables.table_2[TIER_2_BLOCK * t2_offset + i2];
    let slot: u32 = cp & 0b11;
    assert(cp & 0b11 < 4) by (bit_vector);
    let w: u8 = (packed >> (2 * slot)) & 0b11;
    assert(w == unpack(packed, slot)) by (bit_vector)
        requires
            slot < 4,
            w == (packed >> (2 * slot)) & 0b11,
    ;
    w
}

/// Width of a character as recorded in the three-tier table.
pub fn lookup_width(tables: &WidthTables, c: char) -> (w: u8)
    ensures
        w == tables@.table_width(c as u32),
        w <= MAX_WIDTH,
{
    lookup_codepoint(tables, c as u32)
}

/// Width of a single character with no regard to what follows it.
fn base_width(tables: &WidthTables, c: char) -> (w: u8)
    ensures
        w == tables@.char_width(c),
        w <= MAX_WIDTH,
{
    let cp: u32 = c as u32;
    if cp < 0x80 {
        if cp < 0x20 || cp == 0x7F {
            0
        } else {
            1
        }
    } else {
        lookup_width(tables, c)
    }
}

/// Width of a single character. Variation selectors are never consulted, as
/// under [`UnicodeCompat::Unicode9`].
pub fn char_width_unicode9(tables: &WidthTables, c: char) -> (w: usize)
    ensures
        w == tables@.char_width(c),
        w <= MAX_WIDTH,
        (c as u32) < 0x80 ==> w == ascii_width(c as u32),
{
    base_width(tables, c) as usize
}

/// Width of a single character that is followed by `rem`, under
/// [`UnicodeCompat::Unicode14`]: a variation selector at the head of `rem`
/// decides the width of a variation-sensitive emoji.
pub fn char_width_unicode14(tables: &WidthTables, c: char, rem: &str) -> (w: usize)
    ensures
        w == tables@.unit_width(c, rem@, UnicodeCompat::Unicode14),
        w <= MAX_WIDTH,
        (c as u32) < 0x80 ==> w == ascii_width(c as u32),
{
    char_width_with_lookahead(tables, c, rem, UnicodeCompat::Unicode14).0
}

/// Width of a single character that is followed by `rem`, and the number of
/// bytes of `rem` that belong to the same unit: 3 if a variation selector
/// was consumed, else 0.
pub fn char_width_with_lookahead(
    tables: &WidthTables,
    c: char,
    rem: &str,
    mode: UnicodeCompat,
) -> (r: (usize, usize))
    ensures
        r.0 == tables@.unit_width(c, rem@, mode),
        r.0 <= MAX_WIDTH,
        (c as u32) < 0x80 ==> r.0 == ascii_width(c as u32),
        r.1 == if tables@.consumes_selector(c, rem@, mode) {
            SELECTOR_LEN
        } else {
            0
        },
{
    broadcast use vstd::string::group_string_axioms;

    if mode == UnicodeCompat::Unicode14 && (c as u32) >= 0x80
        && tables.emoji_variations.contains_char(c) {
        let mut rest = rem.chars();
        match rest.next() {
            Some(next) => {
                if next == TEXT_SELECTOR {
                    return (1, SELECTOR_LEN);
                } else if next == EMOJI_SELECTOR {
                    return (2, SELECTOR_LEN);
                }
            },
            None => {},
        }
    }
    (base_width(tables, c) as usize, 0)
}

/// A text is never wider than its UTF-8 encoding is long: an ASCII
/// character takes one byte and at most one column, any other character at
/// least two bytes and at most two columns.
pub proof fn lemma_width_le_bytes(v: TablesView, s: Seq<char>, from: int, mode: UnicodeCompat)
    requires
        v.wf(),
        0 <= from <= s.len(),
    ensures
        v.width_from(s, from, mode) <= encode_utf8(s.skip(from)).len(),
    decreases s.len() - from,
{
    if from < s.len() {
        let c = s[from];
        lemma_tier_walk(v, c as u32);
        lemma_encode_step(s, from);
        if v.consumes_selector(c, s.skip(from + 1), mode) {
            lemma_encode_step(s, from + 1);
            lemma_width_le_bytes(v, s, from + 2, mode);
        } else {
            lemma_width_le_bytes(v, s, from + 1, mode);
        }
    }
}

/// The encoding of `s[from..]` is the encoding of `s[from]`, which is one
/// byte for an ASCII character and more for any other, and then the
/// encoding of the rest.
proof fn lemma_encode_step(s: Seq<char>, from: int)
    requires
        0 <= from < s.len(),
    ensures
        encode_utf8(s.skip(from)) == encode_scalar(s[from] as u32) + encode_utf8(s.skip(from + 1)),
        encode_scalar(s[from] as u32).len() >= 1,
        (s[from] as u32) >= 0x80 ==> encode_scalar(s[from] as u32).len() >= 2,
{
    assert(s.skip(from).drop_first() =~= s.skip(from + 1));
}

/// A text that is encoded in one byte is one ASCII character, and the byte
/// is its codepoint.
pub proof fn lemma_single_byte(s: Seq<char>)
    requires
        encode_utf8(s).len() == 1,
    ensures
        s.len() == 1,
        (s[0] as u32) < 0x80,
        encode_utf8(s)[0] == s[0] as u32,
{
    assert(s.len() > 0);
    let c = s[0] as u32;
    let rest = s.drop_first();
    assert(encode_scalar(c).len() >= 1);
    if rest.len() > 0 {
        assert(encode_scalar(rest[0] as u32).len() >= 1);
    }
    assert(encode_utf8(rest).len() == 0);
    assert(c & 0x7F == c) by (bit_vector)
        requires
            c <= 0x7F,
    ;
}

/// Total column width of a text that is not segmented into grapheme
/// clusters: the sum of the widths of its codepoints from left to right.
/// Under [`UnicodeCompat::Unicode14`] a variation selector that follows a
/// variation-sensitive emoji sets that emoji's width and is not scored.
pub fn str_width(tables: &WidthTables, s: &str, mode: UnicodeCompat) -> (w: usize)
    ensures
        w == tables@.text_width(s@, mode),
{
    broadcast use vstd::string::group_string_axioms;

    let ghost v = tables@;
    let ghost chars = s@;
    // A text is no wider than it is long in bytes, so the sum cannot overflow.
    let byte_len = s.as_bytes().len();
    proof {
        use_type_invariant(tables);
        lemma_width_le_bytes(v, chars, 0, mode);
        assert(chars.skip(0) =~= chars);
        assert(v.text_width(chars, mode) <= byte_len);
    }
    let mut total: usize = 0;
    // Width of the last character read, while a selector may still follow it.
    let mut pending: Option<u8> = None;
    // Where the part of the text that is not yet scored begins.
    let ghost mut unscored: int = 0;
    for c in it: s.chars()
        invariant
            v == tables@,
            v.wf(),
            it.seq() == chars,
            v.text_width(chars, mode) <= usize::MAX,
            unscored == if pending is Some {
                it.index() - 1
            } else {
                it.index() as int
            },
            pending matches Some(w) ==> {
                &&& mode == UnicodeCompat::Unicode14
                &&& it.index() >= 1
                &&& (chars[it.index() - 1] as u32) >= 0x80
                &&& v.variations.contains(chars[it.index() - 1] as u32)
                &&& w == v.char_width(chars[it.index() - 1])
            },
            v.text_width(chars, mode) == total + v.width_from(chars, unscored, mode),
    {
        let ghost i = it.index() as int;
        assert(c == chars[i]);
        let mut consumed = false;
        match pending {
            Some(w) => {
                assert(chars.skip(i)[0] == c);
                assert(v.width_from(chars, i - 1, mode) == v.unit_width(
                    chars[i - 1],
                    chars.skip(i),
                    mode,
                ) + v.width_from(
                    chars,
                    if c == TEXT_SELECTOR || c == EMOJI_SELECTOR {
                        i + 1
                    } else {
                        i
                    },
                    mode,
                ));
                if c == TEXT_SELECTOR {
                    total += 1;
                    consumed = true;
                } else if c == EMOJI_SELECTOR {
                    total += 2;
                    consumed = true;
                } else {
                    total += w as usize;
                }
                pending = None;
            },
            None => {},
        }
        proof {
            unscored = if consumed {
                i + 1
            } else {
                i
            };
        }
        assert(v.text_width(chars, mode) == total + v.width_from(chars, unscored, mode));
        if !consumed {
            let sensitive = mode == UnicodeCompat::Unicode14 && (c as u32) >= 0x80
                && tables.emoji_variations.contains_char(c);
            let w = base_width(tables, c);
            if sensitive {
                pending = Some(w);
            } else {
                assert(v.width_from(chars, i, mode) == w + v.width_from(chars, i + 1, mode));
                total += w as usize;
                proof {
                    unscored = i + 1;
                }
            }
        }
    }
    match pending {
        Some(w) => {
            let ghost n = chars.len() as int;
            assert(unscored == n - 1);
            assert(chars.skip(n).len() == 0);
            assert(v.width_from(chars, n - 1, mode) == w + v.width_from(chars, n, mode));
            total += w as usize;
        },
        None => {},
    }
    total
}

/// Sum of the widths in a cluster, cut off at 2.
fn cluster_width(tables: &WidthTables, cluster: &str, mode: UnicodeCompat) -> (w: usize)
    ensures
        w == tables@.grapheme_width(cluster@, mode),
        w <= 2,
{
    broadcast use vstd::string::group_string_axioms;

    let ghost v = tables@;
    let ghost chars = cluster@;
    let mut total: usize = 0;
    // True while the first character may still take a selector with it.
    let mut sensitive = false;
    let mut first = true;
    for c in it: cluster.chars()
        invariant
            v == tables@,
            it.seq() == chars,
            total <= 2,
            first <==> it.index() == 0,
            first ==> total == 0 && !sensitive,
            sensitive ==> it.index() == 1 && total == v.char_width(chars[0]) && mode
                == UnicodeCompat::Unicode14 && (chars[0] as u32) >= 0x80
                && v.variations.contains(chars[0] as u32),
            !first && !sensitive ==> ({
                let sum = v.cluster_sum(chars, mode) - v.width_from(
                    chars,
                    it.index() as int,
                    UnicodeCompat::Unicode9,
                );
                total == if sum > 2 {
                    2
                } else {
                    sum
                }
            }),
    {
        let ghost i = it.index() as int;
        assert(c == chars[i]);
        if first {
            total = base_width(tables, c) as usize;
            sensitive = mode == UnicodeCompat::Unicode14 && (c as u32) >= 0x80
                && tables.emoji_variations.contains_char(c);
            first = false;
            assert(chars.skip(1).len() > 0 ==> chars.skip(1)[0] == chars[1]);
        } else {
            assert(chars.skip(1)[0] == chars[1]);
            if sensitive && c == TEXT_SELECTOR {
                total = 1;
            } else if sensitive && c == EMOJI_SELECTOR {
                total = 2;
            } else {
                let w = base_width(tables, c) as usize;
                total = if total + w > 2 {
                    2
                } else {
                    total + w
                };
            }
            sensitive = false;
        }
    }
    total
}

/// Width of a grapheme cluster whose boundaries the caller has found: the
/// sum of the widths of its codepoints, at most 2. The selector rule of
/// [`UnicodeCompat::Unicode14`] applies to the first codepoint only.
pub fn grapheme_width(tables: &WidthTables, cluster: &str, mode: UnicodeCompat) -> (w: usize)
    ensures
        w == tables@.grapheme_width(cluster@, mode),
        w <= 2,
{
    let bytes = cluster.as_bytes();
    if bytes.len() == 1 {
        // A single byte is an ASCII character.
        proof {
            lemma_single_byte(cluster@);
        }
        let b = bytes[0];
        if b < 0x20 || b == 0x7F {
            0
        } else {
            1
        }
    } else {
        cluster_width(tables, cluster, mode)
    }
}

/// Width of a grapheme cluster for callers that must treat every cluster as
/// taking up room: as [`grapheme_width`], but at least 1.
pub fn grapheme_width_non_zero(tables: &WidthTables, cluster: &str, mode: UnicodeCompat) -> (w:
    usize)
    ensures
        w == tables@.grapheme_width_non_zero(cluster@, mode),
        1 <= w <= 2,
{
    let w = grapheme_width(tables, cluster, mode);
    if w < 1 {
        1
    } else {
        w
    }
}

} // verus!
