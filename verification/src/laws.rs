//! What holds of the widths that the resolver gives, and of the widths that
//! the rules give to particular codepoints.

use vstd::prelude::*;
use vstd::utf8::{char_is_scalar, char_u32_cast, encode_scalar, encode_utf8, is_scalar};
use crate::compile::{clamp_width, compiled_from, is_dense_array, NUM_CODEPOINTS, UNSET};
use crate::emit::generated_from;
use crate::flat::lemma_compiled_is_flat;
use crate::roundtrip::{lemma_first_tier_fits, lemma_round_trip};
use crate::rules::{
    in_wide_block, is_hardcoded_zero, rule_line, rule_lines, rule_pass, rule_reads, rule_width,
    unset_table, wide_defaults, RawUnicodeData, Rule,
};
use crate::table::TableView;
use crate::ucd::{codepoint_range, data_line_fields, lines};
use crate::width::{
    lemma_tier_walk, tier_width, tiers_wf, TablesView, UnicodeCompat, EMOJI_SELECTOR, MAX_WIDTH,
    TEXT_SELECTOR,
};

verus! {

/// Totality: in well-formed tables every codepoint, the surrogates among
/// them, has a table width of 0, 1 or 2, and so has every character in
/// either mode, whatever follows it.
pub proof fn lemma_width_is_total(
    v: TablesView,
    cp: u32,
    c: char,
    rest: Seq<char>,
    mode: UnicodeCompat,
)
    requires
        v.wf(),
    ensures
        v.table_width(cp) <= MAX_WIDTH,
        v.char_width(c) <= MAX_WIDTH,
        v.unit_width(c, rest, mode) <= MAX_WIDTH,
{
    lemma_tier_walk(v, cp);
    lemma_tier_walk(v, c as u32);
}

/// ASCII: the width of an ASCII character is 0 if it is a C0 control or
/// DEL, else 1, whatever the tables hold, in either mode and whatever
/// follows it.
pub proof fn lemma_ascii_width(v: TablesView, c: char, rest: Seq<char>, mode: UnicodeCompat)
    requires
        (c as u32) < 0x80,
    ensures
        v.unit_width(c, rest, mode) == if (c as u32) < 0x20 || (c as u32) == 0x7F {
            0u8
        } else {
            1u8
        },
        v.unit_width(c, rest, mode) == v.char_width(c),
        !v.consumes_selector(c, rest, mode),
{
}

/// Clamp: a grapheme cluster is never wider than 2.
pub proof fn lemma_grapheme_width_clamped(v: TablesView, cluster: Seq<char>, mode: UnicodeCompat)
    ensures
        v.grapheme_width(cluster, mode) <= 2,
        v.grapheme_width(cluster, mode) <= v.cluster_sum(cluster, mode),
{
}

/// Floor: the non-zero width of a cluster is the larger of 1 and its
/// width.
pub proof fn lemma_non_zero_floor(v: TablesView, cluster: Seq<char>, mode: UnicodeCompat)
    ensures
        v.grapheme_width_non_zero(cluster, mode) == vstd::math::max(
            1,
            v.grapheme_width(cluster, mode) as int,
        ),
        1 <= v.grapheme_width_non_zero(cluster, mode) <= 2,
{
}

/// Whether a variation selector stands at the head of a text.
pub open spec fn selector_follows(rest: Seq<char>) -> bool {
    rest.len() > 0 && (rest[0] == TEXT_SELECTOR || rest[0] == EMOJI_SELECTOR)
}

/// Mode independence: where no variation selector follows a character, its
/// width is the same in both modes.
pub proof fn lemma_modes_agree(v: TablesView, c: char, rest: Seq<char>)
    requires
        !selector_follows(rest),
    ensures
        v.unit_width(c, rest, UnicodeCompat::Unicode9) == v.unit_width(
            c,
            rest,
            UnicodeCompat::Unicode14,
        ),
{
}

/// Mode independence for texts: a text that holds no variation selector
/// has the same width in both modes.
pub proof fn lemma_modes_agree_on_text(v: TablesView, s: Seq<char>, from: int)
    requires
        forall|i: int| 0 <= i < s.len() ==> s[i] != TEXT_SELECTOR && s[i] != EMOJI_SELECTOR,
    ensures
        v.width_from(s, from, UnicodeCompat::Unicode9) == v.width_from(
            s,
            from,
            UnicodeCompat::Unicode14,
        ),
    decreases s.len() - from,
{
    if 0 <= from < s.len() {
        let rest = s.skip(from + 1);
        if rest.len() > 0 {
            assert(rest[0] == s[from + 1]);
        }
        lemma_modes_agree_on_text(v, s, from + 1);
    }
}

/// Round trip: the tiers that a dense array compiles to can be emitted if
/// the second tier has no more buckets than a byte can name. The emitted
/// bytes are then well formed, the walk through them ends for every
/// codepoint at the width that the dense array holds for it, where a
/// codepoint that no rule has touched is narrow, and together they are no
/// longer than the dense array.
pub proof fn lemma_compiler_round_trip(
    widths: Seq<u8>,
    t0: TableView,
    t1: TableView,
    t2: TableView,
)
    requires
        is_dense_array(widths),
        compiled_from(widths, t0, t1, t2),
        t1.fits_bytes(),
    ensures
        t0.fits_bytes(),
        t2.is_flat(),
        tiers_wf(t0.index_bytes(), t1.index_bytes(), t2.flat_bytes()),
        forall|cp: u32|
            cp < NUM_CODEPOINTS ==> #[trigger] tier_width(
                t0.index_bytes(),
                t1.index_bytes(),
                t2.flat_bytes(),
                cp,
            ) == clamp_width(widths[cp as int]),
        t0.index_bytes().len() + t1.index_bytes().len() + t2.flat_bytes().len() <= widths.len(),
{
    lemma_first_tier_fits(widths, t0, t1, t2);
    lemma_compiled_is_flat(widths, t0, t1, t2);
    lemma_round_trip(widths, t0, t1, t2);
}

/// Whether `bytes` begins with the three given bytes.
pub open spec fn starts_with(bytes: Seq<u8>, b0: u8, b1: u8, b2: u8) -> bool {
    bytes.len() >= 3 && bytes[0] == b0 && bytes[1] == b1 && bytes[2] == b2
}

/// A scalar value is encoded as `EF B8 8E` or `EF B8 8F` exactly if it is
/// the text or the emoji selector.
proof fn lemma_selector_scalar(c: u32, last: u8)
    requires
        is_scalar(c),
        last == 0x8E || last == 0x8F,
    ensures
        (encode_scalar(c).len() >= 3 && encode_scalar(c)[0] == 0xEF && encode_scalar(c)[1] == 0xB8
            && encode_scalar(c)[2] == last) <==> c == 0xFE00 + (last & 0x0F),
        encode_scalar(c).len() < 3 ==> encode_scalar(c)[0] != 0xEF,
        encode_scalar(c).len() >= 1,
{
    assert((c <= 0x7F ==> (c & 0x7F) as u8 != 0xEF) && (0x80 <= c <= 0x7FF ==> 0xC0u8 | ((c >> 6)
        & 0x1F) as u8 != 0xEF) && (0x10000 <= c <= 0x10FFFF ==> 0xF0u8 | ((c >> 18) & 0x7) as u8
        != 0xEF)) by (bit_vector);
    assert(0x800 <= c <= 0xFFFF ==> ((0xE0u8 | ((c >> 12) & 0x0F) as u8 == 0xEF && 0x80u8 | ((c
        >> 6) & 0x3F) as u8 == 0xB8 && 0x80u8 | (c & 0x3F) as u8 == last) <==> c == 0xFE00 + (last
        & 0x0F))) by (bit_vector)
        requires
            last == 0x8E || last == 0x8F,
    ;
}

/// A selector at the head of a text is the three bytes `EF B8 8E` (text) or
/// `EF B8 8F` (emoji) at the head of its encoding, and nothing else is.
pub proof fn lemma_selector_bytes(rest: Seq<char>)
    ensures
        starts_with(encode_utf8(rest), 0xEF, 0xB8, 0x8E) <==> rest.len() > 0 && rest[0]
            == TEXT_SELECTOR,
        starts_with(encode_utf8(rest), 0xEF, 0xB8, 0x8F) <==> rest.len() > 0 && rest[0]
            == EMOJI_SELECTOR,
{
    if rest.len() > 0 {
        let c = rest[0] as u32;
        char_is_scalar(rest[0]);
        char_u32_cast(rest[0], c);
        char_u32_cast(TEXT_SELECTOR, 0xFE0E);
        char_u32_cast(EMOJI_SELECTOR, 0xFE0F);
        lemma_selector_scalar(c, 0x8E);
        lemma_selector_scalar(c, 0x8F);
        assert(0x8Eu8 & 0x0F == 0x0E && 0x8Fu8 & 0x0F == 0x0F) by (bit_vector);
        let head = encode_scalar(c);
        assert(encode_utf8(rest) == head + encode_utf8(rest.drop_first()));
        assert(encode_utf8(rest)[0] == head[0]);
        if head.len() >= 3 {
            assert(encode_utf8(rest)[1] == head[1]);
            assert(encode_utf8(rest)[2] == head[2]);
        }
    }
}

/// Mode independence, in bytes: where the encoded text after a character
/// does not begin with the three bytes of a variation selector, the width
/// of the character is the same in both modes.
pub proof fn lemma_modes_agree_without_selector_bytes(v: TablesView, c: char, rest: Seq<char>)
    requires
        !starts_with(encode_utf8(rest), 0xEF, 0xB8, 0x8E),
        !starts_with(encode_utf8(rest), 0xEF, 0xB8, 0x8F),
    ensures
        v.unit_width(c, rest, UnicodeCompat::Unicode9) == v.unit_width(
            c,
            rest,
            UnicodeCompat::Unicode14,
        ),
{
    lemma_selector_bytes(rest);
    lemma_modes_agree(v, c, rest);
}

/// Whether a rule, reading this line, sets the width of the codepoint.
pub open spec fn line_sets(rule: Rule, line: Seq<char>, cp: int) -> bool {
    match data_line_fields(line) {
        None => false,
        Some(fields) => rule_reads(rule, fields) && fields.len() >= 2 && (match codepoint_range(
            fields[0],
        ) {
            None => false,
            Some((start, end)) => rule_width(rule, fields) is Some && start <= cp <= end,
        }),
    }
}

/// Whether a rule, reading this file, sets the width of the codepoint.
pub open spec fn file_sets(rule: Rule, text: Seq<char>, cp: int) -> bool {
    exists|k: int| 0 <= k < lines(text).len() && line_sets(rule, #[trigger] lines(text)[k], cp)
}

/// A codepoint that no line of the three data files gives a width.
pub open spec fn is_unassigned(raw: &RawUnicodeData, cp: int) -> bool {
    &&& !file_sets(Rule::EastAsianWidth, raw.eaw_data@, cp)
    &&& !file_sets(Rule::ZeroWidth, raw.unicode_data@, cp)
    &&& !file_sets(Rule::EmojiPresentation, raw.emoji_data@, cp)
}

/// A rule leaves the table as long as it was, and leaves a codepoint alone
/// that none of the lines it reads sets.
pub proof fn lemma_rule_keeps(rule: Rule, table: Seq<u8>, all: Seq<Seq<char>>, from: int, cp: int)
    requires
        0 <= from,
        0 <= cp < table.len(),
        rule_lines(rule, table, all, from) is Ok,
        forall|k: int| from <= k < all.len() ==> !line_sets(rule, #[trigger] all[k], cp),
    ensures
        rule_lines(rule, table, all, from)->Ok_0.len() == table.len(),
        rule_lines(rule, table, all, from)->Ok_0[cp] == table[cp],
    decreases all.len() - from,
{
    if from < all.len() {
        let next = rule_line(rule, table, all[from])->Ok_0;
        assert(!line_sets(rule, all[from], cp));
        assert(next.len() == table.len());
        assert(next[cp] == table[cp]);
        lemma_rule_keeps(rule, next, all, from + 1, cp);
    }
}

/// Hardcoded zero widths: surrogates, Hangul Jamo medial vowels and final
/// consonants and noncharacters have width 0 in the dense array, whatever
/// the data files say.
pub proof fn lemma_hardcoded_zero(raw: &RawUnicodeData, cp: int)
    requires
        raw.dense_widths() is Ok,
        0 <= cp < NUM_CODEPOINTS,
        is_hardcoded_zero(cp),
    ensures
        raw.dense_widths()->Ok_0[cp] == 0,
{
    raw.lemma_dense_widths();
}

/// Noncharacters: `FDD0..=FDEF` and the last two codepoints of every plane
/// have width 0 in the dense array, whatever the data files say.
pub proof fn lemma_noncharacter_has_no_width(raw: &RawUnicodeData, cp: int)
    requires
        raw.dense_widths() is Ok,
        0xFDD0 <= cp <= 0xFDEF || (0 <= cp < NUM_CODEPOINTS && (cp % 0x10000 == 0xFFFE || cp
            % 0x10000 == 0xFFFF)),
    ensures
        raw.dense_widths()->Ok_0[cp] == 0,
{
    lemma_hardcoded_zero(raw, cp);
}

/// The soft hyphen is one column wide in the dense array, whatever the data
/// files say.
pub proof fn lemma_soft_hyphen(raw: &RawUnicodeData)
    requires
        raw.dense_widths() is Ok,
    ensures
        raw.dense_widths()->Ok_0[0x00AD] == 1,
{
    raw.lemma_dense_widths();
}

/// Wide by default: a codepoint of the ideograph blocks or of planes 2 and
/// 3 that no line of the data files gives a width has width 2 in the dense
/// array.
pub proof fn lemma_unassigned_is_wide(raw: &RawUnicodeData, cp: int)
    requires
        raw.dense_widths() is Ok,
        in_wide_block(cp),
        is_unassigned(raw, cp),
    ensures
        raw.dense_widths()->Ok_0[cp] == 2,
{
    let unset = unset_table();
    lemma_rule_keeps(Rule::EastAsianWidth, unset, lines(raw.eaw_data@), 0, cp);
    let filled = rule_pass(Rule::EastAsianWidth, unset, raw.eaw_data@)->Ok_0;
    assert(filled[cp] == UNSET);
    let eaw = wide_defaults(filled);
    assert(eaw[cp] == 2);
    lemma_rule_keeps(Rule::ZeroWidth, eaw, lines(raw.unicode_data@), 0, cp);
    let zero = rule_pass(Rule::ZeroWidth, eaw, raw.unicode_data@)->Ok_0;
    lemma_rule_keeps(Rule::EmojiPresentation, zero, lines(raw.emoji_data@), 0, cp);
    let emoji = rule_pass(Rule::EmojiPresentation, zero, raw.emoji_data@)->Ok_0;
    assert(emoji[cp] == 2);
    assert(!is_hardcoded_zero(cp));
}

/// Ideographs: an unassigned codepoint in `4E00..=9FFF` has width 2 in the
/// dense array.
pub proof fn lemma_unassigned_ideograph_is_wide(raw: &RawUnicodeData, cp: int)
    requires
        raw.dense_widths() is Ok,
        0x4E00 <= cp <= 0x9FFF,
        is_unassigned(raw, cp),
    ensures
        raw.dense_widths()->Ok_0[cp] == 2,
{
    lemma_unassigned_is_wide(raw, cp);
}

/// Unassigned and narrow: a codepoint outside the wide blocks and the
/// hardcoded ranges that no line of the data files gives a width is one
/// column wide in tables that are generated from those files.
pub proof fn lemma_unassigned_is_narrow(
    raw: &RawUnicodeData,
    version: Seq<char>,
    t: TablesView,
    cp: u32,
)
    requires
        generated_from(raw, version, t),
        cp < NUM_CODEPOINTS,
        !in_wide_block(cp as int),
        !is_hardcoded_zero(cp as int),
        is_unassigned(raw, cp as int),
    ensures
        t.table_width(cp) == 1,
{
    let unset = unset_table();
    let at = cp as int;
    lemma_rule_keeps(Rule::EastAsianWidth, unset, lines(raw.eaw_data@), 0, at);
    let filled = rule_pass(Rule::EastAsianWidth, unset, raw.eaw_data@)->Ok_0;
    let eaw = wide_defaults(filled);
    lemma_rule_keeps(Rule::ZeroWidth, eaw, lines(raw.unicode_data@), 0, at);
    let zero = rule_pass(Rule::ZeroWidth, eaw, raw.unicode_data@)->Ok_0;
    lemma_rule_keeps(Rule::EmojiPresentation, zero, lines(raw.emoji_data@), 0, at);
    let emoji = rule_pass(Rule::EmojiPresentation, zero, raw.emoji_data@)->Ok_0;
    assert(emoji[at] == UNSET);
    assert(raw.dense_widths()->Ok_0[at] == if at == 0x00AD {
        1u8
    } else {
        UNSET
    });
    assert(t.table_width(cp) == clamp_width(raw.dense_widths()->Ok_0[at]));
}

/// In tables that are generated from data files, the table width of a
/// noncharacter, a surrogate or a Hangul Jamo medial vowel or final
/// consonant is 0, and that of an unassigned codepoint of the wide blocks
/// is 2.
pub proof fn lemma_generated_widths(raw: &RawUnicodeData, version: Seq<char>, t: TablesView, cp: u32)
    requires
        generated_from(raw, version, t),
        cp < NUM_CODEPOINTS,
    ensures
        is_hardcoded_zero(cp as int) ==> t.table_width(cp) == 0,
        in_wide_block(cp as int) && is_unassigned(raw, cp as int) ==> t.table_width(cp) == 2,
        cp == 0x00AD ==> t.table_width(cp) == 1,
{
    assert(t.table_width(cp) == clamp_width(raw.dense_widths()->Ok_0[cp as int]));
    if is_hardcoded_zero(cp as int) {
        lemma_hardcoded_zero(raw, cp as int);
    }
    if in_wide_block(cp as int) && is_unassigned(raw, cp as int) {
        lemma_unassigned_is_wide(raw, cp as int);
    }
    if cp == 0x00AD {
        lemma_soft_hyphen(raw);
    }
}

} // verus!
