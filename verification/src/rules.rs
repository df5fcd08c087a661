//! The dense width array: one width class per codepoint, built by layering
//! rules over the records of the Unicode Character Database. A later rule
//! overrides an earlier one for the codepoints it touches.

use vstd::prelude::*;
use vstd::slice::slice_to_vec;
use std::collections::HashSet;
use crate::compile::{is_dense_array, CodePointData, NUM_CODEPOINTS, UNSET};
use crate::ucd::{
    before_comment, codepoint_range, data_line_fields, lines, parse_codepoints, parse_data_line,
    parse_number, slice_views, split, split_slice, trim, trim_all, trim_slice, usize_value,
    ParseError, ParseErrorKind, ParseErrorView,
};

verus! {

/// The text of the four files of the Unicode Character Database that the
/// widths are derived from.
pub struct RawUnicodeData {
    /// `UnicodeData.txt`: the general category of each codepoint.
    pub unicode_data: String,
    /// `EastAsianWidth.txt`: the East Asian width of each codepoint.
    pub eaw_data: String,
    /// `emoji-data.txt`: which codepoints have emoji presentation.
    pub emoji_data: String,
    /// `emoji-variation-sequences.txt`: the emoji whose presentation a
    /// variation selector decides.
    pub emoji_variants: String,
}

/// The rules that are read from a data file, in the order in which they are
/// applied.
#[derive(Debug, Clone, Copy, PartialEq, Eq, Structural)]
pub enum Rule {
    /// East Asian width `F` or `W` is wide, any other narrow.
    EastAsianWidth,
    /// Control, format, separator, surrogate and mark categories have no
    /// width.
    ZeroWidth,
    /// Emoji presentation is wide.
    EmojiPresentation,
}

/// `table` with the codepoints `start..=end` set to `width`.
pub open spec fn fill(table: Seq<u8>, start: int, end: int, width: u8) -> Seq<u8> {
    Seq::new(
        table.len(),
        |i: int|
            if start <= i <= end {
                width
            } else {
                table[i]
            },
    )
}

/// A range that can be filled: it lies in the codepoint space, and does not
/// end more than one before it begins.
pub open spec fn range_in_table(start: usize, end: usize) -> bool {
    end < NUM_CODEPOINTS && start <= end + 1
}

/// A parse error of the given kind about `text`.
pub open spec fn error(kind: ParseErrorKind, text: Seq<char>) -> ParseErrorView {
    ParseErrorView { kind, text }
}

/// The East Asian width properties that make a codepoint wide.
pub open spec fn is_wide_property(field: Seq<char>) -> bool {
    field == seq!['F'] || field == seq!['W']
}

/// The general categories of codepoints that take no column.
pub open spec fn is_zero_width_category(field: Seq<char>) -> bool {
    ||| field == seq!['C', 'c']
    ||| field == seq!['C', 'f']
    ||| field == seq!['Z', 'l']
    ||| field == seq!['Z', 'p']
    ||| field == seq!['C', 's']
    ||| field == seq!['M', 'n']
    ||| field == seq!['M', 'c']
    ||| field == seq!['M', 'e']
}

/// The name of the emoji presentation property.
pub open spec fn emoji_presentation() -> Seq<char> {
    seq!['E', 'm', 'o', 'j', 'i', '_', 'P', 'r', 'e', 's', 'e', 'n', 't', 'a', 't', 'i', 'o', 'n']
}

/// What a rule does with the fields of a line: the width it sets on the
/// range that the first field names, or nothing if the line does not
/// concern it.
pub open spec fn rule_width(rule: Rule, fields: Seq<Seq<char>>) -> Option<u8> {
    match rule {
        Rule::EastAsianWidth => if is_wide_property(fields[1]) {
            Some(2u8)
        } else {
            Some(1u8)
        },
        Rule::ZeroWidth => if is_zero_width_category(fields[2]) {
            Some(0u8)
        } else {
            None
        },
        Rule::EmojiPresentation => if fields[1] == emoji_presentation() {
            Some(2u8)
        } else {
            None
        },
    }
}

/// Whether a rule reads a line with these fields at all. The East Asian
/// width file has lines of two fields; a line of the category file needs
/// three.
pub open spec fn rule_reads(rule: Rule, fields: Seq<Seq<char>>) -> bool {
    match rule {
        Rule::EastAsianWidth => fields.len() == 2,
        Rule::ZeroWidth => fields.len() >= 3,
        Rule::EmojiPresentation => true,
    }
}

/// The table after a rule has read one line.
pub open spec fn rule_line(rule: Rule, table: Seq<u8>, line: Seq<char>) -> Result<
    Seq<u8>,
    ParseErrorView,
> {
    match data_line_fields(line) {
        None => Ok(table),
        Some(fields) => if rule == Rule::EmojiPresentation && fields.len() < 2 {
            Err(error(ParseErrorKind::EmojiLine, trim(line)))
        } else if !rule_reads(rule, fields) {
            Ok(table)
        } else {
            match codepoint_range(fields[0]) {
                None => Err(error(ParseErrorKind::Codepoint, fields[0])),
                Some((start, end)) => match rule_width(rule, fields) {
                    None => Ok(table),
                    Some(width) => if range_in_table(start, end) {
                        Ok(fill(table, start as int, end as int, width))
                    } else {
                        Err(error(ParseErrorKind::Range, fields[0]))
                    },
                },
            }
        },
    }
}

/// The table after a rule has read the lines from `from` on, one after the
/// other; the first line that fails ends the reading.
pub open spec fn rule_lines(rule: Rule, table: Seq<u8>, all: Seq<Seq<char>>, from: int) -> Result<
    Seq<u8>,
    ParseErrorView,
>
    decreases all.len() - from,
{
    if from < 0 || from >= all.len() {
        Ok(table)
    } else {
        match rule_line(rule, table, all[from]) {
            Ok(next) => rule_lines(rule, next, all, from + 1),
            Err(e) => Err(e),
        }
    }
}

/// The table after a rule has read a whole file.
pub open spec fn rule_pass(rule: Rule, table: Seq<u8>, text: Seq<char>) -> Result<
    Seq<u8>,
    ParseErrorView,
> {
    rule_lines(rule, table, lines(text), 0)
}

/// The blocks whose unassigned codepoints are wide by default: the CJK
/// ideograph blocks and planes 2 and 3.
pub open spec fn in_wide_block(cp: int) -> bool {
    ||| 0x3400 <= cp <= 0x4DBF
    ||| 0x4E00 <= cp <= 0x9FFF
    ||| 0xF900 <= cp <= 0xFAFF
    ||| 0x20000 <= cp <= 0x2FFFD
    ||| 0x30000 <= cp <= 0x3FFFD
}

/// `table` with the untouched codepoints of the wide blocks set to 2.
pub open spec fn wide_defaults(table: Seq<u8>) -> Seq<u8> {
    Seq::new(
        table.len(),
        |i: int|
            if in_wide_block(i) && table[i] == UNSET {
                2u8
            } else {
                table[i]
            },
    )
}

/// The noncharacters: `FDD0..=FDEF` and the last two codepoints of each
/// plane.
pub open spec fn is_noncharacter(cp: int) -> bool {
    0xFDD0 <= cp <= 0xFDEF || (0 <= cp < NUM_CODEPOINTS && cp % 0x10000 >= 0xFFFE)
}

/// The codepoints that have no width whatever the data files say:
/// surrogates, Hangul Jamo medial vowels and final consonants, and the
/// noncharacters.
pub open spec fn is_hardcoded_zero(cp: int) -> bool {
    0xD800 <= cp <= 0xDFFF || 0x1160 <= cp <= 0x11FF || is_noncharacter(cp)
}

/// `table` with the hardcoded widths set: the soft hyphen is narrow.
pub open spec fn hardcoded(table: Seq<u8>) -> Seq<u8> {
    Seq::new(
        table.len(),
        |i: int|
            if i == 0x00AD {
                1u8
            } else if is_hardcoded_zero(i) {
                0u8
            } else {
                table[i]
            },
    )
}

/// The table after the East Asian width rule and its defaults.
pub open spec fn eaw_pass(table: Seq<u8>, text: Seq<char>) -> Result<Seq<u8>, ParseErrorView> {
    match rule_pass(Rule::EastAsianWidth, table, text) {
        Ok(filled) => Ok(wide_defaults(filled)),
        Err(e) => Err(e),
    }
}

/// Sets the codepoints `start..=end` of the table to `width`.
pub fn fill_range(table: &mut Vec<u8>, start: usize, end: usize, width: u8)
    requires
        end < old(table).len(),
        start <= end + 1,
    ensures
        final(table)@ == fill(old(table)@, start as int, end as int, width),
{
    let mut i: usize = start;
    while i <= end
        invariant
            start <= i <= end + 1,
            end < table.len(),
            table@ == fill(old(table)@, start as int, i - 1, width),
        decreases end + 1 - i,
    {
        table[i] = width;
        assert(table@ =~= fill(old(table)@, start as int, i as int, width));
        i += 1;
    }
    assert(table@ =~= fill(old(table)@, start as int, end as int, width));
}

/// Whether a field is the given word.
fn field_is(field: &[char], word: &[char]) -> (same: bool)
    ensures
        same == (field@ == word@),
{
    if field.len() != word.len() {
        return false;
    }
    let mut i: usize = 0;
    while i < field.len()
        invariant
            i <= field.len(),
            field.len() == word.len(),
            forall|j: int| 0 <= j < i ==> field@[j] == word@[j],
        decreases field.len() - i,
    {
        if field[i] != word[i] {
            return false;
        }
        i += 1;
    }
    assert(field@ =~= word@);
    true
}

/// Whether a field is a general category of codepoints that take no column.
fn zero_width_category(field: &[char]) -> (zero: bool)
    ensures
        zero == is_zero_width_category(field@),
{
    if field.len() != 2 {
        return false;
    }
    let a = field[0];
    let b = field[1];
    let zero = (a == 'C' && (b == 'c' || b == 'f' || b == 's')) || (a == 'Z' && (b == 'l' || b == 'p'))
        || (a == 'M' && (b == 'n' || b == 'c' || b == 'e'));
    proof {
        assert(field@ =~= seq![a, b]);
        if zero {
            assert(field@ =~= seq!['C', 'c'] || field@ =~= seq!['C', 'f'] || field@ =~= seq!['Z', 'l']
                || field@ =~= seq!['Z', 'p'] || field@ =~= seq!['C', 's'] || field@ =~= seq!['M', 'n']
                || field@ =~= seq!['M', 'c'] || field@ =~= seq!['M', 'e']);
        } else {
            assert(seq!['C', 'c'][0] == 'C' && seq!['C', 'c'][1] == 'c');
            assert(seq!['C', 'f'][0] == 'C' && seq!['C', 'f'][1] == 'f');
            assert(seq!['Z', 'l'][0] == 'Z' && seq!['Z', 'l'][1] == 'l');
            assert(seq!['Z', 'p'][0] == 'Z' && seq!['Z', 'p'][1] == 'p');
            assert(seq!['C', 's'][0] == 'C' && seq!['C', 's'][1] == 's');
            assert(seq!['M', 'n'][0] == 'M' && seq!['M', 'n'][1] == 'n');
            assert(seq!['M', 'c'][0] == 'M' && seq!['M', 'c'][1] == 'c');
            assert(seq!['M', 'e'][0] == 'M' && seq!['M', 'e'][1] == 'e');
        }
    }
    zero
}

/// Whether a field is an East Asian width property that makes a codepoint
/// wide.
fn wide_property(field: &[char]) -> (wide: bool)
    ensures
        wide == is_wide_property(field@),
{
    if field.len() != 1 {
        return false;
    }
    let a = field[0];
    proof {
        assert(field@ =~= seq![a]);
        assert(seq!['F'][0] == 'F' && seq!['W'][0] == 'W');
    }
    a == 'F' || a == 'W'
}

/// Whether a field names the emoji presentation property.
fn emoji_presentation_property(field: &[char]) -> (same: bool)
    ensures
        same == (field@ == emoji_presentation()),
{
    let word: [char; 18] = [
        'E',
        'm',
        'o',
        'j',
        'i',
        '_',
        'P',
        'r',
        'e',
        's',
        'e',
        'n',
        't',
        'a',
        't',
        'i',
        'o',
        'n',
    ];
    assert(word@ =~= emoji_presentation());
    field_is(field, word.as_slice())
}

/// The emoji that a field of the variation sequence file names: the first
/// of two codepoints, of which the second is a variation selector.
pub open spec fn variation_base(field: Seq<char>) -> Option<u32> {
    let parts = split(field, ' ');
    if parts.len() == 2 {
        match (usize_value(parts[0], 16), usize_value(parts[1], 16)) {
            (Some(emoji), Some(selector)) => if (selector == 0xFE0E || selector == 0xFE0F) && emoji
                < NUM_CODEPOINTS {
                Some(emoji as u32)
            } else {
                None
            },
            _ => None,
        }
    } else {
        None
    }
}

/// The variation set after one more line was read.
pub open spec fn variation_line(set: Set<u32>, line: Seq<char>) -> Result<Set<u32>, ParseErrorView> {
    match data_line_fields(line) {
        None => Ok(set),
        Some(fields) => match variation_base(fields[0]) {
            Some(emoji) => Ok(set.insert(emoji)),
            None => Err(error(ParseErrorKind::VariationLine, trim(line))),
        },
    }
}

/// The variation set after the lines from `from` on were read, one after
/// the other; the first line that fails ends the reading.
pub open spec fn variation_lines(set: Set<u32>, all: Seq<Seq<char>>, from: int) -> Result<
    Set<u32>,
    ParseErrorView,
>
    decreases all.len() - from,
{
    if from < 0 || from >= all.len() {
        Ok(set)
    } else {
        match variation_line(set, all[from]) {
            Ok(next) => variation_lines(next, all, from + 1),
            Err(e) => Err(e),
        }
    }
}

/// The set of emoji whose width a variation selector can change, as the
/// variation sequence file gives it.
pub open spec fn variation_set(text: Seq<char>) -> Result<Set<u32>, ParseErrorView> {
    variation_lines(Set::empty(), lines(text), 0)
}

/// The table that no rule has touched.
pub open spec fn unset_table() -> Seq<u8> {
    Seq::new(NUM_CODEPOINTS as nat, |i: int| UNSET)
}

/// A table as the rules leave it: as long as the codepoint space, with a
/// width class or the unset mark for each codepoint.
pub open spec fn is_rule_table(table: Seq<u8>) -> bool {
    &&& table.len() == NUM_CODEPOINTS
    &&& forall|i: int| 0 <= i < table.len() ==> (#[trigger] table[i]) <= 2 || table[i] == UNSET
}

/// A rule leaves a table of width classes a table of width classes.
pub proof fn lemma_rule_lines_classes(rule: Rule, table: Seq<u8>, all: Seq<Seq<char>>, from: int)
    requires
        0 <= from,
        is_rule_table(table),
        rule_lines(rule, table, all, from) is Ok,
    ensures
        is_rule_table(rule_lines(rule, table, all, from)->Ok_0),
    decreases all.len() - from,
{
    if from < all.len() {
        let next = rule_line(rule, table, all[from])->Ok_0;
        assert(is_rule_table(next));
        lemma_rule_lines_classes(rule, next, all, from + 1);
    }
}

/// A split has at least one piece.
pub proof fn lemma_split_nonempty(s: Seq<char>, sep: char)
    ensures
        split(s, sep).len() >= 1,
{
}

/// The characters of a text.
pub fn chars_of(text: &str) -> (chars: Vec<char>)
    ensures
        chars@ == text@,
{
    broadcast use vstd::string::group_string_axioms;

    let mut chars: Vec<char> = Vec::new();
    for c in it: text.chars()
        invariant
            it.seq() == text@,
            chars@ == text@.take(it.index() as int),
    {
        assert(text@.take(it.index() + 1) =~= text@.take(it.index() as int).push(c));
        chars.push(c);
    }
    assert(text@.take(text@.len() as int) =~= text@);
    chars
}

/// Lets a rule read one line and change the table accordingly.
fn apply_rule_line(rule: Rule, table: &mut Vec<u8>, line: &[char]) -> (r: Result<(), ParseError>)
    requires
        old(table).len() == NUM_CODEPOINTS,
    ensures
        final(table).len() == NUM_CODEPOINTS,
        match rule_line(rule, old(table)@, line@) {
            Ok(next) => r is Ok && final(table)@ == next,
            Err(e) => r matches Err(x) && x@ == e,
        },
{
    let fields = match parse_data_line(line) {
        Some(fields) => fields,
        None => {
            return Ok(());
        },
    };
    let ghost views = slice_views(fields@);
    assert(forall|i: int| 0 <= i < fields.len() ==> views[i] == (#[trigger] fields@[i])@);
    let reads = match rule {
        Rule::EastAsianWidth => fields.len() == 2,
        Rule::ZeroWidth => fields.len() >= 3,
        Rule::EmojiPresentation => {
            if fields.len() < 2 {
                return Err(
                    ParseError {
                        kind: ParseErrorKind::EmojiLine,
                        text: slice_to_vec(trim_slice(line)),
                    },
                );
            }
            true
        },
    };
    if !reads {
        return Ok(());
    }
    let (start, end) = match parse_codepoints(fields[0]) {
        Ok(range) => range,
        Err(e) => {
            return Err(e);
        },
    };
    let width: Option<u8> = match rule {
        Rule::EastAsianWidth => if wide_property(fields[1]) {
            Some(2)
        } else {
            Some(1)
        },
        Rule::ZeroWidth => if zero_width_category(fields[2]) {
            Some(0)
        } else {
            None
        },
        Rule::EmojiPresentation => if emoji_presentation_property(fields[1]) {
            Some(2)
        } else {
            None
        },
    };
    match width {
        None => Ok(()),
        Some(width) => {
            if end < NUM_CODEPOINTS && start <= end + 1 {
                fill_range(table, start, end, width);
                Ok(())
            } else {
                Err(ParseError { kind: ParseErrorKind::Range, text: slice_to_vec(fields[0]) })
            }
        },
    }
}

/// Lets a rule read a whole data file, line by line.
pub fn apply_rule(rule: Rule, table: &mut Vec<u8>, text: &str) -> (r: Result<(), ParseError>)
    requires
        old(table).len() == NUM_CODEPOINTS,
    ensures
        final(table).len() == NUM_CODEPOINTS,
        match rule_pass(rule, old(table)@, text@) {
            Ok(next) => r is Ok && final(table)@ == next,
            Err(e) => r matches Err(x) && x@ == e,
        },
{
    let chars = chars_of(text);
    let all = split_slice(chars.as_slice(), '\n');
    let ghost all_lines = lines(text@);
    assert(forall|i: int| 0 <= i < all.len() ==> all_lines[i] == (#[trigger] all@[i])@);
    let mut k: usize = 0;
    while k < all.len()
        invariant
            k <= all.len(),
            table.len() == NUM_CODEPOINTS,
            all_lines.len() == all.len(),
            forall|i: int| 0 <= i < all.len() ==> all_lines[i] == (#[trigger] all@[i])@,
            rule_pass(rule, old(table)@, text@) == rule_lines(rule, table@, all_lines, k as int),
        decreases all.len() - k,
    {
        match apply_rule_line(rule, table, all[k]) {
            Ok(()) => {},
            Err(e) => {
                return Err(e);
            },
        }
        k += 1;
    }
    Ok(())
}

/// The emoji that a field of the variation sequence file names.
fn parse_variation_base(field: &[char]) -> (base: Option<u32>)
    ensures
        base == variation_base(field@),
{
    let parts = split_slice(field, ' ');
    let ghost views = slice_views(parts@);
    assert(forall|i: int| 0 <= i < parts.len() ==> views[i] == (#[trigger] parts@[i])@);
    if parts.len() != 2 {
        return None;
    }
    let emoji = match parse_number(parts[0], 16) {
        Some(v) => v,
        None => {
            return None;
        },
    };
    let selector = match parse_number(parts[1], 16) {
        Some(v) => v,
        None => {
            return None;
        },
    };
    if (selector == 0xFE0E || selector == 0xFE0F) && emoji < NUM_CODEPOINTS {
        Some(emoji as u32)
    } else {
        None
    }
}

impl RawUnicodeData {
    /// The dense width array that the rules give, and the variation set.
    pub open spec fn dense_widths(&self) -> Result<Seq<u8>, ParseErrorView> {
        match eaw_pass(unset_table(), self.eaw_data@) {
            Err(e) => Err(e),
            Ok(eaw) => match rule_pass(Rule::ZeroWidth, eaw, self.unicode_data@) {
                Err(e) => Err(e),
                Ok(zero) => match rule_pass(Rule::EmojiPresentation, zero, self.emoji_data@) {
                    Err(e) => Err(e),
                    Ok(emoji) => Ok(hardcoded(emoji)),
                },
            },
        }
    }

    /// What [`RawUnicodeData::codepoint_data`] computes: the dense width
    /// array and the variation set, or the first error on the way.
    pub open spec fn spec_codepoint_data(&self) -> Result<(Seq<u8>, Set<u32>), ParseErrorView> {
        match self.dense_widths() {
            Err(e) => Err(e),
            Ok(widths) => match variation_set(self.emoji_variants@) {
                Err(e) => Err(e),
                Ok(variations) => Ok((widths, variations)),
            },
        }
    }

    /// The dense width array that the rules give covers the codepoint
    /// space and holds a width class or the unset mark for each codepoint.
    pub proof fn lemma_dense_widths(&self)
        requires
            self.dense_widths() is Ok,
        ensures
            is_dense_array(self.dense_widths()->Ok_0),
    {
        let unset = unset_table();
        lemma_rule_lines_classes(Rule::EastAsianWidth, unset, lines(self.eaw_data@), 0);
        let eaw = eaw_pass(unset, self.eaw_data@)->Ok_0;
        assert(is_rule_table(eaw));
        lemma_rule_lines_classes(Rule::ZeroWidth, eaw, lines(self.unicode_data@), 0);
        let zero = rule_pass(Rule::ZeroWidth, eaw, self.unicode_data@)->Ok_0;
        lemma_rule_lines_classes(Rule::EmojiPresentation, zero, lines(self.emoji_data@), 0);
        let emoji = rule_pass(Rule::EmojiPresentation, zero, self.emoji_data@)->Ok_0;
        assert(is_rule_table(hardcoded(emoji)));
    }

    /// Applies the rules in their order to a table that starts out unset,
    /// and reads the variation set.
    pub fn codepoint_data(&self) -> (r: Result<CodePointData, ParseError>)
        ensures
            match self.spec_codepoint_data() {
                Ok((widths, variations)) => r matches Ok(data) && data.wf() && data.widths@
                    == widths && data.emoji_variations@ == variations,
                Err(e) => r matches Err(x) && x@ == e,
            },
    {
        let mut table: Vec<u8> = Vec::with_capacity(NUM_CODEPOINTS);
        while table.len() < NUM_CODEPOINTS
            invariant
                table.len() <= NUM_CODEPOINTS,
                forall|i: int| 0 <= i < table.len() ==> table@[i] == UNSET,
            decreases NUM_CODEPOINTS - table.len(),
        {
            table.push(UNSET);
        }
        assert(table@ =~= unset_table());
        match self.fill_table_with_eaw_width(&mut table) {
            Ok(()) => {},
            Err(e) => {
                return Err(e);
            },
        }
        match self.fill_zero_width_categories(&mut table) {
            Ok(()) => {},
            Err(e) => {
                return Err(e);
            },
        }
        match self.fill_emojis(&mut table) {
            Ok(()) => {},
            Err(e) => {
                return Err(e);
            },
        }
        Self::fill_hardcoded_widths(&mut table);
        proof {
            self.lemma_dense_widths();
        }
        let emoji_variations = match self.emoji_variations() {
            Ok(set) => set,
            Err(e) => {
                return Err(e);
            },
        };
        Ok(CodePointData { widths: table, emoji_variations })
    }

    /// The set of emoji whose width a variation selector can change: the
    /// base codepoint of each line of the variation sequence file. A line
    /// must name one codepoint and then one of the two selectors.
    pub fn emoji_variations(&self) -> (r: Result<HashSet<u32>, ParseError>)
        ensures
            match variation_set(self.emoji_variants@) {
                Ok(set) => r matches Ok(found) && found@ == set,
                Err(e) => r matches Err(x) && x@ == e,
            },
    {
        broadcast use vstd::std_specs::hash::group_hash_axioms;

        let mut emoji_variations: HashSet<u32> = HashSet::with_capacity(1024);
        let chars = chars_of(self.emoji_variants.as_str());
        let all = split_slice(chars.as_slice(), '\n');
        let ghost all_lines = lines(self.emoji_variants@);
        assert(forall|i: int| 0 <= i < all.len() ==> all_lines[i] == (#[trigger] all@[i])@);
        let mut k: usize = 0;
        while k < all.len()
            invariant
                k <= all.len(),
                all_lines.len() == all.len(),
                forall|i: int| 0 <= i < all.len() ==> all_lines[i] == (#[trigger] all@[i])@,
                variation_set(self.emoji_variants@) == variation_lines(
                    emoji_variations@,
                    all_lines,
                    k as int,
                ),
            decreases all.len() - k,
        {
            let line = all[k];
            match parse_data_line(line) {
                None => {},
                Some(fields) => {
                    let ghost views = slice_views(fields@);
                    proof {
                        let pieces = split(before_comment(trim(line@)), ';');
                        lemma_split_nonempty(before_comment(trim(line@)), ';');
                        assert(views == trim_all(pieces));
                        assert(views.len() == pieces.len());
                        assert(views.len() == fields.len());
                        assert(views[0] == fields@[0]@);
                    }
                    match parse_variation_base(fields[0]) {
                        Some(emoji) => {
                            emoji_variations.insert(emoji);
                        },
                        None => {
                            return Err(
                                ParseError {
                                    kind: ParseErrorKind::VariationLine,
                                    text: slice_to_vec(trim_slice(line)),
                                },
                            );
                        },
                    }
                },
            }
            k += 1;
        }
        Ok(emoji_variations)
    }

    /// Takes the text of the four data files.
    pub fn new(
        unicode_data: String,
        eaw_data: String,
        emoji_data: String,
        emoji_variants: String,
    ) -> (data: RawUnicodeData)
        ensures
            data.unicode_data == unicode_data,
            data.eaw_data == eaw_data,
            data.emoji_data == emoji_data,
            data.emoji_variants == emoji_variants,
    {
        RawUnicodeData { unicode_data, eaw_data, emoji_data, emoji_variants }
    }

    /// The hardcoded widths, which override every rule before them: no
    /// width for surrogates, Hangul Jamo medial vowels and final consonants
    /// and noncharacters; one column for the soft hyphen.
    pub fn fill_hardcoded_widths(table: &mut Vec<u8>)
        requires
            old(table).len() == NUM_CODEPOINTS,
        ensures
            final(table)@ == hardcoded(old(table)@),
    {
        let ghost before = table@;
        // Surrogates.
        fill_range(table, 0xD800, 0xDBFF, 0);
        fill_range(table, 0xDC00, 0xDFFF, 0);
        // Hangul Jamo medial vowels and final consonants. A cluster is
        // never wider than 2, so this only matters outside of clusters.
        fill_range(table, 0x1160, 0x11FF, 0);
        // Noncharacters: this block, and the last two codepoints of each
        // plane.
        fill_range(table, 0xFDD0, 0xFDEF, 0);
        let ghost fixed = table@;
        let mut plane: usize = 0;
        while plane <= 16
            invariant
                plane <= 17,
                table.len() == NUM_CODEPOINTS,
                fixed.len() == NUM_CODEPOINTS,
                forall|i: int|
                    0 <= i < NUM_CODEPOINTS ==> #[trigger] table@[i] == if i / 0x10000 < plane && i
                        % 0x10000 >= 0xFFFE {
                        0u8
                    } else {
                        fixed[i]
                    },
            decreases 17 - plane,
        {
            let codepoint: usize = 0x10000 * plane + 0xFFFE;
            fill_range(table, codepoint, codepoint + 1, 0);
            plane += 1;
        }
        // The soft hyphen.
        table[0x00AD] = 1;
        assert(table@ =~= hardcoded(before));
    }

    /// The East Asian width rule: width 2 for the ranges with property `F`
    /// or `W`, width 1 for the other ranges of the file, and width 2 for
    /// the codepoints of the wide blocks that are left untouched.
    pub fn fill_table_with_eaw_width(&self, table: &mut Vec<u8>) -> (r: Result<(), ParseError>)
        requires
            old(table).len() == NUM_CODEPOINTS,
        ensures
            final(table).len() == NUM_CODEPOINTS,
            match eaw_pass(old(table)@, self.eaw_data@) {
                Ok(next) => r is Ok && final(table)@ == next,
                Err(e) => r matches Err(x) && x@ == e,
            },
    {
        match apply_rule(Rule::EastAsianWidth, table, self.eaw_data.as_str()) {
            Ok(()) => {},
            Err(e) => {
                return Err(e);
            },
        }
        let ghost filled = table@;
        let wide_ranges: [(usize, usize); 5] = [
            (0x3400, 0x4DBF),
            (0x4E00, 0x9FFF),
            (0xF900, 0xFAFF),
            (0x20000, 0x2FFFD),
            (0x30000, 0x3FFFD),
        ];
        let mut r: usize = 0;
        while r < 5
            invariant
                r <= 5,
                table.len() == NUM_CODEPOINTS,
                filled.len() == NUM_CODEPOINTS,
                wide_ranges@ == seq![
                    (0x3400usize, 0x4DBFusize),
                    (0x4E00usize, 0x9FFFusize),
                    (0xF900usize, 0xFAFFusize),
                    (0x20000usize, 0x2FFFDusize),
                    (0x30000usize, 0x3FFFDusize),
                ],
                forall|i: int|
                    0 <= i < NUM_CODEPOINTS ==> #[trigger] table@[i] == if in_wide_block(i) && i
                        < (if r == 5 {
                        NUM_CODEPOINTS as int
                    } else {
                        wide_ranges@[r as int].0 as int
                    }) && filled[i] == UNSET {
                        2u8
                    } else {
                        filled[i]
                    },
            decreases 5 - r,
        {
            let (first, last) = wide_ranges[r];
            let mut code_point: usize = first;
            while code_point <= last
                invariant
                    r < 5,
                    (first, last) == wide_ranges@[r as int],
                    first <= code_point <= last + 1,
                    last < NUM_CODEPOINTS,
                    table.len() == NUM_CODEPOINTS,
                    filled.len() == NUM_CODEPOINTS,
                    wide_ranges@ == seq![
                        (0x3400usize, 0x4DBFusize),
                        (0x4E00usize, 0x9FFFusize),
                        (0xF900usize, 0xFAFFusize),
                        (0x20000usize, 0x2FFFDusize),
                        (0x30000usize, 0x3FFFDusize),
                    ],
                    forall|i: int|
                        0 <= i < NUM_CODEPOINTS ==> #[trigger] table@[i] == if in_wide_block(i) && i
                            < code_point && filled[i] == UNSET {
                            2u8
                        } else {
                            filled[i]
                        },
                decreases last + 1 - code_point,
            {
                if table[code_point] == UNSET {
                    table[code_point] = 2;
                }
                code_point += 1;
            }
            r += 1;
        }
        assert(table@ =~= wide_defaults(filled));
        Ok(())
    }

    /// The zero-width rule: no width for the codepoints whose general
    /// category is one of `Cc`, `Cf`, `Zl`, `Zp`, `Cs`, `Mn`, `Mc`, `Me`.
    pub fn fill_zero_width_categories(&self, table: &mut Vec<u8>) -> (r: Result<(), ParseError>)
        requires
            old(table).len() == NUM_CODEPOINTS,
        ensures
            final(table).len() == NUM_CODEPOINTS,
            match rule_pass(Rule::ZeroWidth, old(table)@, self.unicode_data@) {
                Ok(next) => r is Ok && final(table)@ == next,
                Err(e) => r matches Err(x) && x@ == e,
            },
    {
        apply_rule(Rule::ZeroWidth, table, self.unicode_data.as_str())
    }

    /// The emoji rule: width 2 for the codepoints with emoji presentation.
    pub fn fill_emojis(&self, table: &mut Vec<u8>) -> (r: Result<(), ParseError>)
        requires
            old(table).len() == NUM_CODEPOINTS,
        ensures
            final(table).len() == NUM_CODEPOINTS,
            match rule_pass(Rule::EmojiPresentation, old(table)@, self.emoji_data@) {
                Ok(next) => r is Ok && final(table)@ == next,
                Err(e) => r matches Err(x) && x@ == e,
            },
    {
        apply_rule(Rule::EmojiPresentation, table, self.emoji_data.as_str())
    }
}

} // verus!
