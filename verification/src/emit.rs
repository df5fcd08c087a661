//! From the data files to the tables that the resolver reads: the version,
//! the emitted bytes of the three tiers, and the whole run of the compiler.

use vstd::prelude::*;
use vstd::pervasive::unreached;
use vstd::slice::slice_to_vec;
use crate::compile::{clamp_width, compiled_from, CompileError, TierTables, NUM_CODEPOINTS};
use crate::flat::lemma_compiled_unique;
use crate::roundtrip::lemma_round_trip;
use crate::rules::{chars_of, error, variation_line, variation_lines, RawUnicodeData};
use crate::table::TableView;
use crate::trie::{trie_fits, MAX_CODEPOINT};
use crate::ucd::{
    lines, number_value, parse_number, slice_views, split, split_slice, trim, trim_slice,
    ParseError, ParseErrorKind,
};
use crate::width::{TablesView, WidthTables};

verus! {

/// Why the tables could not be generated.
#[derive(Debug, Clone, PartialEq, Eq)]
pub enum Error {
    /// The input was malformed.
    Parse(ParseError),
    /// The data could not be compiled into tables.
    Compile(CompileError),
}

/// The emitted form of the three tiers, with the version of the Unicode
/// Character Database that they were compiled from.
pub struct TableBytes {
    pub version: (u8, u8, u8),
    pub table_0: Vec<u8>,
    pub table_1: Vec<u8>,
    pub table_2: Vec<u8>,
}

/// The value of a decimal number that fits in a byte.
pub open spec fn byte_value(s: Seq<char>) -> Option<u8> {
    match number_value(s, 10) {
        Some(v) => if v <= 255 {
            Some(v as u8)
        } else {
            None
        },
        None => None,
    }
}

/// The version that a text of the form `major.minor.patch` names.
pub open spec fn version_triple(version: Seq<char>) -> Option<(u8, u8, u8)> {
    let parts = split(trim(version), '.');
    if parts.len() == 3 {
        match (byte_value(parts[0]), byte_value(parts[1]), byte_value(parts[2])) {
            (Some(major), Some(minor), Some(patch)) => Some((major, minor, patch)),
            _ => None,
        }
    } else {
        None
    }
}

/// Reads one component of a version.
fn parse_byte(s: &[char]) -> (value: Option<u8>)
    ensures
        value == byte_value(s@),
{
    match parse_number(s, 10) {
        Some(v) => if v <= 255 {
            Some(v as u8)
        } else {
            None
        },
        None => None,
    }
}

/// Reads a version of the form `major.minor.patch`.
pub fn parse_version(version: &[char]) -> (r: Result<(u8, u8, u8), ParseError>)
    ensures
        match r {
            Ok(v) => version_triple(version@) == Some(v),
            Err(e) => version_triple(version@) is None && e@ == error(
                ParseErrorKind::Version,
                version@,
            ),
        },
{
    let parts = split_slice(trim_slice(version), '.');
    let ghost views = slice_views(parts@);
    assert(forall|i: int| 0 <= i < parts.len() ==> views[i] == (#[trigger] parts@[i])@);
    if parts.len() == 3 {
        match (parse_byte(parts[0]), parse_byte(parts[1]), parse_byte(parts[2])) {
            (Some(major), Some(minor), Some(patch)) => {
                return Ok((major, minor, patch));
            },
            _ => {},
        }
    }
    Err(ParseError { kind: ParseErrorKind::Version, text: slice_to_vec(version) })
}

/// Emits the three tiers as bytes, together with the version: the first two
/// tiers as bucket indices, the last as packed widths.
pub fn emit_width_table(tables: TierTables, version: &str) -> (r: Result<TableBytes, Error>)
    ensures
        match version_triple(version@) {
            None => r matches Err(Error::Parse(e)) && e@ == error(ParseErrorKind::Version, version@),
            Some(v) => if !tables.tier_0@.fits_bytes() {
                r matches Err(Error::Compile(CompileError::TooManyBuckets(0)))
            } else if !tables.tier_1@.fits_bytes() {
                r matches Err(Error::Compile(CompileError::TooManyBuckets(1)))
            } else if !tables.tier_2@.is_flat() {
                r matches Err(Error::Compile(CompileError::NotFlat))
            } else {
                &&& r matches Ok(bytes)
                &&& bytes.version == v
                &&& bytes.table_0@ == tables.tier_0@.index_bytes()
                &&& bytes.table_1@ == tables.tier_1@.index_bytes()
                &&& bytes.table_2@ == tables.tier_2@.flat_bytes()
            },
        },
{
    let chars = chars_of(version);
    let version = match parse_version(chars.as_slice()) {
        Ok(v) => v,
        Err(e) => {
            return Err(Error::Parse(e));
        },
    };
    if !tables.tier_0.fits_bytes() {
        return Err(Error::Compile(CompileError::TooManyBuckets(0)));
    }
    if !tables.tier_1.fits_bytes() {
        return Err(Error::Compile(CompileError::TooManyBuckets(1)));
    }
    if !tables.tier_2.is_flat() {
        return Err(Error::Compile(CompileError::NotFlat));
    }
    let TierTables { tier_0, tier_1, tier_2 } = tables;
    Ok(
        TableBytes {
            version,
            table_0: tier_0.into_bytes(),
            table_1: tier_1.into_bytes(),
            table_2: tier_2.into_flat_bytes(),
        },
    )
}

/// The tables hold what the data files and the version say: the version,
/// the variation set, and for every codepoint the width that the rules give
/// it, where a codepoint that no rule has touched is narrow. They are well
/// formed, and together no longer than the dense array.
pub open spec fn generated_from(raw: &RawUnicodeData, version: Seq<char>, t: TablesView) -> bool {
    &&& raw.spec_codepoint_data() matches Ok((widths, variations))
    &&& version_triple(version) == Some(t.version)
    &&& t.variations == variations
    &&& t.wf()
    &&& forall|cp: u32|
        cp < NUM_CODEPOINTS ==> #[trigger] t.table_width(cp) == clamp_width(widths[cp as int])
    &&& t.table_0.len() + t.table_1.len() + t.table_2.len() <= NUM_CODEPOINTS
}

/// Whether the tiers that the dense array compiles to can be emitted:
/// whether the second tier has no more buckets than a byte can name. The
/// first tier never has, and the last tier is always flat.
pub open spec fn can_emit(widths: Seq<u8>) -> bool {
    forall|t0: TableView, t1: TableView, t2: TableView|
        #![trigger compiled_from(widths, t0, t1, t2)]
        compiled_from(widths, t0, t1, t2) ==> t1.fits_bytes()
}

/// Reading lines adds only codepoints to the variation set.
pub proof fn lemma_variations_are_codepoints(set: Set<u32>, all: Seq<Seq<char>>, from: int)
    requires
        forall|cp: u32| set.contains(cp) ==> cp <= MAX_CODEPOINT,
        0 <= from,
    ensures
        variation_lines(set, all, from) matches Ok(found) ==> forall|cp: u32|
            found.contains(cp) ==> cp <= MAX_CODEPOINT,
    decreases all.len() - from,
{
    if from < all.len() {
        match variation_line(set, all[from]) {
            Ok(next) => {
                lemma_variations_are_codepoints(next, all, from + 1);
            },
            Err(_) => {},
        }
    }
}

/// The whole run of the compiler: applies the rules to the data files,
/// compresses the dense width array and the variation set, and hands the
/// result to the resolver.
pub fn gen_tables(raw: &RawUnicodeData, version: &str) -> (r: Result<WidthTables, Error>)
    ensures
        match raw.spec_codepoint_data() {
            Err(x) => r matches Err(Error::Parse(e)) && e@ == x,
            Ok((widths, variations)) => if !trie_fits(variations) {
                r matches Err(Error::Compile(CompileError::TrieGaveUp))
            } else if version_triple(version@) is None {
                r matches Err(Error::Parse(e)) && e@ == error(ParseErrorKind::Version, version@)
            } else if !can_emit(widths) {
                r matches Err(Error::Compile(CompileError::TooManyBuckets(1)))
            } else {
                r matches Ok(tables) && generated_from(raw, version@, tables@)
            },
        },
{
    let data = match raw.codepoint_data() {
        Ok(data) => data,
        Err(e) => {
            return Err(Error::Parse(e));
        },
    };
    let ghost widths = data.widths@;
    let tiers = data.compress_widths();
    let ghost t0 = tiers.tier_0@;
    let ghost t1 = tiers.tier_1@;
    let ghost t2 = tiers.tier_2@;
    proof {
        lemma_variations_are_codepoints(Set::empty(), lines(raw.emoji_variants@), 0);
    }
    let emoji_variations = match data.compress_emoji_variations() {
        Ok(trie) => trie,
        Err(e) => {
            return Err(Error::Compile(e));
        },
    };
    let bytes = match emit_width_table(tiers, version) {
        Ok(bytes) => bytes,
        Err(e) => {
            return Err(e);
        },
    };
    proof {
        lemma_round_trip(widths, t0, t1, t2);
        assert forall|u0: TableView, u1: TableView, u2: TableView|
            #![trigger compiled_from(widths, u0, u1, u2)]
            compiled_from(widths, u0, u1, u2) implies u1.fits_bytes() by {
            lemma_compiled_unique(widths, t0, t1, t2, u0, u1, u2);
        }
    }
    match WidthTables::new(
        bytes.version,
        bytes.table_0,
        bytes.table_1,
        bytes.table_2,
        emoji_variations,
    ) {
        Some(tables) => Ok(tables),
        None => unreached(),
    }
}

} // verus!
