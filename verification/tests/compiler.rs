//! The table compiler: buckets, tiers, and the emitted bytes.

use std::collections::HashSet;

use column_width::bucket::Bucket;
use column_width::compile::{NUM_CODEPOINTS, UNSET};
use column_width::emit::parse_version;
use column_width::table::Table;
use column_width::{
    emit_width_table, gen_tables, lookup_width, CodePointData, CompileError, Error, ParseError,
    ParseErrorKind, RawUnicodeData, TierTables, WidthTables,
};

fn chars(text: &str) -> Vec<char> {
    text.chars().collect()
}

fn bucket(codepoints: &[(u32, u8)], widths: &[u8]) -> Bucket {
    Bucket { codepoints: codepoints.to_vec(), widths: widths.to_vec() }
}

fn empty_table() -> Table {
    Table { entries: Vec::new(), buckets: Vec::new() }
}

/// The width that the emitted bytes record for a codepoint.
fn walk(t0: &[u8], t1: &[u8], t2: &[u8], cp: usize) -> u8 {
    let sub_1 = t0[cp >> 13 & 0xFF] as usize;
    let sub_2 = t1[128 * sub_1 + (cp >> 6 & 0x7F)] as usize;
    let packed = t2[16 * sub_2 + (cp >> 2 & 0xF)];
    packed >> (2 * (cp & 0b11)) & 0b11
}

/// A dense array with blocks of many shapes: runs of equal widths of every
/// length, and a stretch in which every 64 codepoints differ from the last.
fn varied_widths() -> Vec<u8> {
    let mut widths = vec![UNSET; NUM_CODEPOINTS];
    for (cp, width) in widths.iter_mut().enumerate() {
        if cp < 0x3000 {
            *width = ((cp / 7) % 3) as u8;
        } else if cp < 0x5000 {
            let block = (cp - 0x3000) / 64;
            let bit = (cp - 0x3000) % 64;
            *width = if bit < 8 && (block >> bit) & 1 == 1 { 2 } else { 0 };
        } else if cp >= 0x20000 && cp < 0x30000 {
            *width = 2;
        } else if cp % 0x1000 == 0x123 {
            *width = 0;
        }
    }
    widths
}

#[test]
fn partition_by_bit_window() {
    let entries = [(0u32, 1u8), (1, 2), (2, 0), (3, 1), (4, 2), (7, 0), (8, 1), (13, 2)];
    // Bits 1..3 of the codepoint.
    let buckets = Bucket::for_bits(&entries, 1, 3);
    assert_eq!(buckets.len(), 4);
    assert_eq!(buckets[0].codepoints, [(0, 1), (1, 2), (8, 1)]);
    assert_eq!(buckets[0].widths, [1, 2, 1]);
    assert_eq!(buckets[1].codepoints, [(2, 0), (3, 1)]);
    assert_eq!(buckets[1].widths, [0, 1]);
    assert_eq!(buckets[2].codepoints, [(4, 2), (13, 2)]);
    assert_eq!(buckets[2].widths, [2, 2]);
    assert_eq!(buckets[3].codepoints, [(7, 0)]);
    assert_eq!(buckets[3].widths, [0]);
    // Every entry lands in exactly one bucket.
    let total: usize = buckets.iter().map(|b| b.codepoints.len()).sum();
    assert_eq!(total, entries.len());
    assert_eq!(Bucket::for_bits(&[], 0, 6).len(), 64);
    assert_eq!(Bucket::for_bits(&entries, 13, 21).len(), 256);
    assert_eq!(Bucket::for_bits(&entries, 6, 13).len(), 128);
}

#[test]
fn buckets_merge_when_one_slice_begins_the_other() {
    let mut a = bucket(&[(0, 1), (1, 2)], &[1, 2]);
    let longer = bucket(&[(8, 1), (9, 2), (10, 0)], &[1, 2, 0]);
    assert!(a.try_merge(&longer));
    assert_eq!(a.widths, [1, 2, 0]);
    assert_eq!(a.codepoints, [(0, 1), (1, 2), (8, 1), (9, 2), (10, 0)]);

    let shorter = bucket(&[(16, 1)], &[1]);
    assert!(a.try_merge(&shorter));
    assert_eq!(a.widths, [1, 2, 0]);
    assert_eq!(a.codepoints.len(), 6);

    let same = bucket(&[(24, 1), (25, 2), (26, 0)], &[1, 2, 0]);
    assert!(a.try_merge(&same));
    assert_eq!(a.widths, [1, 2, 0]);

    let empty = bucket(&[], &[]);
    assert!(a.try_merge(&empty));
    assert_eq!(a.widths, [1, 2, 0]);
    assert_eq!(a.codepoints.len(), 9);

    let mut nothing = bucket(&[], &[]);
    assert!(nothing.try_merge(&shorter));
    assert_eq!(nothing.widths, [1]);
    assert_eq!(nothing.codepoints, [(16, 1)]);
}

#[test]
fn buckets_that_differ_are_left_alone() {
    let mut a = bucket(&[(0, 1), (1, 2)], &[1, 2]);
    for other in [
        bucket(&[(8, 1), (9, 1)], &[1, 1]),
        bucket(&[(8, 2)], &[2]),
        bucket(&[(8, 1), (9, 1), (10, 0)], &[1, 1, 0]),
        bucket(&[(8, 0), (9, 2), (10, 0)], &[0, 2, 0]),
    ] {
        assert!(!a.try_merge(&other));
        assert_eq!(a.widths, [1, 2]);
        assert_eq!(a.codepoints, [(0, 1), (1, 2)]);
    }
}

#[test]
fn bucket_members_come_out_sorted() {
    let b = bucket(&[(9, 1), (3, 2), (200, 0), (0, 1), (77, 2), (4, 0)], &[1, 2, 0]);
    assert_eq!(b.codepoints(), [(0, 1), (3, 2), (4, 0), (9, 1), (77, 2), (200, 0)]);
    // The bucket itself is left as it was.
    assert_eq!(b.codepoints[0], (9, 1));
    assert_eq!(b.widths(), [1, 2, 0]);
    assert_eq!(bucket(&[], &[]).codepoints(), []);
}

#[test]
fn bucket_width_needs_one_width_throughout() {
    assert_eq!(bucket(&[], &[]).width(), None);
    assert_eq!(bucket(&[], &[2]).width(), Some(2));
    assert_eq!(bucket(&[], &[0, 0, 0, 0]).width(), Some(0));
    assert_eq!(bucket(&[], &[1, 1, 2]).width(), None);
    assert_eq!(bucket(&[], &[2, 1, 1]).width(), None);
}

#[test]
fn tier_places_each_bucket_into_the_first_that_fits() {
    // Bit 2 and up pick the bucket; the two low bits the place in it.
    let group: Vec<(u32, u8)> =
        [1, 2, 0, 1, 0, 0, 0, 0, 1, 2, 0, 1, 2, 2, 2, 2, 0, 0, 0, 0]
            .iter()
            .enumerate()
            .map(|(cp, &w)| (cp as u32, w))
            .collect();
    let table = Table::new(&[group], 2, 5);
    assert_eq!(table.entries, [0, 1, 0, 2, 1, 0, 0, 0]);
    assert_eq!(table.buckets.len(), 3);
    assert_eq!(table.buckets[0].widths, [1, 2, 0, 1]);
    assert_eq!(table.buckets[1].widths, [0, 0, 0, 0]);
    assert_eq!(table.buckets[2].widths, [2, 2, 2, 2]);
    let members: Vec<u32> = table.buckets[0].codepoints.iter().map(|e| e.0).collect();
    assert_eq!(members, [0, 1, 2, 3, 8, 9, 10, 11]);
    let members: Vec<u32> = table.buckets[1].codepoints.iter().map(|e| e.0).collect();
    assert_eq!(members, [4, 5, 6, 7, 16, 17, 18, 19]);
}

#[test]
fn tier_numbers_the_buckets_of_all_groups() {
    let first: Vec<(u32, u8)> = vec![(0, 1), (1, 1), (2, 0), (3, 0)];
    let second: Vec<(u32, u8)> = vec![(4, 0), (5, 0), (6, 1), (7, 1), (8, 2)];
    // Bit 1 picks the bucket within a group.
    let table = Table::new(&[first, second], 1, 2);
    assert_eq!(table.entries, [0, 1, 1, 0]);
    assert_eq!(table.buckets.len(), 2);
    assert_eq!(table.buckets[0].widths, [1, 1]);
    assert_eq!(table.buckets[1].widths, [0, 0, 2]);
    assert_eq!(table.buckets[1].codepoints, [(2, 0), (3, 0), (4, 0), (5, 0), (8, 2)]);
    let nothing = Table::new(&[], 0, 6);
    assert!(nothing.entries.is_empty() && nothing.buckets.is_empty());
}

#[test]
fn indices_are_emitted_as_bytes() {
    let table = Table { entries: vec![0, 3, 255, 1], buckets: Vec::new() };
    assert!(table.fits_bytes());
    assert_eq!(table.into_bytes(), [0, 3, 255, 1]);
    let table = Table { entries: vec![0, 256], buckets: Vec::new() };
    assert!(!table.fits_bytes());
    assert_eq!(empty_table().into_bytes(), []);
}

#[test]
fn widths_are_packed_four_to_a_byte() {
    let buckets = vec![bucket(&[], &[0, 0]), bucket(&[], &[1]), bucket(&[], &[2, 2, 2])];
    let table = Table { entries: vec![1, 2, 0, 1, 2, 2, 2, 2, 0, 0, 0, 1], buckets };
    assert!(table.is_flat());
    // 1 + (2 << 2) + (0 << 4) + (1 << 6), then four times 2, then 1 in the
    // highest slot.
    assert_eq!(table.into_flat_bytes(), [0b01_00_10_01, 0b10_10_10_10, 0b01_00_00_00]);
    assert!(empty_table().is_flat());
    assert_eq!(empty_table().into_flat_bytes(), []);
}

#[test]
fn tiers_that_are_not_flat_are_recognised() {
    let flat = |entries: Vec<usize>, buckets: Vec<Bucket>| Table { entries, buckets }.is_flat();
    assert!(flat(vec![0, 0, 0, 0], vec![bucket(&[], &[2])]));
    // Not a multiple of four.
    assert!(!flat(vec![0, 0, 0], vec![bucket(&[], &[2])]));
    // An entry that names no bucket.
    assert!(!flat(vec![0, 0, 0, 1], vec![bucket(&[], &[2])]));
    // A bucket with two widths, or with none.
    assert!(!flat(vec![0, 0, 0, 0], vec![bucket(&[], &[2, 1])]));
    assert!(!flat(vec![0, 0, 0, 0], vec![bucket(&[], &[])]));
    // A width that is no width class.
    assert!(!flat(vec![0, 0, 0, 0], vec![bucket(&[], &[3])]));
    // A bucket that no entry names may be anything.
    assert!(flat(vec![0, 0, 0, 0], vec![bucket(&[], &[2]), bucket(&[], &[1, 0])]));
}

#[test]
fn compiled_tiers_give_back_the_dense_array() {
    let widths = varied_widths();
    let data = CodePointData { widths: widths.clone(), emoji_variations: HashSet::new() };
    let tiers = data.compress_widths();
    assert_eq!(tiers.tier_0.entries.len(), 256);
    assert_eq!(tiers.tier_1.entries.len(), 128 * tiers.tier_0.buckets.len());
    assert_eq!(tiers.tier_2.entries.len(), 64 * tiers.tier_1.buckets.len());
    let bytes = emit_width_table(tiers, "1.2.3").unwrap();
    assert_eq!(bytes.version, (1, 2, 3));
    for (cp, &width) in widths.iter().enumerate() {
        let expected = if width == UNSET { 1 } else { width };
        assert_eq!(walk(&bytes.table_0, &bytes.table_1, &bytes.table_2, cp), expected, "{cp:X}");
    }
    // Compression does not regress.
    assert!(bytes.table_0.len() + bytes.table_1.len() + bytes.table_2.len() <= widths.len());
    assert_eq!(bytes.table_0.len(), 256);
    assert_eq!(bytes.table_1.len() % 128, 0);
    assert_eq!(bytes.table_2.len() % 16, 0);
    // The resolver reads the same widths.
    let trie = data.compress_emoji_variations().unwrap();
    let tables =
        WidthTables::new(bytes.version, bytes.table_0, bytes.table_1, bytes.table_2, trie).unwrap();
    for (cp, &width) in widths.iter().enumerate() {
        if let Some(c) = char::from_u32(cp as u32) {
            let expected = if width == UNSET { 1 } else { width };
            assert_eq!(lookup_width(&tables, c), expected, "{cp:X}");
        }
    }
}

#[test]
fn last_tier_is_flat_whatever_the_widths() {
    let mut state: u32 = 0x2545_F491;
    for round in 0..4 {
        // Runs of equal widths, of lengths up to 4, 64, 1024 and 16384.
        let mut widths = vec![UNSET; NUM_CODEPOINTS];
        let mut cp = 0;
        while cp < NUM_CODEPOINTS {
            state = state.wrapping_mul(1_664_525).wrapping_add(1_013_904_223);
            let run = 1 + (state >> 8) as usize % (4 << (4 * round));
            let width = match (state >> 28) % 4 {
                3 => UNSET,
                class => class as u8,
            };
            let end = (cp + run).min(NUM_CODEPOINTS);
            widths[cp..end].fill(width);
            cp = end;
        }
        let data = CodePointData { widths, emoji_variations: HashSet::new() };
        let tiers = data.compress_widths();
        assert!(tiers.tier_0.fits_bytes());
        assert!(tiers.tier_2.is_flat());
        assert!(tiers.tier_2.buckets.len() <= 3);
        for bucket in &tiers.tier_2.buckets {
            assert!(bucket.width().is_some());
        }
        // Whether the tiers can be emitted depends on the second tier alone.
        let fits = tiers.tier_1.fits_bytes();
        match emit_width_table(tiers, "15.0.0") {
            Ok(bytes) => {
                assert!(fits);
                for (cp, &width) in data.widths.iter().enumerate().step_by(7) {
                    let expected = if width == UNSET { 1 } else { width };
                    assert_eq!(walk(&bytes.table_0, &bytes.table_1, &bytes.table_2, cp), expected);
                }
            }
            Err(error) => {
                assert!(!fits);
                assert_eq!(error, Error::Compile(CompileError::TooManyBuckets(1)));
            }
        }
    }
}

#[test]
fn equal_blocks_share_a_sub_table() {
    let data = CodePointData { widths: vec![UNSET; NUM_CODEPOINTS], emoji_variations: HashSet::new() };
    let tiers = data.compress_widths();
    assert_eq!(tiers.tier_0.buckets.len(), 1);
    assert_eq!(tiers.tier_1.buckets.len(), 1);
    assert_eq!(tiers.tier_2.buckets.len(), 1);
    assert_eq!(tiers.tier_2.buckets[0].width(), Some(1));
    let bytes = emit_width_table(tiers, "15.0.0").unwrap();
    assert_eq!(bytes.table_0, vec![0u8; 256]);
    assert_eq!(bytes.table_1, vec![0u8; 128]);
    assert_eq!(bytes.table_2, vec![0b01_01_01_01u8; 16]);
}

#[test]
fn versions_have_three_numbers() {
    assert_eq!(parse_version(&chars("15.0.0")), Ok((15, 0, 0)));
    assert_eq!(parse_version(&chars("  9.255.+1\n")), Ok((9, 255, 1)));
    for bad in ["", "15", "15.0", "15.0.0.0", "15.0.x", "15..0", "256.0.0", "15.0.-1", "15. 0.0", "v15.0.0"] {
        assert_eq!(
            parse_version(&chars(bad)),
            Err(ParseError { kind: ParseErrorKind::Version, text: chars(bad) }),
            "{bad:?}"
        );
    }
}

#[test]
fn emitting_reports_a_malformed_version_first() {
    let tiers = TierTables {
        tier_0: Table { entries: vec![256], buckets: Vec::new() },
        tier_1: empty_table(),
        tier_2: empty_table(),
    };
    let error = emit_width_table(tiers, "fifteen").err();
    assert_eq!(
        error,
        Some(Error::Parse(ParseError { kind: ParseErrorKind::Version, text: chars("fifteen") }))
    );
}

#[test]
fn emitting_reports_tiers_that_cannot_be_emitted() {
    let tiers = |t0: Vec<usize>, t1: Vec<usize>, t2: Table| TierTables {
        tier_0: Table { entries: t0, buckets: Vec::new() },
        tier_1: Table { entries: t1, buckets: Vec::new() },
        tier_2: t2,
    };
    let mixed = Table { entries: vec![0, 0, 0, 0], buckets: vec![bucket(&[], &[1, 2])] };
    assert_eq!(
        emit_width_table(tiers(vec![256], vec![256], empty_table()), "1.0.0").err(),
        Some(Error::Compile(CompileError::TooManyBuckets(0)))
    );
    assert_eq!(
        emit_width_table(tiers(vec![255], vec![0, 256], empty_table()), "1.0.0").err(),
        Some(Error::Compile(CompileError::TooManyBuckets(1)))
    );
    assert_eq!(
        emit_width_table(tiers(vec![255], vec![255], mixed), "1.0.0").err(),
        Some(Error::Compile(CompileError::NotFlat))
    );
    let bytes = emit_width_table(tiers(vec![255], vec![7], empty_table()), "1.0.0").unwrap();
    assert_eq!((bytes.table_0, bytes.table_1, bytes.table_2), (vec![255], vec![7], vec![]));
}

#[test]
fn too_many_distinct_blocks_cannot_be_compiled() {
    // 300 blocks of 64 codepoints, each with the number of the block
    // written into the widths of its first nine codepoints.
    let mut eaw = String::new();
    for block in 0u32..300 {
        for bit in 0..9 {
            if (block >> bit) & 1 == 1 {
                eaw.push_str(&format!("{:04X};W\n", 0x1_0000 + 64 * block + bit));
            }
        }
    }
    let raw = RawUnicodeData::new(String::new(), eaw, String::new(), String::new());
    assert_eq!(
        gen_tables(&raw, "15.0.0").err(),
        Some(Error::Compile(CompileError::TooManyBuckets(1)))
    );
}

#[test]
fn variation_set_is_compressed_into_a_trie() {
    let members = [0x23u32, 0xA9, 0x7FF, 0x800, 0x270C, 0xFFFD, 0x1_0000, 0x1F004, 0x10_FFFF];
    let data = CodePointData {
        widths: vec![UNSET; NUM_CODEPOINTS],
        emoji_variations: members.iter().copied().collect(),
    };
    let trie = data.compress_emoji_variations().unwrap();
    for cp in 0u32..0x11_0000 {
        assert_eq!(trie.contains_u32(cp), members.contains(&cp), "{cp:X}");
    }
}

#[test]
fn variation_set_with_a_value_that_is_no_codepoint() {
    let data = CodePointData {
        widths: vec![UNSET; NUM_CODEPOINTS],
        emoji_variations: [0x41u32, 0x11_0000].into_iter().collect(),
    };
    assert_eq!(
        data.compress_emoji_variations().err(),
        Some(CompileError::InvalidCodepoint(0x11_0000))
    );
}

#[test]
fn variation_set_that_cannot_be_compressed() {
    // 300 chunks of 64 codepoints in the range of the second tree of the
    // trie, no two with the same members.
    let mut members = HashSet::new();
    for chunk in 1u32..=300 {
        for bit in 0..9 {
            if (chunk >> bit) & 1 == 1 {
                members.insert(0x800 + 64 * chunk + bit);
            }
        }
    }
    let data = CodePointData { widths: vec![UNSET; NUM_CODEPOINTS], emoji_variations: members };
    assert_eq!(data.compress_emoji_variations().err(), Some(CompileError::TrieGaveUp));
    // The same through the whole run.
    let mut variants = String::new();
    for chunk in 1u32..=300 {
        for bit in 0..9 {
            if (chunk >> bit) & 1 == 1 {
                variants.push_str(&format!("{:04X} FE0F ; emoji style\n", 0x800 + 64 * chunk + bit));
            }
        }
    }
    let raw = RawUnicodeData::new(String::new(), String::new(), String::new(), variants);
    assert_eq!(gen_tables(&raw, "15.0.0").err(), Some(Error::Compile(CompileError::TrieGaveUp)));
}

#[test]
fn errors_of_the_run_come_in_order() {
    let raw = |eaw: &str, variants: &str| {
        RawUnicodeData::new(String::new(), eaw.to_string(), String::new(), variants.to_string())
    };
    let version = Error::Parse(ParseError { kind: ParseErrorKind::Version, text: chars("15") });
    let line = Error::Parse(ParseError { kind: ParseErrorKind::VariationLine, text: chars("oops") });
    assert_eq!(gen_tables(&raw("0041;W\n", "oops\n"), "15").err(), Some(line));
    assert_eq!(gen_tables(&raw("0041;W\n", ""), "15").err(), Some(version));
    assert!(gen_tables(&raw("0041;W\n", ""), "15.1.0").is_ok());
}
