//! The rules that give each codepoint its width class.

use column_width::compile::{NUM_CODEPOINTS, UNSET};
use column_width::rules::{apply_rule, fill_range, Rule};
use column_width::{gen_tables, lookup_width, ParseError, ParseErrorKind, RawUnicodeData};

fn chars(text: &str) -> Vec<char> {
    text.chars().collect()
}

fn raw(unicode_data: &str, eaw: &str, emoji: &str, variants: &str) -> RawUnicodeData {
    RawUnicodeData::new(
        unicode_data.to_string(),
        eaw.to_string(),
        emoji.to_string(),
        variants.to_string(),
    )
}

fn unset() -> Vec<u8> {
    vec![UNSET; NUM_CODEPOINTS]
}

fn error(kind: ParseErrorKind, text: &str) -> ParseError {
    ParseError { kind, text: chars(text) }
}

#[test]
fn east_asian_width_sets_wide_and_narrow() {
    let data = raw("", "0041;Na\n1100..115F;W # hangul\n3000;F\n00A1;A\nFF61;H\n0378;N\n", "", "");
    let mut table = unset();
    assert_eq!(data.fill_table_with_eaw_width(&mut table), Ok(()));
    assert_eq!(table[0x41], 1);
    assert_eq!(table[0x10FF], UNSET);
    assert_eq!(table[0x1100], 2);
    assert_eq!(table[0x115F], 2);
    assert_eq!(table[0x1160], UNSET);
    assert_eq!(table[0x3000], 2);
    assert_eq!(table[0xA1], 1);
    assert_eq!(table[0xFF61], 1);
    assert_eq!(table[0x378], 1);
    assert_eq!(table[0x42], UNSET);
}

#[test]
fn line_endings_and_blank_lines_do_not_matter() {
    let unix = raw("", "# comment\n\n0041;W\n  \n0042;N # narrow\n", "", "");
    let dos = raw("", "# comment\r\n\r\n0041;W\r\n  \r\n0042;N # narrow", "", "");
    let mut first = unset();
    let mut second = unset();
    assert_eq!(unix.fill_table_with_eaw_width(&mut first), Ok(()));
    assert_eq!(dos.fill_table_with_eaw_width(&mut second), Ok(()));
    assert_eq!(first[0x41], 2);
    assert_eq!(first[0x42], 1);
    assert!(first == second);
    // A file that is empty changes nothing but the wide blocks.
    let mut table = unset();
    assert_eq!(raw("", "", "", "").fill_table_with_eaw_width(&mut table), Ok(()));
    assert_eq!(table[0x41], UNSET);
    assert_eq!(table[0x3400], 2);
}

#[test]
fn east_asian_width_skips_lines_without_two_fields() {
    let data = raw("", "0041\n0042;Na;extra\nnot a codepoint\n0043;W\n", "", "");
    let mut table = unset();
    assert_eq!(data.fill_table_with_eaw_width(&mut table), Ok(()));
    assert_eq!(table[0x41], UNSET);
    assert_eq!(table[0x42], UNSET);
    assert_eq!(table[0x43], 2);
}

#[test]
fn unassigned_ideographs_are_wide() {
    let data = raw("", "4E00..4E0F;W\n4E10;N\n9FFE;Na\n", "", "");
    let mut table = unset();
    assert_eq!(data.fill_table_with_eaw_width(&mut table), Ok(()));
    // What the file names keeps the width that the file gives.
    assert_eq!(table[0x4E00], 2);
    assert_eq!(table[0x4E10], 1);
    assert_eq!(table[0x9FFE], 1);
    // What it does not name is wide in these blocks, and only there.
    let blocks = [(0x3400, 0x4DBF), (0x4E00, 0x9FFF), (0xF900, 0xFAFF), (0x20000, 0x2FFFD), (0x30000, 0x3FFFD)];
    for cp in 0..NUM_CODEPOINTS {
        if cp == 0x4E10 || cp == 0x9FFE {
            continue;
        }
        let wide = blocks.iter().any(|&(first, last)| first <= cp && cp <= last);
        assert_eq!(table[cp], if wide { 2 } else { UNSET }, "{cp:X}");
    }
    // The same holds of the compiled tables.
    let tables = gen_tables(&data, "15.0.0").unwrap();
    assert_eq!(lookup_width(&tables, '\u{4E11}'), 2);
    assert_eq!(lookup_width(&tables, '\u{9FFF}'), 2);
    assert_eq!(lookup_width(&tables, '\u{4E10}'), 1);
    assert_eq!(lookup_width(&tables, '\u{A000}'), 1);
    assert_eq!(lookup_width(&tables, '\u{2FFFD}'), 2);
    assert_eq!(lookup_width(&tables, '\u{40000}'), 1);
}

#[test]
fn zero_width_categories_override_east_asian_width() {
    let unicode_data = "\
0000;<control>;Cc;0;BN;;;;;N;NULL;;;;
0041;LATIN CAPITAL LETTER A;Lu;0;L;;;;;N;;;;0061;
00AD;SOFT HYPHEN;Cf;0;BN;;;;;N;;;;;
0301;COMBINING ACUTE ACCENT;Mn;230;NSM;;;;;N;NON-SPACING ACUTE;;;;
0903;DEVANAGARI SIGN VISARGA;Mc;0;L;;;;;N;;;;;
20DD;COMBINING ENCLOSING CIRCLE;Me;0;NSM;;;;;N;ENCLOSING CIRCLE;;;;
2028;LINE SEPARATOR;Zl;0;WS;;;;;N;;;;;
2029;PARAGRAPH SEPARATOR;Zp;0;B;;;;;N;;;;;
3000;IDEOGRAPHIC SPACE;Zs;0;WS;<wide> 0020;;;;N;;;;;
302A;IDEOGRAPHIC LEVEL TONE MARK;Mn;218;NSM;;;;;N;;;;;
D800;<Non Private Use High Surrogate, First>;Cs;0;L;;;;;N;;;;;
E000;<Private Use, First>;Co;0;L;;;;;N;;;;;
short;line
";
    let data = raw(unicode_data, "", "", "");
    let mut table = vec![2u8; NUM_CODEPOINTS];
    assert_eq!(data.fill_zero_width_categories(&mut table), Ok(()));
    for cp in [0x0, 0xAD, 0x301, 0x903, 0x20DD, 0x2028, 0x2029, 0x302A, 0xD800] {
        assert_eq!(table[cp], 0, "{cp:X}");
    }
    for cp in [0x1, 0x41, 0x3000, 0xE000, 0xD801] {
        assert_eq!(table[cp], 2, "{cp:X}");
    }
}

#[test]
fn emoji_presentation_overrides_the_rules_before() {
    let emoji = "\
# emoji-data
00A9          ; Emoji                # copyright
231A..231B    ; Emoji_Presentation   # watch..hourglass done
1F600         ; Emoji_Presentation ; a third field
1F601         ; Emoji_Presentation_Not
";
    let data = raw("", "", emoji, "");
    let mut table = vec![0u8; NUM_CODEPOINTS];
    assert_eq!(data.fill_emojis(&mut table), Ok(()));
    assert_eq!(table[0xA9], 0);
    assert_eq!(table[0x2319], 0);
    assert_eq!(table[0x231A], 2);
    assert_eq!(table[0x231B], 2);
    assert_eq!(table[0x231C], 0);
    assert_eq!(table[0x1F600], 2);
    assert_eq!(table[0x1F601], 0);
}

#[test]
fn hardcoded_widths_override_everything() {
    let mut table = vec![2u8; NUM_CODEPOINTS];
    RawUnicodeData::fill_hardcoded_widths(&mut table);
    for cp in 0..NUM_CODEPOINTS {
        let surrogate = (0xD800..=0xDFFF).contains(&cp);
        let jamo = (0x1160..=0x11FF).contains(&cp);
        let noncharacter = (0xFDD0..=0xFDEF).contains(&cp) || cp % 0x10000 >= 0xFFFE;
        let expected = if cp == 0xAD {
            1
        } else if surrogate || jamo || noncharacter {
            0
        } else {
            2
        };
        assert_eq!(table[cp], expected, "{cp:X}");
    }
}

#[test]
fn noncharacters_have_no_width() {
    // The data files say otherwise; the hardcoded widths win.
    let data = raw("", "FDD0..FDEF;W\nFFFE..FFFF;W\n10FFFE..10FFFF;W\n", "FDD0 ; Emoji_Presentation\n", "");
    let tables = gen_tables(&data, "15.0.0").unwrap();
    for cp in 0xFDD0u32..=0xFDEF {
        assert_eq!(lookup_width(&tables, char::from_u32(cp).unwrap()), 0);
    }
    for plane in 0u32..=16 {
        for low in [0xFFFEu32, 0xFFFF] {
            let c = char::from_u32(plane * 0x10000 + low).unwrap();
            assert_eq!(lookup_width(&tables, c), 0);
        }
        let before = char::from_u32(plane * 0x10000 + 0xFFFD).unwrap();
        assert_ne!(lookup_width(&tables, before), 0);
    }
    assert_eq!(lookup_width(&tables, '\u{FDCF}'), 1);
    assert_eq!(lookup_width(&tables, '\u{FDF0}'), 1);
}

#[test]
fn soft_hyphen_is_narrow() {
    let data = raw("00AD;SOFT HYPHEN;Cf;0;BN;;;;;N;;;;;\n", "00AD;A\n", "", "");
    let found = data.codepoint_data().unwrap();
    assert_eq!(found.widths[0xAD], 1);
    let tables = gen_tables(&data, "15.0.0").unwrap();
    assert_eq!(lookup_width(&tables, '\u{AD}'), 1);
}

#[test]
fn rules_are_layered_in_order() {
    let data = raw(
        "0300;COMBINING GRAVE ACCENT;Mn;230;NSM;;;;;N;NON-SPACING GRAVE;;;;\n\
         1F3FB;EMOJI MODIFIER FITZPATRICK TYPE-1-2;Sk;0;ON;;;;;N;;;;;\n\
         E0001;LANGUAGE TAG;Cf;0;BN;;;;;N;;;;;\n",
        "0300;A\n1F3FB..1F3FF;W\nE0001;N\n1160..11FF;W\n",
        "1F3FB..1F3FF ; Emoji_Presentation\nE0001 ; Emoji_Presentation\n",
        "",
    );
    let found = data.codepoint_data().unwrap();
    assert_eq!(found.widths.len(), NUM_CODEPOINTS);
    assert_eq!(found.widths[0x300], 0);
    assert_eq!(found.widths[0x1F3FB], 2);
    // Emoji presentation is read after the categories.
    assert_eq!(found.widths[0xE0001], 2);
    // The hardcoded widths are set last.
    assert_eq!(found.widths[0x1160], 0);
    assert_eq!(found.widths[0x41], UNSET);
    assert!(found.emoji_variations.is_empty());
    // A codepoint that no rule has touched is narrow in the tables.
    let tables = gen_tables(&data, "15.0.0").unwrap();
    assert_eq!(lookup_width(&tables, '\u{100}'), 1);
}

#[test]
fn filling_a_range_is_inclusive() {
    let mut table = vec![7u8; 16];
    fill_range(&mut table, 3, 5, 1);
    assert_eq!(table, [7, 7, 7, 1, 1, 1, 7, 7, 7, 7, 7, 7, 7, 7, 7, 7]);
    fill_range(&mut table, 15, 15, 2);
    assert_eq!(table[15], 2);
    // A range that ends one before it begins is empty.
    fill_range(&mut table, 4, 3, 9);
    assert_eq!(table, [7, 7, 7, 1, 1, 1, 7, 7, 7, 7, 7, 7, 7, 7, 7, 2]);
}

#[test]
fn malformed_codepoints_are_reported() {
    let data = raw("00G0;NAME;Cc\n", "0041;Na\n00ZZ;W\n0043;W\n", "12 34 ; Emoji\n", "");
    let mut table = unset();
    assert_eq!(
        data.fill_table_with_eaw_width(&mut table),
        Err(error(ParseErrorKind::Codepoint, "00ZZ"))
    );
    let mut table = unset();
    assert_eq!(
        data.fill_zero_width_categories(&mut table),
        Err(error(ParseErrorKind::Codepoint, "00G0"))
    );
    let mut table = unset();
    assert_eq!(data.fill_emojis(&mut table), Err(error(ParseErrorKind::Codepoint, "12 34")));
    // The first file that fails decides.
    assert_eq!(data.codepoint_data().err(), Some(error(ParseErrorKind::Codepoint, "00ZZ")));
}

#[test]
fn ranges_outside_the_codepoint_space_are_reported() {
    for (range, fails) in [
        ("10FFFF", false),
        ("0..10FFFF", false),
        ("110000", true),
        ("10FFF0..110000", true),
        ("0005..0001", true),
        ("0005..0004", false),
        ("FFFFFFFF", true),
    ] {
        let mut table = unset();
        let result = apply_rule(Rule::EastAsianWidth, &mut table, &format!("{range};W\n"));
        if fails {
            assert_eq!(result, Err(error(ParseErrorKind::Range, range)), "{range}");
        } else {
            assert_eq!(result, Ok(()), "{range}");
        }
    }
    // A rule that does not fill a range does not mind where it lies.
    let mut table = unset();
    assert_eq!(apply_rule(Rule::ZeroWidth, &mut table, "110000;NAME;Lu\n"), Ok(()));
    assert_eq!(
        apply_rule(Rule::ZeroWidth, &mut table, "110000;NAME;Mn\n"),
        Err(error(ParseErrorKind::Range, "110000"))
    );
}

#[test]
fn emoji_lines_need_a_property() {
    let data = raw("", "", "231A ; Emoji_Presentation\n  231B  \n", "");
    let mut table = unset();
    assert_eq!(data.fill_emojis(&mut table), Err(error(ParseErrorKind::EmojiLine, "231B")));
}

#[test]
fn variation_lines_name_a_codepoint_and_a_selector() {
    let variants = "\
# emoji-variation-sequences
0023 FE0E  ; text style;  # (1.1) NUMBER SIGN
0023 FE0F  ; emoji style; # (1.1) NUMBER SIGN
1F004 FE0F ; emoji style; # (5.1) MAHJONG TILE RED DRAGON
";
    let found = raw("", "", "", variants).emoji_variations().unwrap();
    let mut members: Vec<u32> = found.into_iter().collect();
    members.sort();
    assert_eq!(members, [0x23, 0x1F004]);

    for bad in [
        "0023 FE0D ; other selector",
        "0023 ; no selector",
        "0023 FE0F FE0F ; two selectors",
        "0023  FE0F ; two spaces",
        "FE0F ; selector only",
        "00ZZ FE0F ; no codepoint",
        "110000 FE0F ; beyond the codepoint space",
        "; empty",
    ] {
        let text = format!("0023 FE0E ; text style\n  {bad}  # comment \n");
        let result = raw("", "", "", &text).emoji_variations();
        // The error names the line without the whitespace at its ends.
        let line = format!("{bad}  # comment");
        assert_eq!(result.err(), Some(error(ParseErrorKind::VariationLine, &line)), "{bad}");
    }
}

#[test]
fn variation_errors_come_after_width_errors() {
    let data = raw("", "xyz;W\n", "", "bad line\n");
    assert_eq!(data.codepoint_data().err(), Some(error(ParseErrorKind::Codepoint, "xyz")));
    let data = raw("", "0041;W\n", "", "bad line\n");
    assert_eq!(data.codepoint_data().err(), Some(error(ParseErrorKind::VariationLine, "bad line")));
}
