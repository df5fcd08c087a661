//! The resolver on tables that are compiled from lines of the Unicode
//! Character Database.

use column_width::UnicodeCompat::{Unicode14, Unicode9};
use column_width::{
    char_width_unicode14, char_width_unicode9, char_width_with_lookahead, gen_tables,
    grapheme_width, grapheme_width_non_zero, lookup_codepoint, lookup_width, str_width,
    RawUnicodeData, UnicodeCompat, WidthTables,
};

const UNICODE_DATA: &str = "\
0000;<control>;Cc;0;BN;;;;;N;NULL;;;;
0009;<control>;Cc;0;S;;;;;N;CHARACTER TABULATION;;;;
000A;<control>;Cc;0;B;;;;;N;LINE FEED (LF);;;;
001F;<control>;Cc;0;S;;;;;N;INFORMATION SEPARATOR ONE;;;;
0020;SPACE;Zs;0;WS;;;;;N;;;;;
0041;LATIN CAPITAL LETTER A;Lu;0;L;;;;;N;;;;0061;
007F;<control>;Cc;0;BN;;;;;N;DELETE;;;;
00A9;COPYRIGHT SIGN;So;0;ON;;;;;N;;;;;
00AD;SOFT HYPHEN;Cf;0;BN;;;;;N;;;;;
0301;COMBINING ACUTE ACCENT;Mn;230;NSM;;;;;N;NON-SPACING ACUTE;;;;
0903;DEVANAGARI SIGN VISARGA;Mc;0;L;;;;;N;;;;;
1112;HANGUL CHOSEONG HIEUH;Lo;0;L;;;;;N;;;;;
1161;HANGUL JUNGSEONG A;Lo;0;L;;;;;N;;;;;
11AB;HANGUL JONGSEONG NIEUN;Lo;0;L;;;;;N;;;;;
200D;ZERO WIDTH JOINER;Cf;0;BN;;;;;N;;;;;
2028;LINE SEPARATOR;Zl;0;WS;;;;;N;;;;;
2029;PARAGRAPH SEPARATOR;Zp;0;B;;;;;N;;;;;
20DD;COMBINING ENCLOSING CIRCLE;Me;0;NSM;;;;;N;ENCLOSING CIRCLE;;;;
270A;RAISED FIST;So;0;ON;;;;;N;;;;;
270C;VICTORY HAND;So;0;ON;;;;;N;;;;;
2714;HEAVY CHECK MARK;So;0;ON;;;;;N;;;;;
2764;HEAVY BLACK HEART;So;0;ON;;;;;N;;;;;
3000;IDEOGRAPHIC SPACE;Zs;0;WS;<wide> 0020;;;;N;;;;;
FE0E;VARIATION SELECTOR-15;Mn;0;NSM;;;;;N;;;;;
FE0F;VARIATION SELECTOR-16;Mn;0;NSM;;;;;N;;;;;
1F468;MAN;So;0;ON;;;;;N;;;;;
1F469;WOMAN;So;0;ON;;;;;N;;;;;
1F5D9;CANCELLATION X;So;0;ON;;;;;N;;;;;
";

const EAST_ASIAN_WIDTH: &str = "\
# EastAsianWidth
#
# The format is two fields separated by a semicolon.

0000..001F;N     # Cc    [32] <control-0000>..<control-001F>
0020;Na          # Zs         SPACE
0021..007E;Na    #            EXCLAMATION MARK..TILDE
007F;N           # Cc         <control-007F>
00A9;N           # So         COPYRIGHT SIGN
00AD;A           # Cf         SOFT HYPHEN
0300..036F;A     # Mn   [112] COMBINING GRAVE ACCENT..COMBINING LATIN SMALL LETTER X
1100..115F;W     # Lo    [96] HANGUL CHOSEONG KIYEOK..HANGUL CHOSEONG FILLER
1160..11FF;N     # Lo   [160] HANGUL JUNGSEONG FILLER..HANGUL JONGSEONG SSANGNIEUN
200B..200F;N     # Cf     [5] ZERO WIDTH SPACE..RIGHT-TO-LEFT MARK
270A..270B;W     # So     [2] RAISED FIST..RAISED HAND
270C..270D;N     # So     [2] VICTORY HAND..WRITING HAND
2714;N           # So         HEAVY CHECK MARK
2764;N           # So         HEAVY BLACK HEART
3000;F           # Zs         IDEOGRAPHIC SPACE
FE00..FE0F;A     # Mn    [16] VARIATION SELECTOR-1..VARIATION SELECTOR-16
1F442..1F4FC;W   # So   [187] EAR..VIDEOCASSETTE
1F5A5..1F5FA;N   # So    [86] DESKTOP COMPUTER..WORLD MAP
";

const EMOJI_DATA: &str = "\
# emoji-data
00A9          ; Emoji                # E0.6   [1] (\u{a9}\u{fe0f})       copyright
270A..270B    ; Emoji                # E0.6   [2] (\u{270a}..\u{270b})    raised fist..raised hand
270A..270B    ; Emoji_Presentation   # E0.6   [2] (\u{270a}..\u{270b})    raised fist..raised hand
270C..270D    ; Emoji                # E0.6   [2] (\u{270c}\u{fe0f}..\u{270d}\u{fe0f})    victory hand..writing hand
1F442..1F4F7  ; Emoji_Presentation   # E0.6 [182] (\u{1f442}..\u{1f4f7})    ear..camera
";

const EMOJI_VARIATION_SEQUENCES: &str = "\
# emoji-variation-sequences
00A9 FE0E  ; text style;  # (1.1) COPYRIGHT SIGN
00A9 FE0F  ; emoji style; # (1.1) COPYRIGHT SIGN
270C FE0E  ; text style;  # (1.1) VICTORY HAND
270C FE0F  ; emoji style; # (1.1) VICTORY HAND
2714 FE0E  ; text style;  # (1.1) HEAVY CHECK MARK
2714 FE0F  ; emoji style; # (1.1) HEAVY CHECK MARK
2764 FE0E  ; text style;  # (1.1) HEAVY BLACK HEART
2764 FE0F  ; emoji style; # (1.1) HEAVY BLACK HEART
";

fn tables() -> WidthTables {
    let raw = RawUnicodeData::new(
        UNICODE_DATA.to_string(),
        EAST_ASIAN_WIDTH.to_string(),
        EMOJI_DATA.to_string(),
        EMOJI_VARIATION_SEQUENCES.to_string(),
    );
    gen_tables(&raw, "15.0.0").expect("the tables compile")
}

#[test]
fn issue_1161() {
    let t = tables();
    assert_eq!(str_width(&t, "\u{3000}", Unicode14), 2);
}

#[test]
fn issue_997() {
    let t = tables();
    let victory_hand = "\u{270c}";
    let victory_hand_text_presentation = "\u{270c}\u{fe0e}";

    assert_eq!(str_width(&t, victory_hand_text_presentation, Unicode14), 1);
    assert_eq!(str_width(&t, victory_hand, Unicode14), 1);

    let copyright_emoji_presentation = "\u{00A9}\u{FE0F}";
    assert_eq!(str_width(&t, copyright_emoji_presentation, Unicode14), 2);
    assert_eq!(str_width(&t, copyright_emoji_presentation, Unicode9), 1);

    let copyright_text_presentation = "\u{00A9}";
    assert_eq!(str_width(&t, copyright_text_presentation, Unicode14), 1);

    let raised_fist = "\u{270a}";
    // A text presentation selector is not valid after the raised fist.
    let raised_fist_text = "\u{270a}\u{fe0e}";
    assert_eq!(str_width(&t, raised_fist, Unicode14), 2);
    assert_eq!(str_width(&t, raised_fist_text, Unicode14), 2);
}

#[test]
fn issue_1573() {
    let t = tables();
    let sequence = "\u{1112}\u{1161}\u{11ab}";
    assert_eq!(str_width(&t, sequence, Unicode14), 2);
    assert_eq!(str_width(&t, sequence, Unicode9), 2);

    let sequence2 = std::str::from_utf8(b"\xe1\x84\x92\xe1\x85\xa1\xe1\x86\xab").unwrap();
    assert_eq!(str_width(&t, sequence2, Unicode14), 2);
    assert_eq!(str_width(&t, sequence2, Unicode9), 2);
}

#[test]
fn issue_5502() {
    // Some emulators have treated the cancellation X as two columns wide,
    // though it is not.
    let t = tables();
    assert_eq!(str_width(&t, "\u{1F5D9}", Unicode9), 1);
    assert_eq!(str_width(&t, "\u{1F5D9}", Unicode14), 1);
    assert_eq!(termwiz::cell::grapheme_column_width("\u{1F5D9}", None), 1);
}

#[test]
fn emoji_representation() {
    // Without segmentation into clusters each codepoint is scored by itself.
    let t = tables();
    let couple = "\u{1F469}\u{200D}\u{2764}\u{FE0F}\u{200D}\u{1F468}";
    let check_mark = "\u{2714}\u{FE0F}";
    assert_eq!(str_width(&t, couple, Unicode9), 5);
    assert_eq!(str_width(&t, couple, Unicode14), 6);
    assert_eq!(str_width(&t, check_mark, Unicode9), 1);
    assert_eq!(str_width(&t, check_mark, Unicode14), 2);
}

#[test]
fn default_mode_ignores_selectors() {
    assert_eq!(UnicodeCompat::default(), Unicode9);
}

#[test]
fn ascii_is_scored_without_the_tables() {
    let t = tables();
    for code in 0u8..0x80 {
        let c = code as char;
        let expected = if code < 0x20 || code == 0x7F { 0 } else { 1 };
        assert_eq!(char_width_unicode9(&t, c), expected);
        assert_eq!(char_width_unicode14(&t, c, ""), expected);
        assert_eq!(char_width_unicode14(&t, c, "\u{fe0f}"), expected);
        assert_eq!(grapheme_width(&t, &c.to_string(), Unicode14), expected);
        assert_eq!(grapheme_width_non_zero(&t, &c.to_string(), Unicode9), 1);
    }
}

#[test]
fn every_codepoint_has_a_width_class() {
    let t = tables();
    for code in 0u32..0x110000 {
        let width = lookup_codepoint(&t, code);
        assert!(width <= 2);
        match char::from_u32(code) {
            Some(c) => {
                assert_eq!(lookup_width(&t, c), width);
                assert!(char_width_unicode9(&t, c) <= 2);
                assert!(char_width_unicode14(&t, c, "\u{fe0e}") <= 2);
            }
            // A surrogate has no width.
            None => assert_eq!(width, 0),
        }
    }
}

#[test]
fn lookahead_reports_consumed_bytes() {
    let t = tables();
    assert_eq!(char_width_with_lookahead(&t, '\u{270c}', "\u{fe0e}x", Unicode14), (1, 3));
    assert_eq!(char_width_with_lookahead(&t, '\u{270c}', "\u{fe0f}x", Unicode14), (2, 3));
    assert_eq!(char_width_with_lookahead(&t, '\u{270c}', "x\u{fe0f}", Unicode14), (1, 0));
    assert_eq!(char_width_with_lookahead(&t, '\u{270c}', "", Unicode14), (1, 0));
    assert_eq!(char_width_with_lookahead(&t, '\u{270c}', "\u{fe0f}", Unicode9), (1, 0));
    // The raised fist is not variation sensitive.
    assert_eq!(char_width_with_lookahead(&t, '\u{270a}', "\u{fe0e}", Unicode14), (2, 0));
    assert_eq!(char_width_unicode14(&t, '\u{00A9}', "\u{fe0f}"), 2);
    assert_eq!(char_width_unicode14(&t, '\u{00A9}', "\u{fe0e}"), 1);
    assert_eq!(char_width_unicode14(&t, '\u{00A9}', "a"), 1);
    assert_eq!(char_width_unicode9(&t, '\u{00A9}'), 1);
}

#[test]
fn consumed_bytes_step_over_the_selector() {
    assert_eq!("\u{fe0e}".as_bytes(), [0xEF, 0xB8, 0x8E]);
    assert_eq!("\u{fe0f}".as_bytes(), [0xEF, 0xB8, 0x8F]);
    let t = tables();
    let texts = [
        "",
        "plain",
        "\u{270c}\u{fe0f}",
        "a\u{00A9}\u{fe0e}b\u{2764}\u{fe0f}\u{fe0f}c",
        "\u{fe0f}\u{270a}\u{fe0e}\u{3000}\u{270c}",
        "\u{1F469}\u{200D}\u{2764}\u{FE0F}\u{200D}\u{1F468}",
    ];
    for text in texts {
        for mode in [Unicode9, Unicode14] {
            // Scoring unit by unit gives the width of the whole text.
            let mut total = 0;
            let mut rest = text;
            while let Some(c) = rest.chars().next() {
                rest = &rest[c.len_utf8()..];
                let (width, consumed) = char_width_with_lookahead(&t, c, rest, mode);
                total += width;
                rest = &rest[consumed..];
            }
            assert_eq!(total, str_width(&t, text, mode), "{text:?}");
        }
    }
}

#[test]
fn modes_agree_without_a_selector() {
    let t = tables();
    for c in ['a', '\u{00A9}', '\u{270a}', '\u{270c}', '\u{2764}', '\u{3000}', '\u{1F469}'] {
        assert_eq!(char_width_unicode9(&t, c), char_width_unicode14(&t, c, ""));
        assert_eq!(char_width_unicode9(&t, c), char_width_unicode14(&t, c, "abc"));
        let text = format!("x{c}y{c}");
        assert_eq!(str_width(&t, &text, Unicode9), str_width(&t, &text, Unicode14));
    }
}

#[test]
fn grapheme_width_is_clamped() {
    let t = tables();
    let couple = "\u{1F469}\u{200D}\u{2764}\u{FE0F}\u{200D}\u{1F468}";
    assert_eq!(str_width(&t, couple, Unicode14), 6);
    assert_eq!(grapheme_width(&t, couple, Unicode14), 2);
    assert_eq!(grapheme_width(&t, couple, Unicode9), 2);
    assert_eq!(grapheme_width(&t, "\u{1112}\u{1161}\u{11ab}", Unicode9), 2);
    assert_eq!(grapheme_width(&t, "e\u{0301}", Unicode9), 1);
    assert_eq!(grapheme_width(&t, "", Unicode9), 0);
}

#[test]
fn grapheme_selector_applies_to_the_first_codepoint_only() {
    let t = tables();
    assert_eq!(grapheme_width(&t, "\u{270c}\u{fe0f}", Unicode14), 2);
    assert_eq!(grapheme_width(&t, "\u{270c}\u{fe0e}", Unicode14), 1);
    assert_eq!(grapheme_width(&t, "\u{270c}\u{fe0f}", Unicode9), 1);
    // The selector after the second codepoint is scored as a mark.
    assert_eq!(grapheme_width(&t, "\u{200D}\u{00A9}\u{fe0f}", Unicode14), 1);
    assert_eq!(str_width(&t, "\u{200D}\u{00A9}\u{fe0f}", Unicode14), 2);
}

#[test]
fn grapheme_width_non_zero_is_at_least_one() {
    let t = tables();
    for cluster in ["", "\u{0301}", "\u{200D}", "\n", "a", "\u{3000}", "\u{270c}\u{fe0f}"] {
        for mode in [Unicode9, Unicode14] {
            let plain = grapheme_width(&t, cluster, mode);
            assert_eq!(grapheme_width_non_zero(&t, cluster, mode), plain.max(1));
            assert!(plain <= 2);
        }
    }
    assert_eq!(grapheme_width_non_zero(&t, "\u{0301}", Unicode9), 1);
    assert_eq!(grapheme_width(&t, "\u{0301}", Unicode9), 0);
}

#[test]
fn version_is_recorded() {
    assert_eq!(tables().unicode_version(), (15, 0, 0));
}

#[test]
fn variation_set_holds_the_base_codepoints() {
    let t = tables();
    let set = t.emoji_variations();
    for c in ['\u{00A9}', '\u{270c}', '\u{2714}', '\u{2764}'] {
        assert!(set.contains_char(c));
    }
    for c in ['a', '\u{270a}', '\u{fe0e}', '\u{fe0f}', '\u{1F469}'] {
        assert!(!set.contains_char(c));
    }
}

#[test]
fn malformed_tables_are_refused() {
    let t = tables();
    let rebuild = |t0: Vec<u8>, t1: Vec<u8>, t2: Vec<u8>| {
        let trie = ucd_trie::TrieSetOwned::from_codepoints(Vec::<u32>::new()).unwrap();
        WidthTables::new((1, 2, 3), t0, t1, t2, trie)
    };
    let (t0, t1, t2) = (t.table_0().to_vec(), t.table_1().to_vec(), t.table_2().to_vec());
    assert!(rebuild(t0.clone(), t1.clone(), t2.clone()).is_some());
    // A first tier that is too short.
    assert!(rebuild(t0[..255].to_vec(), t1.clone(), t2.clone()).is_none());
    // A first tier that names a sub-table beyond the second tier.
    let mut bad = t0.clone();
    bad[3] = (t1.len() / 128) as u8;
    assert!(rebuild(bad, t1.clone(), t2.clone()).is_none());
    // A second tier that names a sub-table beyond the third tier.
    let mut bad = t1.clone();
    bad[5] = (t2.len() / 16) as u8;
    assert!(rebuild(t0.clone(), bad, t2.clone()).is_none());
    // A packed slot with the value 3.
    let mut bad = t2.clone();
    bad[0] = 0b0000_1100;
    assert!(rebuild(t0, t1, bad).is_none());
}
