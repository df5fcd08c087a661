//! The field parser for the data files.

use column_width::ucd::{
    char_is_whitespace, parse_codepoint, parse_codepoints, parse_data_line, parse_number,
    split_slice, trim_slice,
};
use column_width::{ParseError, ParseErrorKind};

fn chars(text: &str) -> Vec<char> {
    text.chars().collect()
}

fn text(chars: &[char]) -> String {
    chars.iter().collect()
}

fn fields(line: &str) -> Option<Vec<String>> {
    let line = chars(line);
    parse_data_line(&line).map(|fields| fields.into_iter().map(text).collect())
}

fn codepoint_error(field: &str) -> ParseError {
    ParseError { kind: ParseErrorKind::Codepoint, text: chars(field) }
}

#[test]
fn blank_and_comment_lines_have_no_fields() {
    assert_eq!(fields(""), None);
    assert_eq!(fields("   \t "), None);
    assert_eq!(fields("# EastAsianWidth-15.0.0.txt"), None);
    assert_eq!(fields("   # indented comment"), None);
    assert_eq!(fields("\r"), None);
}

#[test]
fn fields_are_split_and_trimmed() {
    assert_eq!(
        fields("0020;Na          # Zs         SPACE"),
        Some(vec!["0020".to_string(), "Na".to_string()])
    );
    assert_eq!(
        fields("  270A..270B    ; Emoji_Presentation   # E0.6   [2] raised fist  \r"),
        Some(vec!["270A..270B".to_string(), "Emoji_Presentation".to_string()])
    );
    assert_eq!(
        fields("00AD;SOFT HYPHEN;Cf;0;BN;;;;;N;;;;;"),
        Some(
            ["00AD", "SOFT HYPHEN", "Cf", "0", "BN", "", "", "", "", "N", "", "", "", "", ""]
                .iter()
                .map(|f| f.to_string())
                .collect()
        )
    );
    assert_eq!(fields("one field"), Some(vec!["one field".to_string()]));
    assert_eq!(fields(";"), Some(vec!["".to_string(), "".to_string()]));
    // Everything after the first `#` is a comment, `;` included.
    assert_eq!(fields("a ; b # c ; d # e"), Some(vec!["a".to_string(), "b".to_string()]));
}

#[test]
fn trimming_knows_unicode_whitespace() {
    let line = chars("\u{3000}\u{a0}\u{85} x y \u{2028}\u{205f}\u{1680}\u{200a}\t\n");
    assert_eq!(text(trim_slice(&line)), "x y");
    assert_eq!(text(trim_slice(&chars(""))), "");
    assert_eq!(text(trim_slice(&chars("  \t"))), "");
    // The zero width space is not whitespace.
    assert_eq!(text(trim_slice(&chars("\u{200b} a"))), "\u{200b} a");
    for code in 0u32..0x110000 {
        if let Some(c) = char::from_u32(code) {
            assert_eq!(char_is_whitespace(c), c.is_whitespace());
        }
    }
}

#[test]
fn splitting_keeps_empty_pieces() {
    let pieces = |s: &str, sep: char| -> Vec<String> {
        split_slice(&chars(s), sep).into_iter().map(text).collect()
    };
    assert_eq!(pieces("a;;b", ';'), ["a", "", "b"]);
    assert_eq!(pieces("", ';'), [""]);
    assert_eq!(pieces(";", ';'), ["", ""]);
    assert_eq!(pieces("no separator", ';'), ["no separator"]);
    assert_eq!(pieces("15.0.0", '.'), ["15", "0", "0"]);
    assert_eq!(pieces("a\nb\n", '\n'), ["a", "b", ""]);
}

#[test]
fn numbers_are_read_as_the_standard_library_reads_them() {
    let samples = [
        "", "+", "-", "0", "7", "+7", "-7", "007", "ff", "FF", "fF", "10FFFF", "110000", "g", "1g",
        " 1", "1 ", "1_0", "0x10", "++1", "255", "256", "99999999999999999999999999",
        "FFFFFFFFFFFFFFFF", "10000000000000000", "+0", "z", "Z",
    ];
    for sample in samples {
        for radix in [2u32, 10, 16, 36] {
            assert_eq!(
                parse_number(&chars(sample), radix),
                usize::from_str_radix(sample, radix).ok(),
                "{sample:?} in radix {radix}"
            );
        }
    }
}

#[test]
fn codepoints_are_hexadecimal() {
    assert_eq!(parse_codepoint(&chars("0041")), Ok(0x41));
    assert_eq!(parse_codepoint(&chars("1f600")), Ok(0x1F600));
    assert_eq!(parse_codepoint(&chars("10FFFF")), Ok(0x10FFFF));
    assert_eq!(parse_codepoint(&chars("")), Err(codepoint_error("")));
    assert_eq!(parse_codepoint(&chars("U+0041")), Err(codepoint_error("U+0041")));
    assert_eq!(parse_codepoint(&chars("004G")), Err(codepoint_error("004G")));
}

#[test]
fn ranges_are_inclusive() {
    assert_eq!(parse_codepoints(&chars("0041")), Ok((0x41, 0x41)));
    assert_eq!(parse_codepoints(&chars("0041..005A")), Ok((0x41, 0x5A)));
    assert_eq!(parse_codepoints(&chars("20000..2FFFD")), Ok((0x20000, 0x2FFFD)));
    // A range may run backwards; whether it can be filled is another matter.
    assert_eq!(parse_codepoints(&chars("5..1")), Ok((5, 1)));
    for bad in ["", "..", "0041..", "..0041", "0041...005A", "0041.005A", "0041-005A", "x..y"] {
        assert_eq!(parse_codepoints(&chars(bad)), Err(codepoint_error(bad)), "{bad:?}");
    }
}
