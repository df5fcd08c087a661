//! The field parser for the text files of the Unicode Character Database:
//! lines of fields separated by `;`, with `#` comments, in which a field
//! may name a codepoint or a range of codepoints in hexadecimal.
//!
//! Text is handled as a sequence of characters.

use vstd::prelude::*;
use vstd::slice::{slice_subrange, slice_to_vec};

verus! {

/// What was wrong with a piece of input.
#[derive(Debug, Clone, Copy, PartialEq, Eq, Structural)]
pub enum ParseErrorKind {
    /// A field that should name a codepoint or a range is not hexadecimal.
    Codepoint,
    /// A range that is to be filled does not lie in the codepoint space, or
    /// ends before it begins.
    Range,
    /// A line of emoji data has no property field.
    EmojiLine,
    /// A line of emoji variation sequences is not a codepoint followed by
    /// one of the two variation selectors.
    VariationLine,
    /// A version is not three numbers separated by dots.
    Version,
}

/// A parse error: what was wrong, and the offending field, line or value.
#[derive(Debug, Clone, PartialEq, Eq)]
pub struct ParseError {
    pub kind: ParseErrorKind,
    pub text: Vec<char>,
}

/// The mathematical content of a [`ParseError`].
pub struct ParseErrorView {
    pub kind: ParseErrorKind,
    pub text: Seq<char>,
}

impl View for ParseError {
    type V = ParseErrorView;

    open spec fn view(&self) -> ParseErrorView {
        ParseErrorView { kind: self.kind, text: self.text@ }
    }
}

/// The characters with the Unicode property `White_Space`.
pub open spec fn is_whitespace(c: char) -> bool {
    let u = c as u32;
    ||| 0x09 <= u <= 0x0D
    ||| u == 0x20
    ||| u == 0x85
    ||| u == 0xA0
    ||| u == 0x1680
    ||| 0x2000 <= u <= 0x200A
    ||| u == 0x2028
    ||| u == 0x2029
    ||| u == 0x202F
    ||| u == 0x205F
    ||| u == 0x3000
}

/// `s` without its leading whitespace.
pub open spec fn trim_start(s: Seq<char>) -> Seq<char>
    decreases s.len(),
{
    if s.len() > 0 && is_whitespace(s[0]) {
        trim_start(s.skip(1))
    } else {
        s
    }
}

/// `s` without its trailing whitespace.
pub open spec fn trim_end(s: Seq<char>) -> Seq<char>
    decreases s.len(),
{
    if s.len() > 0 && is_whitespace(s.last()) {
        trim_end(s.drop_last())
    } else {
        s
    }
}

/// `s` without its leading and trailing whitespace.
pub open spec fn trim(s: Seq<char>) -> Seq<char> {
    trim_end(trim_start(s))
}

/// Index of the first `c` in `s` at or after `from`, or the length of `s`
/// if there is none.
pub open spec fn first_index(s: Seq<char>, c: char, from: int) -> int
    decreases s.len() - from,
{
    if from < 0 || from >= s.len() {
        s.len() as int
    } else if s[from] == c {
        from
    } else {
        first_index(s, c, from + 1)
    }
}

/// The pieces of `s` between occurrences of `sep`. There is always at least
/// one piece.
pub open spec fn split(s: Seq<char>, sep: char) -> Seq<Seq<char>>
    decreases s.len(),
{
    let i = first_index(s, sep, 0);
    if 0 <= i < s.len() {
        seq![s.take(i)] + split(s.skip(i + 1), sep)
    } else {
        seq![s]
    }
}

/// The lines of a text.
pub open spec fn lines(text: Seq<char>) -> Seq<Seq<char>> {
    split(text, '\n')
}

/// The part of a line before its comment.
pub open spec fn before_comment(line: Seq<char>) -> Seq<char> {
    line.take(first_index(line, '#', 0))
}

/// Each piece without its leading and trailing whitespace.
pub open spec fn trim_all(pieces: Seq<Seq<char>>) -> Seq<Seq<char>> {
    pieces.map_values(|f: Seq<char>| trim(f))
}

/// The fields of a data line: nothing for a blank line or a comment line,
/// else what stands before the comment, split at `;`, each field trimmed.
pub open spec fn data_line_fields(line: Seq<char>) -> Option<Seq<Seq<char>>> {
    let content = trim(line);
    if content.len() == 0 || content[0] == '#' {
        None
    } else {
        Some(trim_all(split(before_comment(content), ';')))
    }
}

/// The views of a sequence of slices.
pub open spec fn slice_views(slices: Seq<&[char]>) -> Seq<Seq<char>> {
    slices.map_values(|f: &[char]| f@)
}

/// `first_index` is the one index before which `c` does not occur and at
/// which it does, if there is one.
pub proof fn lemma_first_index(s: Seq<char>, c: char, from: int, i: int)
    requires
        0 <= from <= i <= s.len(),
        forall|j: int| from <= j < i ==> s[j] != c,
        i < s.len() ==> s[i] == c,
    ensures
        first_index(s, c, from) == i,
    decreases i - from,
{
    if from < i {
        lemma_first_index(s, c, from + 1, i);
    }
}

/// Whether a character is whitespace.
pub fn char_is_whitespace(c: char) -> (r: bool)
    ensures
        r == is_whitespace(c),
{
    let u: u32 = c as u32;
    (0x09 <= u && u <= 0x0D) || u == 0x20 || u == 0x85 || u == 0xA0 || u == 0x1680 || (0x2000 <= u
        && u <= 0x200A) || u == 0x2028 || u == 0x2029 || u == 0x202F || u == 0x205F || u == 0x3000
}

/// The part of `s` that is left when leading and trailing whitespace is
/// taken away.
pub fn trim_slice<'a>(s: &'a [char]) -> (r: &'a [char])
    ensures
        r@ == trim(s@),
{
    let mut a: usize = 0;
    assert(s@.skip(0) =~= s@);
    while a < s.len() && char_is_whitespace(s[a])
        invariant
            a <= s.len(),
            trim_start(s@) == trim_start(s@.skip(a as int)),
        decreases s.len() - a,
    {
        assert(s@.skip(a as int).skip(1) =~= s@.skip(a + 1));
        a += 1;
    }
    let ghost rest = s@.skip(a as int);
    assert(trim_start(s@) == rest);
    assert(rest =~= s@.subrange(a as int, s.len() as int));
    let mut b: usize = s.len();
    while b > a && char_is_whitespace(s[b - 1])
        invariant
            a <= b <= s.len(),
            trim_end(rest) == trim_end(s@.subrange(a as int, b as int)),
        decreases b,
    {
        assert(s@.subrange(a as int, b as int).drop_last() =~= s@.subrange(a as int, b - 1));
        b -= 1;
    }
    slice_subrange(s, a, b)
}

/// Splits `s` at each occurrence of `sep`.
pub fn split_slice<'a>(s: &'a [char], sep: char) -> (pieces: Vec<&'a [char]>)
    ensures
        slice_views(pieces@) == split(s@, sep),
{
    let mut pieces: Vec<&'a [char]> = Vec::new();
    let mut start: usize = 0;
    let mut i: usize = 0;
    assert(slice_views(pieces@) =~= Seq::<Seq<char>>::empty());
    assert(s@.skip(0) =~= s@);
    while i < s.len()
        invariant
            start <= i <= s.len(),
            forall|j: int| start <= j < i ==> s@[j] != sep,
            split(s@, sep) == slice_views(pieces@) + split(s@.skip(start as int), sep),
        decreases s.len() - i,
    {
        if s[i] == sep {
            let ghost rest = s@.skip(start as int);
            proof {
                lemma_first_index(rest, sep, 0, i - start);
                assert(rest.take(i - start) =~= s@.subrange(start as int, i as int));
                assert(rest.skip(i - start + 1) =~= s@.skip(i + 1));
            }
            let piece = slice_subrange(s, start, i);
            assert(slice_views(pieces@.push(piece)) =~= slice_views(pieces@).push(piece@));
            pieces.push(piece);
            start = i + 1;
        }
        i += 1;
    }
    let ghost rest = s@.skip(start as int);
    proof {
        lemma_first_index(rest, sep, 0, rest.len() as int);
        assert(rest =~= s@.subrange(start as int, s.len() as int));
    }
    let piece = slice_subrange(s, start, s.len());
    assert(slice_views(pieces@.push(piece)) =~= slice_views(pieces@).push(piece@));
    pieces.push(piece);
    pieces
}

/// The fields of one line of a data file, or nothing if the line is blank
/// or holds a comment only.
pub fn parse_data_line<'a>(line: &'a [char]) -> (fields: Option<Vec<&'a [char]>>)
    ensures
        fields is Some <==> data_line_fields(line@) is Some,
        fields matches Some(f) ==> slice_views(f@) == data_line_fields(line@)->0,
{
    let content = trim_slice(line);
    if content.len() == 0 || content[0] == '#' {
        return None;
    }
    let mut end: usize = 0;
    while end < content.len() && content[end] != '#'
        invariant
            end <= content.len(),
            forall|j: int| 0 <= j < end ==> content@[j] != '#',
        decreases content.len() - end,
    {
        end += 1;
    }
    proof {
        lemma_first_index(content@, '#', 0, end as int);
    }
    let data = slice_subrange(content, 0, end);
    assert(data@ =~= before_comment(content@));
    let pieces = split_slice(data, ';');
    let mut fields: Vec<&'a [char]> = Vec::with_capacity(pieces.len());
    let mut k: usize = 0;
    while k < pieces.len()
        invariant
            k <= pieces.len(),
            fields.len() == k,
            forall|j: int| 0 <= j < k ==> (#[trigger] fields@[j])@ == trim(pieces@[j]@),
        decreases pieces.len() - k,
    {
        fields.push(trim_slice(pieces[k]));
        k += 1;
    }
    assert(slice_views(fields@) =~= trim_all(slice_views(pieces@)));
    Some(fields)
}

/// The value of a digit in the given radix: `0-9`, then the letters in
/// either case.
pub open spec fn digit_value(c: char, radix: u32) -> Option<u32> {
    let u = c as u32;
    let d = if 0x30 <= u <= 0x39 {
        u - 0x30
    } else if 0x61 <= u <= 0x7A {
        u - 0x61 + 10
    } else if 0x41 <= u <= 0x5A {
        u - 0x41 + 10
    } else {
        radix as int
    };
    if d < radix {
        Some(d as u32)
    } else {
        None
    }
}

/// The value of a sequence of digits, if each is a digit of the radix.
pub open spec fn digits_value(s: Seq<char>, radix: u32) -> Option<nat>
    decreases s.len(),
{
    if s.len() == 0 {
        Some(0)
    } else {
        match (digits_value(s.drop_last(), radix), digit_value(s.last(), radix)) {
            (Some(v), Some(d)) => Some((v * radix + d) as nat),
            _ => None,
        }
    }
}

/// The value of a number as the integer parsers of the standard library
/// read it: an optional `+`, then at least one digit, and nothing else.
pub open spec fn number_value(s: Seq<char>, radix: u32) -> Option<nat> {
    let digits = if s.len() > 0 && s[0] == '+' {
        s.skip(1)
    } else {
        s
    };
    if digits.len() == 0 {
        None
    } else {
        digits_value(digits, radix)
    }
}

/// The value of a number if it fits in a `usize`.
pub open spec fn usize_value(s: Seq<char>, radix: u32) -> Option<usize> {
    match number_value(s, radix) {
        Some(v) => if v <= usize::MAX {
            Some(v as usize)
        } else {
            None
        },
        None => None,
    }
}

/// Whether `..` stands at index `i` of `s`.
pub open spec fn dots_at(s: Seq<char>, i: int) -> bool {
    0 <= i && i + 1 < s.len() && s[i] == '.' && s[i + 1] == '.'
}

/// Index of the first `..` in `s` at or after `from`, or the length of `s`
/// if there is none.
pub open spec fn first_dots(s: Seq<char>, from: int) -> int
    decreases s.len() - from,
{
    if from < 0 || from >= s.len() {
        s.len() as int
    } else if dots_at(s, from) {
        from
    } else {
        first_dots(s, from + 1)
    }
}

/// The two ends of a range field: what stands before and after the first
/// `..`, or the whole field twice if there is none.
pub open spec fn range_ends(s: Seq<char>) -> (Seq<char>, Seq<char>) {
    let i = first_dots(s, 0);
    if 0 <= i < s.len() {
        (s.take(i), s.skip(i + 2))
    } else {
        (s, s)
    }
}

/// The inclusive range that a field names: `HHHH` or `HHHH..HHHH`, in
/// hexadecimal.
pub open spec fn codepoint_range(s: Seq<char>) -> Option<(usize, usize)> {
    match (usize_value(range_ends(s).0, 16), usize_value(range_ends(s).1, 16)) {
        (Some(start), Some(end)) => Some((start, end)),
        _ => None,
    }
}

/// The digits before a place in a sequence of digits are digits, and their
/// value is no larger than that of the whole.
pub proof fn lemma_digits_prefix(s: Seq<char>, k: int, radix: u32)
    requires
        0 <= k <= s.len(),
        radix >= 1,
        digits_value(s, radix) is Some,
    ensures
        digits_value(s.take(k), radix) is Some,
        digits_value(s.take(k), radix)->0 <= digits_value(s, radix)->0,
    decreases s.len(),
{
    if k < s.len() {
        let rest = s.drop_last();
        assert(rest.take(k) =~= s.take(k));
        lemma_digits_prefix(rest, k, radix);
        let v = digits_value(rest, radix)->0;
        assert(v * radix >= v) by (nonlinear_arith)
            requires
                radix >= 1,
                v >= 0,
        ;
    } else {
        assert(s.take(k) =~= s);
    }
}

/// `first_dots` is the one index before which `..` does not begin and at
/// which it does, if there is one.
pub proof fn lemma_first_dots(s: Seq<char>, from: int, i: int)
    requires
        0 <= from <= i <= s.len(),
        forall|j: int| from <= j < i ==> !dots_at(s, j),
        i < s.len() ==> dots_at(s, i),
    ensures
        first_dots(s, from) == i,
    decreases i - from,
{
    if from < i {
        lemma_first_dots(s, from + 1, i);
    }
}

/// The value of a digit.
fn parse_digit(c: char, radix: u32) -> (d: Option<u32>)
    requires
        2 <= radix <= 36,
    ensures
        d == digit_value(c, radix),
{
    let u: u32 = c as u32;
    let d: u32 = if 0x30 <= u && u <= 0x39 {
        u - 0x30
    } else if 0x61 <= u && u <= 0x7A {
        u - 0x61 + 10
    } else if 0x41 <= u && u <= 0x5A {
        u - 0x41 + 10
    } else {
        radix
    };
    if d < radix {
        Some(d)
    } else {
        None
    }
}

/// Reads a number: an optional `+`, then digits of the radix. Gives
/// nothing if the text has another shape or the value does not fit.
pub fn parse_number(s: &[char], radix: u32) -> (value: Option<usize>)
    requires
        2 <= radix <= 36,
    ensures
        value == usize_value(s@, radix),
{
    let start: usize = if s.len() > 0 && s[0] == '+' {
        1
    } else {
        0
    };
    if start == s.len() {
        return None;
    }
    let ghost digits = s@.skip(start as int);
    let mut value: usize = 0;
    let mut i: usize = start;
    assert(digits.take(0) =~= Seq::<char>::empty());
    assert(s@.skip(0) =~= s@);
    assert(number_value(s@, radix) == digits_value(digits, radix));
    while i < s.len()
        invariant
            start <= i <= s.len(),
            2 <= radix <= 36,
            digits == s@.skip(start as int),
            number_value(s@, radix) == digits_value(digits, radix),
            digits_value(digits.take(i - start), radix) == Some(value as nat),
        decreases s.len() - i,
    {
        let ghost seen = digits.take(i - start);
        let ghost next = digits.take(i - start + 1);
        proof {
            assert(next.drop_last() =~= seen);
            assert(next.last() == s@[i as int]);
            if digits_value(digits, radix) is Some {
                lemma_digits_prefix(digits, i - start + 1, radix);
            }
        }
        let digit: u32 = match parse_digit(s[i], radix) {
            Some(d) => d,
            None => {
                return None;
            },
        };
        let shifted: usize = match value.checked_mul(radix as usize) {
            Some(v) => v,
            None => {
                return None;
            },
        };
        value = match shifted.checked_add(digit as usize) {
            Some(v) => v,
            None => {
                return None;
            },
        };
        i += 1;
    }
    assert(digits.take(s.len() - start) =~= digits);
    Some(value)
}

/// Reads a codepoint in hexadecimal.
pub fn parse_codepoint(s: &[char]) -> (codepoint: Result<usize, ParseError>)
    ensures
        match codepoint {
            Ok(v) => usize_value(s@, 16) == Some(v),
            Err(e) => usize_value(s@, 16) is None && e@ == (ParseErrorView {
                kind: ParseErrorKind::Codepoint,
                text: s@,
            }),
        },
{
    match parse_number(s, 16) {
        Some(v) => Ok(v),
        None => Err(ParseError { kind: ParseErrorKind::Codepoint, text: slice_to_vec(s) }),
    }
}

/// Reads a field that names one codepoint, `HHHH`, or an inclusive range of
/// codepoints, `HHHH..HHHH`, in hexadecimal.
pub fn parse_codepoints(s: &[char]) -> (range: Result<(usize, usize), ParseError>)
    ensures
        match range {
            Ok(r) => codepoint_range(s@) == Some(r),
            Err(e) => codepoint_range(s@) is None && e@ == (ParseErrorView {
                kind: ParseErrorKind::Codepoint,
                text: s@,
            }),
        },
{
    let mut i: usize = 0;
    while i < s.len() && !(i + 1 < s.len() && s[i] == '.' && s[i + 1] == '.')
        invariant
            i <= s.len(),
            forall|j: int| 0 <= j < i ==> !dots_at(s@, j),
        decreases s.len() - i,
    {
        i += 1;
    }
    proof {
        lemma_first_dots(s@, 0, i as int);
    }
    let (start, end) = if i < s.len() {
        (slice_subrange(s, 0, i), slice_subrange(s, i + 2, s.len()))
    } else {
        (s, s)
    };
    assert(start@ =~= range_ends(s@).0);
    assert(end@ =~= range_ends(s@).1);
    let first = match parse_number(start, 16) {
        Some(v) => v,
        None => {
            return Err(ParseError { kind: ParseErrorKind::Codepoint, text: slice_to_vec(s) });
        },
    };
    let last = match parse_number(end, 16) {
        Some(v) => v,
        None => {
            return Err(ParseError { kind: ParseErrorKind::Codepoint, text: slice_to_vec(s) });
        },
    };
    Ok((first, last))
}

} // verus!
