//! Palettes written as text: one hex colour per line.
//!
//! A line is trimmed of whitespace and of the `#` characters it starts
//! with. An empty line is skipped. A colour of three or four characters
//! (`F00`, `F00A`) is short for the one with every character doubled. A
//! colour of six or eight bytes (`ff0000`, `ff000080`) is read as two-digit
//! hexadecimal red, green, blue and, with eight, alpha (255 otherwise); a
//! line of any other length is skipped. A pair that is not a two-digit
//! hexadecimal number makes the whole text invalid.

use vstd::prelude::*;
use crate::text::{
    byte_len, char_width, is_ascii_char, is_whitespace, skip_hashes, strip_hashes, trim, trim_bounds,
    trim_end, trim_start, utf8_width,
};

verus! {

/// What one two-byte pair of a colour reads as.
#[derive(Clone, Copy, Debug, PartialEq, Eq, Structural)]
pub enum PairOutcome {
    /// The pair is a hexadecimal number.
    Byte(u8),
    /// The pair is not a hexadecimal number.
    Invalid,
    /// The pair would end inside a multi-byte character.
    Split,
}

/// What one line of a hex palette reads as.
#[derive(Clone, Copy, Debug)]
pub enum LineOutcome {
    /// A blank line, or one of a length that is no colour.
    Skip,
    /// A colour.
    Color([u8; 4]),
    /// A colour with a pair that is not a hexadecimal number.
    Invalid,
    /// A colour whose pairs would split a multi-byte character.
    Split,
}

/// Why a hex palette text is rejected.
#[derive(Clone, Copy, Debug, PartialEq, Eq, Structural)]
pub enum HexFault {
    /// A line holds a pair that is not a hexadecimal number.
    InvalidColor,
    /// A line's pairs would split a multi-byte character.
    SplitCharacter,
}

/// The value of a hexadecimal digit (either case).
pub open spec fn hex_digit(c: char) -> Option<u8> {
    if '0' <= c <= '9' {
        Some(((c as u32) - ('0' as u32)) as u8)
    } else if 'a' <= c <= 'f' {
        Some(((c as u32) - ('a' as u32) + 10) as u8)
    } else if 'A' <= c <= 'F' {
        Some(((c as u32) - ('A' as u32) + 10) as u8)
    } else {
        None
    }
}

/// The value of the two-character string `ab` read in base 16: both
/// characters must be hexadecimal digits.
pub open spec fn radix16_pair(a: char, b: char) -> Option<u8> {
    match (hex_digit(a), hex_digit(b)) {
        (Some(x), Some(y)) => Some((x * 16 + y) as u8),
        _ => None,
    }
}

/// `s` with every character doubled.
pub open spec fn doubled(s: Seq<char>) -> Seq<char> {
    Seq::new(2 * s.len(), |i: int| s[i / 2])
}

/// A colour of three or four bytes, written out in full.
pub open spec fn expanded(s: Seq<char>) -> Seq<char> {
    if byte_len(s) == 3 || byte_len(s) == 4 {
        doubled(s)
    } else {
        s
    }
}

/// The pair at bytes `2k` and `2k + 1` of `e`, where the pairs before it are
/// hexadecimal numbers (so the characters before position `2k` are ASCII).
pub open spec fn pair_outcome(e: Seq<char>, k: int) -> PairOutcome {
    if 2 * k < e.len() {
        let c = e[2 * k];
        if is_ascii_char(c) {
            if 2 * k + 1 < e.len() && is_ascii_char(e[2 * k + 1]) {
                match radix16_pair(c, e[2 * k + 1]) {
                    Some(v) => PairOutcome::Byte(v),
                    None => PairOutcome::Invalid,
                }
            } else {
                PairOutcome::Split
            }
        } else if utf8_width(c) == 2 {
            PairOutcome::Invalid
        } else {
            PairOutcome::Split
        }
    } else {
        PairOutcome::Split
    }
}

/// The line outcome of a pair that is no number.
pub open spec fn pair_fault(p: PairOutcome) -> LineOutcome {
    match p {
        PairOutcome::Split => LineOutcome::Split,
        _ => LineOutcome::Invalid,
    }
}

/// The colour of a written-out hex colour `e`, with an alpha pair or not.
pub open spec fn color_of_pairs(e: Seq<char>, has_alpha: bool) -> LineOutcome {
    match pair_outcome(e, 0) {
        PairOutcome::Byte(r) => match pair_outcome(e, 1) {
            PairOutcome::Byte(g) => match pair_outcome(e, 2) {
                PairOutcome::Byte(b) => if has_alpha {
                    match pair_outcome(e, 3) {
                        PairOutcome::Byte(a) => LineOutcome::Color([r, g, b, a]),
                        p => pair_fault(p),
                    }
                } else {
                    LineOutcome::Color([r, g, b, 255])
                },
                p => pair_fault(p),
            },
            p => pair_fault(p),
        },
        p => pair_fault(p),
    }
}

/// What one line reads as.
pub open spec fn line_outcome(line: Seq<char>) -> LineOutcome {
    let s = strip_hashes(trim(line));
    if s.len() == 0 {
        LineOutcome::Skip
    } else {
        let e = expanded(s);
        if byte_len(e) == 6 || byte_len(e) == 8 {
            color_of_pairs(e, byte_len(e) == 8)
        } else {
            LineOutcome::Skip
        }
    }
}

/// The pieces of `s` between newline characters.
pub open spec fn split_lines(s: Seq<char>) -> Seq<Seq<char>>
    decreases s.len(),
{
    if s.len() == 0 {
        seq![Seq::<char>::empty()]
    } else {
        let prev = split_lines(s.drop_last());
        if s.last() == '\n' {
            prev.push(Seq::<char>::empty())
        } else {
            prev.update(prev.len() - 1, prev.last().push(s.last()))
        }
    }
}

/// The colours of the lines, in order, or the fault of the first line that
/// is rejected.
pub open spec fn lines_outcome(lines: Seq<Seq<char>>) -> Result<Seq<[u8; 4]>, HexFault>
    decreases lines.len(),
{
    if lines.len() == 0 {
        Ok(Seq::empty())
    } else {
        match lines_outcome(lines.drop_last()) {
            Ok(cs) => match line_outcome(lines.last()) {
                LineOutcome::Skip => Ok(cs),
                LineOutcome::Color(c) => Ok(cs.push(c)),
                LineOutcome::Invalid => Err(HexFault::InvalidColor),
                LineOutcome::Split => Err(HexFault::SplitCharacter),
            },
            Err(f) => Err(f),
        }
    }
}

/// What a hex palette text reads as. (Splitting at every newline also
/// yields the empty piece after a final newline, which reads as a blank
/// line, so the outcome is that of the text's lines.)
pub open spec fn hex_text_outcome(text: Seq<char>) -> Result<Seq<[u8; 4]>, HexFault> {
    lines_outcome(split_lines(text))
}

pub proof fn lemma_split_lines_nonempty(s: Seq<char>)
    ensures
        split_lines(s).len() >= 1,
    decreases s.len(),
{
    if s.len() > 0 {
        lemma_split_lines_nonempty(s.drop_last());
    }
}

pub proof fn lemma_byte_len_prefix(s: Seq<char>, i: int)
    requires
        0 <= i <= s.len(),
    ensures
        byte_len(s.subrange(0, i)) <= byte_len(s),
    decreases s.len(),
{
    if i < s.len() {
        assert(s.drop_last().subrange(0, i) =~= s.subrange(0, i));
        lemma_byte_len_prefix(s.drop_last(), i);
    } else {
        assert(s.subrange(0, i) =~= s);
    }
}

pub proof fn lemma_byte_len_doubled(s: Seq<char>)
    ensures
        byte_len(doubled(s)) == 2 * byte_len(s),
    decreases s.len(),
{
    if s.len() > 0 {
        let d = doubled(s);
        let n = s.len() as int;
        lemma_byte_len_doubled(s.drop_last());
        assert((2 * n - 1) / 2 == n - 1);
        assert((2 * n - 2) / 2 == n - 1);
        assert forall|i: int| 0 <= i < 2 * n - 2 implies #[trigger] d.drop_last().drop_last()[i]
            == doubled(s.drop_last())[i] by {
            assert(i / 2 < n - 1);
        }
        assert(d.drop_last().drop_last() =~= doubled(s.drop_last()));
        assert(d.last() == s.last());
        assert(d.drop_last().last() == s.last());
        assert(byte_len(d) == byte_len(d.drop_last()) + utf8_width(s.last()));
        assert(byte_len(d.drop_last()) == byte_len(d.drop_last().drop_last()) + utf8_width(
            s.last(),
        ));
    }
}

proof fn lemma_trim_end_after(c: char, l: Seq<char>)
    requires
        !is_whitespace(c),
    ensures
        trim_end(seq![c] + l) == seq![c] + trim_end(l),
    decreases l.len(),
{
    if l.len() == 0 {
        assert(seq![c] + l =~= seq![c]);
        assert(seq![c] + trim_end(l) =~= seq![c]);
    } else {
        assert((seq![c] + l).last() == l.last());
        if is_whitespace(l.last()) {
            assert((seq![c] + l).drop_last() =~= seq![c] + l.drop_last());
            lemma_trim_end_after(c, l.drop_last());
        }
    }
}

/// A leading `#` is optional: a line reads the same with and without it
/// (where the rest does not start with whitespace).
pub proof fn lemma_leading_hash_optional(l: Seq<char>)
    requires
        l.len() == 0 || !is_whitespace(l[0]),
    ensures
        line_outcome(seq!['#'] + l) == line_outcome(l),
{
    let hl = seq!['#'] + l;
    assert(hl[0] == '#');
    assert(!is_whitespace('#'));
    assert(trim_start(hl) == hl);
    assert(trim_start(l) == l);
    lemma_trim_end_after('#', l);
    let t = trim_end(l);
    assert((seq!['#'] + t)[0] == '#');
    assert((seq!['#'] + t).drop_first() =~= t);
    assert(strip_hashes(seq!['#'] + t) == strip_hashes(t));
}

/// Whether every character of `s` is a hexadecimal digit.
pub open spec fn all_hex_digits(s: Seq<char>) -> bool {
    forall|i: int| 0 <= i < s.len() ==> #[trigger] hex_digit(s[i]) is Some
}

proof fn lemma_hex_digits_read_as_themselves(s: Seq<char>)
    requires
        all_hex_digits(s),
        s.len() > 0,
    ensures
        strip_hashes(trim(s)) == s,
        forall|i: int| 0 <= i < s.len() ==> #[trigger] is_ascii_char(s[i]),
{
    assert(hex_digit(s[0]) is Some);
    assert(hex_digit(s.last()) is Some);
    assert(trim_start(s) == s);
    assert(trim_end(s) == s);
    assert forall|i: int| 0 <= i < s.len() implies #[trigger] is_ascii_char(s[i]) by {
        assert(hex_digit(s[i]) is Some);
    }
}

proof fn lemma_byte_len_ascii(s: Seq<char>)
    requires
        forall|i: int| 0 <= i < s.len() ==> #[trigger] is_ascii_char(s[i]),
    ensures
        byte_len(s) == s.len(),
    decreases s.len(),
{
    if s.len() > 0 {
        assert(is_ascii_char(s[s.len() - 1]));
        assert forall|i: int| 0 <= i < s.len() - 1 implies #[trigger] is_ascii_char(
            s.drop_last()[i],
        ) by {
            assert(is_ascii_char(s[i]));
        }
        lemma_byte_len_ascii(s.drop_last());
    }
}

/// A colour of three or four hexadecimal digits reads as the one with every
/// digit doubled (`F00A` as `FF0000AA`).
pub proof fn lemma_shorthand_expands(s: Seq<char>)
    requires
        s.len() == 3 || s.len() == 4,
        all_hex_digits(s),
    ensures
        line_outcome(s) == line_outcome(doubled(s)),
{
    let d = doubled(s);
    lemma_hex_digits_read_as_themselves(s);
    assert(all_hex_digits(d)) by {
        assert forall|i: int| 0 <= i < d.len() implies #[trigger] hex_digit(d[i]) is Some by {
            assert(hex_digit(s[i / 2]) is Some);
        }
    }
    lemma_hex_digits_read_as_themselves(d);
    lemma_byte_len_ascii(s);
    lemma_byte_len_ascii(d);
    lemma_byte_len_doubled(s);
    assert(expanded(s) == d);
    assert(expanded(d) == d);
}

/// The lower-case hexadecimal digits, by value.
pub open spec fn lower_hex_digits() -> Seq<char> {
    seq!['0', '1', '2', '3', '4', '5', '6', '7', '8', '9', 'a', 'b', 'c', 'd', 'e', 'f']
}

/// The upper-case hexadecimal digits, by value.
pub open spec fn upper_hex_digits() -> Seq<char> {
    seq!['0', '1', '2', '3', '4', '5', '6', '7', '8', '9', 'A', 'B', 'C', 'D', 'E', 'F']
}

proof fn lemma_digit_tables()
    ensures
        forall|v: int| 0 <= v < 16 ==> hex_digit(#[trigger] lower_hex_digits()[v]) == Some(v as u8),
        forall|v: int| 0 <= v < 16 ==> hex_digit(#[trigger] upper_hex_digits()[v]) == Some(v as u8),
{
    assert(hex_digit(lower_hex_digits()[0]) == Some(0u8));
    assert(hex_digit(upper_hex_digits()[0]) == Some(0u8));
    assert(hex_digit(lower_hex_digits()[1]) == Some(1u8));
    assert(hex_digit(upper_hex_digits()[1]) == Some(1u8));
    assert(hex_digit(lower_hex_digits()[2]) == Some(2u8));
    assert(hex_digit(upper_hex_digits()[2]) == Some(2u8));
    assert(hex_digit(lower_hex_digits()[3]) == Some(3u8));
    assert(hex_digit(upper_hex_digits()[3]) == Some(3u8));
    assert(hex_digit(lower_hex_digits()[4]) == Some(4u8));
    assert(hex_digit(upper_hex_digits()[4]) == Some(4u8));
    assert(hex_digit(lower_hex_digits()[5]) == Some(5u8));
    assert(hex_digit(upper_hex_digits()[5]) == Some(5u8));
    assert(hex_digit(lower_hex_digits()[6]) == Some(6u8));
    assert(hex_digit(upper_hex_digits()[6]) == Some(6u8));
    assert(hex_digit(lower_hex_digits()[7]) == Some(7u8));
    assert(hex_digit(upper_hex_digits()[7]) == Some(7u8));
    assert(hex_digit(lower_hex_digits()[8]) == Some(8u8));
    assert(hex_digit(upper_hex_digits()[8]) == Some(8u8));
    assert(hex_digit(lower_hex_digits()[9]) == Some(9u8));
    assert(hex_digit(upper_hex_digits()[9]) == Some(9u8));
    assert(hex_digit(lower_hex_digits()[10]) == Some(10u8));
    assert(hex_digit(upper_hex_digits()[10]) == Some(10u8));
    assert(hex_digit(lower_hex_digits()[11]) == Some(11u8));
    assert(hex_digit(upper_hex_digits()[11]) == Some(11u8));
    assert(hex_digit(lower_hex_digits()[12]) == Some(12u8));
    assert(hex_digit(upper_hex_digits()[12]) == Some(12u8));
    assert(hex_digit(lower_hex_digits()[13]) == Some(13u8));
    assert(hex_digit(upper_hex_digits()[13]) == Some(13u8));
    assert(hex_digit(lower_hex_digits()[14]) == Some(14u8));
    assert(hex_digit(upper_hex_digits()[14]) == Some(14u8));
    assert(hex_digit(lower_hex_digits()[15]) == Some(15u8));
    assert(hex_digit(upper_hex_digits()[15]) == Some(15u8));
    assert forall|v: int| 0 <= v < 16 implies hex_digit(#[trigger] lower_hex_digits()[v]) == Some(
        v as u8,
    ) by {
        assert(v == 0 || v == 1 || v == 2 || v == 3 || v == 4 || v == 5 || v == 6 || v == 7 || v
            == 8 || v == 9 || v == 10 || v == 11 || v == 12 || v == 13 || v == 14 || v == 15);
    }
    assert forall|v: int| 0 <= v < 16 implies hex_digit(#[trigger] upper_hex_digits()[v]) == Some(
        v as u8,
    ) by {
        assert(v == 0 || v == 1 || v == 2 || v == 3 || v == 4 || v == 5 || v == 6 || v == 7 || v
            == 8 || v == 9 || v == 10 || v == 11 || v == 12 || v == 13 || v == 14 || v == 15);
    }
}

/// The hexadecimal digits are exactly `0`-`9`, `a`-`f` and `A`-`F`, each
/// with its value: every digit of either case reads as its value, and a
/// character that reads as a value is that value's digit in one case.
pub proof fn lemma_hex_digit_values(c: char)
    ensures
        forall|v: int| 0 <= v < 16 ==> hex_digit(#[trigger] lower_hex_digits()[v]) == Some(v as u8),
        forall|v: int| 0 <= v < 16 ==> hex_digit(#[trigger] upper_hex_digits()[v]) == Some(v as u8),
        hex_digit(c) matches Some(v) ==> v < 16 && (c == lower_hex_digits()[v as int] || c
            == upper_hex_digits()[v as int]),
{
    lemma_digit_tables();
    if let Some(v) = hex_digit(c) {
        assert(v < 16);
        assert(hex_digit(lower_hex_digits()[v as int]) == Some(v));
        assert(hex_digit(upper_hex_digits()[v as int]) == Some(v));
        assert(v == 0 || v == 1 || v == 2 || v == 3 || v == 4 || v == 5 || v == 6 || v == 7 || v
            == 8 || v == 9 || v == 10 || v == 11 || v == 12 || v == 13 || v == 14 || v == 15);
    }
}

/// A byte written as two hexadecimal digits (high digit first).
pub open spec fn hex_pair_of(v: u8, digits: Seq<char>) -> Seq<char> {
    seq![digits[(v / 16) as int], digits[(v % 16) as int]]
}

/// A colour written as `rrggbb`, or `rrggbbaa` with its alpha.
pub open spec fn hex_color_digits(c: [u8; 4], has_alpha: bool, digits: Seq<char>) -> Seq<char> {
    hex_pair_of(c[0], digits) + hex_pair_of(c[1], digits) + hex_pair_of(c[2], digits) + if has_alpha {
        hex_pair_of(c[3], digits)
    } else {
        Seq::empty()
    }
}

proof fn lemma_pair_roundtrip(v: u8, digits: Seq<char>)
    requires
        digits == lower_hex_digits() || digits == upper_hex_digits(),
    ensures
        hex_pair_of(v, digits).len() == 2,
        hex_digit(hex_pair_of(v, digits)[0]) is Some,
        hex_digit(hex_pair_of(v, digits)[1]) is Some,
        is_ascii_char(hex_pair_of(v, digits)[0]),
        is_ascii_char(hex_pair_of(v, digits)[1]),
        radix16_pair(hex_pair_of(v, digits)[0], hex_pair_of(v, digits)[1]) == Some(v),
{
    lemma_digit_tables();
    let hi = (v / 16) as int;
    let lo = (v % 16) as int;
    let p = hex_pair_of(v, digits);
    assert(p[0] == digits[hi] && p[1] == digits[lo]);
    assert(hex_digit(p[0]) == Some(hi as u8));
    assert(hex_digit(p[1]) == Some(lo as u8));
    assert(hi * 16 + lo == v);
}

/// Writing a colour as `#rrggbb` or `#rrggbbaa`, in either case, and reading
/// the line gives the colour back; without the alpha pair its alpha is 255.
/// The `#` is optional.
#[verifier::rlimit(40)]
pub proof fn lemma_hex_color_roundtrip(c: [u8; 4], has_alpha: bool, upper: bool)
    ensures
        ({
            let digits = if upper {
                upper_hex_digits()
            } else {
                lower_hex_digits()
            };
            let expected = if has_alpha {
                c
            } else {
                [c[0], c[1], c[2], 255]
            };
            &&& line_outcome(hex_color_digits(c, has_alpha, digits)) == LineOutcome::Color(expected)
            &&& line_outcome(seq!['#'] + hex_color_digits(c, has_alpha, digits))
                == LineOutcome::Color(expected)
        }),
{
    let digits = if upper {
        upper_hex_digits()
    } else {
        lower_hex_digits()
    };
    let p0 = hex_pair_of(c[0], digits);
    let p1 = hex_pair_of(c[1], digits);
    let p2 = hex_pair_of(c[2], digits);
    let p3 = hex_pair_of(c[3], digits);
    lemma_pair_roundtrip(c[0], digits);
    lemma_pair_roundtrip(c[1], digits);
    lemma_pair_roundtrip(c[2], digits);
    lemma_pair_roundtrip(c[3], digits);
    let s = hex_color_digits(c, has_alpha, digits);
    let t: Seq<char> = if has_alpha {
        p3
    } else {
        Seq::empty()
    };
    assert(s == p0 + p1 + p2 + t);
    assert(s[0] == p0[0] && s[1] == p0[1] && s[2] == p1[0] && s[3] == p1[1] && s[4] == p2[0]
        && s[5] == p2[1]);
    if has_alpha {
        assert(s[6] == p3[0] && s[7] == p3[1]);
    }
    assert(all_hex_digits(s)) by {
        assert forall|i: int| 0 <= i < s.len() implies #[trigger] hex_digit(s[i]) is Some by {
            assert(i == 0 || i == 1 || i == 2 || i == 3 || i == 4 || i == 5 || i == 6 || i == 7);
        }
    }
    lemma_hex_digits_read_as_themselves(s);
    lemma_byte_len_ascii(s);
    assert(expanded(s) == s);
    assert(pair_outcome(s, 0) == PairOutcome::Byte(c[0]));
    assert(pair_outcome(s, 1) == PairOutcome::Byte(c[1]));
    assert(pair_outcome(s, 2) == PairOutcome::Byte(c[2]));
    if has_alpha {
        assert(pair_outcome(s, 3) == PairOutcome::Byte(c[3]));
        assert([c[0], c[1], c[2], c[3]] =~= c);
    }
    lemma_leading_hash_optional(s);
}

/// The value of a hexadecimal digit.
fn hex_digit_value(c: char) -> (r: Option<u8>)
    ensures
        r == hex_digit(c),
{
    if '0' <= c && c <= '9' {
        Some(((c as u32) - ('0' as u32)) as u8)
    } else if 'a' <= c && c <= 'f' {
        Some(((c as u32) - ('a' as u32) + 10) as u8)
    } else if 'A' <= c && c <= 'F' {
        Some(((c as u32) - ('A' as u32) + 10) as u8)
    } else {
        None
    }
}

/// The two-character string `ab` read in base 16 (see [`radix16_pair`]).
pub fn parse_radix16_pair(a: char, b: char) -> (r: Option<u8>)
    ensures
        r == radix16_pair(a, b),
{
    match (hex_digit_value(a), hex_digit_value(b)) {
        (Some(x), Some(y)) => Some(x * 16 + y),
        _ => None,
    }
}

/// The pair at bytes `2k` and `2k + 1` (see [`pair_outcome`]).
fn pair_at(e: &Vec<char>, k: usize) -> (r: PairOutcome)
    requires
        k <= 3,
    ensures
        r == pair_outcome(e@, k as int),
{
    let i = 2 * k;
    if i < e.len() {
        let c = e[i];
        if (c as u32) < 0x80 {
            if i + 1 < e.len() && (e[i + 1] as u32) < 0x80 {
                match parse_radix16_pair(c, e[i + 1]) {
                    Some(v) => PairOutcome::Byte(v),
                    None => PairOutcome::Invalid,
                }
            } else {
                PairOutcome::Split
            }
        } else if char_width(c) == 2 {
            PairOutcome::Invalid
        } else {
            PairOutcome::Split
        }
    } else {
        PairOutcome::Split
    }
}

/// The colour of a written-out hex colour (see [`color_of_pairs`]).
fn read_pairs(e: &Vec<char>, has_alpha: bool) -> (r: LineOutcome)
    ensures
        r == color_of_pairs(e@, has_alpha),
{
    let r = match pair_at(e, 0) {
        PairOutcome::Byte(v) => v,
        PairOutcome::Invalid => return LineOutcome::Invalid,
        PairOutcome::Split => return LineOutcome::Split,
    };
    let g = match pair_at(e, 1) {
        PairOutcome::Byte(v) => v,
        PairOutcome::Invalid => return LineOutcome::Invalid,
        PairOutcome::Split => return LineOutcome::Split,
    };
    let b = match pair_at(e, 2) {
        PairOutcome::Byte(v) => v,
        PairOutcome::Invalid => return LineOutcome::Invalid,
        PairOutcome::Split => return LineOutcome::Split,
    };
    if has_alpha {
        let a = match pair_at(e, 3) {
            PairOutcome::Byte(v) => v,
            PairOutcome::Invalid => return LineOutcome::Invalid,
            PairOutcome::Split => return LineOutcome::Split,
        };
        LineOutcome::Color([r, g, b, a])
    } else {
        LineOutcome::Color([r, g, b, 255])
    }
}

/// The byte length of `s[from..to]` where it is below 9; otherwise some
/// number of at least 9.
fn capped_byte_len(s: &Vec<char>, from: usize, to: usize) -> (r: usize)
    requires
        from <= to <= s@.len(),
    ensures
        r < 9 ==> r == byte_len(s@.subrange(from as int, to as int)),
        r >= 9 ==> byte_len(s@.subrange(from as int, to as int)) >= 9,
{
    let ghost t = s@.subrange(from as int, to as int);
    let mut total: usize = 0;
    let mut i: usize = from;
    while i < to && total < 9
        invariant
            from <= i <= to,
            to <= s@.len(),
            t == s@.subrange(from as int, to as int),
            total == byte_len(t.subrange(0, i - from)),
            total <= 12,
        decreases to - i,
    {
        proof {
            assert(t.subrange(0, i - from + 1).drop_last() =~= t.subrange(0, i - from));
        }
        total += char_width(s[i]);
        i += 1;
    }
    proof {
        lemma_byte_len_prefix(t, i - from);
        if i == to {
            assert(t.subrange(0, i - from) =~= t);
        }
    }
    total
}

/// What one line reads as (see [`line_outcome`]).
pub fn parse_line(line: &Vec<char>) -> (r: LineOutcome)
    ensures
        r == line_outcome(line@),
{
    let (a, b) = trim_bounds(line);
    let h = skip_hashes(line, a, b);
    let ghost s = line@.subrange(h as int, b as int);
    proof {
        assert(line@.subrange(a as int, b as int).subrange(h - a, b - a) =~= s);
    }
    if h == b {
        return LineOutcome::Skip;
    }
    let bl = capped_byte_len(line, h, b);
    let mut e: Vec<char> = Vec::new();
    let n: usize;
    if bl == 3 || bl == 4 {
        let mut i: usize = h;
        while i < b
            invariant
                h <= i <= b,
                b <= line@.len(),
                s == line@.subrange(h as int, b as int),
                e@ == doubled(s.subrange(0, i - h)),
            decreases b - i,
        {
            let c = line[i];
            e.push(c);
            e.push(c);
            proof {
                assert(e@ =~= doubled(s.subrange(0, i - h + 1)));
            }
            i += 1;
        }
        proof {
            assert(s.subrange(0, b - h) =~= s);
            lemma_byte_len_doubled(s);
        }
        n = 2 * bl;
    } else {
        let mut i: usize = h;
        while i < b
            invariant
                h <= i <= b,
                b <= line@.len(),
                s == line@.subrange(h as int, b as int),
                e@ == s.subrange(0, i - h),
            decreases b - i,
        {
            e.push(line[i]);
            proof {
                assert(e@ =~= s.subrange(0, i - h + 1));
            }
            i += 1;
        }
        proof {
            assert(s.subrange(0, b - h) =~= s);
        }
        n = bl;
    }
    if n == 6 || n == 8 {
        read_pairs(&e, n == 8)
    } else {
        LineOutcome::Skip
    }
}

/// The colours of a hex palette text, or the fault of its first rejected
/// line (see [`hex_text_outcome`]).
pub fn read_hex_text(text: &Vec<char>) -> (r: Result<Vec<[u8; 4]>, HexFault>)
    ensures
        match r {
            Ok(cs) => hex_text_outcome(text@) == Ok::<Seq<[u8; 4]>, HexFault>(cs@),
            Err(f) => hex_text_outcome(text@) == Err::<Seq<[u8; 4]>, HexFault>(f),
        },
{
    let mut colors: Vec<[u8; 4]> = Vec::new();
    let mut fault: Option<HexFault> = None;
    let mut line: Vec<char> = Vec::new();
    let ghost mut done: Seq<Seq<char>> = Seq::empty();
    let n = text.len();
    let mut i: usize = 0;
    while i < n
        invariant
            i <= n,
            n == text@.len(),
            split_lines(text@.subrange(0, i as int)) == done.push(line@),
            match fault {
                None => lines_outcome(done) == Ok::<Seq<[u8; 4]>, HexFault>(colors@),
                Some(f) => lines_outcome(done) == Err::<Seq<[u8; 4]>, HexFault>(f),
            },
        decreases n - i,
    {
        let c = text[i];
        proof {
            assert(text@.subrange(0, i + 1).drop_last() =~= text@.subrange(0, i as int));
            lemma_split_lines_nonempty(text@.subrange(0, i as int));
        }
        if c == '\n' {
            proof {
                assert(done.push(line@).drop_last() =~= done);
            }
            if fault.is_none() {
                match parse_line(&line) {
                    LineOutcome::Skip => {},
                    LineOutcome::Color(col) => {
                        colors.push(col);
                    },
                    LineOutcome::Invalid => {
                        fault = Some(HexFault::InvalidColor);
                    },
                    LineOutcome::Split => {
                        fault = Some(HexFault::SplitCharacter);
                    },
                }
            }
            proof {
                done = done.push(line@);
            }
            line.clear();
            proof {
                assert(split_lines(text@.subrange(0, i + 1)) =~= done.push(line@));
            }
        } else {
            line.push(c);
            proof {
                assert(split_lines(text@.subrange(0, i + 1)) =~= done.push(line@));
            }
        }
        i += 1;
    }
    proof {
        assert(text@.subrange(0, n as int) =~= text@);
        assert(done.push(line@).drop_last() =~= done);
    }
    match fault {
        Some(f) => Err(f),
        None => match parse_line(&line) {
            LineOutcome::Skip => Ok(colors),
            LineOutcome::Color(col) => {
                colors.push(col);
                Ok(colors)
            },
            LineOutcome::Invalid => Err(HexFault::InvalidColor),
            LineOutcome::Split => Err(HexFault::SplitCharacter),
        },
    }
}

} // verus!
