//! What a file name tells: a sequence number, a date token and a time
//! token, separated by underscores, in front of the image extension.

use vstd::prelude::*;
use vstd::string::*;

verus! {

/// The character that separates the tokens of a file name.
pub const SEPARATOR: char = '_';

/// The letter `t` in either case.
pub open spec fn is_t(c: char) -> bool {
    c == 't' || c == 'T'
}

/// The letter `i` in either case.
pub open spec fn is_i(c: char) -> bool {
    c == 'i' || c == 'I'
}

/// The letter `f` in either case.
pub open spec fn is_f(c: char) -> bool {
    c == 'f' || c == 'F'
}

/// An extension qualifies a file as an image when it is `tif` or `tiff`,
/// in any mix of upper and lower case.
pub open spec fn is_image_extension(extension: Seq<char>) -> bool {
    ||| extension.len() == 3 && is_t(extension[0]) && is_i(extension[1]) && is_f(extension[2])
    ||| extension.len() == 4 && is_t(extension[0]) && is_i(extension[1]) && is_f(extension[2])
        && is_f(extension[3])
}

/// Length of the image extension at the end of a name, with its dot; zero
/// where the name has none.
pub open spec fn suffix_length(name: Seq<char>) -> nat {
    let n = name.len() as int;
    if n >= 5 && name[n - 5] == '.' && is_image_extension(name.subrange(n - 4, n)) {
        5
    } else if n >= 4 && name[n - 4] == '.' && is_image_extension(name.subrange(n - 3, n)) {
        4
    } else {
        0
    }
}

/// The name without its image extension.
pub open spec fn stem_of(name: Seq<char>) -> Seq<char> {
    name.take(name.len() - suffix_length(name))
}

/// Index of the first separator at or after `from`, or the length of the
/// text where there is none.
pub open spec fn next_separator(text: Seq<char>, from: int) -> int
    decreases text.len() - from,
{
    if from >= text.len() {
        text.len() as int
    } else if text[from] == SEPARATOR {
        from
    } else {
        next_separator(text, from + 1)
    }
}

/// The first three underscore-separated tokens of a text, where it has at
/// least three. Tokens beyond the third are left aside.
pub open spec fn tokens_of(text: Seq<char>) -> Option<(Seq<char>, Seq<char>, Seq<char>)> {
    let first_end = next_separator(text, 0);
    let second_end = next_separator(text, first_end + 1);
    let third_end = next_separator(text, second_end + 1);
    if first_end < text.len() && second_end < text.len() {
        Some(
            (
                text.subrange(0, first_end),
                text.subrange(first_end + 1, second_end),
                text.subrange(second_end + 1, third_end),
            ),
        )
    } else {
        None
    }
}

/// Whether a character is one of the decimal digits `0` to `9`.
pub open spec fn is_decimal_digit(c: char) -> bool {
    '0' <= c <= '9'
}

/// Whether a text consists of decimal digits only.
pub open spec fn all_decimal_digits(text: Seq<char>) -> bool {
    forall|i: int| 0 <= i < text.len() ==> is_decimal_digit(#[trigger] text[i])
}

/// The number that one decimal digit writes; zero for any other character.
pub open spec fn digit_of(c: char) -> nat {
    if is_decimal_digit(c) {
        (c as u32 - '0' as u32) as nat
    } else {
        0
    }
}

/// The number that a run of decimal digits writes.
pub open spec fn digits_value(digits: Seq<char>) -> nat
    decreases digits.len(),
{
    if digits.len() == 0 {
        0
    } else {
        digits_value(digits.drop_last()) * 10 + digit_of(digits.last())
    }
}

/// Whether a text starts with a plus or minus sign.
pub open spec fn has_sign(text: Seq<char>) -> bool {
    text.len() > 0 && (text[0] == '-' || text[0] == '+')
}

/// The digits of a text, behind its sign where it has one.
pub open spec fn digits_part(text: Seq<char>) -> Seq<char> {
    if has_sign(text) {
        text.skip(1)
    } else {
        text
    }
}

/// The integer that a text writes in decimal: an optional sign, then one or
/// more digits. Nothing where the text has another shape or the number does
/// not fit in 64 bits.
pub open spec fn integer_of(text: Seq<char>) -> Option<i64> {
    let digits = digits_part(text);
    let magnitude = digits_value(digits) as int;
    let number = if text.len() > 0 && text[0] == '-' {
        -magnitude
    } else {
        magnitude
    };
    if digits.len() > 0 && all_decimal_digits(digits) && i64::MIN <= number <= i64::MAX {
        Some(number as i64)
    } else {
        None
    }
}

/// What a file name was taken apart into. Either all three tokens were
/// found, and `date` and `time` are present, or nothing is.
#[derive(Clone, Debug, PartialEq, Eq)]
pub struct ParsedName {
    pub sequence_number: Option<i64>,
    pub date: Option<String>,
    pub time: Option<String>,
}

/// A parsed name as mathematical values.
pub struct ParsedNameView {
    pub sequence_number: Option<i64>,
    pub date: Option<Seq<char>>,
    pub time: Option<Seq<char>>,
}

/// The characters of an optional string.
pub open spec fn text_of(s: Option<String>) -> Option<Seq<char>> {
    match s {
        Some(text) => Some(text@),
        None => None,
    }
}

impl View for ParsedName {
    type V = ParsedNameView;

    open spec fn view(&self) -> ParsedNameView {
        ParsedNameView {
            sequence_number: self.sequence_number,
            date: text_of(self.date),
            time: text_of(self.time),
        }
    }
}

/// The parsed name with nothing in it.
pub open spec fn nothing_parsed() -> ParsedNameView {
    ParsedNameView { sequence_number: None, date: None, time: None }
}

/// What a file name parses to: with three tokens or more in front of the
/// extension, the first as a number and the next two as they stand; with
/// fewer, nothing.
pub open spec fn parsed_name_of(name: Seq<char>) -> ParsedNameView {
    match tokens_of(stem_of(name)) {
        Some((number, date, time)) => ParsedNameView {
            sequence_number: integer_of(number),
            date: Some(date),
            time: Some(time),
        },
        None => nothing_parsed(),
    }
}

/// A longer run of digits writes a number at least as large.
proof fn lemma_prefix_value(digits: Seq<char>, k: int)
    requires
        0 <= k <= digits.len(),
    ensures
        digits_value(digits.take(k)) <= digits_value(digits),
    decreases digits.len(),
{
    if k == digits.len() {
        assert(digits.take(k) =~= digits);
    } else {
        let shorter = digits.drop_last();
        lemma_prefix_value(shorter, k);
        assert(shorter.take(k) =~= digits.take(k));
    }
}

/// Decides whether an extension, given without its dot, is that of an image
/// file: `tif` or `tiff` in any mix of upper and lower case.
pub fn is_qualifying_extension(extension: &str) -> (qualifies: bool)
    ensures
        qualifies == is_image_extension(extension@),
{
    let n = extension.unicode_len();
    if n != 3 && n != 4 {
        return false;
    }
    let c0 = extension.get_char(0);
    let c1 = extension.get_char(1);
    let c2 = extension.get_char(2);
    let head = (c0 == 't' || c0 == 'T') && (c1 == 'i' || c1 == 'I') && (c2 == 'f' || c2 == 'F');
    if n == 3 {
        head
    } else {
        let c3 = extension.get_char(3);
        head && (c3 == 'f' || c3 == 'F')
    }
}

/// Removes the image extension from the end of a file name. A name without
/// one comes back whole.
pub fn strip_extension(name: &str) -> (stem: &str)
    ensures
        stem@ == stem_of(name@),
{
    let n = name.unicode_len();
    let mut cut: usize = 0;
    if n >= 5 && name.get_char(n - 5) == '.' && is_qualifying_extension(
        name.substring_char(n - 4, n),
    ) {
        cut = 5;
    } else if n >= 4 && name.get_char(n - 4) == '.' && is_qualifying_extension(
        name.substring_char(n - 3, n),
    ) {
        cut = 4;
    }
    let stem = name.substring_char(0, n - cut);
    assert(name@.subrange(0, n - cut) =~= name@.take(n - cut));
    stem
}

/// Finds the first separator at or after `from`.
///
/// No character between `from` and the result is a separator, and the
/// result is either the place of one or the length of the text. A search
/// that starts behind the end of the text ends at its length.
pub fn find_separator(text: &str, from: usize) -> (place: usize)
    ensures
        place == next_separator(text@, from as int),
        place <= text@.len(),
        from <= text@.len() ==> from <= place,
        forall|k: int| from <= k < place ==> text@[k] != SEPARATOR,
        place < text@.len() ==> text@[place as int] == SEPARATOR,
{
    let n = text.unicode_len();
    if from >= n {
        return n;
    }
    let mut i = from;
    while i < n
        invariant
            from <= i <= n,
            n == text@.len(),
            next_separator(text@, from as int) == next_separator(text@, i as int),
            forall|k: int| from <= k < i ==> text@[k] != SEPARATOR,
        decreases n - i,
    {
        if text.get_char(i) == SEPARATOR {
            return i;
        }
        i += 1;
    }
    i
}

/// Reads a text as a decimal integer: an optional `+` or `-`, then one or
/// more digits. A text of any other shape, or a number that does not fit in
/// 64 bits, gives nothing; it is never an error.
pub fn try_parse_int(text: &str) -> (number: Option<i64>)
    ensures
        number == integer_of(text@),
{
    let n = text.unicode_len();
    if n == 0 {
        return None;
    }
    let first = text.get_char(0);
    let negative = first == '-';
    let start: usize = if first == '-' || first == '+' {
        1
    } else {
        0
    };
    if start == n {
        return None;
    }
    let ghost digits = digits_part(text@);
    assert(digits.len() == n - start);
    assert(forall|k: int| 0 <= k < digits.len() ==> digits[k] == text@[k + start]);
    let limit: u64 = if negative {
        0x8000_0000_0000_0000
    } else {
        0x7fff_ffff_ffff_ffff
    };
    let mut magnitude: u64 = 0;
    let mut i: usize = start;
    while i < n
        invariant
            start <= i <= n,
            n == text@.len(),
            digits == digits_part(text@),
            digits.len() == n - start,
            forall|k: int| 0 <= k < digits.len() ==> digits[k] == text@[k + start],
            all_decimal_digits(digits.take(i - start)),
            magnitude == digits_value(digits.take(i - start)),
            magnitude <= limit,
            negative == (text@[0] == '-'),
            limit == if negative {
                0x8000_0000_0000_0000u64
            } else {
                0x7fff_ffff_ffff_ffffu64
            },
        decreases n - i,
    {
        let c = text.get_char(i);
        if !('0' <= c && c <= '9') {
            assert(!is_decimal_digit(digits[i - start]));
            return None;
        }
        let digit: u64 = (c as u32 - '0' as u32) as u64;
        let ghost longer = digits.take(i - start + 1);
        proof {
            assert(longer.drop_last() =~= digits.take(i - start));
            assert(longer.last() == c);
            assert(digits_value(longer) == magnitude * 10 + digit);
            assert forall|k: int| 0 <= k < longer.len() implies is_decimal_digit(
                #[trigger] longer[k],
            ) by {
                if k < i - start {
                    assert(digits.take(i - start)[k] == longer[k]);
                }
            }
        }
        if magnitude > (limit - digit) / 10 {
            proof {
                lemma_prefix_value(digits, i - start + 1);
                assert(digits_value(longer) > limit);
            }
            return None;
        }
        magnitude = magnitude * 10 + digit;
        i += 1;
    }
    assert(digits.take(n - start) =~= digits);
    if negative {
        if magnitude == 0x8000_0000_0000_0000 {
            Some(i64::MIN)
        } else {
            Some(-(magnitude as i64))
        }
    } else {
        Some(magnitude as i64)
    }
}

/// Takes a file name apart.
///
/// The image extension is dropped and the rest is split at underscores.
/// With three tokens or more, the first is read as the sequence number
/// (absent where it is no number) and the second and third are the date and
/// the time. With fewer, nothing is present.
pub fn parse(file_name: &str) -> (parsed: ParsedName)
    ensures
        parsed@ == parsed_name_of(file_name@),
        parsed.date is Some <==> tokens_of(stem_of(file_name@)) is Some,
        parsed.date is Some <==> parsed.time is Some,
{
    let stem = strip_extension(file_name);
    let n = stem.unicode_len();
    let first_end = find_separator(stem, 0);
    if first_end >= n {
        return ParsedName { sequence_number: None, date: None, time: None };
    }
    let second_end = find_separator(stem, first_end + 1);
    if second_end >= n {
        return ParsedName { sequence_number: None, date: None, time: None };
    }
    let third_end = find_separator(stem, second_end + 1);
    let number = try_parse_int(stem.substring_char(0, first_end));
    let date = stem.substring_char(first_end + 1, second_end).to_owned();
    let time = stem.substring_char(second_end + 1, third_end).to_owned();
    ParsedName { sequence_number: number, date: Some(date), time: Some(time) }
}

} // verus!
