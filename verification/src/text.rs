use crate::cell::{CellIndex, InvalidCellIndex};
use crate::raw::{encode, lemma_decode_encode, raw_is_cell, raw_path};
use vstd::prelude::*;
use vstd::string::*;

verus! {

/// The character that writes a digit below 16, with letters in upper or
/// lower case.
pub open spec fn digit_char(d: int, upper: bool) -> char {
    if d == 0 {
        '0'
    } else if d == 1 {
        '1'
    } else if d == 2 {
        '2'
    } else if d == 3 {
        '3'
    } else if d == 4 {
        '4'
    } else if d == 5 {
        '5'
    } else if d == 6 {
        '6'
    } else if d == 7 {
        '7'
    } else if d == 8 {
        '8'
    } else if d == 9 {
        '9'
    } else if d == 10 {
        if upper { 'A' } else { 'a' }
    } else if d == 11 {
        if upper { 'B' } else { 'b' }
    } else if d == 12 {
        if upper { 'C' } else { 'c' }
    } else if d == 13 {
        if upper { 'D' } else { 'd' }
    } else if d == 14 {
        if upper { 'E' } else { 'e' }
    } else {
        if upper { 'F' } else { 'f' }
    }
}

/// The digit that a character writes in hexadecimal, in either case.
pub open spec fn hex_value(c: char) -> Option<int> {
    if c == '0' {
        Some(0)
    } else if c == '1' {
        Some(1)
    } else if c == '2' {
        Some(2)
    } else if c == '3' {
        Some(3)
    } else if c == '4' {
        Some(4)
    } else if c == '5' {
        Some(5)
    } else if c == '6' {
        Some(6)
    } else if c == '7' {
        Some(7)
    } else if c == '8' {
        Some(8)
    } else if c == '9' {
        Some(9)
    } else if c == 'a' || c == 'A' {
        Some(10)
    } else if c == 'b' || c == 'B' {
        Some(11)
    } else if c == 'c' || c == 'C' {
        Some(12)
    } else if c == 'd' || c == 'D' {
        Some(13)
    } else if c == 'e' || c == 'E' {
        Some(14)
    } else if c == 'f' || c == 'F' {
        Some(15)
    } else {
        None
    }
}

/// The digits of `value` in the given radix, most significant first,
/// without leading zeros.
pub open spec fn radix_digits(value: int, radix: int, upper: bool) -> Seq<char>
    decreases value,
    via radix_digits_decreases
{
    if value < radix || radix < 2 {
        seq![digit_char(value, upper)]
    } else {
        radix_digits(value / radix, radix, upper).push(digit_char(value % radix, upper))
    }
}

#[via_fn]
proof fn radix_digits_decreases(value: int, radix: int, upper: bool) {
    if !(value < radix || radix < 2) {
        lemma_quotient_smaller(value, radix);
    }
}

/// Dividing by a radix makes a number smaller.
proof fn lemma_quotient_smaller(value: int, radix: int)
    requires
        2 <= radix <= value,
    ensures
        0 <= value / radix < value,
        0 <= value % radix < radix,
{
    assert(0 <= value / radix < value && 0 <= value % radix < radix) by (nonlinear_arith)
        requires
            2 <= radix <= value,
    ;
}

/// The number that a string of hexadecimal digits writes: none for the
/// empty string, for a string with another character, and for a number
/// above 64 bits.
pub open spec fn parse_hex(s: Seq<char>) -> Option<int>
    decreases s.len(),
{
    if s.len() == 0 {
        None
    } else if s.len() == 1 {
        hex_value(s[0])
    } else {
        match (parse_hex(s.drop_last()), hex_value(s.last())) {
            (Some(high), Some(d)) => if high * 16 + d <= u64::MAX {
                Some(high * 16 + d)
            } else {
                None
            },
            _ => None,
        }
    }
}

/// A string with a prefix that writes no number writes none.
proof fn lemma_parse_prefix(s: Seq<char>, i: int)
    requires
        1 <= i <= s.len(),
        parse_hex(s.take(i)).is_none(),
    ensures
        parse_hex(s).is_none(),
    decreases s.len() - i,
{
    if i == s.len() {
        assert(s.take(i) =~= s);
    } else {
        assert(s.take(i + 1).drop_last() =~= s.take(i));
        lemma_parse_prefix(s, i + 1);
    }
}

/// Reading the hexadecimal digits of a 64-bit number gives the number.
pub proof fn lemma_parse_digits(value: int, upper: bool)
    requires
        0 <= value <= u64::MAX,
    ensures
        parse_hex(radix_digits(value, 16, upper)) == Some(value),
        radix_digits(value, 16, upper).len() >= 1,
    decreases value,
{
    let s = radix_digits(value, 16, upper);
    if value >= 16 {
        lemma_parse_digits(value / 16, upper);
        let high = radix_digits(value / 16, 16, upper);
        assert(s.drop_last() =~= high);
        assert(s.last() == digit_char(value % 16, upper));
    }
}

/// The one-character string that writes a digit below 16.
fn digit_str(d: u64, upper: bool) -> (s: &'static str)
    requires
        d < 16,
    ensures
        s@ == seq![digit_char(d as int, upper)],
{
    proof {
        reveal_strlit("0");
        reveal_strlit("1");
        reveal_strlit("2");
        reveal_strlit("3");
        reveal_strlit("4");
        reveal_strlit("5");
        reveal_strlit("6");
        reveal_strlit("7");
        reveal_strlit("8");
        reveal_strlit("9");
        reveal_strlit("a");
        reveal_strlit("b");
        reveal_strlit("c");
        reveal_strlit("d");
        reveal_strlit("e");
        reveal_strlit("f");
        reveal_strlit("A");
        reveal_strlit("B");
        reveal_strlit("C");
        reveal_strlit("D");
        reveal_strlit("E");
        reveal_strlit("F");
        assert("0"@ =~= seq!['0']);
        assert("1"@ =~= seq!['1']);
        assert("2"@ =~= seq!['2']);
        assert("3"@ =~= seq!['3']);
        assert("4"@ =~= seq!['4']);
        assert("5"@ =~= seq!['5']);
        assert("6"@ =~= seq!['6']);
        assert("7"@ =~= seq!['7']);
        assert("8"@ =~= seq!['8']);
        assert("9"@ =~= seq!['9']);
        assert("a"@ =~= seq!['a']);
        assert("b"@ =~= seq!['b']);
        assert("c"@ =~= seq!['c']);
        assert("d"@ =~= seq!['d']);
        assert("e"@ =~= seq!['e']);
        assert("f"@ =~= seq!['f']);
        assert("A"@ =~= seq!['A']);
        assert("B"@ =~= seq!['B']);
        assert("C"@ =~= seq!['C']);
        assert("D"@ =~= seq!['D']);
        assert("E"@ =~= seq!['E']);
        assert("F"@ =~= seq!['F']);
    }
    if d == 0 {
        "0"
    } else if d == 1 {
        "1"
    } else if d == 2 {
        "2"
    } else if d == 3 {
        "3"
    } else if d == 4 {
        "4"
    } else if d == 5 {
        "5"
    } else if d == 6 {
        "6"
    } else if d == 7 {
        "7"
    } else if d == 8 {
        "8"
    } else if d == 9 {
        "9"
    } else if d == 10 {
        if upper {
            "A"
        } else {
            "a"
        }
    } else if d == 11 {
        if upper {
            "B"
        } else {
            "b"
        }
    } else if d == 12 {
        if upper {
            "C"
        } else {
            "c"
        }
    } else if d == 13 {
        if upper {
            "D"
        } else {
            "d"
        }
    } else if d == 14 {
        if upper {
            "E"
        } else {
            "e"
        }
    } else {
        if upper {
            "F"
        } else {
            "f"
        }
    }
}

/// The digit that a character writes in hexadecimal.
fn char_to_digit(c: char) -> (d: Option<u64>)
    ensures
        d.is_some() <==> hex_value(c).is_some(),
        d.is_some() ==> d.unwrap() as int == hex_value(c).unwrap() && d.unwrap() < 16,
{
    if c == '0' {
        Some(0)
    } else if c == '1' {
        Some(1)
    } else if c == '2' {
        Some(2)
    } else if c == '3' {
        Some(3)
    } else if c == '4' {
        Some(4)
    } else if c == '5' {
        Some(5)
    } else if c == '6' {
        Some(6)
    } else if c == '7' {
        Some(7)
    } else if c == '8' {
        Some(8)
    } else if c == '9' {
        Some(9)
    } else if c == 'a' || c == 'A' {
        Some(10)
    } else if c == 'b' || c == 'B' {
        Some(11)
    } else if c == 'c' || c == 'C' {
        Some(12)
    } else if c == 'd' || c == 'D' {
        Some(13)
    } else if c == 'e' || c == 'E' {
        Some(14)
    } else if c == 'f' || c == 'F' {
        Some(15)
    } else {
        None
    }
}

/// Appends the digits of `value` in the given radix to `out`.
fn push_digits(value: u64, radix: u64, upper: bool, out: &mut String)
    requires
        2 <= radix <= 16,
    ensures
        final(out)@ == old(out)@ + radix_digits(value as int, radix as int, upper),
    decreases value,
{
    if value >= radix {
        proof {
            lemma_quotient_smaller(value as int, radix as int);
        }
        push_digits(value / radix, radix, upper, out);
    }
    out.append(digit_str(value % radix, upper));
    proof {
        let tail = radix_digits(value as int, radix as int, upper);
        if value >= radix {
            let high = radix_digits(value as int / radix as int, radix as int, upper);
            assert(tail == high.push(digit_char(value as int % radix as int, upper)));
            assert(out@ =~= old(out)@ + tail);
        } else {
            assert(value as int % radix as int == value) by (nonlinear_arith)
                requires
                    0 <= value < radix,
            ;
            assert(tail =~= seq![digit_char(value as int, upper)]);
            assert(out@ =~= old(out)@ + tail);
        }
    }
}

/// The digits of `value` in the given radix, most significant first,
/// without leading zeros, with letters in upper or lower case.
pub fn format_radix(value: u64, radix: u64, upper: bool) -> (out: String)
    requires
        2 <= radix <= 16,
    ensures
        out@ == radix_digits(value as int, radix as int, upper),
{
    let mut out: String = String::new();
    push_digits(value, radix, upper, &mut out);
    assert(out@ =~= radix_digits(value as int, radix as int, upper));
    out
}

/// The number that a string of hexadecimal digits writes.
pub fn parse_digits(s: &str) -> (out: Option<u64>)
    ensures
        out.is_some() <==> parse_hex(s@).is_some(),
        out.is_some() ==> out.unwrap() as int == parse_hex(s@).unwrap(),
{
    let n: usize = s.unicode_len();
    if n == 0 {
        return None;
    }
    let mut acc: u64 = 0;
    let mut i: usize = 0;
    while i < n
        invariant
            i <= n,
            n == s@.len(),
            i > 0 ==> parse_hex(s@.take(i as int)) == Some(acc as int),
            i == 0 ==> acc == 0,
        decreases n - i,
    {
        let d = char_to_digit(s.get_char(i));
        proof {
            assert(s@.take(i as int + 1).drop_last() =~= s@.take(i as int));
            assert(s@.take(i as int + 1).last() == s@[i as int]);
            assert(s@.take(i as int + 1)[0] == s@[0]);
        }
        match d {
            None => {
                proof {
                    lemma_parse_prefix(s@, i as int + 1);
                }
                return None;
            },
            Some(d) => {
                if acc > (u64::MAX - d) / 16 {
                    proof {
                        lemma_parse_prefix(s@, i as int + 1);
                    }
                    return None;
                }
                acc = acc * 16 + d;
            },
        }
        i = i + 1;
    }
    proof {
        assert(s@.take(n as int) =~= s@);
    }
    Some(acc)
}

impl CellIndex {
    /// The cell's index in lower-case hexadecimal, without leading zeros.
    pub fn to_string(self) -> (s: String)
        requires
            self.wf(),
        ensures
            s@ == radix_digits(encode(self@), 16, false),
    {
        format_radix(self.to_u64(), 16, false)
    }

    /// The cell's index in upper-case hexadecimal, without leading zeros.
    pub fn to_upper_hex(self) -> (s: String)
        requires
            self.wf(),
        ensures
            s@ == radix_digits(encode(self@), 16, true),
    {
        format_radix(self.to_u64(), 16, true)
    }

    /// The cell's index in octal, without leading zeros.
    pub fn to_octal(self) -> (s: String)
        requires
            self.wf(),
        ensures
            s@ == radix_digits(encode(self@), 8, false),
    {
        format_radix(self.to_u64(), 8, false)
    }

    /// The cell's index in binary, without leading zeros.
    pub fn to_binary(self) -> (s: String)
        requires
            self.wf(),
        ensures
            s@ == radix_digits(encode(self@), 2, false),
    {
        format_radix(self.to_u64(), 2, false)
    }

    /// The cell that a string of hexadecimal digits, in either case, names.
    /// The error carries no value where the string writes no 64-bit number,
    /// and the number where it is no cell index.
    pub fn from_str(s: &str) -> (out: Result<CellIndex, InvalidCellIndex>)
        ensures
            out.is_ok() <==> parse_hex(s@).is_some() && raw_is_cell(parse_hex(s@).unwrap() as u64),
            out.is_ok() ==> out.unwrap().wf() && out.unwrap()@ == raw_path(
                parse_hex(s@).unwrap() as u64,
            ),
            out.is_err() ==> out.unwrap_err().value == (match parse_hex(s@) {
                Some(v) => Some(v as u64),
                None => None,
            }),
    {
        match parse_digits(s) {
            None => Err(InvalidCellIndex { value: None }),
            Some(raw) => CellIndex::try_from(raw),
        }
    }

    /// Reading what `to_string` writes gives the cell back: the string
    /// writes the cell's index, and the fields of that index are the cell's.
    pub proof fn lemma_string_roundtrip(c: CellIndex, parsed: CellIndex)
        requires
            c.wf(),
            parsed@ == raw_path(encode(c@) as u64),
        ensures
            parsed == c,
            0 <= encode(c@) <= u64::MAX,
            parse_hex(radix_digits(encode(c@), 16, false)) == Some(encode(c@)),
            raw_is_cell(encode(c@) as u64),
            raw_path(encode(c@) as u64) == c@,
    {
        crate::raw::lemma_encode_fits(c@);
        lemma_parse_digits(encode(c@), false);
        lemma_decode_encode(c@, encode(c@) as u64);
        CellIndex::lemma_view_injective(parsed, c);
    }
}

} // verus!
