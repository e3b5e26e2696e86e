//! Text as sequences of characters: decimal numbers, blanks, and the pieces
//! of a line.

use vstd::prelude::*;
use vstd::string::StrSliceExecFns;

verus! {

/// Whether Unicode counts `c` as white space: what `char::is_whitespace` returns.
pub uninterp spec fn whitespace(c: char) -> bool;

/// Whether Unicode counts `c` as alphabetic: what `char::is_alphabetic` returns.
pub uninterp spec fn alphabetic(c: char) -> bool;

/// `char::is_whitespace` of std: its result is named `whitespace`, and nothing
/// more is claimed of it than that it depends on the character alone.
#[verifier::external_body]
pub(crate) fn is_whitespace(c: char) -> (b: bool)
    ensures
        b == whitespace(c),
{
    c.is_whitespace()
}

/// `char::is_alphabetic` of std: its result is named `alphabetic`, and nothing
/// more is claimed of it than that it depends on the character alone.
#[verifier::external_body]
pub(crate) fn is_alphabetic(c: char) -> (b: bool)
    ensures
        b == alphabetic(c),
{
    c.is_alphabetic()
}

/// `c` is one of the ten decimal digits.
pub open spec fn is_digit(c: char) -> bool {
    48 <= c as u32 <= 57
}

/// The value of a decimal digit.
pub open spec fn digit_value(c: char) -> nat {
    (c as u32 - 48) as nat
}

/// Every character of `s` is a decimal digit.
pub open spec fn all_digits(s: Seq<char>) -> bool {
    forall|i: int| 0 <= i < s.len() ==> is_digit(#[trigger] s[i])
}

/// The number that the digits of `s` spell.
pub open spec fn decimal(s: Seq<char>) -> nat
    decreases s.len(),
{
    if s.len() == 0 {
        0
    } else {
        decimal(s.drop_last()) * 10 + digit_value(s.last())
    }
}

/// The number that `s` spells as an unsigned decimal of 64 bits: digits, at
/// least one, that may follow one plus sign, and spell a number in range.
pub open spec fn unsigned_value(s: Seq<char>) -> Option<u64> {
    let digits = if s.len() > 0 && s[0] == '+' {
        s.subrange(1, s.len() as int)
    } else {
        s
    };
    if digits.len() > 0 && all_digits(digits) && decimal(digits) <= u64::MAX {
        Some(decimal(digits) as u64)
    } else {
        None
    }
}

/// The number of decimal digits of `n`.
pub open spec fn digit_count(n: nat) -> nat
    decreases n,
{
    if n < 10 {
        1
    } else {
        1 + digit_count(n / 10)
    }
}

/// The digits of a longer text spell at least what a prefix of it spells.
pub proof fn lemma_decimal_grows(s: Seq<char>, i: int)
    requires
        0 <= i <= s.len(),
    ensures
        decimal(s.take(i)) <= decimal(s),
    decreases s.len() - i,
{
    if i == s.len() {
        assert(s.take(i) =~= s);
    } else {
        assert(s.take(i + 1).drop_last() =~= s.take(i));
        lemma_decimal_grows(s, i + 1);
    }
}

/// The characters of a string.
pub fn chars_of(s: &String) -> (chars: Vec<char>)
    ensures
        chars@ == s@,
{
    let text = s.as_str();
    let n = text.unicode_len();
    let mut chars: Vec<char> = Vec::new();
    let mut i: usize = 0;
    while i < n
        invariant
            i <= n,
            n == text@.len(),
            text@ == s@,
            chars@ == s@.take(i as int),
        decreases n - i,
    {
        chars.push(text.get_char(i));
        assert(chars@ =~= s@.take(i + 1));
        i += 1;
    }
    assert(s@.take(n as int) =~= s@);
    chars
}

/// The string that holds the characters of `line` from `from` up to `to`.
pub fn owned_range(line: &String, from: usize, to: usize) -> (piece: String)
    requires
        from <= to <= line@.len(),
    ensures
        piece@ == line@.subrange(from as int, to as int),
{
    line.as_str().substring_char(from, to).to_owned()
}

/// Whether `c` is a decimal digit.
pub fn is_digit_char(c: char) -> (b: bool)
    ensures
        b == is_digit(c),
{
    let code = c as u32;
    48 <= code && code <= 57
}

/// The number that the characters from `from` up to `to` spell, if they are
/// digits, at least one, and spell a number in range.
pub fn parse_decimal(chars: &Vec<char>, from: usize, to: usize) -> (r: Option<u64>)
    requires
        from <= to <= chars@.len(),
    ensures
        r == if from < to && all_digits(chars@.subrange(from as int, to as int)) && decimal(
            chars@.subrange(from as int, to as int),
        ) <= u64::MAX {
            Some(decimal(chars@.subrange(from as int, to as int)) as u64)
        } else {
            None
        },
{
    let ghost piece = chars@.subrange(from as int, to as int);
    if from == to {
        return None;
    }
    let mut value: u64 = 0;
    let mut i: usize = from;
    assert(piece.take(0).len() == 0);
    while i < to
        invariant
            from <= i <= to <= chars@.len(),
            piece == chars@.subrange(from as int, to as int),
            all_digits(piece.take(i - from)),
            value == decimal(piece.take(i - from)),
        decreases to - i,
    {
        let c = chars[i];
        let ghost k = i - from;
        proof {
            assert(piece[k] == c);
            assert(piece.take(k + 1).drop_last() =~= piece.take(k));
            assert(piece.take(k + 1).last() == c);
        }
        if !is_digit_char(c) {
            return None;
        }
        let digit = (c as u32 - 48) as u64;
        if value > (u64::MAX - digit) / 10 {
            proof {
                lemma_decimal_grows(piece, k + 1);
            }
            return None;
        }
        value = value * 10 + digit;
        proof {
            assert forall|j: int| 0 <= j < k + 1 implies is_digit(#[trigger] piece.take(k + 1)[j]) by {
                if j < k {
                    assert(piece.take(k)[j] == piece.take(k + 1)[j]);
                }
            }
        }
        i += 1;
    }
    proof {
        assert(piece.take(to - from) =~= piece);
    }
    Some(value)
}

/// The number that the characters from `from` up to `to` spell as an unsigned
/// decimal of 64 bits, as `str::parse` does for `u64`.
pub fn parse_unsigned(chars: &Vec<char>, from: usize, to: usize) -> (r: Option<u64>)
    requires
        from <= to <= chars@.len(),
    ensures
        r == unsigned_value(chars@.subrange(from as int, to as int)),
{
    let ghost piece = chars@.subrange(from as int, to as int);
    if from < to && chars[from] == '+' {
        assert(piece[0] == '+');
        assert(piece.subrange(1, piece.len() as int) =~= chars@.subrange(from + 1, to as int));
        parse_decimal(chars, from + 1, to)
    } else {
        if from < to {
            assert(piece[0] == chars@[from as int]);
        }
        parse_decimal(chars, from, to)
    }
}

/// The character of a decimal digit.
pub open spec fn digit_char(d: nat) -> char {
    ((48 + d) as u8) as char
}

/// The decimal digits of `n`, without leading zeros.
pub open spec fn numeral(n: nat) -> Seq<char>
    decreases n,
{
    if n < 10 {
        seq![digit_char(n)]
    } else {
        numeral(n / 10).push(digit_char(n % 10))
    }
}

/// The digits of a number spell the number: what `numeral` writes, `decimal`
/// reads back, as many digits as the number has, and no other characters.
pub proof fn lemma_numeral_round_trip(n: nat)
    ensures
        decimal(numeral(n)) == n,
        all_digits(numeral(n)),
        numeral(n).len() == digit_count(n),
        unsigned_value(numeral(n)) == if n <= u64::MAX {
            Some(n as u64)
        } else {
            None::<u64>
        },
    decreases n,
{
    let text = numeral(n);
    if n < 10 {
        assert(text.drop_last() =~= Seq::<char>::empty());
        assert(decimal(text.drop_last()) == 0);
        assert(digit_value(digit_char(n)) == n);
        assert(text[0] == digit_char(n));
    } else {
        lemma_numeral_round_trip(n / 10);
        assert(text.drop_last() =~= numeral(n / 10));
        assert(text.last() == digit_char(n % 10));
        assert(digit_value(digit_char(n % 10)) == n % 10);
        assert forall|i: int| 0 <= i < text.len() implies is_digit(#[trigger] text[i]) by {
            if i < text.len() - 1 {
                assert(text[i] == numeral(n / 10)[i]);
            }
        }
    }
    assert(is_digit(text[0]));
    assert(text[0] != '+');
}

/// The decimal digits of `n`, without leading zeros.
pub fn format_decimal(n: u64) -> (digits: Vec<char>)
    ensures
        digits@ == numeral(n as nat),
{
    let mut reversed: Vec<char> = Vec::new();
    let mut rest = n;
    loop
        invariant_except_break
            numeral(n as nat) == numeral(rest as nat) + reversed@.reverse(),
        ensures
            numeral(n as nat) == reversed@.reverse(),
        decreases rest,
    {
        let digit = (rest % 10) as u8;
        let c = (48 + digit) as char;
        let ghost held = reversed@;
        let ghost before = rest;
        reversed.push(c);
        rest = rest / 10;
        proof {
            assert(c == digit_char((before % 10) as nat));
            assert(reversed@.reverse() =~= seq![c] + held.reverse());
            if before >= 10 {
                assert(numeral(before as nat) == numeral(rest as nat).push(c));
                assert(numeral(rest as nat).push(c) + held.reverse() =~= numeral(rest as nat) + (
                seq![c] + held.reverse()));
            } else {
                assert(numeral(before as nat) == seq![c]);
            }
        }
        if rest == 0 {
            break ;
        }
    }
    let mut digits: Vec<char> = Vec::new();
    let mut i: usize = reversed.len();
    assert(reversed@.reverse().take(0) =~= digits@);
    while i > 0
        invariant
            i <= reversed@.len(),
            digits@ == reversed@.reverse().take(reversed@.len() - i),
        decreases i,
    {
        i -= 1;
        digits.push(reversed[i]);
        assert(digits@ =~= reversed@.reverse().take(reversed@.len() - i));
    }
    proof {
        assert(reversed@.reverse().take(reversed@.len() as int) =~= reversed@.reverse());
    }
    digits
}

/// Collecting characters into a `String`, as std's `FromIterator<char>` does:
/// the string holds the characters, in their order.
#[verifier::external_body]
pub(crate) fn string_of(chars: &Vec<char>) -> (text: String)
    ensures
        text@ == chars@,
{
    chars.iter().collect()
}

/// The position of the first character from `at` on, before `to`, that is
/// not white space; `to` if there is none.
pub open spec fn skip_blank(s: Seq<char>, at: int, to: int) -> int
    decreases to - at,
{
    if at < to && 0 <= at < s.len() && whitespace(s[at]) {
        skip_blank(s, at + 1, to)
    } else {
        at
    }
}

/// The position behind the last character before `to`, not before `from`,
/// that is not white space; `from` if there is none.
pub open spec fn drop_blank(s: Seq<char>, from: int, to: int) -> int
    decreases to - from,
{
    if from < to && 0 < to <= s.len() && whitespace(s[to - 1]) {
        drop_blank(s, from, to - 1)
    } else {
        to
    }
}

/// The piece of `s` from `from` up to `to`, without the white space at its ends.
pub open spec fn trimmed(s: Seq<char>, from: int, to: int) -> Seq<char> {
    s.subrange(skip_blank(s, from, to), drop_blank(s, skip_blank(s, from, to), to))
}

/// The bounds stay within the piece.
pub proof fn lemma_blank_bounds(s: Seq<char>, from: int, to: int)
    requires
        0 <= from <= to <= s.len(),
    ensures
        from <= skip_blank(s, from, to) <= to,
        from <= drop_blank(s, from, to) <= to,
    decreases to - from,
{
    if from < to {
        if whitespace(s[from]) {
            lemma_blank_bounds(s, from + 1, to);
        }
        if whitespace(s[to - 1]) {
            lemma_blank_bounds(s, from, to - 1);
        }
    }
}

/// The bounds of the piece from `from` up to `to` without the white space at
/// its ends.
pub fn trim_range(chars: &Vec<char>, from: usize, to: usize) -> (r: (usize, usize))
    requires
        from <= to <= chars@.len(),
    ensures
        r.0 == skip_blank(chars@, from as int, to as int),
        r.1 == drop_blank(chars@, r.0 as int, to as int),
        from <= r.0 <= r.1 <= to,
        chars@.subrange(r.0 as int, r.1 as int) == trimmed(chars@, from as int, to as int),
{
    let mut a: usize = from;
    while a < to && is_whitespace(chars[a])
        invariant
            from <= a <= to <= chars@.len(),
            skip_blank(chars@, from as int, to as int) == skip_blank(chars@, a as int, to as int),
        decreases to - a,
    {
        a += 1;
    }
    let mut b: usize = to;
    while a < b && is_whitespace(chars[b - 1])
        invariant
            a <= b <= to <= chars@.len(),
            drop_blank(chars@, a as int, to as int) == drop_blank(chars@, a as int, b as int),
        decreases b - a,
    {
        b -= 1;
    }
    (a, b)
}

} // verus!
