//! Decimal numerals: the canonical text of an integer, and its reading.
//!
//! A number is kept as text. The canonical text of an integer is its decimal
//! form without a plus sign, without leading zeros, and without a minus sign
//! in front of zero.

use vstd::prelude::*;
use vstd::string::*;
use vstd::utf8::*;

verus! {

/// `c` is one of the ten decimal digits.
pub open spec fn is_digit(c: char) -> bool {
    '0' <= c <= '9'
}

/// The number that a digit stands for.
pub open spec fn digit_value(c: char) -> nat
    recommends
        is_digit(c),
{
    (c as u32 - 48) as nat
}

/// The digit that stands for a number below ten.
pub open spec fn digit_char(d: nat) -> char
    recommends
        d < 10,
{
    ((d + 48) as u8) as char
}

/// The decimal form of a natural number.
pub open spec fn decimal(n: nat) -> Seq<char>
    decreases n,
{
    if n < 10 {
        seq![digit_char(n)]
    } else {
        decimal(n / 10).push(digit_char(n % 10))
    }
}

/// The canonical text of an integer.
pub open spec fn integer_text(n: int) -> Seq<char> {
    if n < 0 {
        seq!['-'] + decimal((-n) as nat)
    } else {
        decimal(n as nat)
    }
}

/// Every character of `t` is a digit.
pub open spec fn all_digits(t: Seq<char>) -> bool {
    forall|i: int| 0 <= i < t.len() ==> is_digit(#[trigger] t[i])
}

/// The number that a sequence of digits spells.
pub open spec fn digits_value(t: Seq<char>) -> nat
    decreases t.len(),
{
    if t.len() == 0 {
        0
    } else {
        digits_value(t.drop_last()) * 10 + digit_value(t.last())
    }
}

/// `t` is the canonical text of some natural number: digits, at least one,
/// and no leading zero but in `0` itself.
pub open spec fn is_natural_numeral(t: Seq<char>) -> bool {
    &&& t.len() >= 1
    &&& all_digits(t)
    &&& (t.len() == 1 || t[0] != '0')
}

/// `t` is the canonical text of some integer.
pub open spec fn is_integer_numeral(t: Seq<char>) -> bool {
    ||| is_natural_numeral(t)
    ||| (t.len() >= 2 && t[0] == '-' && t[1] != '0' && is_natural_numeral(
        t.subrange(1, t.len() as int),
    ))
}

/// The integer that a numeral spells.
pub open spec fn integer_value(t: Seq<char>) -> int
    recommends
        is_integer_numeral(t),
{
    if t.len() >= 1 && t[0] == '-' {
        -(digits_value(t.subrange(1, t.len() as int)) as int)
    } else {
        digits_value(t) as int
    }
}

/// The integers that the wire format can carry: from the least signed
/// 64-bit number to the greatest unsigned one.
pub open spec fn in_wire_range(n: int) -> bool {
    -0x8000_0000_0000_0000 <= n <= 0xffff_ffff_ffff_ffff
}

/// What reading a text as an integer found.
#[derive(Debug, Clone, Copy, PartialEq, Eq, Structural)]
pub enum Numeral {
    /// The canonical text of an integer that the wire format can carry.
    Integer(i128),
    /// The canonical text of an integer outside that range.
    TooLarge,
    /// Not the canonical text of any integer.
    Invalid,
}

/// A sequence of digits that does not start with zero spells a positive number.
proof fn lemma_leading_digit(t: Seq<char>)
    requires
        t.len() >= 1,
        all_digits(t),
        t[0] != '0',
    ensures
        digits_value(t) >= 1,
    decreases t.len(),
{
    if t.len() == 1 {
        assert(t.drop_last().len() == 0);
        assert(digits_value(t.drop_last()) == 0);
        assert(is_digit(t[0]));
    } else {
        let p = t.drop_last();
        assert forall|i: int| 0 <= i < p.len() implies is_digit(#[trigger] p[i]) by {
            assert(p[i] == t[i]);
        }
        assert(p[0] == t[0]);
        lemma_leading_digit(p);
    }
}

/// The decimal form of a number is a canonical numeral that spells it.
pub proof fn law_decimal_is_numeral(n: nat)
    ensures
        is_natural_numeral(decimal(n)),
        digits_value(decimal(n)) == n,
    decreases n,
{
    if n < 10 {
        let t = decimal(n);
        assert(t.len() == 1);
        assert(t[0] == digit_char(n));
        assert(t.drop_last().len() == 0);
        assert(digits_value(t.drop_last()) == 0);
    } else {
        let p = decimal(n / 10);
        let t = decimal(n);
        law_decimal_is_numeral(n / 10);
        assert(t == p.push(digit_char(n % 10)));
        assert(t.drop_last() =~= p);
        assert(t.last() == digit_char(n % 10));
        assert forall|i: int| 0 <= i < t.len() implies is_digit(#[trigger] t[i]) by {
            if i < p.len() {
                assert(t[i] == p[i]);
            }
        }
        assert(t[0] == p[0]);
        if p[0] == '0' {
            assert(p.len() == 1);
            assert(p.drop_last().len() == 0);
            assert(digits_value(p.drop_last()) == 0);
            assert(digits_value(p) == 0);
        }
    }
}

/// A canonical numeral is the decimal form of the number it spells.
pub proof fn law_numeral_is_decimal(t: Seq<char>)
    requires
        is_natural_numeral(t),
    ensures
        decimal(digits_value(t)) == t,
    decreases t.len(),
{
    let p = t.drop_last();
    let c = t.last();
    assert(is_digit(c));
    if t.len() == 1 {
        assert(p.len() == 0);
        assert(digits_value(p) == 0);
        assert(decimal(digits_value(t)) =~= t);
    } else {
        assert forall|i: int| 0 <= i < p.len() implies is_digit(#[trigger] p[i]) by {
            assert(p[i] == t[i]);
        }
        assert(p[0] == t[0]);
        lemma_leading_digit(p);
        law_numeral_is_decimal(p);
        let v = digits_value(t);
        assert(v == digits_value(p) * 10 + digit_value(c));
        assert(v / 10 == digits_value(p));
        assert(v % 10 == digit_value(c));
        assert(digit_char(digit_value(c)) == c);
        assert(decimal(v) =~= t);
    }
}

/// Ten to the power of `k`.
pub open spec fn pow10(k: nat) -> nat
    decreases k,
{
    if k == 0 {
        1
    } else {
        10 * pow10((k - 1) as nat)
    }
}

/// A number below ten to the `k` has `k` digits at most.
pub proof fn lemma_decimal_len(n: nat, k: nat)
    requires
        k >= 1,
        n < pow10(k),
    ensures
        1 <= decimal(n).len() <= k,
    decreases k,
{
    reveal_with_fuel(pow10, 2);
    if n >= 10 {
        lemma_decimal_len(n / 10, (k - 1) as nat);
    }
}

/// The canonical text of an integer that the wire format can carry has
/// twenty-one characters at most.
pub proof fn lemma_integer_text_len(n: int)
    requires
        in_wire_range(n),
    ensures
        1 <= integer_text(n).len() <= 21,
{
    assert(pow10(20) == 100_000_000_000_000_000_000) by {
        reveal_with_fuel(pow10, 21);
    }
    if n < 0 {
        lemma_decimal_len((-n) as nat, 20);
    } else {
        lemma_decimal_len(n as nat, 20);
    }
}

/// The canonical text of an integer is a canonical numeral that spells it.
pub proof fn law_integer_text_is_numeral(n: int)
    ensures
        is_integer_numeral(integer_text(n)),
        integer_value(integer_text(n)) == n,
{
    if n < 0 {
        let m = (-n) as nat;
        let t = integer_text(n);
        law_decimal_is_numeral(m);
        assert(t.subrange(1, t.len() as int) =~= decimal(m));
        assert(t[1] == decimal(m)[0]);
        if t[1] == '0' {
            let d = decimal(m);
            assert(d.len() == 1);
            assert(d.drop_last().len() == 0);
            assert(digits_value(d.drop_last()) == 0);
        }
    } else {
        let t = integer_text(n);
        law_decimal_is_numeral(n as nat);
        assert(is_digit(t[0]));
    }
}

/// A canonical numeral is the canonical text of the integer it spells:
/// reading and writing an integer are inverse to each other.
pub proof fn law_numeral_is_integer_text(t: Seq<char>)
    requires
        is_integer_numeral(t),
    ensures
        integer_text(integer_value(t)) == t,
{
    if t[0] == '-' {
        assert(!is_digit(t[0]));
        let rest = t.subrange(1, t.len() as int);
        assert(rest[0] == t[1]);
        lemma_leading_digit(rest);
        law_numeral_is_decimal(rest);
        assert(integer_text(integer_value(t)) =~= t);
    } else {
        law_numeral_is_decimal(t);
    }
}

/// A canonical numeral holds ASCII characters only.
pub proof fn lemma_numeral_is_ascii(t: Seq<char>)
    requires
        is_integer_numeral(t),
    ensures
        is_ascii_chars(t),
{
    assert forall|i: int| 0 <= i < t.len() implies '\0' <= #[trigger] t[i] <= '\u{7f}' by {
        if is_natural_numeral(t) {
            assert(is_digit(t[i]));
        } else if i >= 1 {
            let rest = t.subrange(1, t.len() as int);
            assert(rest[i - 1] == t[i]);
            assert(is_digit(rest[i - 1]));
        }
    }
}

/// The one-character text of a digit.
fn digit_str(d: u8) -> (s: &'static str)
    requires
        d < 10,
    ensures
        s@ == seq![digit_char(d as nat)],
{
    proof {
        reveal_strlit("0");
        reveal_strlit("1");
        reveal_strlit("2");
        reveal_strlit("3");
        reveal_strlit("4");
        reveal_strlit("5");
        reveal_strlit("6");
        reveal_strlit("7");
        reveal_strlit("8");
        reveal_strlit("9");
    }
    let s = match d {
        0 => "0",
        1 => "1",
        2 => "2",
        3 => "3",
        4 => "4",
        5 => "5",
        6 => "6",
        7 => "7",
        8 => "8",
        _ => "9",
    };
    assert(s@ =~= seq![digit_char(d as nat)]);
    s
}

/// Appends the decimal form of `n`.
pub fn push_decimal(out: &mut String, n: u128)
    ensures
        final(out)@ == old(out)@ + decimal(n as nat),
    decreases n,
{
    if n >= 10 {
        push_decimal(out, n / 10);
    }
    out.append(digit_str((n % 10) as u8));
    assert(out@ =~= old(out)@ + decimal(n as nat));
}

/// The canonical text of `n`.
pub fn format_integer(n: i128) -> (text: String)
    ensures
        text@ == integer_text(n as int),
{
    let mut text = String::new();
    if n < 0 {
        let magnitude: u128 = ((-(n + 1)) as u128) + 1;
        proof {
            reveal_strlit("-");
        }
        text.append("-");
        push_decimal(&mut text, magnitude);
        assert(text@ =~= integer_text(n as int));
    } else {
        push_decimal(&mut text, n as u128);
        assert(text@ =~= integer_text(n as int));
    }
    text
}

/// Reads a text as an integer: the number, where the text is the canonical
/// text of one that the wire format can carry.
pub fn parse_integer(text: &str) -> (r: Numeral)
    ensures
        match r {
            Numeral::Integer(n) => is_integer_numeral(text@) && integer_value(text@) == n
                && in_wire_range(n as int),
            Numeral::TooLarge => is_integer_numeral(text@) && !in_wire_range(
                integer_value(text@),
            ),
            Numeral::Invalid => !is_integer_numeral(text@),
        },
{
    let ghost t = text@;
    if !text.is_ascii() {
        proof {
            if is_integer_numeral(t) {
                lemma_numeral_is_ascii(t);
            }
        }
        return Numeral::Invalid;
    }
    let bytes = text.as_bytes();
    let len = bytes.len();
    proof {
        is_ascii_chars_encode_utf8(t);
    }
    assert(len == t.len());
    assert(forall|i: int| 0 <= i < len ==> bytes@[i] == (#[trigger] t[i]) as u8);
    if len == 0 {
        return Numeral::Invalid;
    }
    let negative = bytes[0] == 45;
    let start: usize = if negative {
        1
    } else {
        0
    };
    assert(negative <==> t[0] == '-');
    if start == len {
        return Numeral::Invalid;
    }
    let ghost body = t.subrange(start as int, len as int);
    assert(body[0] == t[start as int]);
    if bytes[start] == 48 && (negative || len - start > 1) {
        return Numeral::Invalid;
    }
    let mut i: usize = start;
    let mut acc: u128 = 0;
    let mut huge = false;
    assert(t.subrange(start as int, i as int).len() == 0);
    while i < len
        invariant
            start <= i <= len,
            len == t.len(),
            t == text@,
            forall|k: int| 0 <= k < len ==> bytes@[k] == (#[trigger] t[k]) as u8,
            is_ascii_chars(t),
            bytes@.len() == len,
            all_digits(t.subrange(start as int, i as int)),
            !huge ==> acc == digits_value(t.subrange(start as int, i as int)) && acc
                <= 0xffff_ffff_ffff_ffff,
            huge ==> digits_value(t.subrange(start as int, i as int)) > 0xffff_ffff_ffff_ffff,
            negative <==> t[0] == '-',
            start == (if negative { 1usize } else { 0usize }),
        decreases len - i,
    {
        let b = bytes[i];
        let ghost prev = t.subrange(start as int, i as int);
        let ghost next = t.subrange(start as int, i + 1);
        assert(next.drop_last() =~= prev);
        assert(next.last() == t[i as int]);
        if b < 48 || b > 57 {
            proof {
                assert(!is_digit(t[i as int]));
                if is_integer_numeral(t) {
                    if negative {
                        let rest = t.subrange(1, len as int);
                        assert(rest[i - 1] == t[i as int]);
                    }
                }
            }
            return Numeral::Invalid;
        }
        assert(is_digit(t[i as int]));
        assert(digit_value(t[i as int]) == b - 48);
        assert forall|k: int| 0 <= k < next.len() implies is_digit(#[trigger] next[k]) by {
            if k < prev.len() {
                assert(next[k] == prev[k]);
            }
        }
        if !huge {
            acc = acc * 10 + ((b - 48) as u128);
            if acc > 0xffff_ffff_ffff_ffff {
                huge = true;
            }
        }
        i = i + 1;
    }
    assert(t.subrange(start as int, len as int) == body);
    assert(is_natural_numeral(body));
    proof {
        if !negative {
            assert(body =~= t);
        } else {
            assert(t[1] == body[0]);
        }
    }
    assert(is_integer_numeral(t));
    if huge {
        return Numeral::TooLarge;
    }
    if negative {
        if acc > 0x8000_0000_0000_0000 {
            Numeral::TooLarge
        } else {
            Numeral::Integer(-(acc as i128))
        }
    } else {
        Numeral::Integer(acc as i128)
    }
}

} // verus!
