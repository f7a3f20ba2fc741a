//! Numbers that are not integers: the bit pattern of an IEEE-754 double and
//! its numeral.
//!
//! This library does no floating-point arithmetic. A number that is not an
//! integer is kept as the hexadecimal literal of its double, which is exact:
//! a sign, `0x`, the leading digit, a dot, the thirteen hexadecimal digits
//! of the fraction, `p` and the binary exponent in decimal. The two
//! infinities are `inf` and `-inf`; every NaN is `NaN`.

use vstd::prelude::*;
use vstd::string::*;
use vstd::utf8::is_ascii_chars;
use crate::numeral::{
    digit_char, format_integer, integer_text, is_digit, is_integer_numeral, is_natural_numeral,
    law_integer_text_is_numeral, lemma_numeral_is_ascii, parse_integer, Numeral,
};

verus! {

/// The bit pattern that stands for every NaN.
pub const CANONICAL_NAN: u64 = 0x7ff8_0000_0000_0000;

/// The bit pattern of positive infinity.
pub const INFINITY: u64 = 0x7ff0_0000_0000_0000;

/// The bit pattern of negative infinity.
pub const NEGATIVE_INFINITY: u64 = 0xfff0_0000_0000_0000;

/// The sign bit of a double is set.
pub open spec fn sign_of(bits: u64) -> bool {
    bits >= 0x8000_0000_0000_0000
}

/// The eleven bits of the exponent of a double.
pub open spec fn exponent_of(bits: u64) -> nat {
    ((bits / 0x10_0000_0000_0000) % 0x800) as nat
}

/// The fifty-two bits of the fraction of a double.
pub open spec fn fraction_of(bits: u64) -> nat {
    (bits % 0x10_0000_0000_0000) as nat
}

/// The double with this sign, exponent and fraction.
pub open spec fn compose(sign: bool, exponent: nat, fraction: nat) -> u64
    recommends
        exponent < 0x800,
        fraction < 0x10_0000_0000_0000,
{
    ((if sign {
        0x8000_0000_0000_0000int
    } else {
        0int
    }) + exponent * 0x10_0000_0000_0000 + fraction) as u64
}

/// The pattern is no NaN, or it is the one NaN that stands for all.
pub open spec fn is_canonical(bits: u64) -> bool {
    exponent_of(bits) != 0x7ff || fraction_of(bits) == 0 || bits == 0x7ff8_0000_0000_0000
}

/// The hexadecimal digit that stands for a number below sixteen.
pub open spec fn hex_char(d: nat) -> char
    recommends
        d < 16,
{
    if d < 10 {
        digit_char(d)
    } else {
        ((d + 87) as u8) as char
    }
}

/// `c` is a hexadecimal digit, in lower case.
pub open spec fn is_hex_digit(c: char) -> bool {
    is_digit(c) || ('a' <= c <= 'f')
}

/// The number that a hexadecimal digit stands for.
pub open spec fn hex_digit_value(c: char) -> nat
    recommends
        is_hex_digit(c),
{
    if is_digit(c) {
        (c as u32 - 48) as nat
    } else {
        (c as u32 - 87) as nat
    }
}

/// The number in `width` hexadecimal digits, most significant first.
pub open spec fn hex_text(v: nat, width: nat) -> Seq<char>
    decreases width,
{
    if width == 0 {
        Seq::empty()
    } else {
        hex_text(v / 16, (width - 1) as nat).push(hex_char(v % 16))
    }
}

/// The number that a sequence of hexadecimal digits spells.
pub open spec fn hex_value(t: Seq<char>) -> nat
    decreases t.len(),
{
    if t.len() == 0 {
        0
    } else {
        hex_value(t.drop_last()) * 16 + hex_digit_value(t.last())
    }
}

/// Sixteen to the power of `k`.
pub open spec fn pow16(k: nat) -> nat
    decreases k,
{
    if k == 0 {
        1
    } else {
        16 * pow16((k - 1) as nat)
    }
}

/// The text of the sign of a double.
pub open spec fn sign_text(bits: u64) -> Seq<char> {
    if sign_of(bits) {
        seq!['-']
    } else {
        Seq::empty()
    }
}

/// The digit in front of the dot: zero for zero and the subnormal doubles,
/// one for the others.
pub open spec fn lead_char(bits: u64) -> char {
    if exponent_of(bits) == 0 {
        '0'
    } else {
        '1'
    }
}

/// The binary exponent of a finite double.
pub open spec fn scale_of(bits: u64) -> int {
    if exponent_of(bits) == 0 {
        -1022
    } else {
        exponent_of(bits) - 1023
    }
}

/// The numeral of a double.
pub open spec fn float_text(bits: u64) -> Seq<char> {
    if exponent_of(bits) == 0x7ff {
        if fraction_of(bits) != 0 {
            seq!['N', 'a', 'N']
        } else if sign_of(bits) {
            seq!['-', 'i', 'n', 'f']
        } else {
            seq!['i', 'n', 'f']
        }
    } else {
        sign_text(bits) + seq!['0', 'x', lead_char(bits), '.'] + hex_text(fraction_of(bits), 13)
            + seq!['p'] + integer_text(scale_of(bits))
    }
}

/// `t` is the numeral of some double.
pub open spec fn is_float_numeral(t: Seq<char>) -> bool {
    exists|bits: u64| is_canonical(bits) && #[trigger] float_text(bits) == t
}

/// The double that a numeral spells.
pub open spec fn float_bits(t: Seq<char>) -> u64
    recommends
        is_float_numeral(t),
{
    choose|bits: u64| is_canonical(bits) && #[trigger] float_text(bits) == t
}

/// A fraction of a single shifted up until its leading one stands above
/// its twenty-three bits, and the exponent lowered by one for each shift;
/// `steps` bounds the shifts.
pub open spec fn normalised(fraction: nat, exponent: nat, steps: nat) -> (nat, nat)
    decreases steps,
{
    if fraction >= 0x80_0000 || steps == 0 || exponent == 0 {
        (fraction, exponent)
    } else {
        normalised(2 * fraction, (exponent - 1) as nat, (steps - 1) as nat)
    }
}

/// The double that has the value of a single: the exponent rebiased, the
/// fraction padded with zeros, a subnormal single made normal. Every NaN
/// becomes the one NaN.
pub open spec fn widen(single: u32) -> u64 {
    let sign = single >= 0x8000_0000;
    let exponent = ((single / 0x80_0000) % 0x100) as nat;
    let fraction = (single % 0x80_0000) as nat;
    if exponent == 0xff {
        if fraction == 0 {
            compose(sign, 0x7ff, 0)
        } else {
            0x7ff8_0000_0000_0000
        }
    } else if exponent == 0 {
        let (shifted, lowered) = normalised(fraction, 897, 23);
        if shifted >= 0x80_0000 {
            compose(sign, lowered, ((shifted - 0x80_0000) * 0x2000_0000) as nat)
        } else {
            compose(sign, 0, 0)
        }
    } else {
        compose(sign, exponent + 896, fraction * 0x2000_0000)
    }
}

/// A double is made of its sign, its exponent and its fraction.
pub proof fn lemma_compose(bits: u64)
    ensures
        compose(sign_of(bits), exponent_of(bits), fraction_of(bits)) == bits,
        exponent_of(bits) < 0x800,
        fraction_of(bits) < 0x10_0000_0000_0000,
{
    let high = bits / 0x10_0000_0000_0000;
    assert(bits == high * 0x10_0000_0000_0000 + bits % 0x10_0000_0000_0000);
    assert(high < 0x1000);
    assert(high == (high / 0x800) * 0x800 + high % 0x800);
    assert(sign_of(bits) <==> high >= 0x800);
}

/// The digits of a number below sixteen to the `width` spell it.
pub proof fn lemma_hex_round_trip(v: nat, width: nat)
    requires
        v < pow16(width),
    ensures
        hex_text(v, width).len() == width,
        hex_value(hex_text(v, width)) == v,
        forall|i: int| 0 <= i < width ==> is_hex_digit(#[trigger] hex_text(v, width)[i]),
    decreases width,
{
    if width > 0 {
        let p = hex_text(v / 16, (width - 1) as nat);
        let t = hex_text(v, width);
        assert(v / 16 < pow16((width - 1) as nat));
        lemma_hex_round_trip(v / 16, (width - 1) as nat);
        assert(t.drop_last() =~= p);
        assert(t.last() == hex_char(v % 16));
        assert(is_hex_digit(hex_char(v % 16)));
        assert(hex_digit_value(hex_char(v % 16)) == v % 16);
        assert forall|i: int| 0 <= i < width implies is_hex_digit(#[trigger] t[i]) by {
            if i < width - 1 {
                assert(t[i] == p[i]);
            }
        }
    } else {
        assert(hex_text(v, width).len() == 0);
    }
}

/// Fifty-two bits are thirteen hexadecimal digits.
pub proof fn lemma_pow16_13()
    ensures
        pow16(13) == 0x10_0000_0000_0000,
{
    reveal_with_fuel(pow16, 14);
}

/// The shape of the numeral of a finite double.
pub proof fn lemma_float_text_shape(bits: u64)
    requires
        exponent_of(bits) != 0x7ff,
    ensures
        ({
            let t = float_text(bits);
            let s: int = if sign_of(bits) {
                1
            } else {
                0
            };
            &&& t.len() >= s + 19
            &&& (sign_of(bits) ==> t[0] == '-')
            &&& t[s] == '0'
            &&& t[s + 1] == 'x'
            &&& t[s + 2] == lead_char(bits)
            &&& t[s + 3] == '.'
            &&& t.subrange(s + 4, s + 17) == hex_text(fraction_of(bits), 13)
            &&& t[s + 17] == 'p'
            &&& t.subrange(s + 18, t.len() as int) == integer_text(scale_of(bits))
            &&& is_ascii_chars(t)
        }),
{
    let t = float_text(bits);
    let s: int = if sign_of(bits) {
        1
    } else {
        0
    };
    let hex = hex_text(fraction_of(bits), 13);
    let scale = integer_text(scale_of(bits));
    lemma_compose(bits);
    lemma_pow16_13();
    lemma_hex_round_trip(fraction_of(bits), 13);
    law_integer_text_is_numeral(scale_of(bits));
    lemma_numeral_is_ascii(scale);
    assert(scale.len() >= 1);
    assert(t.len() == s + 4 + 13 + 1 + scale.len());
    assert(t.subrange(s + 4, s + 17) =~= hex);
    assert(t.subrange(s + 18, t.len() as int) =~= scale);
    assert forall|i: int| 0 <= i < t.len() implies '\0' <= #[trigger] t[i] <= '\u{7f}' by {
        if s + 4 <= i < s + 17 {
            assert(t[i] == hex[i - s - 4]);
            assert(is_hex_digit(hex[i - s - 4]));
        } else if i >= s + 18 {
            assert(t[i] == scale[i - s - 18]);
        }
    }
}

/// The numeral of a double is not the canonical text of any integer.
pub proof fn lemma_float_text_is_no_integer(bits: u64)
    ensures
        !is_integer_numeral(float_text(bits)),
{
    let t = float_text(bits);
    if exponent_of(bits) != 0x7ff {
        lemma_float_text_shape(bits);
        if sign_of(bits) {
            assert(t[1] == '0');
            assert(!is_digit(t[0]));
        } else {
            assert(!is_digit(t[1]));
            if is_integer_numeral(t) {
                if t[0] == '-' {
                } else {
                    assert(is_natural_numeral(t));
                }
            }
        }
    } else {
        assert(!is_digit(t[0]) || !is_digit(t[1]));
        if is_integer_numeral(t) {
            if is_natural_numeral(t) {
                assert(is_digit(t[0]) && is_digit(t[1]));
            } else {
                let rest = t.subrange(1, t.len() as int);
                assert(rest[0] == t[1]);
                assert(is_digit(rest[0]));
            }
        }
    }
}

/// Two doubles with one numeral are one double, NaNs set aside.
pub proof fn law_float_text_is_injective(a: u64, b: u64)
    requires
        is_canonical(a),
        is_canonical(b),
        float_text(a) == float_text(b),
    ensures
        a == b,
{
    lemma_compose(a);
    lemma_compose(b);
    let ta = float_text(a);
    let tb = float_text(b);
    if exponent_of(a) != 0x7ff {
        lemma_float_text_shape(a);
        assert(ta[0] == '-' || ta[0] == '0');
        if exponent_of(b) != 0x7ff {
            lemma_float_text_shape(b);
            lemma_pow16_13();
            lemma_hex_round_trip(fraction_of(a), 13);
            lemma_hex_round_trip(fraction_of(b), 13);
            law_integer_text_is_numeral(scale_of(a));
            law_integer_text_is_numeral(scale_of(b));
            assert(sign_of(a) == sign_of(b)) by {
                if sign_of(a) && !sign_of(b) {
                    assert(tb[0] == '0');
                }
                if sign_of(b) && !sign_of(a) {
                    assert(ta[0] == '0');
                }
            }
            assert(fraction_of(a) == fraction_of(b));
            assert(scale_of(a) == scale_of(b));
            assert(lead_char(a) == lead_char(b));
            assert(exponent_of(a) == exponent_of(b));
        } else {
            assert(tb[0] == 'N' || tb[0] == 'i' || (tb[0] == '-' && tb[1] == 'i'));
            assert(ta[1] == 'x' || ta[1] == '0');
        }
    } else {
        assert(ta[0] == 'N' || ta[0] == 'i' || (ta[0] == '-' && ta[1] == 'i'));
        if exponent_of(b) != 0x7ff {
            lemma_float_text_shape(b);
            assert(tb[0] == '-' || tb[0] == '0');
            assert(tb[1] == 'x' || tb[1] == '0');
        } else {
            assert(tb[0] == 'N' || tb[0] == 'i' || (tb[0] == '-' && tb[1] == 'i'));
        }
    }
}

/// The double that the numeral of a double spells is that double.
pub proof fn law_float_bits_inverts_text(bits: u64)
    requires
        is_canonical(bits),
    ensures
        is_float_numeral(float_text(bits)),
        float_bits(float_text(bits)) == bits,
{
    let found = float_bits(float_text(bits));
    law_float_text_is_injective(found, bits);
}

/// The one-character text of a hexadecimal digit.
fn hex_str(d: u8) -> (s: &'static str)
    requires
        d < 16,
    ensures
        s@ == seq![hex_char(d as nat)],
{
    proof {
        reveal_strlit("0");
        reveal_strlit("1");
        reveal_strlit("2");
        reveal_strlit("3");
        reveal_strlit("4");
        reveal_strlit("5");
        reveal_strlit("6");
        reveal_strlit("7");
        reveal_strlit("8");
        reveal_strlit("9");
        reveal_strlit("a");
        reveal_strlit("b");
        reveal_strlit("c");
        reveal_strlit("d");
        reveal_strlit("e");
        reveal_strlit("f");
    }
    let s = match d {
        0 => "0",
        1 => "1",
        2 => "2",
        3 => "3",
        4 => "4",
        5 => "5",
        6 => "6",
        7 => "7",
        8 => "8",
        9 => "9",
        10 => "a",
        11 => "b",
        12 => "c",
        13 => "d",
        14 => "e",
        _ => "f",
    };
    assert(s@ =~= seq![hex_char(d as nat)]);
    s
}

/// Appends `v` in `width` hexadecimal digits.
fn push_hex(out: &mut String, v: u64, width: u8)
    ensures
        final(out)@ == old(out)@ + hex_text(v as nat, width as nat),
    decreases width,
{
    if width > 0 {
        push_hex(out, v / 16, width - 1);
        out.append(hex_str((v % 16) as u8));
    }
    assert(out@ =~= old(out)@ + hex_text(v as nat, width as nat));
}

/// The numeral of a double.
pub fn format_float(bits: u64) -> (text: String)
    ensures
        text@ == float_text(bits),
{
    let exponent = (bits / 0x10_0000_0000_0000) % 0x800;
    let fraction = bits % 0x10_0000_0000_0000;
    let negative = bits >= 0x8000_0000_0000_0000;
    proof {
        reveal_strlit("NaN");
        reveal_strlit("-inf");
        reveal_strlit("inf");
        reveal_strlit("-");
        reveal_strlit("0x0.");
        reveal_strlit("0x1.");
        reveal_strlit("p");
    }
    if exponent == 0x7ff {
        let text = if fraction != 0 {
            "NaN".to_string()
        } else if negative {
            "-inf".to_string()
        } else {
            "inf".to_string()
        };
        assert(text@ =~= float_text(bits));
        text
    } else {
        let mut text = String::new();
        if negative {
            text.append("-");
        }
        if exponent == 0 {
            text.append("0x0.");
        } else {
            text.append("0x1.");
        }
        push_hex(&mut text, fraction, 13);
        text.append("p");
        let scale: i128 = if exponent == 0 {
            -1022
        } else {
            (exponent as i128) - 1023
        };
        let scale_text = format_integer(scale);
        text.append(scale_text.as_str());
        assert(text@ =~= float_text(bits));
        text
    }
}

/// The double that has the value of a single.
pub fn widen_single(single: u32) -> (double: u64)
    ensures
        double == widen(single),
{
    let top: u64 = if single >= 0x8000_0000 {
        0x8000_0000_0000_0000
    } else {
        0
    };
    let exponent: u64 = ((single / 0x80_0000) % 0x100) as u64;
    let fraction: u64 = (single % 0x80_0000) as u64;
    if exponent == 0xff {
        if fraction == 0 {
            top + 0x7ff0_0000_0000_0000
        } else {
            CANONICAL_NAN
        }
    } else if exponent == 0 {
        let mut shifted: u64 = fraction;
        let mut lowered: u64 = 897;
        let mut steps: u64 = 23;
        while shifted < 0x80_0000 && steps > 0
            invariant
                steps <= 23,
                lowered == 874 + steps,
                shifted < 0x100_0000,
                normalised(fraction as nat, 897, 23) == normalised(
                    shifted as nat,
                    lowered as nat,
                    steps as nat,
                ),
            decreases steps,
        {
            shifted = shifted * 2;
            lowered = lowered - 1;
            steps = steps - 1;
        }
        if shifted >= 0x80_0000 {
            top + lowered * 0x10_0000_0000_0000 + (shifted - 0x80_0000) * 0x2000_0000
        } else {
            top
        }
    } else {
        top + (exponent + 896) * 0x10_0000_0000_0000 + fraction * 0x2000_0000
    }
}

/// Reads a text as the hexadecimal literal of a finite double: the double
/// whose numeral the text is, where there is one.
fn read_hex_float(text: &str) -> (r: Option<u64>)
    ensures
        forall|bits: u64|
            exponent_of(bits) != 0x7ff && #[trigger] float_text(bits) == text@ ==> r == Some(
                bits,
            ),
{
    let ghost t = text@;
    if !text.is_ascii() {
        assert forall|bits: u64|
            exponent_of(bits) != 0x7ff && #[trigger] float_text(bits) == t implies false by {
            lemma_float_text_shape(bits);
        }
        return None;
    }
    let bytes = text.as_bytes();
    let len = bytes.len();
    proof {
        vstd::utf8::is_ascii_chars_encode_utf8(t);
    }
    assert(len == t.len());
    assert(forall|i: int| 0 <= i < len ==> bytes@[i] == (#[trigger] t[i]) as u8);
    let s: usize = if len > 0 && bytes[0] == 45 {
        1
    } else {
        0
    };
    if len < 19 + s || bytes[s] != 48 || bytes[s + 1] != 120 || (bytes[s + 2] != 48 && bytes[s
        + 2] != 49) || bytes[s + 3] != 46 || bytes[s + 17] != 112 {
        assert forall|bits: u64|
            exponent_of(bits) != 0x7ff && #[trigger] float_text(bits) == t implies false by {
            lemma_float_text_shape(bits);
        }
        return None;
    }
    let subnormal = bytes[s + 2] == 48;
    let mut fraction: u64 = 0;
    let mut i: usize = 0;
    let ghost hex = t.subrange(s + 4, s + 17);
    assert(hex.subrange(0, 0).len() == 0);
    proof {
        lemma_pow16_13();
        reveal_with_fuel(pow16, 14);
    }
    while i < 13
        invariant
            i <= 13,
            len == t.len(),
            len >= 19 + s,
            s <= 1,
            (s == 1) <==> t[0] == '-',
            bytes@.len() == len,
            forall|k: int| 0 <= k < len ==> bytes@[k] == (#[trigger] t[k]) as u8,
            is_ascii_chars(t),
            hex == t.subrange(s + 4, s + 17),
            fraction == hex_value(hex.subrange(0, i as int)),
            fraction < pow16(i as nat),
            pow16(i as nat) <= 0x10_0000_0000_0000,
            forall|k: int| 0 <= k < i ==> is_hex_digit(#[trigger] hex[k]),
            t == text@,
        decreases 13 - i,
    {
        let b = bytes[s + 4 + i];
        let ghost c = t[s + 4 + i];
        assert(hex[i as int] == c);
        let digit: u64 = if b >= 48 && b <= 57 {
            (b - 48) as u64
        } else if b >= 97 && b <= 102 {
            (b - 87) as u64
        } else {
            assert(!is_hex_digit(c));
            assert forall|bits: u64|
                exponent_of(bits) != 0x7ff && #[trigger] float_text(bits) == t implies false by {
                lemma_float_text_shape(bits);
                lemma_compose(bits);
                lemma_pow16_13();
                lemma_hex_round_trip(fraction_of(bits), 13);
                assert(sign_of(bits) <==> s == 1);
                assert(hex == hex_text(fraction_of(bits), 13));
                assert(is_hex_digit(hex_text(fraction_of(bits), 13)[i as int]));
            }
            return None;
        };
        assert(is_hex_digit(c) && hex_digit_value(c) == digit);
        let ghost prev = hex.subrange(0, i as int);
        let ghost next = hex.subrange(0, i + 1);
        assert(next.drop_last() =~= prev);
        assert(next.last() == c);
        assert(pow16((i + 1) as nat) == 16 * pow16(i as nat));
        assert(pow16((i + 1) as nat) <= 0x10_0000_0000_0000) by {
            reveal_with_fuel(pow16, 14);
        }
        fraction = fraction * 16 + digit;
        i = i + 1;
    }
    assert(hex.subrange(0, 13) =~= hex);
    let scale_text = text.substring_ascii(s + 18, len);
    let scale: i128 = match parse_integer(scale_text) {
        Numeral::Integer(n) => n,
        _ => {
            assert forall|bits: u64|
                exponent_of(bits) != 0x7ff && #[trigger] float_text(bits) == t implies false by {
                lemma_float_text_shape(bits);
                law_integer_text_is_numeral(scale_of(bits));
                lemma_compose(bits);
            }
            return None;
        },
    };
    if scale < -1022 || scale > 1023 || (subnormal && scale != -1022) {
        assert forall|bits: u64|
            exponent_of(bits) != 0x7ff && #[trigger] float_text(bits) == t implies false by {
            lemma_float_text_shape(bits);
            law_integer_text_is_numeral(scale_of(bits));
            lemma_compose(bits);
        }
        return None;
    }
    let exponent: u64 = if subnormal {
        0
    } else {
        (scale + 1023) as u64
    };
    let top: u64 = if s == 1 {
        0x8000_0000_0000_0000
    } else {
        0
    };
    let bits: u64 = top + exponent * 0x10_0000_0000_0000 + fraction;
    assert forall|other: u64|
        exponent_of(other) != 0x7ff && #[trigger] float_text(other) == t implies other
        == bits by {
        lemma_float_text_shape(other);
        lemma_compose(other);
        lemma_pow16_13();
        lemma_hex_round_trip(fraction_of(other), 13);
        law_integer_text_is_numeral(scale_of(other));
        assert(sign_of(other) <==> s == 1);
        assert(fraction_of(other) == fraction);
        assert(scale_of(other) == scale);
        assert(exponent_of(other) == exponent);
    }
    Some(bits)
}

/// Reads a text as the numeral of a double: the double, where the text is
/// the numeral of one.
pub fn parse_float(text: &str) -> (r: Option<u64>)
    ensures
        match r {
            Some(bits) => is_canonical(bits) && float_text(bits) == text@,
            None => !is_float_numeral(text@),
        },
{
    let owned = text.to_string();
    let candidate = match read_hex_float(text) {
        Some(bits) => bits,
        None => CANONICAL_NAN,
    };
    let tries: [u64; 4] = [candidate, CANONICAL_NAN, INFINITY, NEGATIVE_INFINITY];
    let mut i: usize = 0;
    while i < 4
        invariant
            i <= 4,
            owned@ == text@,
            tries@.len() == 4,
            tries@[0] == candidate,
            tries@[1] == 0x7ff8_0000_0000_0000,
            tries@[2] == 0x7ff0_0000_0000_0000,
            tries@[3] == 0xfff0_0000_0000_0000,
            forall|k: int| 0 <= k < i ==> float_text(#[trigger] tries@[k]) != text@,
        decreases 4 - i,
    {
        let bits = tries[i];
        let exponent = (bits / 0x10_0000_0000_0000) % 0x800;
        let fraction = bits % 0x10_0000_0000_0000;
        let again = format_float(bits);
        if again == owned {
            if exponent != 0x7ff || fraction == 0 {
                return Some(bits);
            } else {
                assert(float_text(bits) == float_text(0x7ff8_0000_0000_0000u64));
                return Some(CANONICAL_NAN);
            }
        }
        i = i + 1;
    }
    assert forall|bits: u64| is_canonical(bits) && #[trigger] float_text(bits)
        == text@ implies false by {
        lemma_compose(bits);
        if exponent_of(bits) != 0x7ff {
            assert(bits == tries@[0]);
        } else if fraction_of(bits) != 0 {
            assert(bits == tries@[1]);
        } else if sign_of(bits) {
            assert(bits == tries@[3]);
        } else {
            assert(bits == tries@[2]);
        }
    }
    None
}

} // verus!
