//! Temperatures as scaled integers: `-15.7` is held as `-157`.
use vstd::prelude::*;

verus! {

pub const MINUS: u8 = 45;

pub const DOT: u8 = 46;

pub const ZERO: u8 = 48;

pub const NINE: u8 = 57;

pub open spec fn is_digit(b: u8) -> bool {
    ZERO <= b <= NINE
}

pub open spec fn digit_value(b: u8) -> int {
    b - ZERO
}

/// The byte that writes the decimal digit `d`.
pub open spec fn digit_byte(d: int) -> u8 {
    (d + ZERO) as u8
}

/// One or two digits, a dot, and one digit.
pub open spec fn valid_magnitude(s: Seq<u8>) -> bool {
    ||| s.len() == 3 && is_digit(s[0]) && s[1] == DOT && is_digit(s[2])
    ||| s.len() == 4 && is_digit(s[0]) && is_digit(s[1]) && s[2] == DOT && is_digit(s[3])
}

/// The value of a magnitude in tenths.
pub open spec fn magnitude_value(s: Seq<u8>) -> int {
    if s.len() == 3 {
        10 * digit_value(s[0]) + digit_value(s[2])
    } else {
        100 * digit_value(s[0]) + 10 * digit_value(s[1]) + digit_value(s[3])
    }
}

pub open spec fn has_sign(s: Seq<u8>) -> bool {
    s.len() > 0 && s[0] == MINUS
}

pub open spec fn unsigned_part(s: Seq<u8>) -> Seq<u8> {
    if has_sign(s) {
        s.drop_first()
    } else {
        s
    }
}

/// A temperature as the input writes it: `-?[0-9]{1,2}\.[0-9]`.
pub open spec fn valid_temperature(s: Seq<u8>) -> bool {
    valid_magnitude(unsigned_part(s))
}

/// The value of a temperature in tenths of a degree.
pub open spec fn temperature_value(s: Seq<u8>) -> int {
    if has_sign(s) {
        -magnitude_value(unsigned_part(s))
    } else {
        magnitude_value(unsigned_part(s))
    }
}

pub open spec fn abs(x: int) -> int {
    if x < 0 {
        -x
    } else {
        x
    }
}

/// A value in tenths written with one digit after the dot: `-157` is `-15.7`.
/// Meant for `-999 <= t <= 999`.
pub open spec fn tenths_text(t: int) -> Seq<u8> {
    let m = abs(t);
    let whole = m / 10;
    let sign = if t < 0 {
        seq![MINUS]
    } else {
        Seq::<u8>::empty()
    };
    let digits = if whole >= 10 {
        seq![digit_byte(whole / 10), digit_byte(whole % 10)]
    } else {
        seq![digit_byte(whole)]
    };
    sign + digits + seq![DOT, digit_byte(m % 10)]
}

/// The digits of `s` read as one decimal number, dots skipped.
spec fn digits_value(s: Seq<u8>) -> int
    decreases s.len(),
{
    if s.len() == 0 {
        0
    } else if s.last() == DOT {
        digits_value(s.drop_last())
    } else {
        10 * digits_value(s.drop_last()) + digit_value(s.last())
    }
}

proof fn lemma_digits_prefix(s: Seq<u8>, i: int)
    requires
        valid_magnitude(s),
        0 <= i <= s.len(),
    ensures
        0 <= digits_value(s.take(i)) <= if i < s.len() { 99int } else { 999int },
        i == s.len() ==> digits_value(s.take(i)) == magnitude_value(s),
{
    let t0 = s.take(0);
    let t1 = s.take(1);
    let t2 = s.take(2);
    let t3 = s.take(3);
    assert(t1.drop_last() =~= t0);
    assert(t2.drop_last() =~= t1);
    assert(t3.drop_last() =~= t2);
    assert(digits_value(t0) == 0);
    assert(digits_value(t1) == digit_value(s[0]));
    if s.len() == 3 {
        assert(digits_value(t2) == digit_value(s[0]));
        assert(digits_value(t3) == 10 * digit_value(s[0]) + digit_value(s[2]));
    } else {
        let t4 = s.take(4);
        assert(t4.drop_last() =~= t3);
        assert(digits_value(t2) == 10 * digit_value(s[0]) + digit_value(s[1]));
        assert(digits_value(t3) == digits_value(t2));
        assert(digits_value(t4) == 10 * digits_value(t3) + digit_value(s[3]));
    }
    assert(s.take(s.len() as int) =~= s);
}

/// Reads a temperature such as `-15.7` as the scaled integer `-157`.
pub fn fast_f32_parse_encoded(input: &[u8]) -> (r: i16)
    requires
        valid_temperature(input@),
    ensures
        r == temperature_value(input@),
        -999 <= r <= 999,
{
    let mut bytes = input;
    let negative = bytes[0] == MINUS;
    if negative {
        // Only parse digits.
        bytes = &bytes[1..bytes.len()];
    }
    assert(bytes@ == unsigned_part(input@));

    let mut val: i16 = 0;
    let mut i: usize = 0;
    while i < bytes.len()
        invariant
            i <= bytes@.len(),
            valid_magnitude(bytes@),
            val == digits_value(bytes@.take(i as int)),
        decreases bytes@.len() - i,
    {
        proof {
            lemma_digits_prefix(bytes@, i as int);
            assert(bytes@.take(i + 1).drop_last() =~= bytes@.take(i as int));
        }
        let byte = bytes[i];
        if byte != DOT {
            assert(is_digit(byte)) by {
                assert(bytes@[i as int] == byte);
            }
            let digit = (byte - ZERO) as i16;
            val = val * 10 + digit;
        }
        i = i + 1;
    }
    proof {
        lemma_digits_prefix(bytes@, i as int);
    }
    if negative {
        -val
    } else {
        val
    }
}

/// Appends `t` tenths as text with one digit after the dot.
pub fn push_tenths(out: &mut Vec<u8>, t: i64)
    requires
        -999 <= t <= 999,
    ensures
        final(out)@ == old(out)@ + tenths_text(t as int),
{
    let m: i64 = if t < 0 {
        -t
    } else {
        t
    };
    let whole: i64 = m / 10;
    if t < 0 {
        out.push(MINUS);
    }
    if whole >= 10 {
        out.push(((whole / 10) as u8) + ZERO);
    }
    out.push(((whole % 10) as u8) + ZERO);
    out.push(DOT);
    out.push(((m % 10) as u8) + ZERO);
    assert(out@ =~= old(out)@ + tenths_text(t as int));
}

/// Writing a temperature and reading it back gives the same value.
pub proof fn lemma_codec_round_trip(t: int)
    requires
        -999 <= t <= 999,
    ensures
        valid_temperature(tenths_text(t)),
        temperature_value(tenths_text(t)) == t,
{
    let m = abs(t);
    let whole = m / 10;
    let s = tenths_text(t);
    let digits = if whole >= 10 {
        seq![digit_byte(whole / 10), digit_byte(whole % 10)]
    } else {
        seq![digit_byte(whole)]
    };
    let rest = digits + seq![DOT, digit_byte(m % 10)];
    if t < 0 {
        assert(s =~= seq![MINUS] + rest);
        assert(s.drop_first() =~= rest);
    } else {
        assert(s =~= rest);
        assert(rest[0] != MINUS);
    }
    assert(unsigned_part(s) =~= rest);
}

} // verus!
