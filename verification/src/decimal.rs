//! Non-negative fixed-point decimal values: parsing from decimal text and
//! the two conversion formulas of the pipeline (price divided by rate, and
//! the inverse of a rate), both truncating to two fractional digits.

use vstd::prelude::*;
use vstd::arithmetic::power::{
    pow, lemma_pow_adds, lemma_pow_increases, lemma_pow_positive, lemma_pow1,
};
use vstd::arithmetic::mul::{lemma_mul_basics, lemma_mul_inequality, lemma_mul_strictly_positive};
use vstd::string::StrSliceExecFns;
use crate::PriceError;

verus! {

/// `10^n`.
pub open spec fn pow10(n: nat) -> int {
    pow(10, n)
}

/// The number of fractional digits of every converted amount.
pub const OUT_SCALE: u32 = 2;

/// A non-negative fixed-point decimal, `mantissa / 10^scale`.
#[derive(Debug, PartialEq, Eq, Structural, Clone, Copy)]
pub struct Decimal {
    pub mantissa: u128,
    pub scale: u32,
}

impl Decimal {
    /// The decimal one, the identity exchange rate.
    pub fn one() -> (r: Decimal)
        ensures
            r == spec_one(),
    {
        Decimal { mantissa: 1, scale: 0 }
    }
}

pub open spec fn spec_one() -> Decimal {
    Decimal { mantissa: 1, scale: 0 }
}

pub open spec fn is_digit(c: char) -> bool {
    '0' <= c && c <= '9'
}

pub open spec fn digit_val(c: char) -> int {
    if c == '0' {
        0
    } else if c == '1' {
        1
    } else if c == '2' {
        2
    } else if c == '3' {
        3
    } else if c == '4' {
        4
    } else if c == '5' {
        5
    } else if c == '6' {
        6
    } else if c == '7' {
        7
    } else if c == '8' {
        8
    } else {
        9
    }
}

/// The state of reading decimal text left to right.
pub ghost struct ParseState {
    pub mantissa: int,
    pub scale: nat,
    pub seen_dot: bool,
    pub seen_digit: bool,
}

pub open spec fn parse_init() -> ParseState {
    ParseState { mantissa: 0, scale: 0, seen_dot: false, seen_digit: false }
}

/// One character of decimal text: a digit extends the mantissa (and the
/// scale, once the point was seen); a first `.` starts the fraction;
/// anything else is not decimal text.
pub open spec fn parse_step(st: ParseState, c: char) -> Option<ParseState> {
    if is_digit(c) {
        Some(
            (ParseState {
                mantissa: st.mantissa * 10 + digit_val(c),
                scale: if st.seen_dot {
                    st.scale + 1
                } else {
                    st.scale
                },
                seen_dot: st.seen_dot,
                seen_digit: true,
            }),
        )
    } else if c == '.' {
        if st.seen_dot {
            None
        } else {
            Some(
                (ParseState {
                    mantissa: st.mantissa,
                    scale: st.scale,
                    seen_dot: true,
                    seen_digit: st.seen_digit,
                }),
            )
        }
    } else {
        None
    }
}

pub open spec fn parse_chars(s: Seq<char>) -> Option<ParseState>
    decreases s.len(),
{
    if s.len() == 0 {
        Some(parse_init())
    } else {
        match parse_chars(s.drop_last()) {
            Some(st) => parse_step(st, s.last()),
            None => None,
        }
    }
}

/// Decimal text: digits with at most one point and at least one digit.
pub open spec fn is_dec_text(s: Seq<char>) -> bool {
    match parse_chars(s) {
        Some(st) => st.seen_digit,
        None => false,
    }
}

/// The digits of `s` read as an integer, the point ignored.
pub open spec fn dec_mantissa(s: Seq<char>) -> int {
    match parse_chars(s) {
        Some(st) => st.mantissa,
        None => 0,
    }
}

/// The number of digits after the point in `s`.
pub open spec fn dec_scale(s: Seq<char>) -> nat {
    match parse_chars(s) {
        Some(st) => st.scale,
        None => 0,
    }
}

proof fn lemma_parse_absorbs_none(s: Seq<char>, i: int)
    requires
        0 <= i <= s.len(),
        parse_chars(s.take(i)) is None,
    ensures
        parse_chars(s) is None,
    decreases s.len() - i,
{
    if i == s.len() {
        assert(s.take(i) =~= s);
    } else {
        assert(s.take(i + 1).drop_last() =~= s.take(i));
        lemma_parse_absorbs_none(s, i + 1);
    }
}

/// Parse decimal text into a decimal value.
///
/// Succeeds exactly on decimal text whose value is representable; text
/// that is not decimal text is a reported parse error, a value too large
/// for the machine an invalid-price error.
pub fn parse_decimal(s: &str) -> (r: Result<Decimal, PriceError>)
    ensures
        r is Ok <==> is_dec_text(s@) && dec_mantissa(s@) <= u128::MAX && dec_scale(s@)
            <= u32::MAX,
        r matches Ok(d) ==> d.mantissa == dec_mantissa(s@) && d.scale == dec_scale(s@),
        r matches Err(e) ==> (e == PriceError::ParsePriceError <==> !is_dec_text(s@)),
        r matches Err(e) ==> (e == PriceError::InvalidPrice <==> is_dec_text(s@) && (
        dec_mantissa(s@) > u128::MAX || dec_scale(s@) > u32::MAX)),
{
    let n = s.unicode_len();
    let mut i: usize = 0;
    let mut mant: u128 = 0;
    let mut overflow: bool = false;
    let mut scale_v: usize = 0;
    let mut seen_dot: bool = false;
    let mut seen_digit: bool = false;
    proof {
        assert(s@.take(0) =~= Seq::<char>::empty());
    }
    while i < n
        invariant
            0 <= i <= n,
            n == s@.len(),
            scale_v <= i,
            parse_chars(s@.take(i as int)) matches Some(st) && st.seen_dot == seen_dot
                && st.seen_digit == seen_digit && st.scale == scale_v && (!overflow
                ==> st.mantissa == mant) && (overflow ==> st.mantissa > u128::MAX),
        decreases n - i,
    {
        let c = s.get_char(i);
        let ghost st = parse_chars(s@.take(i as int))->Some_0;
        proof {
            assert(s@.take(i + 1).drop_last() =~= s@.take(i as int));
            assert(s@.take(i + 1).last() == s@[i as int]);
        }
        let u = c as u32;
        if 48 <= u && u <= 57 {
            proof {
                assert(is_digit(c));
            }
            let d: u128 = digit_value(c) as u128;
            if !overflow {
                let m1 = mant.checked_mul(10);
                match m1 {
                    Some(m10) => {
                        let m2 = m10.checked_add(d);
                        match m2 {
                            Some(m) => {
                                mant = m;
                            },
                            None => {
                                overflow = true;
                            },
                        }
                    },
                    None => {
                        proof {
                            assert(st.mantissa * 10 + digit_val(c) > u128::MAX);
                        }
                        overflow = true;
                    },
                }
            } else {
                proof {
                    lemma_mul_inequality(1, 10, st.mantissa);
                    assert(st.mantissa * 1 == st.mantissa) by {
                        lemma_mul_basics(st.mantissa);
                    }
                    assert(st.mantissa * 10 + digit_val(c) > u128::MAX);
                }
            }
            if seen_dot {
                scale_v = scale_v + 1;
            }
            seen_digit = true;
        } else if c == '.' {
            if seen_dot {
                proof {
                    lemma_parse_absorbs_none(s@, i + 1);
                }
                return Err(PriceError::ParsePriceError);
            }
            seen_dot = true;
        } else {
            proof {
                lemma_parse_absorbs_none(s@, i + 1);
            }
            return Err(PriceError::ParsePriceError);
        }
        i = i + 1;
    }
    proof {
        assert(s@.take(n as int) =~= s@);
    }
    if !seen_digit {
        Err(PriceError::ParsePriceError)
    } else if overflow {
        Err(PriceError::InvalidPrice)
    } else if scale_v > (u32::MAX as usize) {
        Err(PriceError::InvalidPrice)
    } else {
        Ok(Decimal { mantissa: mant, scale: scale_v as u32 })
    }
}

/// The numeric value of an ASCII digit.
fn digit_value(c: char) -> (r: u32)
    requires
        is_digit(c),
    ensures
        r == digit_val(c),
{
    if c == '0' {
        0
    } else if c == '1' {
        1
    } else if c == '2' {
        2
    } else if c == '3' {
        3
    } else if c == '4' {
        4
    } else if c == '5' {
        5
    } else if c == '6' {
        6
    } else if c == '7' {
        7
    } else if c == '8' {
        8
    } else {
        9
    }
}

/// `x * 10^n`, or `None` where that exceeds the machine bound.
fn mul_pow10(x: u128, n: u64) -> (r: Option<u128>)
    ensures
        r matches Some(v) ==> v == x * pow10(n as nat),
        r is None ==> x * pow10(n as nat) > u128::MAX,
{
    if x == 0 {
        proof {
            assert(0 * pow10(n as nat) == 0) by {
                lemma_mul_basics(pow10(n as nat));
            }
        }
        return Some(0);
    }
    let mut acc = x;
    let mut i: u64 = 0;
    proof {
        assert(pow10(0) == 1) by {
            vstd::arithmetic::power::lemma_pow0(10);
        }
        assert(x * 1 == x) by {
            lemma_mul_basics(x as int);
        }
    }
    while i < n
        invariant
            0 <= i <= n,
            acc == x * pow10(i as nat),
            acc >= 0,
        decreases n - i,
    {
        proof {
            assert(pow10((i + 1) as nat) == 10 * pow10(i as nat)) by {
                lemma_pow_adds(10, 1nat, i as nat);
                lemma_pow1(10);
            }
            assert(x * (10 * pow10(i as nat)) == (x * pow10(i as nat)) * 10) by (nonlinear_arith);
        }
        match acc.checked_mul(10) {
            Some(a) => {
                acc = a;
            },
            None => {
                proof {
                    lemma_pow_increases(10, (i + 1) as nat, n as nat);
                    assert(x * pow10(n as nat) >= x * pow10((i + 1) as nat)) by (nonlinear_arith)
                        requires
                            x >= 1,
                            pow10(n as nat) >= pow10((i + 1) as nat),
                    ;
                }
                return None;
            },
        }
        i = i + 1;
    }
    Some(acc)
}

/// The result mantissa, at [`OUT_SCALE`] fractional digits, of converting
/// `p` (a source-currency amount) with `r` (base units per source unit):
/// the floor of `(p / r) * 100`, defined where the rate is non-zero and
/// both intermediate products are machine-representable.
pub open spec fn spec_convert(p: Decimal, r: Decimal) -> Option<u128> {
    if r.mantissa == 0 {
        None
    } else {
        let num = p.mantissa * pow10((r.scale + OUT_SCALE) as nat);
        let den = r.mantissa * pow10(p.scale as nat);
        if num > u128::MAX || den > u128::MAX {
            None
        } else {
            Some((num / den) as u128)
        }
    }
}

/// Crypto-path conversion: `base_amount = price / rate`, truncated to two
/// fractional digits. A zero rate or an unrepresentable intermediate is
/// the invalid-price error; nothing else fails.
pub fn convert_price(price: &Decimal, rate: &Decimal) -> (res: Result<Decimal, PriceError>)
    ensures
        res is Ok <==> spec_convert(*price, *rate) is Some,
        res matches Ok(a) ==> a.mantissa == spec_convert(*price, *rate)->Some_0 && a.scale
            == OUT_SCALE,
        res matches Err(e) ==> e == PriceError::InvalidPrice,
{
    if rate.mantissa == 0 {
        return Err(PriceError::InvalidPrice);
    }
    let num = match mul_pow10(price.mantissa, rate.scale as u64 + 2) {
        Some(v) => v,
        None => {
            return Err(PriceError::InvalidPrice);
        },
    };
    let den = match mul_pow10(rate.mantissa, price.scale as u64) {
        Some(v) => v,
        None => {
            return Err(PriceError::InvalidPrice);
        },
    };
    proof {
        lemma_pow_positive(10, price.scale as nat);
        lemma_mul_strictly_positive(rate.mantissa as int, pow10(price.scale as nat));
    }
    Ok(Decimal { mantissa: num / den, scale: OUT_SCALE })
}

/// Fiat-path conversion: with `rate` meaning "1 base unit = `rate` target
/// units", the base amount of one target unit is `1 / rate`, truncated to
/// two fractional digits.
pub fn invert_rate(rate: &Decimal) -> (res: Result<Decimal, PriceError>)
    ensures
        res == convert_result(spec_one(), *rate),
        res is Ok <==> rate.mantissa != 0 && pow10((rate.scale + OUT_SCALE) as nat) <= u128::MAX,
        res matches Ok(a) ==> a.scale == OUT_SCALE && a.mantissa == pow10(
            (rate.scale + OUT_SCALE) as nat,
        ) / rate.mantissa as int,
{
    let one = Decimal::one();
    let res = convert_price(&one, rate);
    proof {
        lemma_mul_basics(pow10((rate.scale + OUT_SCALE) as nat));
        assert(pow10(0) == 1) by {
            vstd::arithmetic::power::lemma_pow0(10);
        }
        lemma_mul_basics(rate.mantissa as int);
        lemma_pow_positive(10, (rate.scale + OUT_SCALE) as nat);
        if rate.mantissa != 0 {
            vstd::arithmetic::div_mod::lemma_div_nonincreasing(
                pow10((rate.scale + OUT_SCALE) as nat),
                rate.mantissa as int,
            );
            vstd::arithmetic::div_mod::lemma_div_pos_is_pos(
                pow10((rate.scale + OUT_SCALE) as nat),
                rate.mantissa as int,
            );
        }
    }
    res
}

/// The conversion result as a whole: `Ok` exactly where [`spec_convert`]
/// is defined, the invalid-price error otherwise.
pub open spec fn convert_result(p: Decimal, r: Decimal) -> Result<Decimal, PriceError> {
    match spec_convert(p, r) {
        Some(m) => Ok(Decimal { mantissa: m, scale: OUT_SCALE }),
        None => Err(PriceError::InvalidPrice),
    }
}

} // verus!
