//! Decimal numbers as text: what callers send and what they get back.

use crate::amount::{
    lemma_from_units, lemma_units_bounded, pow10, pow10_exec, strip_zeros, whole_limit, Amount,
    Total, FRAC_DIGITS, MANTISSA_LIMIT,
};
use vstd::string::StringExecFns;
use vstd::prelude::*;

verus! {

/// The decimal that `text` denotes, as a signed mantissa and a scale, or
/// nothing where `text` denotes none.
pub uninterp spec fn decimal_parse(text: Seq<char>) -> Option<(i128, u32)>;

/// Parses `text` as a decimal number.
///
/// Calls `rust_decimal::Decimal::from_str` and hands out the mantissa and
/// the scale of what it returns.  The contract names the result, and
/// claims of it what every `Decimal` obeys: a scale of at most 28 and a
/// mantissa of at most 96 bits.
#[verifier::external_body]
fn parse_decimal(text: &str) -> (r: Option<(i128, u32)>)
    ensures
        r == decimal_parse(text@),
        r matches Some((m, s)) ==> s <= FRAC_DIGITS && -MANTISSA_LIMIT < m < MANTISSA_LIMIT,
{
    match text.parse::<rust_decimal::Decimal>() {
        Ok(d) => Some((d.mantissa(), d.scale())),
        Err(_) => None,
    }
}

/// The sign, the magnitude and the scale of a parsed decimal: whether it is
/// below zero, the amount that its absolute value comes to, and the number
/// of digits after its point.
pub open spec fn signed_amount(parsed: (i128, u32)) -> (bool, Amount, u32) {
    let (m, s) = parsed;
    let magnitude = if m < 0 {
        -m
    } else {
        m as int
    };
    (m < 0, Amount::from_units((magnitude * pow10((FRAC_DIGITS - s) as nat)) as nat), s)
}

/// The sign, the magnitude and the scale of the decimal with the given
/// mantissa and scale, where the scale is at most 28 and the mantissa is
/// not the least `i128`.
pub fn amount_of_decimal(mantissa: i128, scale: u32) -> (r: Option<(bool, Amount, u32)>)
    ensures
        r is Some <==> scale <= FRAC_DIGITS && mantissa > i128::MIN,
        r matches Some(signed) ==> signed == signed_amount((mantissa, scale)) && signed.1.wf(),
{
    if mantissa == i128::MIN {
        return None;
    }
    let negative = mantissa < 0;
    let magnitude: u128 = if negative {
        (-mantissa) as u128
    } else {
        mantissa as u128
    };
    match Amount::from_decimal(magnitude, scale) {
        None => None,
        Some(amount) => {
            proof {
                lemma_units_bounded(amount);
                lemma_from_units(amount.units());
            }
            Some((negative, amount, scale))
        },
    }
}

/// Parses `text` as a decimal number, as its sign, its magnitude and its
/// scale.
pub fn parse_amount(text: &str) -> (r: Option<(bool, Amount, u32)>)
    ensures
        r == (match decimal_parse(text@) {
            Some(parsed) => Some(signed_amount(parsed)),
            None => None,
        }),
        r matches Some(signed) ==> signed.1.wf(),
{
    match parse_decimal(text) {
        None => None,
        Some((mantissa, scale)) => amount_of_decimal(mantissa, scale),
    }
}

/// The character of a decimal digit.
pub open spec fn digit(d: nat) -> char {
    if d == 0 {
        '0'
    } else if d == 1 {
        '1'
    } else if d == 2 {
        '2'
    } else if d == 3 {
        '3'
    } else if d == 4 {
        '4'
    } else if d == 5 {
        '5'
    } else if d == 6 {
        '6'
    } else if d == 7 {
        '7'
    } else if d == 8 {
        '8'
    } else {
        '9'
    }
}

/// The decimal digits of `n`, the last digit first, with zeros after the
/// first digit where there are fewer than `width`.
pub open spec fn digits_reversed(n: nat, width: nat) -> Seq<char>
    decreases n, width,
{
    if n < 10 && width <= 1 {
        seq![digit(n)]
    } else {
        seq![digit(n % 10)] + digits_reversed(
            n / 10,
            if width > 0 {
                (width - 1) as nat
            } else {
                0
            },
        )
    }
}

/// The decimal digits of `n`, with zeros in front where there are fewer
/// than `width`.
pub open spec fn digits(n: nat, width: nat) -> Seq<char> {
    digits_reversed(n, width).reverse()
}

/// The number of digits that a decimal with the fraction `frac / 10^28` is
/// written with after the point: as many as the fraction needs, and at
/// least `scale`, but no more than 28.
pub open spec fn shown_scale(frac: nat, scale: nat) -> nat {
    let least = strip_zeros(frac, FRAC_DIGITS as nat).1;
    if scale >= FRAC_DIGITS {
        FRAC_DIGITS as nat
    } else if scale > least {
        scale
    } else {
        least
    }
}

/// The text of the decimal `whole + frac / 10^28` with a sign: a minus sign
/// where it is negative, the digits of the whole part, and where digits
/// are shown after the point, the point and those digits.
pub open spec fn decimal_text(negative: bool, whole: nat, frac: nat, scale: nat) -> Seq<char> {
    let shown = shown_scale(frac, scale);
    let sign = if negative {
        seq!['-']
    } else {
        Seq::<char>::empty()
    };
    if shown == 0 {
        sign + digits(whole, 1)
    } else {
        sign + digits(whole, 1) + seq!['.'] + digits(
            frac / pow10((FRAC_DIGITS - shown) as nat),
            shown,
        )
    }
}

/// The text of an amount with a sign, with at least `scale` digits after
/// the point.
pub open spec fn amount_text(negative: bool, amount: Amount, scale: nat) -> Seq<char> {
    decimal_text(negative, amount.whole as nat, amount.frac as nat, scale)
}

/// The text of a total, with at least `scale` digits after the point.
pub open spec fn total_text(total: Total, scale: nat) -> Seq<char> {
    decimal_text(false, total.whole(), total.low.frac as nat, scale)
}

/// The text of one decimal digit.
fn digit_str(d: u8) -> (s: &'static str)
    requires
        d < 10,
    ensures
        s@ == seq![digit(d as nat)],
{
    proof {
        reveal_strlit("0");
        reveal_strlit("1");
        reveal_strlit("2");
        reveal_strlit("3");
        reveal_strlit("4");
        reveal_strlit("5");
        reveal_strlit("6");
        reveal_strlit("7");
        reveal_strlit("8");
        reveal_strlit("9");
    }
    let s = match d {
        0 => "0",
        1 => "1",
        2 => "2",
        3 => "3",
        4 => "4",
        5 => "5",
        6 => "6",
        7 => "7",
        8 => "8",
        _ => "9",
    };
    assert(s@ =~= seq![digit(d as nat)]);
    s
}

/// The characters of a sequence of digits.
spec fn digit_chars(values: Seq<u8>) -> Seq<char> {
    Seq::new(values.len(), |i: int| digit(values[i] as nat))
}

/// The number whose part beyond 128 bits is `high`, in multiples of
/// `2^128`, and whose rest is `low`.
pub open spec fn wide(high: u64, low: u128) -> nat {
    (high * whole_limit() + low) as nat
}

/// A number of 192 bits divided by ten: the quotient, as its part beyond
/// 128 bits and the rest of it, and the remainder.
fn divide_by_ten(high: u64, low: u128) -> (r: (u64, u128, u8))
    ensures
        wide(r.0, r.1) == wide(high, low) / 10,
        r.2 == wide(high, low) % 10,
{
    let half: u128 = 0x1_0000_0000_0000_0000;
    let top = high / 10;
    let top_rest = (high % 10) as u128;
    let middle = top_rest * half + low / half;
    let middle_rest = middle % 10;
    let bottom = middle_rest * half + low % half;
    let quotient = (middle / 10) * half + bottom / 10;
    let rest = (bottom % 10) as u8;
    proof {
        let n = high * whole_limit() + low;
        let q = top * whole_limit() + quotient;
        assert(whole_limit() == 0x1_0000_0000_0000_0000 * 0x1_0000_0000_0000_0000);
        assert(n == q * 10 + rest) by (nonlinear_arith)
            requires
                n == high * (half * half) + low,
                q == top * (half * half) + quotient,
                half == 0x1_0000_0000_0000_0000,
                high == 10 * top + top_rest,
                low == (low / half) * half + low % half,
                middle == top_rest * half + low / half,
                middle == 10 * (middle / 10) + middle_rest,
                bottom == middle_rest * half + low % half,
                bottom == 10 * (bottom / 10) + rest,
                quotient == (middle / 10) * half + bottom / 10,
        ;
        vstd::arithmetic::div_mod::lemma_fundamental_div_mod_converse(
            n as int,
            10,
            q as int,
            rest as int,
        );
    }
    (top, quotient, rest)
}

/// Appends to `out` the digits of the number whose part beyond 128 bits is
/// `high` and whose rest is `low`, with zeros in front where there are
/// fewer than `width`.
fn append_digits(out: &mut String, high: u64, low: u128, width: u32)
    ensures
        final(out)@ == old(out)@ + digits(wide(high, low), width as nat),
{
    let ghost base = out@;
    let ghost n = wide(high, low);
    let mut rev: Vec<u8> = Vec::new();
    let mut h: u64 = high;
    let mut m: u128 = low;
    let mut w: u32 = width;
    while !(h == 0 && m < 10 && w <= 1)
        invariant
            forall|i: int| 0 <= i < rev@.len() ==> rev@[i] < 10,
            digit_chars(rev@) + digits_reversed(wide(h, m), w as nat) =~= digits_reversed(
                n,
                width as nat,
            ),
            out@ == base,
        decreases wide(h, m), w,
    {
        let ghost before = digit_chars(rev@);
        let ghost x = wide(h, m);
        let step = divide_by_ten(h, m);
        rev.push(step.2);
        proof {
            assert(whole_limit() == 0x1_0000_0000_0000_0000 * 0x1_0000_0000_0000_0000);
            assert(h >= 1 ==> x >= whole_limit()) by (nonlinear_arith)
                requires
                    x == h * whole_limit() + m,
            ;
            assert(!(x < 10 && w <= 1));
            assert(digits_reversed(x, w as nat) == seq![digit(x % 10)] + digits_reversed(
                x / 10,
                if w > 0 {
                    (w - 1) as nat
                } else {
                    0
                },
            ));
            assert(digit_chars(rev@) =~= before + seq![digit(step.2 as nat)]);
        }
        h = step.0;
        m = step.1;
        if w > 0 {
            w = w - 1;
        }
    }
    let ghost before = digit_chars(rev@);
    rev.push(m as u8);
    proof {
        assert(wide(h, m) == m);
        assert(digit_chars(rev@) =~= before + seq![digit(m as nat)]);
        assert(digit_chars(rev@) =~= digits_reversed(n, width as nat));
    }
    let len = rev.len();
    let mut k: usize = 0;
    while k < len
        invariant
            k <= len,
            len == rev@.len(),
            forall|i: int| 0 <= i < rev@.len() ==> rev@[i] < 10,
            out@ =~= base + Seq::new(k as nat, |i: int| digit(rev@[len - 1 - i] as nat)),
        decreases len - k,
    {
        out.append(digit_str(rev[len - 1 - k]));
        k = k + 1;
        proof {
            assert(out@ =~= base + Seq::new(k as nat, |i: int| digit(rev@[len - 1 - i] as nat)));
        }
    }
    proof {
        assert(Seq::new(len as nat, |i: int| digit(rev@[len - 1 - i] as nat)) =~= digit_chars(
            rev@,
        ).reverse());
    }
}

/// Writes the decimal `high * 2^128 + low + frac / 10^28` with a sign as
/// text, with at least `scale` digits after the point.
fn write_decimal(negative: bool, high: u64, low: u128, frac: &Amount, scale: u32) -> (r: String)
    requires
        frac.wf(),
    ensures
        r@ == decimal_text(negative, wide(high, low), frac.frac as nat, scale as nat),
{
    let least = frac.least_scale();
    let shown: u32 = if scale >= FRAC_DIGITS {
        FRAC_DIGITS
    } else if scale > least {
        scale
    } else {
        least
    };
    let mut out = String::new();
    if negative {
        proof {
            reveal_strlit("-");
        }
        out.append("-");
        assert(out@ =~= seq!['-']);
    }
    let ghost sign = out@;
    append_digits(&mut out, high, low, 1);
    if shown > 0 {
        proof {
            reveal_strlit(".");
        }
        out.append(".");
        let ghost head = out@;
        assert(head =~= sign + digits(wide(high, low), 1) + seq!['.']);
        append_digits(&mut out, 0, frac.frac / pow10_exec(FRAC_DIGITS - shown), shown);
    }
    out
}

/// Writes an amount with a sign as text, with at least `scale` digits
/// after the point.
pub fn amount_to_string(negative: bool, amount: &Amount, scale: u32) -> (r: String)
    requires
        amount.wf(),
    ensures
        r@ == amount_text(negative, *amount, scale as nat),
{
    write_decimal(negative, 0, amount.whole, amount, scale)
}

/// Writes a total as text, with at least `scale` digits after the point.
pub fn total_to_string(total: &Total, scale: u32) -> (r: String)
    requires
        total.wf(),
    ensures
        r@ == total_text(*total, scale as nat),
{
    write_decimal(false, total.high, total.low.whole, &total.low, scale)
}

} // verus!
