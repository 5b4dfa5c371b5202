//! Exact unsigned decimal numbers for prices and quantities.

use vstd::prelude::*;

verus! {

/// Number of fractional decimal digits that an [`Amount`] keeps.
pub const FRAC_DIGITS: u32 = 28;

/// `10^28`: the number of smallest units that make up one.
pub const FRAC_LIMIT: u128 = 10_000_000_000_000_000_000_000_000_000;

/// First mantissa that a 96-bit decimal cannot hold: `2^96`.
pub const MANTISSA_LIMIT: u128 = 79_228_162_514_264_337_593_543_950_336;

/// Powers of ten.
pub open spec fn pow10(n: nat) -> nat
    decreases n,
{
    if n == 0 {
        1
    } else {
        10 * pow10((n - 1) as nat)
    }
}

/// `10^(a+b) == 10^a * 10^b`.
pub proof fn lemma_pow10_add(a: nat, b: nat)
    ensures
        pow10(a + b) == pow10(a) * pow10(b),
    decreases a,
{
    if a == 0 {
        assert(pow10(0) == 1);
        assert(pow10(0 + b) == 1 * pow10(b));
    } else {
        lemma_pow10_add((a - 1) as nat, b);
        assert(pow10(a + b) == 10 * pow10((a + b - 1) as nat));
        assert((a + b - 1) as nat == (a - 1) as nat + b);
        assert(10 * (pow10((a - 1) as nat) * pow10(b)) == (10 * pow10((a - 1) as nat)) * pow10(b))
            by (nonlinear_arith);
    }
}

/// Powers of ten are positive and grow with the exponent.
pub proof fn lemma_pow10_monotonic(a: nat, b: nat)
    requires
        a <= b,
    ensures
        0 < pow10(a) <= pow10(b),
    decreases b,
{
    if b == 0 {
    } else if a == b {
        lemma_pow10_monotonic((a - 1) as nat, (b - 1) as nat);
    } else {
        lemma_pow10_monotonic(a, (b - 1) as nat);
    }
}

/// The value of `10^28`.
pub proof fn lemma_pow10_frac_digits()
    ensures
        pow10(28) == FRAC_LIMIT,
{
    reveal_with_fuel(pow10, 30);
}

/// A number of fractional digits without its trailing zeros: the digits
/// that are left, and how many of them there are.
pub open spec fn strip_zeros(digits: nat, scale: nat) -> (nat, nat)
    decreases scale,
{
    if scale == 0 || digits % 10 != 0 {
        (digits, scale)
    } else {
        strip_zeros(digits / 10, (scale - 1) as nat)
    }
}

/// `10^k` as a machine integer.
pub fn pow10_exec(k: u32) -> (r: u128)
    requires
        k <= 28,
    ensures
        r == pow10(k as nat),
        0 < r <= FRAC_LIMIT,
{
    let mut r: u128 = 1;
    let mut i: u32 = 0;
    proof {
        lemma_pow10_frac_digits();
    }
    while i < k
        invariant
            i <= k <= 28,
            r == pow10(i as nat),
            pow10(28) == FRAC_LIMIT,
        decreases k - i,
    {
        proof {
            lemma_pow10_monotonic((i + 1) as nat, 28);
        }
        r = r * 10;
        i = i + 1;
    }
    proof {
        lemma_pow10_monotonic(k as nat, 28);
    }
    r
}

/// An unsigned decimal with 28 fractional digits: `whole + frac / 10^28`.
///
/// Two well-formed amounts are equal exactly when their values are.
#[derive(Clone, Copy, Debug, PartialEq, Eq, Structural)]
pub struct Amount {
    pub whole: u128,
    pub frac: u128,
}

impl Amount {
    /// The fractional part is a proper fraction.
    pub open spec fn wf(self) -> bool {
        self.frac < FRAC_LIMIT
    }

    /// The value, counted in units of `10^-28`.
    pub open spec fn units(self) -> nat {
        (self.whole * FRAC_LIMIT + self.frac) as nat
    }

    /// The amount zero.
    pub fn zero() -> (r: Amount)
        ensures
            r.wf(),
            r.units() == 0,
            r == (Amount { whole: 0, frac: 0 }),
    {
        Amount { whole: 0, frac: 0 }
    }

    /// The amount `whole + frac / 10^28`, if `frac` is a proper fraction.
    pub fn new(whole: u128, frac: u128) -> (r: Option<Amount>)
        ensures
            r is Some <==> frac < FRAC_LIMIT,
            r is Some ==> r->0 == (Amount { whole, frac }),
    {
        if frac < FRAC_LIMIT {
            Some(Amount { whole, frac })
        } else {
            None
        }
    }

    /// The amount `mantissa / 10^scale`, for a scale of at most 28.
    pub fn from_decimal(mantissa: u128, scale: u32) -> (r: Option<Amount>)
        ensures
            r is Some <==> scale <= FRAC_DIGITS,
            r is Some ==> r->0.wf() && r->0.units() == mantissa * pow10((FRAC_DIGITS - scale) as nat),
    {
        if scale > FRAC_DIGITS {
            return None;
        }
        let unit = pow10_exec(scale);
        let lift = pow10_exec(FRAC_DIGITS - scale);
        let whole = mantissa / unit;
        let rest = mantissa % unit;
        proof {
            lemma_pow10_add(scale as nat, (FRAC_DIGITS - scale) as nat);
            lemma_pow10_frac_digits();
            assert(unit * lift == FRAC_LIMIT);
            assert(rest * lift < FRAC_LIMIT && rest * lift >= 0) by (nonlinear_arith)
                requires
                    0 <= rest < unit,
                    unit * lift == FRAC_LIMIT,
                    lift > 0,
            ;
            assert(mantissa == whole * unit + rest) by (nonlinear_arith)
                requires
                    whole == mantissa / unit,
                    rest == mantissa % unit,
                    unit > 0,
            ;
            assert(mantissa * lift == whole * FRAC_LIMIT + rest * lift) by (nonlinear_arith)
                requires
                    mantissa == whole * unit + rest,
                    unit * lift == FRAC_LIMIT,
            ;
        }
        Some(Amount { whole, frac: rest * lift })
    }

    /// The number of digits after the point in the shortest decimal that
    /// has this value.
    pub open spec fn fraction_scale(self) -> nat {
        strip_zeros(self.frac as nat, FRAC_DIGITS as nat).1
    }

    /// The number of digits after the point in the shortest decimal that
    /// has this value.
    pub fn least_scale(&self) -> (s: u32)
        requires
            self.wf(),
        ensures
            s == self.fraction_scale(),
            s <= FRAC_DIGITS,
    {
        let mut d: u128 = self.frac;
        let mut s: u32 = FRAC_DIGITS;
        while s > 0 && d % 10 == 0
            invariant
                s <= 28,
                strip_zeros(d as nat, s as nat) == strip_zeros(self.frac as nat, 28),
            decreases s,
        {
            d = d / 10;
            s = s - 1;
        }
        s
    }

    /// Whether the value is zero.
    pub fn is_zero(&self) -> (r: bool)
        ensures
            r == (self.units() == 0),
    {
        self.whole == 0 && self.frac == 0
    }

    /// Whether `self` is strictly less than `other`.
    pub fn lt(&self, other: &Amount) -> (r: bool)
        requires
            self.wf(),
            other.wf(),
        ensures
            r == (self.units() < other.units()),
    {
        self.whole < other.whole || (self.whole == other.whole && self.frac < other.frac)
    }

    /// Whether `self` is at most `other`.
    pub fn le(&self, other: &Amount) -> (r: bool)
        requires
            self.wf(),
            other.wf(),
        ensures
            r == (self.units() <= other.units()),
    {
        self.whole < other.whole || (self.whole == other.whole && self.frac <= other.frac)
    }

    /// The well-formed amount of `n` units, for `n` below [`amount_limit`].
    pub open spec fn from_units(n: nat) -> Amount {
        Amount { whole: (n / (FRAC_LIMIT as nat)) as u128, frac: (n % (FRAC_LIMIT as nat)) as u128 }
    }

    /// The exact difference `self - other`.
    pub fn minus(&self, other: &Amount) -> (r: Amount)
        requires
            self.wf(),
            other.wf(),
            other.units() <= self.units(),
        ensures
            r.wf(),
            r.units() == self.units() - other.units(),
            r == Amount::from_units((self.units() - other.units()) as nat),
    {
        proof {
            lemma_from_units((self.units() - other.units()) as nat);
        }
        if self.frac >= other.frac {
            Amount { whole: self.whole - other.whole, frac: self.frac - other.frac }
        } else {
            Amount { whole: self.whole - other.whole - 1, frac: FRAC_LIMIT - other.frac + self.frac }
        }
    }

    /// The exact sum `self + other`.
    pub fn plus(&self, other: &Amount) -> (r: Amount)
        requires
            self.wf(),
            other.wf(),
            self.units() + other.units() < amount_limit(),
        ensures
            r.wf(),
            r.units() == self.units() + other.units(),
    {
        let frac_sum = self.frac + other.frac;
        if frac_sum >= FRAC_LIMIT {
            Amount { whole: self.whole + other.whole + 1, frac: frac_sum - FRAC_LIMIT }
        } else {
            Amount { whole: self.whole + other.whole, frac: frac_sum }
        }
    }
}

/// One more than the largest number of units that an [`Amount`] can hold.
pub open spec fn amount_limit() -> nat {
    (0x1_0000_0000_0000_0000_0000_0000_0000_0000 * FRAC_LIMIT) as nat
}

/// `Amount::from_units` gives the one well-formed amount of that many units.
pub proof fn lemma_from_units(n: nat)
    requires
        n < amount_limit(),
    ensures
        Amount::from_units(n).wf(),
        Amount::from_units(n).units() == n,
        forall|a: Amount| a.wf() && a.units() == n ==> a == Amount::from_units(n),
{
    let k = FRAC_LIMIT as nat;
    assert(n == k * (n / k) + n % k) by (nonlinear_arith)
        requires
            k > 0,
    ;
    assert(n / k < 0x1_0000_0000_0000_0000_0000_0000_0000_0000) by (nonlinear_arith)
        requires
            k > 0,
            n < 0x1_0000_0000_0000_0000_0000_0000_0000_0000 * k,
    ;
    assert(0 <= n % k < k) by (nonlinear_arith)
        requires
            k > 0,
    ;
    assert forall|a: Amount| a.wf() && a.units() == n implies a == Amount::from_units(n) by {
        lemma_units_injective(a, Amount::from_units(n));
    }
}

/// Every amount holds fewer than [`amount_limit`] units.
pub proof fn lemma_units_bounded(a: Amount)
    requires
        a.wf(),
    ensures
        a.units() < amount_limit(),
{
}

/// Well-formed amounts with the same value are the same amount.
pub proof fn lemma_units_injective(a: Amount, b: Amount)
    requires
        a.wf(),
        b.wf(),
        a.units() == b.units(),
    ensures
        a == b,
{
}

/// `2^128`: the number of values of the whole part of an [`Amount`].
pub open spec fn whole_limit() -> nat {
    (0x1_0000_0000_0000_0000 * 0x1_0000_0000_0000_0000) as nat
}

/// A sum of amounts: an unsigned decimal with 28 fractional digits whose
/// whole part has 192 bits, which holds the sum of as many amounts as a
/// machine can keep.
#[derive(Clone, Copy, Debug, PartialEq, Eq, Structural)]
pub struct Total {
    /// The part of the whole that is beyond 128 bits, in multiples of `2^128`.
    pub high: u64,
    pub low: Amount,
}

impl Total {
    /// The low part is a well-formed amount.
    pub open spec fn wf(self) -> bool {
        self.low.wf()
    }

    /// The whole part.
    pub open spec fn whole(self) -> nat {
        (self.high * whole_limit() + self.low.whole) as nat
    }

    /// The value, counted in units of `10^-28`.
    pub open spec fn units(self) -> nat {
        (self.high * amount_limit() + self.low.units()) as nat
    }

    /// The total zero.
    pub fn zero() -> (r: Total)
        ensures
            r.wf(),
            r.units() == 0,
    {
        Total { high: 0, low: Amount { whole: 0, frac: 0 } }
    }

    /// The total that one amount comes to.
    pub fn of(amount: Amount) -> (r: Total)
        ensures
            r == (Total { high: 0, low: amount }),
            r.units() == amount.units(),
    {
        Total { high: 0, low: amount }
    }

    /// The total as an amount, where its whole part fits in 128 bits.
    pub fn to_amount(&self) -> (r: Option<Amount>)
        ensures
            r == (if self.high == 0 {
                Some(self.low)
            } else {
                None
            }),
    {
        if self.high == 0 {
            Some(self.low)
        } else {
            None
        }
    }

    /// The exact sum of the total and an amount.
    pub fn plus(&self, amount: &Amount) -> (r: Total)
        requires
            self.wf(),
            amount.wf(),
            self.units() + amount.units() < 0x1_0000_0000_0000_0000 * amount_limit(),
        ensures
            r.wf(),
            r.units() == self.units() + amount.units(),
    {
        let frac_sum = self.low.frac + amount.frac;
        let (carry, frac): (u128, u128) = if frac_sum >= FRAC_LIMIT {
            (1, frac_sum - FRAC_LIMIT)
        } else {
            (0, frac_sum)
        };
        let (whole, over): (u128, u64) = match self.low.whole.checked_add(amount.whole) {
            Some(sum) => match sum.checked_add(carry) {
                Some(sum) => (sum, 0),
                None => (0, 1),
            },
            None => (self.low.whole - (u128::MAX - amount.whole) - 1 + carry, 1),
        };
        proof {
            let l = amount_limit();
            assert(l == 0x1_0000_0000_0000_0000_0000_0000_0000_0000
                * 10_000_000_000_000_000_000_000_000_000);
            assert(whole * FRAC_LIMIT + frac + over * l == self.low.units() + amount.units());
            assert(self.high + over < 0x1_0000_0000_0000_0000) by (nonlinear_arith)
                requires
                    self.high * l + (whole * FRAC_LIMIT + frac + over * l) < 0x1_0000_0000_0000_0000
                        * l,
                    l > 0,
                    over <= 1,
            ;
            assert((self.high + over) * l == self.high * l + over * l) by (nonlinear_arith);
        }
        Total { high: self.high + over, low: Amount { whole, frac } }
    }

    /// The exact difference of the total and an amount.
    pub fn minus(&self, amount: &Amount) -> (r: Total)
        requires
            self.wf(),
            amount.wf(),
            amount.units() <= self.units(),
        ensures
            r.wf(),
            r.units() == self.units() - amount.units(),
    {
        if amount.le(&self.low) {
            Total { high: self.high, low: self.low.minus(amount) }
        } else {
            let d = amount.minus(&self.low);
            let low = if d.frac == 0 {
                Amount { whole: u128::MAX - d.whole + 1, frac: 0 }
            } else {
                Amount { whole: u128::MAX - d.whole, frac: FRAC_LIMIT - d.frac }
            };
            proof {
                let l = amount_limit();
                assert(l == 0x1_0000_0000_0000_0000_0000_0000_0000_0000
                    * 10_000_000_000_000_000_000_000_000_000);
                assert(low.units() == l - d.units());
                assert(self.high >= 1) by (nonlinear_arith)
                    requires
                        self.high * l + self.low.units() >= amount.units(),
                        self.low.units() < amount.units(),
                        l > 0,
                ;
                assert((self.high - 1) * l == self.high * l - l) by (nonlinear_arith);
            }
            Total { high: (self.high - 1) as u64, low }
        }
    }
}

/// Well-formed totals with the same value are the same total.
pub proof fn lemma_total_injective(a: Total, b: Total)
    requires
        a.wf(),
        b.wf(),
        a.units() == b.units(),
    ensures
        a == b,
{
    let l = amount_limit();
    lemma_units_bounded(a.low);
    lemma_units_bounded(b.low);
    assert(a.high == b.high) by (nonlinear_arith)
        requires
            a.high * l + a.low.units() == b.high * l + b.low.units(),
            a.low.units() < l,
            b.low.units() < l,
    ;
    assert(a.low.units() == b.low.units());
    lemma_units_injective(a.low, b.low);
}

} // verus!
