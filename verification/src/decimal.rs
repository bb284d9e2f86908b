//! Exact signed decimal numbers of bounded precision.
//!
//! A [`Decimal`] is the pair of an integer mantissa and a scale: it stands
//! for `mantissa / 10^scale`. The arithmetic itself is done by the
//! `rust_decimal` crate; this module states what the library relies on and
//! refuses every sum that would have to be rounded.

use crate::text::Order;
use vstd::prelude::*;

verus! {

/// The largest absolute value of a mantissa: `2^96 - 1`.
pub const MAX_MANTISSA: i128 = 79_228_162_514_264_337_593_543_950_335;

/// The largest number of fractional digits.
pub const MAX_SCALE: u32 = 28;

/// `10^n`.
pub open spec fn pow10(n: nat) -> int
    decreases n,
{
    if n == 0 {
        1
    } else {
        10 * pow10((n - 1) as nat)
    }
}

/// The number `mantissa / 10^scale`.
#[derive(Clone, Copy, Debug)]
pub struct Decimal {
    pub mantissa: i128,
    pub scale: u32,
}

impl Decimal {
    /// The mantissa fits in 96 bits and the scale is at most 28.
    pub open spec fn wf(self) -> bool {
        &&& self.scale <= MAX_SCALE
        &&& -MAX_MANTISSA <= self.mantissa <= MAX_MANTISSA
    }

    /// The number as a multiple of `10^-28`, the finest unit a
    /// well-formed decimal can express.
    pub open spec fn value(self) -> int {
        self.mantissa * pow10((MAX_SCALE - self.scale) as nat)
    }

    /// The mantissa that expresses the same number at the scale `scale`,
    /// which must not be smaller than the number's own.
    pub open spec fn aligned(self, scale: int) -> int {
        self.mantissa * pow10((scale - self.scale) as nat)
    }

    /// The finer of the two scales.
    pub open spec fn common_scale(self, other: Decimal) -> u32 {
        if self.scale >= other.scale {
            self.scale
        } else {
            other.scale
        }
    }

    /// The two numbers can be added without rounding: one of them is zero,
    /// or the sum has a mantissa of at most 96 bits at the finer scale.
    pub open spec fn sum_is_exact(self, other: Decimal) -> bool {
        let scale = self.common_scale(other) as int;
        let sum = self.aligned(scale) + other.aligned(scale);
        self.mantissa == 0 || other.mantissa == 0 || -MAX_MANTISSA <= sum <= MAX_MANTISSA
    }

    /// The sum of two numbers that can be added without rounding. Adding
    /// zero leaves the other operand as it is; otherwise the result has the
    /// finer of the two scales.
    pub open spec fn exact_sum(self, other: Decimal) -> Decimal {
        let scale = self.common_scale(other);
        if self.mantissa == 0 {
            other
        } else if other.mantissa == 0 {
            self
        } else {
            Decimal {
                mantissa: (self.aligned(scale as int) + other.aligned(scale as int)) as i128,
                scale,
            }
        }
    }

    /// The number with the opposite sign.
    pub open spec fn negated(self) -> Decimal {
        Decimal { mantissa: (-self.mantissa) as i128, scale: self.scale }
    }

    /// Both stand for the same number.
    pub open spec fn same_number(self, other: Decimal) -> bool {
        if self.scale <= other.scale {
            self.mantissa * pow10((other.scale - self.scale) as nat) == other.mantissa
        } else {
            other.mantissa * pow10((self.scale - other.scale) as nat) == self.mantissa
        }
    }

    /// `self` is the smaller number.
    pub open spec fn less_than(self, other: Decimal) -> bool {
        let scale = self.common_scale(other) as int;
        self.aligned(scale) < other.aligned(scale)
    }

    /// The three-way comparison of two numbers.
    pub open spec fn order_to(self, other: Decimal) -> Order {
        if self.same_number(other) {
            Order::Same
        } else if self.less_than(other) {
            Order::Before
        } else {
            Order::After
        }
    }

    /// Whether the mantissa and the scale are within their bounds.
    pub fn is_well_formed(&self) -> (b: bool)
        ensures
            b == self.wf(),
    {
        self.scale <= MAX_SCALE && -MAX_MANTISSA <= self.mantissa && self.mantissa
            <= MAX_MANTISSA
    }

    /// Compares two numbers.
    pub fn compare(&self, other: &Decimal) -> (r: Order)
        requires
            self.wf(),
            other.wf(),
        ensures
            r == self.order_to(*other),
    {
        proof {
            lemma_pow10_monotonic(0, 0);
            assert(self.mantissa * pow10(0) == self.mantissa) by (nonlinear_arith)
                requires
                    pow10(0) == 1,
            ;
            assert(other.mantissa * pow10(0) == other.mantissa) by (nonlinear_arith)
                requires
                    pow10(0) == 1,
            ;
        }
        if self.scale >= other.scale {
            match lifted(other.mantissa, self.scale - other.scale) {
                Some(x) => if self.mantissa == x {
                    Order::Same
                } else if self.mantissa < x {
                    Order::Before
                } else {
                    Order::After
                },
                None => if other.mantissa > 0 {
                    Order::Before
                } else {
                    Order::After
                },
            }
        } else {
            match lifted(self.mantissa, other.scale - self.scale) {
                Some(x) => if x == other.mantissa {
                    Order::Same
                } else if x < other.mantissa {
                    Order::Before
                } else {
                    Order::After
                },
                None => if self.mantissa > 0 {
                    Order::After
                } else {
                    Order::Before
                },
            }
        }
    }

    /// The decimal `num / 10^scale`.
    pub fn new(num: i64, scale: u32) -> (d: Decimal)
        requires
            scale <= MAX_SCALE,
        ensures
            d.wf(),
            d.mantissa == num,
            d.scale == scale,
    {
        Decimal { mantissa: num as i128, scale }
    }

    /// Zero, with no fractional digits.
    pub fn zero() -> (d: Decimal)
        ensures
            d.wf(),
            d.mantissa == 0,
            d.scale == 0,
    {
        Decimal { mantissa: 0, scale: 0 }
    }

    /// Whether the number is below zero.
    pub fn is_negative(&self) -> (b: bool)
        ensures
            b == (self.mantissa < 0),
    {
        self.mantissa < 0
    }

    /// The number with the opposite sign.
    pub fn neg(&self) -> (d: Decimal)
        requires
            self.wf(),
        ensures
            d == self.negated(),
            d.wf(),
            d.value() == -self.value(),
    {
        proof {
            lemma_mul_neg(self.mantissa as int, pow10((MAX_SCALE - self.scale) as nat));
        }
        Decimal { mantissa: -self.mantissa, scale: self.scale }
    }
}

/// `(-a) * b == -(a * b)`.
pub proof fn lemma_mul_neg(a: int, b: int)
    ensures
        (-a) * b == -(a * b),
{
    assert((-a) * b == -(a * b)) by (nonlinear_arith);
}

/// Powers of ten are positive and grow with the exponent.
pub proof fn lemma_pow10_monotonic(i: nat, j: nat)
    requires
        i <= j,
    ensures
        0 < pow10(i) <= pow10(j),
    decreases j,
{
    if i < j {
        lemma_pow10_monotonic(i, (j - 1) as nat);
    } else if j > 0 {
        lemma_pow10_monotonic((i - 1) as nat, (j - 1) as nat);
    }
}

/// `10^(a + b) == 10^a * 10^b`.
pub proof fn lemma_pow10_add(a: nat, b: nat)
    ensures
        pow10(a + b) == pow10(a) * pow10(b),
    decreases a,
{
    if a > 0 {
        lemma_pow10_add((a - 1) as nat, b);
        assert(10 * (pow10((a - 1) as nat) * pow10(b)) == (10 * pow10((a - 1) as nat)) * pow10(b))
            by (nonlinear_arith);
    } else {
        assert(1 * pow10(b) == pow10(b)) by (nonlinear_arith);
    }
}

/// The two largest powers of ten that the library computes with.
pub proof fn lemma_pow10_limits()
    ensures
        pow10(28) == 10_000_000_000_000_000_000_000_000_000int,
        pow10(38) == 100_000_000_000_000_000_000_000_000_000_000_000_000int,
        pow10(39) == 1_000_000_000_000_000_000_000_000_000_000_000_000_000int,
{
    reveal_with_fuel(pow10, 40);
}

/// A well-formed decimal's value is its mantissa aligned to any scale,
/// carried on to the finest unit.
pub proof fn lemma_value_of_aligned(d: Decimal, scale: int)
    requires
        d.scale <= scale <= MAX_SCALE,
    ensures
        d.aligned(scale) * pow10((MAX_SCALE - scale) as nat) == d.value(),
{
    let up = pow10((scale - d.scale) as nat);
    let rest = pow10((MAX_SCALE - scale) as nat);
    lemma_pow10_add((scale - d.scale) as nat, (MAX_SCALE - scale) as nat);
    assert((d.mantissa * up) * rest == d.mantissa * (up * rest)) by (nonlinear_arith);
}

/// An exact sum stands for the sum of the two numbers.
pub proof fn lemma_exact_sum_value(a: Decimal, b: Decimal)
    requires
        a.wf(),
        b.wf(),
        a.sum_is_exact(b),
    ensures
        a.exact_sum(b).wf(),
        a.exact_sum(b).value() == a.value() + b.value(),
{
    let unit = pow10((MAX_SCALE - a.scale) as nat);
    if a.mantissa == 0 {
        assert(0 * unit == 0) by (nonlinear_arith);
    } else if b.mantissa == 0 {
        let unit_b = pow10((MAX_SCALE - b.scale) as nat);
        assert(0 * unit_b == 0) by (nonlinear_arith);
    } else {
        let scale = a.common_scale(b) as int;
        let rest = pow10((MAX_SCALE - scale) as nat);
        lemma_value_of_aligned(a, scale);
        lemma_value_of_aligned(b, scale);
        assert((a.aligned(scale) + b.aligned(scale)) * rest == a.aligned(scale) * rest + b.aligned(
            scale,
        ) * rest) by (nonlinear_arith);
    }
}

/// Well-formed decimals stand for the same number exactly when their
/// values agree.
pub proof fn lemma_same_number_is_same_value(a: Decimal, b: Decimal)
    requires
        a.wf(),
        b.wf(),
    ensures
        a.same_number(b) <==> a.value() == b.value(),
{
    if a.scale <= b.scale {
        lemma_same_number_aux(a, b);
    } else {
        lemma_same_number_aux(b, a);
    }
}

/// The same, for a first number of the coarser scale.
proof fn lemma_same_number_aux(a: Decimal, b: Decimal)
    requires
        a.wf(),
        b.wf(),
        a.scale <= b.scale,
    ensures
        a.mantissa * pow10((b.scale - a.scale) as nat) == b.mantissa <==> a.value() == b.value(),
{
    let rest = pow10((MAX_SCALE - b.scale) as nat);
    let lifted = a.aligned(b.scale as int);
    lemma_value_of_aligned(a, b.scale as int);
    lemma_pow10_monotonic(0, (MAX_SCALE - b.scale) as nat);
    assert(lifted * rest == b.mantissa * rest ==> lifted == b.mantissa) by (nonlinear_arith)
        requires
            rest > 0,
    ;
}

/// The number that `rust_decimal` reads from a text without rounding, if
/// it reads one.
pub uninterp spec fn parsed_decimal(text: Seq<char>) -> Option<Decimal>;

/// How `rust_decimal` writes a decimal number.
pub uninterp spec fn decimal_text(value: Decimal) -> Seq<char>;

/// What `rust_decimal` gives for a division, if it gives anything.
pub uninterp spec fn decimal_quotient(dividend: Decimal, divisor: Decimal) -> Option<Decimal>;

/// The error type of `rust_decimal`.
#[verifier::external_type_specification]
#[verifier::external_body]
pub struct ExDecimalError(rust_decimal::Error);

/// `rust_decimal::Decimal::checked_add` on the two numbers.
///
/// Trusted: whatever comes back is a well-formed decimal, and where the
/// sum needs no rounding the call succeeds and returns it, at the finer of
/// the two scales, or the other operand untouched where one is zero.
#[verifier::external_body]
fn outside_checked_add(a: Decimal, b: Decimal) -> (r: Option<Decimal>)
    requires
        a.wf(),
        b.wf(),
    ensures
        r matches Some(d) ==> d.wf(),
        a.sum_is_exact(b) ==> r == Some(a.exact_sum(b)),
{
    let x = rust_decimal::Decimal::from_i128_with_scale(a.mantissa, a.scale);
    let y = rust_decimal::Decimal::from_i128_with_scale(b.mantissa, b.scale);
    x.checked_add(y).map(|d| Decimal { mantissa: d.mantissa(), scale: d.scale() })
}

/// `rust_decimal::Decimal::checked_div` on the two numbers.
///
/// Trusted: the call depends on its operands alone, gives nothing for a
/// divisor of zero and plain zero for any other division of zero, and
/// whatever comes back is a well-formed decimal.
#[verifier::external_body]
fn outside_checked_div(a: Decimal, b: Decimal) -> (r: Option<Decimal>)
    requires
        a.wf(),
        b.wf(),
    ensures
        r == decimal_quotient(a, b),
        r matches Some(d) ==> d.wf(),
        b.mantissa == 0 ==> r is None,
        a.mantissa == 0 && b.mantissa != 0 ==> r == Some(Decimal { mantissa: 0, scale: 0 }),
{
    let x = rust_decimal::Decimal::from_i128_with_scale(a.mantissa, a.scale);
    let y = rust_decimal::Decimal::from_i128_with_scale(b.mantissa, b.scale);
    x.checked_div(y).map(|d| Decimal { mantissa: d.mantissa(), scale: d.scale() })
}

/// `rust_decimal::Decimal::from_str_exact` on the text, which refuses a
/// number with more digits than a decimal can hold instead of rounding
/// it.
///
/// Trusted: the call depends on the text alone, and a number that comes
/// back is a well-formed decimal.
#[verifier::external_body]
fn outside_from_str_exact(text: &str) -> (r: Result<Decimal, rust_decimal::Error>)
    ensures
        match r {
            Ok(d) => parsed_decimal(text@) == Some(d) && d.wf(),
            Err(_) => parsed_decimal(text@) is None,
        },
{
    rust_decimal::Decimal::from_str_exact(text).map(
        |d| Decimal { mantissa: d.mantissa(), scale: d.scale() },
    )
}

/// `rust_decimal::Decimal`'s `Display`, through `to_string`.
///
/// Trusted: the text depends on the number alone.
#[verifier::external_body]
fn outside_to_string(d: Decimal) -> (s: String)
    requires
        d.wf(),
    ensures
        s@ == decimal_text(d),
{
    rust_decimal::Decimal::from_i128_with_scale(d.mantissa, d.scale).to_string()
}

/// The divisor of a split in two.
pub open spec fn two() -> Decimal {
    Decimal { mantissa: 2, scale: 0 }
}

impl Decimal {
    /// Reads a decimal number. `None` where the text is not one.
    pub fn parse(text: &str) -> (r: Option<Decimal>)
        ensures
            r == parsed_decimal(text@),
            r matches Some(d) ==> d.wf(),
    {
        match outside_from_str_exact(text) {
            Ok(d) => Some(d),
            Err(_) => None,
        }
    }

    /// The number as text.
    pub fn to_text(&self) -> (s: String)
        requires
            self.wf(),
        ensures
            s@ == decimal_text(*self),
    {
        outside_to_string(*self)
    }

    /// Whether the two numbers can be added without rounding.
    pub fn can_add(&self, other: &Decimal) -> (ok: bool)
        requires
            self.wf(),
            other.wf(),
        ensures
            ok == self.sum_is_exact(*other),
    {
        if self.mantissa == 0 || other.mantissa == 0 {
            return true;
        }
        let (fine, coarse) = if self.scale >= other.scale {
            (*self, *other)
        } else {
            (*other, *self)
        };
        let p: i128 = pow10_exec(fine.scale - coarse.scale);
        proof {
            lemma_pow10_monotonic(0, (fine.scale - coarse.scale) as nat);
            assert(fine.mantissa * pow10(0) == fine.mantissa) by (nonlinear_arith)
                requires
                    pow10(0) == 1,
            ;
        }
        match coarse.mantissa.checked_mul(p) {
            None => false,
            Some(lifted) => match lifted.checked_add(fine.mantissa) {
                None => false,
                Some(sum) => -MAX_MANTISSA <= sum && sum <= MAX_MANTISSA,
            },
        }
    }

    /// The sum of the two numbers where it needs no rounding, `None` where
    /// it does.
    pub fn checked_sum(&self, other: &Decimal) -> (r: Option<Decimal>)
        requires
            self.wf(),
            other.wf(),
        ensures
            r == if self.sum_is_exact(*other) {
                Some(self.exact_sum(*other))
            } else {
                None
            },
            r matches Some(d) ==> d.wf() && d.value() == self.value() + other.value(),
    {
        if self.can_add(other) {
            proof {
                lemma_exact_sum_value(*self, *other);
            }
            outside_checked_add(*self, *other)
        } else {
            None
        }
    }

    /// Half of the number, as `rust_decimal` divides it by two.
    pub fn halved(&self) -> (r: Option<Decimal>)
        requires
            self.wf(),
        ensures
            r == decimal_quotient(*self, two()),
            r matches Some(d) ==> d.wf(),
    {
        outside_checked_div(*self, Decimal { mantissa: 2, scale: 0 })
    }
}

/// `10^n` as a machine integer.
fn pow10_exec(n: u32) -> (p: i128)
    requires
        n <= 38,
    ensures
        p == pow10(n as nat),
{
    let mut p: i128 = 1;
    let mut i: u32 = 0;
    while i < n
        invariant
            i <= n <= 38,
            p == pow10(i as nat),
        decreases n - i,
    {
        proof {
            lemma_pow10_monotonic((i + 1) as nat, 38);
            lemma_pow10_limits();
        }
        p = p * 10;
        i = i + 1;
    }
    p
}

/// `m * 10^k` where it is a mantissa of a well-formed decimal; `None`
/// where it is beyond every such mantissa, on the side of `m`.
fn lifted(m: i128, k: u32) -> (r: Option<i128>)
    requires
        k <= MAX_SCALE,
    ensures
        match r {
            Some(x) => x == m * pow10(k as nat),
            None => m != 0 && (m > 0 ==> m * pow10(k as nat) > MAX_MANTISSA) && (m < 0 ==> m
                * pow10(k as nat) < -MAX_MANTISSA),
        },
{
    let p: i128 = pow10_exec(k);
    proof {
        lemma_pow10_monotonic(0, k as nat);
        lemma_pow10_monotonic(k as nat, 28);
        lemma_pow10_limits();
    }
    match m.checked_mul(p) {
        Some(x) => Some(x),
        None => {
            proof {
                assert(m != 0) by {
                    if m == 0 {
                        assert(0 * p == 0) by (nonlinear_arith);
                    }
                }
                assert(m > 0 ==> m * p > 0) by (nonlinear_arith)
                    requires
                        p > 0,
                ;
                assert(m < 0 ==> m * p < 0) by (nonlinear_arith)
                    requires
                        p > 0,
                ;
            }
            None
        },
    }
}

/// Whether `m * 10^k == target`.
fn scaled_equals(m: i128, k: u32, target: i128) -> (r: bool)
    ensures
        r == (m * pow10(k as nat) == target),
{
    if m == 0 {
        assert(0 * pow10(k as nat) == 0) by (nonlinear_arith);
        target == 0
    } else if k > 38 {
        proof {
            lemma_pow10_monotonic(39, k as nat);
            lemma_pow10_limits();
            let p = pow10(k as nat);
            assert(m * p >= p || m * p <= -p) by (nonlinear_arith)
                requires
                    m != 0,
                    p > 0,
            ;
        }
        false
    } else {
        let p: i128 = pow10_exec(k);
        match m.checked_mul(p) {
            Some(x) => x == target,
            None => false,
        }
    }
}

impl PartialEq for Decimal {
    /// Numeric equality: `1.50` equals `1.5`.
    fn eq(&self, other: &Decimal) -> (r: bool) {
        if self.scale <= other.scale {
            scaled_equals(self.mantissa, other.scale - self.scale, other.mantissa)
        } else {
            scaled_equals(other.mantissa, self.scale - other.scale, self.mantissa)
        }
    }
}

impl Eq for Decimal {

}

impl vstd::std_specs::cmp::PartialEqSpecImpl for Decimal {
    open spec fn obeys_eq_spec() -> bool {
        true
    }

    open spec fn eq_spec(&self, other: &Decimal) -> bool {
        self.same_number(*other)
    }
}

} // verus!
