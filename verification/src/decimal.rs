//! Fixed-point decimal amounts: a signed 96-bit mantissa and a scale of at
//! most 28 fractional digits.
//!
//! The arithmetic itself is done by `rust_decimal`. This module holds the
//! plain representation of an amount, decides when a sum or a difference is
//! representable without rounding, and states what the arithmetic returns in
//! that case.

use vstd::prelude::*;

verus! {

/// Largest number of fractional digits an amount can carry.
pub const MAX_SCALE: u32 = 28;

/// Largest magnitude of a mantissa: 2^96 - 1.
pub const MAX_MANTISSA: i128 = 79228162514264337593543950335;

/// Ten to the power `n`.
pub open spec fn pow10(n: nat) -> nat
    decreases n,
{
    if n == 0 {
        1
    } else {
        10 * pow10((n - 1) as nat)
    }
}

/// The larger of two scales.
pub open spec fn max_scale(a: nat, b: nat) -> nat {
    if a >= b {
        a
    } else {
        b
    }
}

/// A decimal number `mantissa / 10^scale`.
///
/// Two amounts of the same value may differ in scale (`1.0` and `1.00`); the
/// scale is what decides how many fractional digits are written out.
#[derive(Clone, Copy, Debug)]
pub struct Decimal {
    mantissa: i128,
    scale: u32,
}

impl Decimal {
    /// The mantissa fits 96 bits and the scale is at most 28.
    #[verifier::type_invariant]
    pub closed spec fn wf(self) -> bool {
        &&& -MAX_MANTISSA <= self.mantissa <= MAX_MANTISSA
        &&& self.scale <= MAX_SCALE
    }

    /// The signed mantissa.
    pub closed spec fn spec_mantissa(self) -> int {
        self.mantissa as int
    }

    /// The number of fractional digits.
    pub closed spec fn spec_scale(self) -> nat {
        self.scale as nat
    }

    /// The amount with mantissa `m` and scale `s`.
    pub closed spec fn from_parts(m: int, s: nat) -> Decimal {
        Decimal { mantissa: m as i128, scale: s as u32 }
    }

    /// The mantissa once the amount is written with `s >= scale` fractional
    /// digits.
    pub open spec fn aligned(self, s: nat) -> int {
        self.spec_mantissa() * pow10((s - self.spec_scale()) as nat)
    }

    /// The value, counted in units of `10^-28`. Two amounts are numerically
    /// equal exactly when their units are.
    pub open spec fn units(self) -> int {
        self.aligned(MAX_SCALE as nat)
    }

    /// Whether `a + b` is representable without rounding: one operand is
    /// zero, or the exact sum can be written with a 96-bit mantissa at the
    /// larger of the two scales or at a smaller one.
    pub open spec fn add_fits(a: Decimal, b: Decimal) -> bool {
        let s = max_scale(a.spec_scale(), b.spec_scale());
        ||| a.spec_mantissa() == 0
        ||| b.spec_mantissa() == 0
        ||| representable(a.aligned(s) + b.aligned(s), s)
    }

    /// Whether `a - b` is representable without rounding: one operand is
    /// zero, or the exact difference can be written with a 96-bit mantissa
    /// at the larger of the two scales or at a smaller one.
    pub open spec fn sub_fits(a: Decimal, b: Decimal) -> bool {
        let s = max_scale(a.spec_scale(), b.spec_scale());
        ||| a.spec_mantissa() == 0
        ||| b.spec_mantissa() == 0
        ||| representable(a.aligned(s) - b.aligned(s), s)
    }

    /// The sum `a + b` where it is representable: a zero operand leaves the
    /// other one as it is, scale included; otherwise the result has the
    /// larger of the two scales, or the largest scale below it at which the
    /// mantissa fits 96 bits.
    pub open spec fn spec_add(a: Decimal, b: Decimal) -> Decimal {
        let s = max_scale(a.spec_scale(), b.spec_scale());
        if a.spec_mantissa() == 0 {
            b
        } else if b.spec_mantissa() == 0 {
            a
        } else {
            reduced(a.aligned(s) + b.aligned(s), s)
        }
    }

    /// The difference `a - b` where it is representable: zero minus an
    /// amount is that amount negated, at its scale; an amount minus zero is
    /// that amount; otherwise the result has the larger of the two scales,
    /// or the largest scale below it at which the mantissa fits 96 bits.
    pub open spec fn spec_sub(a: Decimal, b: Decimal) -> Decimal {
        let s = max_scale(a.spec_scale(), b.spec_scale());
        if a.spec_mantissa() == 0 {
            Decimal::from_parts(-b.spec_mantissa(), b.spec_scale())
        } else if b.spec_mantissa() == 0 {
            a
        } else {
            reduced(a.aligned(s) - b.aligned(s), s)
        }
    }
}

/// Whether the number `t / 10^s` can be written exactly with a 96-bit
/// mantissa and at most `s` fractional digits: `t` itself fits, or `t` ends
/// in a zero and `t / 10` can be written with at most `s - 1` digits.
pub open spec fn representable(t: int, s: nat) -> bool
    decreases s,
{
    ||| -MAX_MANTISSA <= t <= MAX_MANTISSA
    ||| s > 0 && t % 10 == 0 && representable(t / 10, (s - 1) as nat)
}

/// The number `t / 10^s` written with as many fractional digits, up to `s`,
/// as a 96-bit mantissa allows: trailing zeros of `t` are dropped only while
/// `t` does not fit.
pub open spec fn reduced(t: int, s: nat) -> Decimal
    decreases s,
{
    if -MAX_MANTISSA <= t <= MAX_MANTISSA || s == 0 {
        Decimal::from_parts(t, s)
    } else {
        reduced(t / 10, (s - 1) as nat)
    }
}

impl Decimal {
    /// The number `num / 10^scale`.
    pub fn new(num: i64, scale: u32) -> (d: Decimal)
        requires
            scale <= MAX_SCALE,
        ensures
            d == Decimal::from_parts(num as int, scale as nat),
            d.spec_mantissa() == num,
            d.spec_scale() == scale,
    {
        Decimal { mantissa: num as i128, scale }
    }

    /// The number `num / 10^scale`, or `None` where the mantissa does not fit
    /// 96 bits or the scale exceeds 28.
    pub fn try_from_i128_with_scale(num: i128, scale: u32) -> (r: Option<Decimal>)
        ensures
            r is Some <==> -MAX_MANTISSA <= num <= MAX_MANTISSA && scale <= MAX_SCALE,
            r is Some ==> r->0 == Decimal::from_parts(num as int, scale as nat),
            r is Some ==> r->0.spec_mantissa() == num && r->0.spec_scale() == scale,
    {
        if -MAX_MANTISSA <= num && num <= MAX_MANTISSA && scale <= MAX_SCALE {
            Some(Decimal { mantissa: num, scale })
        } else {
            None
        }
    }

    /// Zero, with no fractional digits.
    pub fn zero() -> (d: Decimal)
        ensures
            d == Decimal::from_parts(0, 0),
            d.spec_mantissa() == 0,
            d.spec_scale() == 0,
    {
        Decimal { mantissa: 0, scale: 0 }
    }

    /// The signed mantissa.
    pub fn mantissa(&self) -> (m: i128)
        ensures
            m == self.spec_mantissa(),
            -MAX_MANTISSA <= m <= MAX_MANTISSA,
    {
        proof {
            use_type_invariant(self);
        }
        self.mantissa
    }

    /// The number of fractional digits.
    pub fn scale(&self) -> (s: u32)
        ensures
            s == self.spec_scale(),
            s <= MAX_SCALE,
    {
        proof {
            use_type_invariant(self);
        }
        self.scale
    }

    /// Whether the amount is below zero.
    pub fn is_sign_negative(&self) -> (r: bool)
        ensures
            r == (self.spec_mantissa() < 0),
    {
        self.mantissa < 0
    }

    /// Whether `self + other` is representable without rounding.
    pub fn can_add(self, other: Decimal) -> (ok: bool)
        ensures
            ok == Decimal::add_fits(self, other),
    {
        proof {
            use_type_invariant(self);
            use_type_invariant(other);
        }
        if self.mantissa == 0 || other.mantissa == 0 {
            return true;
        }
        let settled = if self.scale <= other.scale {
            proof {
                lemma_aligned_pair(self, other);
            }
            settle(self.mantissa, other.mantissa, other.scale - self.scale, other.scale)
        } else {
            proof {
                lemma_aligned_pair(other, self);
            }
            settle(other.mantissa, self.mantissa, self.scale - other.scale, self.scale)
        };
        match settled {
            Some(_) => true,
            None => false,
        }
    }

    /// Whether `self - other` is representable without rounding.
    pub fn can_sub(self, other: Decimal) -> (ok: bool)
        ensures
            ok == Decimal::sub_fits(self, other),
    {
        proof {
            use_type_invariant(self);
            use_type_invariant(other);
        }
        if self.mantissa == 0 || other.mantissa == 0 {
            return true;
        }
        let settled = if self.scale <= other.scale {
            proof {
                lemma_aligned_pair(self, other);
            }
            settle(self.mantissa, -other.mantissa, other.scale - self.scale, other.scale)
        } else {
            proof {
                lemma_aligned_pair(other, self);
                let m = other.mantissa as int;
                let p = pow10((self.scale - other.scale) as nat) as int;
                assert((-m) * p == -(m * p)) by (nonlinear_arith);
            }
            settle(-other.mantissa, self.mantissa, self.scale - other.scale, self.scale)
        };
        match settled {
            Some(_) => true,
            None => false,
        }
    }

    /// The exact sum, or `None` where it is not representable without
    /// rounding.
    pub fn checked_add(self, other: Decimal) -> (r: Option<Decimal>)
        ensures
            r is Some <==> Decimal::add_fits(self, other),
            r is Some ==> r->0 == Decimal::spec_add(self, other),
    {
        if self.can_add(other) {
            Some(sum(self, other))
        } else {
            None
        }
    }

    /// The exact difference, or `None` where it is not representable without
    /// rounding.
    pub fn checked_sub(self, other: Decimal) -> (r: Option<Decimal>)
        ensures
            r is Some <==> Decimal::sub_fits(self, other),
            r is Some ==> r->0 == Decimal::spec_sub(self, other),
    {
        if self.can_sub(other) {
            Some(difference(self, other))
        } else {
            None
        }
    }

    /// Whether `self` is numerically below `other`.
    pub fn lt(self, other: Decimal) -> (r: bool)
        ensures
            r == (self.units() < other.units()),
    {
        less_than(self, other)
    }

    /// Whether `self` is numerically at least `other`.
    pub fn ge(self, other: Decimal) -> (r: bool)
        ensures
            r == (self.units() >= other.units()),
    {
        !less_than(self, other)
    }

    /// Whether `self` is numerically above `other`.
    pub fn gt(self, other: Decimal) -> (r: bool)
        ensures
            r == (self.units() > other.units()),
    {
        less_than(other, self)
    }
}

/// Largest magnitude that `scale_up` hands back: twice the largest mantissa.
const SCALE_UP_LIMIT: i128 = 158456325028528675187087900670;

/// `m * 10^k`, or `None` where its magnitude exceeds twice the largest
/// mantissa.
fn scale_up(m: i128, k: u32) -> (r: Option<i128>)
    requires
        -MAX_MANTISSA <= m <= MAX_MANTISSA,
        k <= MAX_SCALE,
    ensures
        match r {
            Some(v) => v == m * pow10(k as nat) && -SCALE_UP_LIMIT <= v <= SCALE_UP_LIMIT,
            None => m * pow10(k as nat) < -SCALE_UP_LIMIT || m * pow10(k as nat)
                > SCALE_UP_LIMIT,
        },
{
    let mut cur: i128 = m;
    let mut i: u32 = 0;
    proof {
        assert(pow10(0) == 1);
    }
    while i < k
        invariant
            i <= k <= MAX_SCALE,
            cur == m * pow10(i as nat),
            -SCALE_UP_LIMIT <= cur <= SCALE_UP_LIMIT,
        decreases k - i,
    {
        if cur > SCALE_UP_LIMIT / 10 || cur < -(SCALE_UP_LIMIT / 10) {
            proof {
                let rest = (k - i) as nat;
                lemma_pow10_adds(i as nat, rest);
                lemma_pow10_positive((rest - 1) as nat);
                let p = pow10(i as nat) as int;
                let q = pow10(rest) as int;
                assert(q >= 10);
                assert(m * pow10(k as nat) == cur * q) by (nonlinear_arith)
                    requires
                        pow10(k as nat) == p * q,
                        cur == m * p,
                ;
                assert(cur * q > SCALE_UP_LIMIT || cur * q < -SCALE_UP_LIMIT)
                    by (nonlinear_arith)
                    requires
                        q >= 10,
                        cur > SCALE_UP_LIMIT / 10 || cur < -(SCALE_UP_LIMIT / 10),
                ;
            }
            return None;
        }
        proof {
            let p = pow10(i as nat) as int;
            assert(pow10((i + 1) as nat) == 10 * pow10(i as nat));
            assert((m * p) * 10 == m * (10 * p)) by (nonlinear_arith);
        }
        cur = cur * 10;
        i = i + 1;
    }
    Some(cur)
}

/// The number `(x * 10^diff + y) / 10^s` written with as many fractional
/// digits, up to `s`, as a 96-bit mantissa allows: its mantissa and scale, or
/// `None` where no such writing is exact.
fn settle(x: i128, y: i128, diff: u32, s: u32) -> (r: Option<(i128, u32)>)
    requires
        -MAX_MANTISSA <= x <= MAX_MANTISSA,
        -MAX_MANTISSA <= y <= MAX_MANTISSA,
        diff <= s <= MAX_SCALE,
    ensures
        r is Some <==> representable(x * pow10(diff as nat) + y, s as nat),
        match r {
            Some((m, k)) => Decimal::from_parts(m as int, k as nat) == reduced(
                x * pow10(diff as nat) + y,
                s as nat,
            ),
            None => true,
        },
{
    let mut low: i128 = y;
    let mut gap: u32 = diff;
    let mut places: u32 = s;
    loop
        invariant
            -MAX_MANTISSA <= x <= MAX_MANTISSA,
            -MAX_MANTISSA <= low <= MAX_MANTISSA,
            gap <= places <= MAX_SCALE,
            representable(x * pow10(diff as nat) + y, s as nat) == representable(
                x * pow10(gap as nat) + low,
                places as nat,
            ),
            reduced(x * pow10(diff as nat) + y, s as nat) == reduced(
                x * pow10(gap as nat) + low,
                places as nat,
            ),
        decreases places,
    {
        let ghost t = x * pow10(gap as nat) + low;
        proof {
            assert(pow10(0) == 1);
            reveal_with_fuel(representable, 2);
            reveal_with_fuel(reduced, 2);
        }
        match scale_up(x, gap) {
            Some(v) => {
                let total: i128 = v + low;
                if -MAX_MANTISSA <= total && total <= MAX_MANTISSA {
                    return Some((total, places));
                }
                if gap == 0 {
                    if places == 0 || total % 10 != 0 {
                        return None;
                    }
                    assert(-MAX_MANTISSA <= t / 10 <= MAX_MANTISSA);
                    return Some((total / 10, places - 1));
                }
            },
            None => {
                proof {
                    if gap == 0 {
                        assert(x * pow10(0) == x * 1);
                    }
                }
            },
        }
        proof {
            lemma_last_digit(x as int, low as int, gap as nat);
        }
        if low % 10 != 0 {
            return None;
        }
        low = low / 10;
        gap = gap - 1;
        places = places - 1;
    }
}

/// Two amounts written with the digits of the one that has more: the first
/// is scaled up, the second is as it stands.
proof fn lemma_aligned_pair(a: Decimal, b: Decimal)
    requires
        a.spec_scale() <= b.spec_scale(),
    ensures
        a.aligned(b.spec_scale()) == a.spec_mantissa() * pow10(
            (b.spec_scale() - a.spec_scale()) as nat,
        ),
        b.aligned(b.spec_scale()) == b.spec_mantissa(),
        max_scale(a.spec_scale(), b.spec_scale()) == b.spec_scale(),
        max_scale(b.spec_scale(), a.spec_scale()) == b.spec_scale(),
{
    assert(pow10(0) == 1);
    assert(b.spec_mantissa() * 1 == b.spec_mantissa());
}

/// Below a multiple of `10^d`, `d >= 1`, the last digit of a sum is that of
/// the other summand, and dropping a last digit zero drops it from both.
proof fn lemma_last_digit(x: int, y: int, d: nat)
    requires
        d >= 1,
    ensures
        (x * pow10(d) + y) % 10 == y % 10,
        y % 10 == 0 ==> (x * pow10(d) + y) / 10 == x * pow10((d - 1) as nat) + y / 10,
{
    let p = pow10((d - 1) as nat) as int;
    let k = x * p;
    assert(pow10(d) == 10 * pow10((d - 1) as nat));
    assert(x * pow10(d) == 10 * k) by (nonlinear_arith)
        requires
            pow10(d) == 10 * p,
            k == x * p,
    ;
    assert((10 * k + y) % 10 == y % 10);
    assert(y % 10 == 0 ==> (10 * k + y) / 10 == k + y / 10);
}

/// Calls `rust_decimal`'s `+` on two amounts.
///
/// Claimed of it, for operands whose sum is representable without rounding:
/// it does not overflow; a zero operand gives back the other operand, scale
/// included; two non-zero operands give the exact sum at the larger of the
/// two scales where its mantissa fits 96 bits there, and otherwise at the
/// largest scale at which it fits.
#[verifier::external_body]
pub(crate) fn sum(a: Decimal, b: Decimal) -> (r: Decimal)
    requires
        Decimal::add_fits(a, b),
    ensures
        r == Decimal::spec_add(a, b),
{
    let x = rust_decimal::Decimal::from_i128_with_scale(a.mantissa, a.scale);
    let y = rust_decimal::Decimal::from_i128_with_scale(b.mantissa, b.scale);
    let z = x + y;
    Decimal { mantissa: z.mantissa(), scale: z.scale() }
}

/// Calls `rust_decimal`'s `-` on two amounts.
///
/// Claimed of it, for operands whose difference is representable without
/// rounding: it does not overflow; zero minus an amount is that amount
/// negated, at its scale; an amount minus zero is that amount unchanged; two
/// non-zero operands give the exact difference at the larger of the two
/// scales where its mantissa fits 96 bits there, and otherwise at the
/// largest scale at which it fits.
#[verifier::external_body]
pub(crate) fn difference(a: Decimal, b: Decimal) -> (r: Decimal)
    requires
        Decimal::sub_fits(a, b),
    ensures
        r == Decimal::spec_sub(a, b),
{
    let x = rust_decimal::Decimal::from_i128_with_scale(a.mantissa, a.scale);
    let y = rust_decimal::Decimal::from_i128_with_scale(b.mantissa, b.scale);
    let z = x - y;
    Decimal { mantissa: z.mantissa(), scale: z.scale() }
}

/// Calls `rust_decimal`'s `<` on two amounts.
///
/// Claimed of it: it compares the two values numerically, whatever their
/// scales.
#[verifier::external_body]
fn less_than(a: Decimal, b: Decimal) -> (r: bool)
    ensures
        r == (a.units() < b.units()),
{
    let x = rust_decimal::Decimal::from_i128_with_scale(a.mantissa, a.scale);
    let y = rust_decimal::Decimal::from_i128_with_scale(b.mantissa, b.scale);
    x < y
}


impl PartialEq for Decimal {
    /// Numerical equality: `1.0` equals `1.00`.
    fn eq(&self, other: &Decimal) -> (r: bool) {
        !less_than(*self, *other) && !less_than(*other, *self)
    }
}

impl vstd::std_specs::cmp::PartialEqSpecImpl for Decimal {
    open spec fn obeys_eq_spec() -> bool {
        true
    }

    open spec fn eq_spec(&self, other: &Decimal) -> bool {
        self.units() == other.units()
    }
}

/// `pow10` is at least one.
pub proof fn lemma_pow10_positive(n: nat)
    ensures
        pow10(n) >= 1,
    decreases n,
{
    if n > 0 {
        lemma_pow10_positive((n - 1) as nat);
    }
}

/// `10^(a + b) == 10^a * 10^b`.
pub proof fn lemma_pow10_adds(a: nat, b: nat)
    ensures
        pow10(a + b) == pow10(a) * pow10(b),
    decreases a,
{
    if a == 0 {
        assert(pow10(0) == 1);
        assert(pow10(b) == 1 * pow10(b));
    } else {
        lemma_pow10_adds((a - 1) as nat, b);
        let p = pow10((a - 1) as nat);
        let q = pow10(b);
        assert(pow10(a + b) == 10 * pow10((a + b - 1) as nat));
        assert((a - 1) as nat + b == (a + b - 1) as nat);
        assert(10 * (p * q) == (10 * p) * q) by (nonlinear_arith);
    }
}

/// The mantissa and scale of an amount built from parts in range, and its
/// validity.
pub proof fn lemma_from_parts(m: int, s: nat)
    requires
        -MAX_MANTISSA <= m <= MAX_MANTISSA,
        s <= MAX_SCALE,
    ensures
        Decimal::from_parts(m, s).spec_mantissa() == m,
        Decimal::from_parts(m, s).spec_scale() == s,
        Decimal::from_parts(m, s).wf(),
{
}

/// Writing an amount with more fractional digits keeps its value:
/// `aligned(s) * 10^(28 - s) == units`.
pub proof fn lemma_aligned_units(a: Decimal, s: nat)
    requires
        a.spec_scale() <= s <= MAX_SCALE,
    ensures
        a.aligned(s) * pow10((MAX_SCALE - s) as nat) == a.units(),
{
    let lo = (s - a.spec_scale()) as nat;
    let hi = (MAX_SCALE - s) as nat;
    lemma_pow10_adds(lo, hi);
    let m = a.spec_mantissa();
    let p = pow10(lo) as int;
    let q = pow10(hi) as int;
    assert((m * p) * q == m * (p * q)) by (nonlinear_arith);
}

/// What is representable has a valid reduced form of the same value, with
/// no more fractional digits than it was given with.
pub proof fn lemma_reduced(t: int, s: nat)
    requires
        s <= MAX_SCALE,
        representable(t, s),
    ensures
        reduced(t, s).wf(),
        reduced(t, s).spec_scale() <= s,
        reduced(t, s).aligned(s) == t,
        reduced(t, s).units() == t * pow10((MAX_SCALE - s) as nat),
    decreases s,
{
    let r = reduced(t, s);
    if -MAX_MANTISSA <= t <= MAX_MANTISSA {
        lemma_from_parts(t, s);
        assert(pow10(0) == 1);
        assert(r.aligned(s) == t * 1);
    } else {
        let lower = (s - 1) as nat;
        lemma_reduced(t / 10, lower);
        let m = r.spec_mantissa();
        let p = pow10((lower - r.spec_scale()) as nat) as int;
        assert(pow10((s - r.spec_scale()) as nat) == 10 * pow10((lower - r.spec_scale()) as nat));
        assert(m * (10 * p) == 10 * (m * p)) by (nonlinear_arith);
    }
    lemma_aligned_units(r, s);
}

/// Where a sum is representable, it is a valid amount, its value is the sum
/// of the two values, and it has no more fractional digits than the
/// operands.
pub proof fn lemma_add_exact(a: Decimal, b: Decimal)
    requires
        a.wf(),
        b.wf(),
        Decimal::add_fits(a, b),
    ensures
        Decimal::spec_add(a, b).wf(),
        Decimal::spec_add(a, b).units() == a.units() + b.units(),
        Decimal::spec_add(a, b).spec_scale() <= max_scale(a.spec_scale(), b.spec_scale()),
{
    let s = max_scale(a.spec_scale(), b.spec_scale());
    if a.spec_mantissa() == 0 {
        assert(a.units() == 0);
    } else if b.spec_mantissa() == 0 {
        assert(b.units() == 0);
    } else {
        let x = a.aligned(s);
        let y = b.aligned(s);
        lemma_reduced(x + y, s);
        lemma_aligned_units(a, s);
        lemma_aligned_units(b, s);
        let q = pow10((MAX_SCALE - s) as nat) as int;
        assert((x + y) * q == x * q + y * q) by (nonlinear_arith);
    }
}

/// Where a difference is representable, it is a valid amount, its value is
/// the difference of the two values, and it has no more fractional digits
/// than the operands.
pub proof fn lemma_sub_exact(a: Decimal, b: Decimal)
    requires
        a.wf(),
        b.wf(),
        Decimal::sub_fits(a, b),
    ensures
        Decimal::spec_sub(a, b).wf(),
        Decimal::spec_sub(a, b).units() == a.units() - b.units(),
        Decimal::spec_sub(a, b).spec_scale() <= max_scale(a.spec_scale(), b.spec_scale()),
{
    let s = max_scale(a.spec_scale(), b.spec_scale());
    if a.spec_mantissa() == 0 {
        assert(a.units() == 0);
        lemma_from_parts(-b.spec_mantissa(), b.spec_scale());
        let m = b.spec_mantissa();
        let q = pow10((MAX_SCALE - b.spec_scale()) as nat) as int;
        assert((-m) * q == -(m * q)) by (nonlinear_arith);
    } else if b.spec_mantissa() == 0 {
        assert(b.units() == 0);
    } else {
        let x = a.aligned(s);
        let y = b.aligned(s);
        lemma_reduced(x - y, s);
        lemma_aligned_units(a, s);
        lemma_aligned_units(b, s);
        let q = pow10((MAX_SCALE - s) as nat) as int;
        assert((x - y) * q == x * q - y * q) by (nonlinear_arith);
    }
}

/// The number `m / 10^k` once it is written with `s >= k` fractional
/// digits.
pub open spec fn written(m: int, k: nat, s: nat) -> int {
    m * pow10((s - k) as nat)
}

/// A number that some 96-bit mantissa gives at a scale of at most `s` is
/// representable with at most `s` fractional digits.
pub proof fn lemma_representable_witness(t: int, s: nat, m: int, k: nat)
    requires
        k <= s,
        -MAX_MANTISSA <= m <= MAX_MANTISSA,
        t == written(m, k, s),
    ensures
        representable(t, s),
    decreases s,
{
    if -MAX_MANTISSA <= t <= MAX_MANTISSA {
    } else {
        assert(pow10(0) == 1);
        if k == s {
            assert(t == m * 1);
        }
        let lower = (s - 1) as nat;
        let p = pow10((lower - k) as nat) as int;
        assert(pow10((s - k) as nat) == 10 * pow10((lower - k) as nat));
        assert(m * (10 * p) == 10 * (m * p)) by (nonlinear_arith);
        assert(t == 10 * (m * p));
        assert(t / 10 == m * p);
        lemma_representable_witness(t / 10, lower, m, k);
    }
}

/// `representable` says what its name says: the number `t / 10^s` is
/// representable exactly when some mantissa of 96 bits gives it at some
/// scale of at most `s`.
pub proof fn lemma_representable_means(t: int, s: nat)
    requires
        s <= MAX_SCALE,
    ensures
        representable(t, s) <==> exists|m: int, k: nat|
            k <= s && -MAX_MANTISSA <= m <= MAX_MANTISSA && #[trigger] written(m, k, s) == t,
{
    if representable(t, s) {
        lemma_reduced(t, s);
        let r = reduced(t, s);
        lemma_wf_parts(r);
        assert(written(r.spec_mantissa(), r.spec_scale(), s) == t);
    }
    if exists|m: int, k: nat|
        k <= s && -MAX_MANTISSA <= m <= MAX_MANTISSA && #[trigger] written(m, k, s) == t {
        let (m, k) = choose|m: int, k: nat|
            k <= s && -MAX_MANTISSA <= m <= MAX_MANTISSA && #[trigger] written(m, k, s) == t;
        lemma_representable_witness(t, s, m, k);
    }
}

/// A valid amount has a mantissa of 96 bits and a scale of at most 28.
pub proof fn lemma_wf_parts(a: Decimal)
    requires
        a.wf(),
    ensures
        -MAX_MANTISSA <= a.spec_mantissa() <= MAX_MANTISSA,
        a.spec_scale() <= MAX_SCALE,
{
}

/// Writing an amount with yet more fractional digits multiplies its mantissa
/// by the power of ten between the two scales.
proof fn lemma_aligned_further(a: Decimal, s: nat, further: nat)
    requires
        a.spec_scale() <= s <= further,
    ensures
        a.aligned(further) == a.aligned(s) * pow10((further - s) as nat),
{
    let lo = (s - a.spec_scale()) as nat;
    let hi = (further - s) as nat;
    lemma_pow10_adds(lo, hi);
    let m = a.spec_mantissa();
    let p = pow10(lo) as int;
    let q = pow10(hi) as int;
    assert((m * p) * q == m * (p * q)) by (nonlinear_arith);
}

/// Where `c` has the value of `a` plus or minus `b`, taking `b` out of `c`
/// again is representable: the result is `a`, which is.
proof fn lemma_recoverable(a: Decimal, b: Decimal, c: Decimal, sign: int)
    requires
        a.wf(),
        b.wf(),
        c.wf(),
        sign == 1 || sign == -1,
        c.spec_scale() <= max_scale(a.spec_scale(), b.spec_scale()),
        c.aligned(max_scale(a.spec_scale(), b.spec_scale())) == a.aligned(
            max_scale(a.spec_scale(), b.spec_scale()),
        ) + sign * b.aligned(max_scale(a.spec_scale(), b.spec_scale())),
    ensures
        representable(
            c.aligned(max_scale(c.spec_scale(), b.spec_scale())) - sign * b.aligned(
                max_scale(c.spec_scale(), b.spec_scale()),
            ),
            max_scale(c.spec_scale(), b.spec_scale()),
        ),
{
    let top = max_scale(a.spec_scale(), b.spec_scale());
    let s = max_scale(c.spec_scale(), b.spec_scale());
    let back = c.aligned(s) - sign * b.aligned(s);
    let p = pow10((top - s) as nat) as int;
    lemma_pow10_positive((top - s) as nat);
    lemma_aligned_further(c, s, top);
    lemma_aligned_further(b, s, top);
    let cs = c.aligned(s);
    let bs = b.aligned(s);
    assert(back * p == cs * p - sign * (bs * p)) by (nonlinear_arith)
        requires
            back == cs - sign * bs,
    ;
    assert(back * p == a.aligned(top));
    let m = a.spec_mantissa();
    if a.spec_scale() <= s {
        lemma_aligned_further(a, s, top);
        let q = a.aligned(s);
        assert(back == q) by (nonlinear_arith)
            requires
                back * p == q * p,
                p >= 1,
        ;
        assert(back == written(m, a.spec_scale(), s));
        lemma_representable_witness(back, s, m, a.spec_scale());
    } else {
        assert(top == a.spec_scale());
        assert(pow10(0) == 1);
        assert((top - a.spec_scale()) as nat == 0);
        assert(a.aligned(top) == m * pow10(0));
        assert(m * pow10(0) == m) by (nonlinear_arith)
            requires
                pow10(0) == 1,
        ;
        assert(back * p == m);
        assert(-MAX_MANTISSA <= back <= MAX_MANTISSA) by (nonlinear_arith)
            requires
                back * p == m,
                p >= 1,
                -MAX_MANTISSA <= m <= MAX_MANTISSA,
        ;
    }
}

/// What was taken off can be put back: where `a - b` is representable, so is
/// `(a - b) + b`, and its value is that of `a`.
pub proof fn lemma_sub_then_add(a: Decimal, b: Decimal)
    requires
        a.wf(),
        b.wf(),
        Decimal::sub_fits(a, b),
    ensures
        Decimal::add_fits(Decimal::spec_sub(a, b), b),
        Decimal::spec_add(Decimal::spec_sub(a, b), b).units() == a.units(),
{
    let c = Decimal::spec_sub(a, b);
    lemma_sub_exact(a, b);
    if c.spec_mantissa() != 0 && b.spec_mantissa() != 0 {
        let top = max_scale(a.spec_scale(), b.spec_scale());
        if a.spec_mantissa() == 0 {
            lemma_from_parts(-b.spec_mantissa(), b.spec_scale());
            assert(pow10(0) == 1);
            assert(c.aligned(b.spec_scale()) == (-b.spec_mantissa()) * 1);
            assert(b.aligned(b.spec_scale()) == b.spec_mantissa() * 1);
        } else {
            lemma_reduced(a.aligned(top) - b.aligned(top), top);
            lemma_recoverable(a, b, c, -1);
        }
    }
    lemma_add_exact(c, b);
}

/// What was put on can be taken off: where `a + b` is representable, so is
/// `(a + b) - b`, and its value is that of `a`.
pub proof fn lemma_add_then_sub(a: Decimal, b: Decimal)
    requires
        a.wf(),
        b.wf(),
        Decimal::add_fits(a, b),
    ensures
        Decimal::sub_fits(Decimal::spec_add(a, b), b),
        Decimal::spec_sub(Decimal::spec_add(a, b), b).units() == a.units(),
{
    let c = Decimal::spec_add(a, b);
    lemma_add_exact(a, b);
    if c.spec_mantissa() != 0 && b.spec_mantissa() != 0 {
        let top = max_scale(a.spec_scale(), b.spec_scale());
        if a.spec_mantissa() == 0 {
            assert(c == b);
            assert(c.aligned(b.spec_scale()) - b.aligned(b.spec_scale()) == 0);
        } else {
            lemma_reduced(a.aligned(top) + b.aligned(top), top);
            lemma_recoverable(a, b, c, 1);
        }
    }
    lemma_sub_exact(c, b);
}

} // verus!
