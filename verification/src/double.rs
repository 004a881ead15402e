//! Double-precision numbers, held as their bit patterns: arithmetic, order and decimal text.
//!
//! Every number is a whole multiple of the smallest positive one, so a number is described by how
//! many of those units it is worth, and an operation by the whole number of units that its exact
//! result is rounded to.

use vstd::arithmetic::div_mod::{
    lemma_fundamental_div_mod, lemma_fundamental_div_mod_converse, lemma_mod_bound,
};
use vstd::arithmetic::power2::{
    lemma2_to64, lemma2_to64_rest, lemma_pow2_adds, lemma_pow2_pos, lemma_pow2_strictly_increases,
    lemma_pow2_unfold, pow2,
};
use vstd::prelude::*;
use vstd::string::*;

use crate::text::{dec, decimal, digit, digits_value, is_digit, lemma_dec_digits};

verus! {

// ---------------------------------------------------------------- rounding
/// The whole number nearest to `a / b`; of two equally near ones the even one.
pub open spec fn nearest(a: nat, b: nat) -> nat {
    let q = a / b;
    let r = a % b;
    if 2 * r < b || (2 * r == b && q % 2 == 0) {
        q
    } else {
        q + 1
    }
}

proof fn lemma_scaled_div(a: nat, b: nat, c: nat)
    requires
        b > 0,
        c > 0,
    ensures
        b * c > 0,
        (a * c) / (b * c) == a / b,
        (a * c) % (b * c) == (a % b) * c,
{
    let q = a / b;
    let r = a % b;
    lemma_fundamental_div_mod(a as int, b as int);
    lemma_mod_bound(a as int, b as int);
    assert(b * c > 0 && a * c == q * (b * c) + r * c && 0 <= r * c < b * c) by (nonlinear_arith)
        requires
            a == b * q + r,
            0 <= r < b,
            c > 0,
    ;
    lemma_fundamental_div_mod_converse(
        (a * c) as int,
        (b * c) as int,
        q as int,
        (r * c) as int,
    );
}

/// The nearest whole number does not depend on how the fraction is written.
proof fn lemma_nearest_scaled(a: nat, b: nat, c: nat)
    requires
        b > 0,
        c > 0,
    ensures
        b * c > 0,
        nearest(a * c, b * c) == nearest(a, b),
{
    lemma_scaled_div(a, b, c);
    let r = a % b;
    assert((2 * (r * c) < b * c) == (2 * r < b) && (2 * (r * c) == b * c) == (2 * r == b))
        by (nonlinear_arith)
        requires
            c > 0,
    ;
}

proof fn lemma_nearest_whole(a: nat, b: nat)
    requires
        b > 0,
    ensures
        nearest(a * b, b) == a,
{
    lemma_fundamental_div_mod_converse((a * b) as int, b as int, a as int, 0);
}

proof fn lemma_nearest_bounds(a: nat, b: nat, q: nat)
    requires
        b > 0,
    ensures
        a < q * b ==> nearest(a, b) <= q,
        q * b <= a ==> q <= nearest(a, b),
{
    lemma_fundamental_div_mod(a as int, b as int);
    lemma_mod_bound(a as int, b as int);
    let d = a / b;
    assert(a < q * b ==> d < q) by (nonlinear_arith)
        requires
            a == b * d + a % b,
            0 <= a % b < b,
            b > 0,
    ;
    assert(q * b <= a ==> q <= d) by (nonlinear_arith)
        requires
            a == b * d + a % b,
            0 <= a % b < b,
            b > 0,
    ;
}

/// Rounds `a / b` to the nearest whole number.
fn round_div(a: u128, b: u128) -> (r: u128)
    requires
        0 < b <= u128::MAX / 2,
        a < u128::MAX,
    ensures
        r == nearest(a as nat, b as nat),
{
    let q: u128 = a / b;
    let m: u128 = a % b;
    proof {
        lemma_mod_bound(a as int, b as int);
        lemma_fundamental_div_mod(a as int, b as int);
        assert(q <= a) by (nonlinear_arith)
            requires
                a == b * q + m,
                b > 0,
                m >= 0,
        ;
    }
    if 2 * m < b || (2 * m == b && q % 2 == 0) {
        q
    } else {
        q + 1
    }
}

/// `2` to the power `k`.
fn two_to(k: u32) -> (r: u128)
    requires
        k < 126,
    ensures
        r == pow2(k as nat),
        0 < r <= u128::MAX / 2,
{
    let mut r: u128 = 1;
    let mut i: u32 = 0;
    proof {
        lemma2_to64();
        lemma_pow2_126();
    }
    while i < k
        invariant
            i <= k < 126,
            r == pow2(i as nat),
            pow2(126) <= u128::MAX / 2,
        decreases k - i,
    {
        proof {
            lemma_pow2_unfold((i + 1) as nat);
            lemma_pow2_strictly_increases((i + 1) as nat, 127);
            lemma_pow2_unfold(127);
            lemma_pow2_mono((i + 1) as nat, 126);
        }
        r = r * 2;
        i = i + 1;
    }
    proof {
        lemma_pow2_mono(k as nat, 126);
        lemma_pow2_pos(k as nat);
    }
    r
}

proof fn lemma_pow2_mono(a: nat, b: nat)
    requires
        a <= b,
    ensures
        pow2(a) <= pow2(b),
{
    if a < b {
        lemma_pow2_strictly_increases(a, b);
    }
}

proof fn lemma_pow2_126()
    ensures
        pow2(126) == 0x4000_0000_0000_0000_0000_0000_0000_0000,
{
    lemma2_to64();
    lemma2_to64_rest();
    lemma_pow2_adds(63, 63);
}

// ---------------------------------------------------------------- the grid
/// `2^52`: the least significand of a normal number.
pub const HIDDEN: u64 = 0x10_0000_0000_0000;

/// `2^63`: the weight of the sign bit.
pub const SIGN: u64 = 0x8000_0000_0000_0000;

/// The bit pattern of infinity.
pub const INFINITY: u64 = 0x7FF0_0000_0000_0000;

/// Whether `num / den` has 53 bits before the point once `e` bits are dropped from its end.
pub open spec fn drops(num: nat, den: nat, e: nat) -> bool {
    pow2(52) * (den * pow2(e)) <= num < pow2(53) * (den * pow2(e))
}

/// How many bits have to go for 53 to be left.
pub open spec fn excess(num: nat, den: nat) -> nat {
    choose|e: nat| drops(num, den, e)
}

/// The multiple of the unit with at most 53 significant bits that is nearest to `num / den` units,
/// ties going to an even significand.
pub open spec fn closest(num: nat, den: nat) -> nat {
    if num < pow2(53) * den {
        nearest(num, den)
    } else {
        nearest(num, den * pow2(excess(num, den))) * pow2(excess(num, den))
    }
}

/// How many units make one: `2^1074`.
pub open spec fn units() -> nat {
    pow2(1074)
}

/// A double-precision number, by its bits.
#[derive(Clone, Copy, Debug, PartialEq, Eq, Structural)]
pub struct Double {
    pub bits: u64,
}

impl Double {
    /// Whether the sign bit is set.
    pub open spec fn negative(self) -> bool {
        self.bits >= SIGN
    }

    /// The bits without the sign.
    pub open spec fn unsigned(self) -> nat {
        self.bits as nat % SIGN as nat
    }

    /// The exponent field.
    pub open spec fn exponent(self) -> nat {
        self.unsigned() / HIDDEN as nat
    }

    /// The fraction field.
    pub open spec fn fraction(self) -> nat {
        self.unsigned() % HIDDEN as nat
    }

    pub open spec fn is_nan(self) -> bool {
        self.unsigned() > INFINITY
    }

    pub open spec fn is_infinite(self) -> bool {
        self.unsigned() == INFINITY
    }

    pub open spec fn is_finite(self) -> bool {
        self.unsigned() < INFINITY
    }

    pub open spec fn significand(self) -> nat {
        if self.exponent() == 0 {
            self.fraction()
        } else {
            self.fraction() + HIDDEN as nat
        }
    }

    pub open spec fn shift(self) -> nat {
        if self.exponent() == 0 {
            0
        } else {
            (self.exponent() - 1) as nat
        }
    }

    /// The distance from zero, in units. That of infinity is past every finite one.
    pub open spec fn magnitude(self) -> nat {
        self.significand() * pow2(self.shift())
    }

    /// The value in units.
    pub open spec fn amount(self) -> int {
        if self.negative() {
            -(self.magnitude() as int)
        } else {
            self.magnitude() as int
        }
    }

    /// A finite number that is not below zero; a zero may have the sign bit set.
    pub open spec fn is_amount(self) -> bool {
        self.is_finite() && (self.negative() ==> self.magnitude() == 0)
    }

    /// A number from zero to one.
    pub open spec fn is_share(self) -> bool {
        self.is_amount() && self.magnitude() <= units()
    }

    /// Whether this is `n` units, or infinity where `n` is past the finite numbers, without sign.
    pub open spec fn holds(self, n: nat) -> bool {
        &&& !self.negative()
        &&& !self.is_nan()
        &&& if n < pow2(2098) {
            self.is_finite() && self.magnitude() == n
        } else {
            self.is_infinite()
        }
    }
}

proof fn lemma_drops_unique(num: nat, den: nat, a: nat, b: nat)
    requires
        den > 0,
        drops(num, den, a),
        drops(num, den, b),
    ensures
        a == b,
{
    lemma_drops_order(num, den, a, b);
    lemma_drops_order(num, den, b, a);
}

proof fn lemma_drops_order(num: nat, den: nat, a: nat, b: nat)
    requires
        den > 0,
        num < pow2(53) * (den * pow2(a)),
        pow2(52) * (den * pow2(b)) <= num,
    ensures
        b <= a,
{
    if a < b {
        lemma_pow2_mono(a + 1, b);
        lemma_pow2_unfold(a + 1);
        lemma_pow2_unfold(53);
        assert(pow2(53) * (den * pow2(a)) <= pow2(52) * (den * pow2(b))) by (nonlinear_arith)
            requires
                pow2(53) == 2 * pow2(52),
                2 * pow2(a) <= pow2(b),
                den > 0,
        ;
    }
}

proof fn lemma_pow2_52()
    ensures
        pow2(52) == HIDDEN,
        pow2(53) == 2 * HIDDEN,
        pow2(63) == SIGN,
        pow2(64) == 2 * SIGN,
{
    lemma2_to64();
    lemma2_to64_rest();
}

/// What a number with 53 significant bits looks like.
proof fn lemma_parts(d: Double)
    ensures
        d.unsigned() < SIGN,
        d.unsigned() == d.exponent() * HIDDEN + d.fraction(),
        d.fraction() < HIDDEN,
        d.significand() < 2 * HIDDEN,
        d.exponent() > 0 ==> d.significand() >= HIDDEN,
        d.is_finite() <==> d.exponent() < 2047,
        d.is_finite() ==> d.shift() <= 2045,
        d.unsigned() == d.shift() * HIDDEN + d.significand(),
        d.bits == d.unsigned() + (if d.negative() {
            SIGN as nat
        } else {
            0
        }),
{
    lemma_fundamental_div_mod(d.unsigned() as int, HIDDEN as int);
    lemma_mod_bound(d.unsigned() as int, HIDDEN as int);
    lemma_mod_bound(d.bits as int, SIGN as int);
}

/// A finite number is below `2^2098` units.
proof fn lemma_finite_bound(d: Double)
    requires
        d.is_finite(),
    ensures
        d.magnitude() < pow2(2098),
{
    lemma_parts(d);
    lemma_pow2_52();
    lemma_pow2_adds(53, d.shift());
    lemma_pow2_mono(53 + d.shift(), 2098);
    lemma_pow2_pos(d.shift());
    assert(d.significand() * pow2(d.shift()) < pow2(53) * pow2(d.shift())) by (nonlinear_arith)
        requires
            d.significand() < pow2(53),
            pow2(d.shift()) > 0,
    ;
}

/// The bits of a significand and an exponent.
proof fn lemma_packed(mant: nat, e: nat, d: Double)
    requires
        mant <= 2 * HIDDEN,
        e > 0 ==> mant >= HIDDEN,
        d.bits == (if e * HIDDEN + mant < INFINITY {
            (e * HIDDEN + mant) as int
        } else {
            INFINITY as int
        }),
    ensures
        d.holds(mant * pow2(e)),
{
    lemma_pow2_52();
    lemma_parts(d);
    if e * HIDDEN + mant < INFINITY {
        if mant == 2 * HIDDEN {
            lemma_fundamental_div_mod_converse(
                d.unsigned() as int,
                HIDDEN as int,
                (e + 2) as int,
                0,
            );
            lemma_pow2_unfold(e + 1);
            assert(HIDDEN * (2 * pow2(e)) == (2 * HIDDEN) * pow2(e)) by (nonlinear_arith);
        } else if mant >= HIDDEN {
            lemma_fundamental_div_mod_converse(
                d.unsigned() as int,
                HIDDEN as int,
                (e + 1) as int,
                mant - HIDDEN,
            );
        } else {
            lemma_fundamental_div_mod_converse(d.unsigned() as int, HIDDEN as int, 0, mant as int);
        }
        assert(d.magnitude() == mant * pow2(e));
        lemma_finite_bound(d);
    } else {
        assert(mant >= HIDDEN);
        if e >= 2046 {
            lemma_pow2_adds(52, e);
            lemma_pow2_mono(2098, 52 + e);
            assert(mant * pow2(e) >= pow2(52) * pow2(e)) by (nonlinear_arith)
                requires
                    mant >= pow2(52),
            ;
        } else {
            assert(e == 2045 && mant == 2 * HIDDEN);
            lemma_pow2_adds(53, e);
        }
    }
}

/// The number nearest to `num / den * 2^e` units.
fn pack(num: u128, den: u128, e: u32) -> (d: Double)
    requires
        0 < den <= 0x4_0000_0000_0000_0000,
        num < 0x20_0000_0000_0000_0000_0000_0000_0000,
        e <= 4000,
    ensures
        d.holds(closest(num as nat * pow2(e as nat), den as nat)),
{
    let mut top: u128 = num;
    let mut up: u32 = 0;
    let mut base: u128 = den;
    let mut down: u32 = 0;
    proof {
        lemma_pow2_52();
        lemma2_to64();
        lemma_pow2_adds(64, 3);
    }
    while top < 0x10_0000_0000_0000u128 * den && up < e
        invariant
            0 < den <= 0x4_0000_0000_0000_0000,
            up <= e,
            top == num * pow2(up as nat),
            up > 0 ==> top < 0x20_0000_0000_0000 * den,
            num < 0x20_0000_0000_0000_0000_0000_0000_0000,
            top < 0x80_0000_0000_0000_0000_0000_0000_0000,
        decreases e - up,
    {
        proof {
            lemma_pow2_unfold((up + 1) as nat);
            assert(num * (2 * pow2(up as nat)) == 2 * (num * pow2(up as nat))) by (nonlinear_arith);
        }
        top = top * 2;
        up = up + 1;
    }
    if up == 0 {
        while top >= 0x20_0000_0000_0000u128 * base
            invariant
                0 < den <= 0x4_0000_0000_0000_0000,
                    top < 0x80_0000_0000_0000_0000_0000_0000_0000,
                base == den * pow2(down as nat),
                0 < base <= 0x8_0000_0000_0000_0000,
                down > 0 ==> HIDDEN * base <= top,
                down <= 67,
                pow2(67) == 0x8_0000_0000_0000_0000,
                down == 0 || base <= top,
                pow2(down as nat) <= base,
            decreases top - base,
        {
            proof {
                lemma_pow2_unfold((down + 1) as nat);
                assert(den * (2 * pow2(down as nat)) == 2 * (den * pow2(down as nat)))
                    by (nonlinear_arith);
                if down >= 67 {
                    lemma_pow2_mono(67, down as nat);
                }
                assert(pow2((down + 1) as nat) <= 2 * base) by (nonlinear_arith)
                    requires
                        pow2((down + 1) as nat) == 2 * pow2(down as nat),
                        pow2(down as nat) <= base,
                ;
            }
            base = base * 2;
            down = down + 1;
        }
    }
    let mant: u128 = round_div(top, base);
    let at: u32 = (e - up) + down;
    proof {
        lemma_rounded_pack(num as nat, den as nat, e as nat, up as nat, down as nat);
        lemma_nearest_bounds(top as nat, base as nat, (2 * HIDDEN) as nat);
        lemma_nearest_bounds(top as nat, base as nat, HIDDEN as nat);
    }
    let raw: u128 = (at as u128) * 0x10_0000_0000_0000u128 + mant;
    if raw < INFINITY as u128 {
        let d = Double { bits: raw as u64 };
        proof {
            lemma_packed(mant as nat, at as nat, d);
        }
        d
    } else {
        let d = Double { bits: INFINITY };
        proof {
            lemma_packed(mant as nat, at as nat, d);
        }
        d
    }
}

/// Rounding after the numerator grew by `2^up`, or the denominator by `2^down`, is rounding in
/// place.
proof fn lemma_rounded_pack(num: nat, den: nat, e: nat, up: nat, down: nat)
    requires
        den > 0,
        up <= e,
        up == 0 || down == 0,
        num * pow2(up) < pow2(53) * (den * pow2(down)),
        up < e || down > 0 ==> pow2(52) * (den * pow2(down)) <= num * pow2(up),
    ensures
        closest(num * pow2(e), den) == nearest(num * pow2(up), den * pow2(down)) * pow2(
            (e - up + down) as nat,
        ),
{
    let at = (e - up + down) as nat;
    let rest = (e - up) as nat;
    lemma_pow2_adds(up, rest);
    lemma_pow2_adds(rest, down);
    lemma_pow2_pos(rest);
    lemma_pow2_pos(down);
    let a = num * pow2(up);
    let b = den * pow2(down);
    assert(a * pow2(rest) == num * pow2(e)) by (nonlinear_arith)
        requires
            a == num * pow2(up),
            pow2(e) == pow2(up) * pow2(rest),
    ;
    assert(b * pow2(rest) == den * pow2(at)) by (nonlinear_arith)
        requires
            b == den * pow2(down),
            pow2(at) == pow2(rest) * pow2(down),
    ;
    assert(b > 0) by (nonlinear_arith)
        requires
            b == den * pow2(down),
            den > 0,
            pow2(down) > 0,
    ;
    lemma_nearest_scaled(a, b, pow2(rest));
    let n = num * pow2(e);
    assert(n < pow2(53) * (den * pow2(at))) by (nonlinear_arith)
        requires
            n == a * pow2(rest),
            den * pow2(at) == b * pow2(rest),
            a < pow2(53) * b,
            pow2(rest) > 0,
    ;
    if at == 0 {
        lemma2_to64();
        assert(b == den && a == n && nearest(a, b) * pow2(0) == nearest(a, b))
            by (nonlinear_arith)
            requires
                pow2(0) == 1,
                pow2(rest) == 1,
                pow2(down) == 1,
                b == den * pow2(down),
                n == a * pow2(rest),
        ;
    } else {
        assert(pow2(52) * (den * pow2(at)) <= n) by (nonlinear_arith)
            requires
                n == a * pow2(rest),
                den * pow2(at) == b * pow2(rest),
                pow2(52) * b <= a,
        ;
        assert(drops(n, den, at));
        lemma_drops_unique(n, den, at, excess(n, den));
        lemma_pow2_unfold(53);
        lemma_pow2_unfold(at);
        lemma_pow2_pos((at - 1) as nat);
        assert(pow2(53) * den <= n) by (nonlinear_arith)
            requires
                pow2(52) * (den * pow2(at)) <= n,
                pow2(53) == 2 * pow2(52),
                pow2(at) == 2 * pow2((at - 1) as nat),
                pow2((at - 1) as nat) >= 1,
        ;
    }
}

// ---------------------------------------------------------------- about rounding
proof fn lemma_excess_found(num: nat, den: nat)
    requires
        den > 0,
        pow2(52) * den <= num,
    ensures
        drops(num, den, excess(num, den)),
{
    let e = lemma_some_excess(num, den);
    assert(drops(num, den, e));
}

proof fn lemma_some_excess(num: nat, den: nat) -> (e: nat)
    requires
        den > 0,
        pow2(52) * den <= num,
    ensures
        drops(num, den, e),
    decreases num - den,
{
    lemma2_to64();
    lemma_pow2_52();
    if num < pow2(53) * den {
        assert(den * pow2(0) == den) by (nonlinear_arith)
            requires
                pow2(0) == 1,
        ;
        0
    } else {
        assert(num - 2 * den >= 0) by (nonlinear_arith)
            requires
                num >= 2 * HIDDEN * den,
                pow2(53) == 2 * HIDDEN,
        ;
        assert(pow2(52) * (2 * den) <= num) by (nonlinear_arith)
            requires
                num >= 2 * HIDDEN * den,
                pow2(52) == HIDDEN,
        ;
        let k = lemma_some_excess(num, 2 * den);
        lemma_pow2_unfold(k + 1);
        assert((2 * den) * pow2(k) == den * (2 * pow2(k))) by (nonlinear_arith);
        k + 1
    }
}

/// A fraction of units rounds the same however it is written.
proof fn lemma_closest_scaled(num: nat, den: nat, c: nat)
    requires
        den > 0,
        c > 0,
    ensures
        den * c > 0,
        closest(num * c, den * c) == closest(num, den),
{
    assert(den * c > 0) by (nonlinear_arith)
        requires
            den > 0,
            c > 0,
    ;
    assert((num * c < pow2(53) * (den * c)) == (num < pow2(53) * den)) by (nonlinear_arith)
        requires
            c > 0,
    ;
    lemma_nearest_scaled(num, den, c);
    if num >= pow2(53) * den {
        lemma_pow2_unfold(53);
        assert(pow2(52) * den <= num) by (nonlinear_arith)
            requires
                pow2(53) * den <= num,
                pow2(53) == 2 * pow2(52),
        ;
        lemma_excess_found(num, den);
        let e = excess(num, den);
        let b = den * pow2(e);
        assert((den * c) * pow2(e) == b * c) by (nonlinear_arith)
            requires
                b == den * pow2(e),
        ;
        assert(pow2(52) * (b * c) <= num * c < pow2(53) * (b * c)) by (nonlinear_arith)
            requires
                pow2(52) * b <= num < pow2(53) * b,
                c > 0,
        ;
        assert(drops(num * c, den * c, e));
        lemma_drops_unique(num * c, den * c, e, excess(num * c, den * c));
        lemma_pow2_pos(e);
        assert(b > 0) by (nonlinear_arith)
            requires
                b == den * pow2(e),
                den > 0,
                pow2(e) > 0,
        ;
        lemma_nearest_scaled(num, b, c);
    }
}

proof fn lemma_closest_zero(den: nat)
    requires
        den > 0,
    ensures
        closest(0, den) == 0,
{
    lemma_pow2_pos(53);
    assert(0 < pow2(53) * den) by (nonlinear_arith)
        requires
            pow2(53) > 0,
            den > 0,
    ;
    lemma_nearest_whole(0, den);
    assert(0 * den == 0);
}

/// Rounding never passes a power of two.
proof fn lemma_closest_below(num: nat, den: nat, j: nat)
    requires
        den > 0,
        num <= pow2(j) * den,
    ensures
        closest(num, den) <= pow2(j),
{
    if num < pow2(53) * den {
        if num == pow2(j) * den {
            lemma_nearest_whole(pow2(j), den);
        } else {
            lemma_nearest_bounds(num, den, pow2(j));
        }
    } else {
        lemma_pow2_unfold(53);
        assert(pow2(52) * den <= num) by (nonlinear_arith)
            requires
                pow2(53) * den <= num,
                pow2(53) == 2 * pow2(52),
        ;
        lemma_excess_found(num, den);
        let e = excess(num, den);
        let b = den * pow2(e);
        lemma_pow2_pos(e);
        lemma_pow2_adds(52, e);
        if j < 52 + e {
            lemma_pow2_strictly_increases(j, 52 + e);
            assert(num < pow2(52) * b) by (nonlinear_arith)
                requires
                    num <= pow2(j) * den,
                    pow2(j) < pow2(52 + e),
                    pow2(52 + e) == pow2(52) * pow2(e),
                    b == den * pow2(e),
                    den > 0,
            ;
        }
        let q = pow2((j - e) as nat);
        lemma_pow2_adds((j - e) as nat, e);
        assert(num <= q * b && b > 0) by (nonlinear_arith)
            requires
                num <= pow2(j) * den,
                pow2(j) == q * pow2(e),
                b == den * pow2(e),
                den > 0,
                pow2(e) > 0,
        ;
        if num == q * b {
            lemma_nearest_whole(q, b);
        } else {
            lemma_nearest_bounds(num, b, q);
        }
        assert(nearest(num, b) * pow2(e) <= q * pow2(e)) by (nonlinear_arith)
            requires
                nearest(num, b) <= q,
        ;
    }
}

/// What has 53 significant bits is not rounded.
proof fn lemma_closest_exact(mant: nat, e: nat)
    requires
        mant < pow2(53),
    ensures
        closest(mant * pow2(e), 1) == mant * pow2(e),
{
    let n = mant * pow2(e);
    lemma_pow2_pos(e);
    if n < pow2(53) * 1 {
        lemma_nearest_whole(n, 1);
        assert(n * 1 == n);
    } else {
        lemma_pow2_unfold(53);
        lemma_excess_found(n, 1);
        let k = excess(n, 1);
        lemma_pow2_pos(k);
        assert(1 * pow2(k) == pow2(k));
        if k > e {
            lemma_pow2_mono(e + 1, k);
            lemma_pow2_unfold(e + 1);
            assert(n < pow2(52) * pow2(k)) by (nonlinear_arith)
                requires
                    n == mant * pow2(e),
                    mant < 2 * pow2(52),
                    2 * pow2(e) <= pow2(k),
                    pow2(e) > 0,
            ;
        }
        let q = mant * pow2((e - k) as nat);
        lemma_pow2_adds((e - k) as nat, k);
        assert(n == q * pow2(k)) by (nonlinear_arith)
            requires
                n == mant * pow2(e),
                pow2(e) == pow2((e - k) as nat) * pow2(k),
                q == mant * pow2((e - k) as nat),
        ;
        lemma_nearest_whole(q, pow2(k));
    }
}

// ---------------------------------------------------------------- operations
/// A count as a number, in units.
pub open spec fn count_units(n: u64) -> nat {
    closest(n as nat * units(), 1)
}

/// One count over another, each taken as a number, in units.
pub open spec fn ratio_units(part: u64, whole: u64) -> nat {
    closest(count_units(part) * units(), count_units(whole))
}

/// `round(part / whole * k)`, every step rounded as numbers are, and a half away from zero.
pub open spec fn level_of(part: nat, whole: nat, k: nat) -> nat {
    let share = closest(part * units(), whole);
    let scaled = closest(share * k, 1);
    (2 * scaled + units()) / (2 * units())
}

impl Double {
    /// The number zero.
    pub fn zero() -> (d: Double)
        ensures
            d.bits == 0,
            d.holds(0),
            d.is_spend(),
    {
        let d = Double { bits: 0 };
        proof {
            lemma_packed(0, 0, d);
            lemma2_to64();
        }
        d
    }

    fn fields(self) -> (r: (u64, u32))
        ensures
            r.0 == self.significand(),
            r.1 == self.shift(),
            r.0 < 2 * HIDDEN,
            self.is_finite() ==> r.1 <= 2045,
            r.1 > 0 ==> r.0 >= HIDDEN,
            self.magnitude() == r.0 * pow2(r.1 as nat),
    {
        proof {
            lemma_parts(self);
        }
        let m: u64 = self.bits % SIGN;
        let e: u64 = m / HIDDEN;
        let f: u64 = m % HIDDEN;
        if e == 0 {
            (f, 0)
        } else {
            (f + HIDDEN, (e - 1) as u32)
        }
    }

    /// A count as a number.
    pub fn count(n: u64) -> (d: Double)
        ensures
            d == number(count_units(n)),
            d.is_amount(),
            d.magnitude() == count_units(n),
            n > 0 ==> d.magnitude() >= units(),
            d.magnitude() <= units() * pow2(64),
    {
        let d = pack(n as u128, 1, 1074);
        proof {
            lemma_count_bounds(n);
            lemma_number(d, count_units(n));
        }
        d
    }

    /// One count over another.
    pub fn ratio(part: u64, whole: u64) -> (d: Double)
        requires
            whole > 0,
        ensures
            d == number(ratio_units(part, whole)),
            d.holds(ratio_units(part, whole)),
    {
        let a = Double::count(part);
        let b = Double::count(whole);
        if part == 0 {
            proof {
                lemma_closest_zero(1);
                lemma_pow2_pos(1074);
                lemma_closest_zero(count_units(whole));
                assert(0 * units() == 0);
            }
            let d = Double::zero();
            proof {
                lemma_number(d, 0);
            }
            return d;
        }
        let (p, ps) = a.fields();
        let (w, ws) = b.fields();
        proof {
            lemma_count_shift(b);
            lemma_count_shift(a);
            lemma_pow2_pos(ws as nat);
            lemma_pow2_pos(1074);
            assert(w > 0) by (nonlinear_arith)
                requires
                    w * pow2(ws as nat) >= pow2(1074),
                    pow2(1074) > 0,
            ;
        }
        let e: u32 = (ps + 1074) - ws;
        proof {
            lemma_pow2_adds(ps as nat, 1074);
            lemma_pow2_adds(e as nat, ws as nat);
            let c = pow2(ws as nat);
            assert((p * pow2(e as nat)) * c == a.magnitude() * units()) by (nonlinear_arith)
                requires
                    a.magnitude() == p * pow2(ps as nat),
                    pow2(ps as nat) * units() == pow2(e as nat) * c,
            ;
            lemma_closest_scaled(p as nat * pow2(e as nat), w as nat, c);
        }
        let d = pack(p as u128, w as u128, e);
        proof {
            lemma_number(d, ratio_units(part, whole));
        }
        d
    }
}

proof fn lemma_count_bounds(n: u64)
    ensures
        n > 0 ==> count_units(n) >= units(),
        count_units(n) <= units() * pow2(64),
        units() * pow2(64) < pow2(2098),
{
    lemma_pow2_52();
    lemma_pow2_adds(1074, 64);
    lemma_pow2_strictly_increases(1138, 2098);
    assert(n * units() <= pow2(1138) * 1) by (nonlinear_arith)
        requires
            n < pow2(64),
            pow2(1138) == units() * pow2(64),
    ;
    lemma_closest_below(n as nat * units(), 1, 1138);
    if n > 0 {
        assert(pow2(1074) * 1 <= n * units()) by (nonlinear_arith)
            requires
                n > 0,
                units() == pow2(1074),
        ;
        lemma_closest_above(n as nat * units(), 1, 1074);
    }
}

/// Rounding never falls below a power of two.
proof fn lemma_closest_above(num: nat, den: nat, j: nat)
    requires
        den > 0,
        pow2(j) * den <= num,
    ensures
        pow2(j) <= closest(num, den),
{
    if num < pow2(53) * den {
        lemma_nearest_bounds(num, den, pow2(j));
    } else {
        lemma_pow2_unfold(53);
        assert(pow2(52) * den <= num) by (nonlinear_arith)
            requires
                pow2(53) * den <= num,
                pow2(53) == 2 * pow2(52),
        ;
        lemma_excess_found(num, den);
        let e = excess(num, den);
        let b = den * pow2(e);
        lemma_pow2_pos(e);
        assert(b > 0) by (nonlinear_arith)
            requires
                b == den * pow2(e),
                den > 0,
                pow2(e) > 0,
        ;
        lemma_nearest_bounds(num, b, pow2(52));
        if j <= 52 + e {
            lemma_pow2_adds(52, e);
            lemma_pow2_mono(j, 52 + e);
            assert(pow2(52) * pow2(e) <= nearest(num, b) * pow2(e)) by (nonlinear_arith)
                requires
                    pow2(52) <= nearest(num, b),
            ;
        } else {
            let q = pow2((j - e) as nat);
            lemma_pow2_adds((j - e) as nat, e);
            assert(q * b <= num) by (nonlinear_arith)
                requires
                    pow2(j) * den <= num,
                    pow2(j) == q * pow2(e),
                    b == den * pow2(e),
            ;
            lemma_nearest_bounds(num, b, q);
            assert(q * pow2(e) <= nearest(num, b) * pow2(e)) by (nonlinear_arith)
                requires
                    q <= nearest(num, b),
            ;
        }
    }
}

/// The exponent of a count.
proof fn lemma_count_shift(d: Double)
    requires
        d.is_finite(),
        units() <= d.magnitude() <= units() * pow2(64),
    ensures
        1021 <= d.shift() <= 1087,
{
    lemma_parts(d);
    lemma_pow2_52();
    let s = d.shift();
    lemma_pow2_adds(53, s);
    lemma_pow2_adds(52, s);
    lemma_pow2_adds(1074, 64);
    lemma_pow2_pos(s);
    if s < 1021 {
        lemma_pow2_mono(53 + s, 1074);
        assert(d.significand() * pow2(s) < pow2(53) * pow2(s)) by (nonlinear_arith)
            requires
                d.significand() < pow2(53),
                pow2(s) > 0,
        ;
    }
    if s > 1087 {
        lemma_pow2_strictly_increases(1138, 52 + s);
        assert(d.significand() * pow2(s) >= pow2(52) * pow2(s)) by (nonlinear_arith)
            requires
                d.significand() >= pow2(52),
        ;
    }
}

// ---------------------------------------------------------------- order
/// The bits without the sign grow with the distance from zero.
proof fn lemma_magnitude_grows(a: Double, b: Double)
    requires
        a.unsigned() < b.unsigned(),
    ensures
        a.magnitude() < b.magnitude(),
{
    lemma_parts(a);
    lemma_parts(b);
    lemma_pow2_52();
    let s = a.shift();
    let t = b.shift();
    lemma_pow2_pos(s);
    lemma_pow2_pos(t);
    assert(a.exponent() <= b.exponent()) by (nonlinear_arith)
        requires
            a.unsigned() == a.exponent() * HIDDEN + a.fraction(),
            b.unsigned() == b.exponent() * HIDDEN + b.fraction(),
            a.unsigned() < b.unsigned(),
            a.fraction() < HIDDEN,
            b.fraction() < HIDDEN,
            a.fraction() >= 0,
            b.fraction() >= 0,
    ;
    if s == t {
        assert(a.significand() * pow2(s) < b.significand() * pow2(s)) by (nonlinear_arith)
            requires
                a.significand() < b.significand(),
                pow2(s) > 0,
        ;
    } else {
        assert(s < t);
        lemma_pow2_mono(s + 1, t);
        lemma_pow2_unfold(s + 1);
        assert(a.significand() * pow2(s) < b.significand() * pow2(t)) by (nonlinear_arith)
            requires
                a.significand() < 2 * HIDDEN,
                b.significand() >= HIDDEN,
                2 * pow2(s) <= pow2(t),
                pow2(s) > 0,
        ;
    }
}

/// There is one number, without sign, for each number of units.
proof fn lemma_one_number(a: Double, b: Double, n: nat)
    requires
        a.holds(n),
        b.holds(n),
    ensures
        a == b,
{
    lemma_parts(a);
    lemma_parts(b);
    if a.unsigned() < b.unsigned() {
        lemma_magnitude_grows(a, b);
    }
    if b.unsigned() < a.unsigned() {
        lemma_magnitude_grows(b, a);
    }
}

/// The number that is `n` units.
pub open spec fn number(n: nat) -> Double {
    choose|d: Double| d.holds(n)
}

proof fn lemma_number(d: Double, n: nat)
    requires
        d.holds(n),
    ensures
        d == number(n),
{
    lemma_one_number(d, number(n), n);
}

/// The bits of the infinite number are worth `2^2098` units.
proof fn lemma_infinite_units(d: Double)
    requires
        d.is_infinite(),
    ensures
        d.magnitude() == pow2(2098),
{
    lemma_parts(d);
    lemma_pow2_52();
    lemma_pow2_adds(52, 2046);
    lemma_fundamental_div_mod_converse(d.unsigned() as int, HIDDEN as int, 2047, 0);
}

impl Double {
    /// Not below zero and not undefined: a sum of money. Infinity is one.
    pub open spec fn is_spend(self) -> bool {
        !self.is_nan() && (self.negative() ==> self.magnitude() == 0)
    }

    /// Whether this is greater than `other`; nothing compares with what is no number.
    pub open spec fn above(self, other: Double) -> bool {
        !self.is_nan() && !other.is_nan() && self.amount() > other.amount()
    }

    /// Whether this is at least `other`.
    pub open spec fn reaches(self, other: Double) -> bool {
        !self.is_nan() && !other.is_nan() && self.amount() >= other.amount()
    }

    /// The rank of this number in the total order that also places zeros by sign and what is no
    /// number at either end.
    pub open spec fn rank(self) -> u64 {
        if self.negative() {
            (u64::MAX - self.bits) as u64
        } else {
            (self.bits + SIGN) as u64
        }
    }

    /// The rank in the total order.
    pub fn order_key(self) -> (k: u64)
        ensures
            k == self.rank(),
    {
        if self.bits >= SIGN {
            u64::MAX - self.bits
        } else {
            self.bits + SIGN
        }
    }

    /// Whether this is no number.
    pub fn is_undefined(self) -> (r: bool)
        ensures
            r == self.is_nan(),
    {
        self.bits % SIGN > INFINITY
    }

    /// Whether the sign bit is set.
    pub fn is_negative(self) -> (r: bool)
        ensures
            r == self.negative(),
    {
        self.bits >= SIGN
    }

    /// Whether this is a finite number that is not below zero.
    pub fn is_finite_amount(self) -> (r: bool)
        ensures
            r == self.is_amount(),
    {
        proof {
            lemma_parts(self);
            lemma_zero_bits(self);
        }
        self.bits % SIGN < INFINITY && (self.bits < SIGN || self.bits == SIGN)
    }

    /// Whether this is at least `other`.
    pub fn ge(self, other: Double) -> (r: bool)
        ensures
            r == self.reaches(other),
    {
        if self.is_undefined() || other.is_undefined() {
            return false;
        }
        let a: u64 = self.bits % SIGN;
        let b: u64 = other.bits % SIGN;
        proof {
            lemma_parts(self);
            lemma_parts(other);
            if a < b {
                lemma_magnitude_grows(self, other);
            }
            if b < a {
                lemma_magnitude_grows(other, self);
            }
            lemma_zero_bits(self);
            lemma_zero_bits(other);
        }
        if self.bits < SIGN {
            if other.bits < SIGN {
                a >= b
            } else {
                true
            }
        } else if other.bits < SIGN {
            a == 0 && b == 0
        } else {
            a <= b
        }
    }

    /// Whether this is greater than `other`.
    pub fn gt(self, other: Double) -> (r: bool)
        ensures
            r == self.above(other),
    {
        self.ge(other) && !other.ge(self)
    }
}

proof fn lemma_zero_bits(d: Double)
    ensures
        (d.unsigned() == 0) == (d.magnitude() == 0),
{
    lemma_parts(d);
    lemma_pow2_pos(d.shift());
    assert((d.magnitude() == 0) == (d.significand() == 0)) by (nonlinear_arith)
        requires
            d.magnitude() == d.significand() * pow2(d.shift()),
            pow2(d.shift()) > 0,
    ;
}

// ---------------------------------------------------------------- sums and products
/// The sum of two sums of money.
pub open spec fn plus(a: Double, b: Double) -> Double {
    if a.magnitude() == 0 && b.magnitude() == 0 {
        Double {
            bits: if a.negative() && b.negative() {
                SIGN
            } else {
                0
            },
        }
    } else {
        number(closest(a.magnitude() + b.magnitude(), 1))
    }
}

/// The sum of amounts, one after the other, starting with `start`.
pub open spec fn summed(start: Double, amounts: Seq<Double>) -> Double
    decreases amounts.len(),
{
    if amounts.len() == 0 {
        start
    } else {
        plus(summed(start, amounts.drop_last()), amounts.last())
    }
}

/// A number times a count: the sign stays, and so does what is infinite or no number.
pub open spec fn product(d: Double, k: u64) -> Double {
    if !d.is_finite() {
        d
    } else {
        Double {
            bits: (number(closest(d.magnitude() * k as nat, 1)).bits + if d.negative() {
                SIGN
            } else {
                0
            }) as u64,
        }
    }
}

impl Double {
    /// The number zero with the sign bit set: the sum of nothing.
    pub fn minus_zero() -> (d: Double)
        ensures
            d.bits == SIGN,
            d.is_spend(),
    {
        let d = Double { bits: SIGN };
        proof {
            lemma_parts(d);
            lemma_zero_bits(d);
        }
        d
    }

    /// Adds two sums of money.
    pub fn add(a: Double, b: Double) -> (d: Double)
        requires
            a.is_spend(),
            b.is_spend(),
        ensures
            d == plus(a, b),
            d.is_spend(),
    {
        let x: u64 = a.bits % SIGN;
        let y: u64 = b.bits % SIGN;
        proof {
            lemma_parts(a);
            lemma_parts(b);
            lemma_zero_bits(a);
            lemma_zero_bits(b);
        }
        if x == 0 && y == 0 {
            let d = if a.bits >= SIGN && b.bits >= SIGN {
                Double { bits: SIGN }
            } else {
                Double { bits: 0 }
            };
            proof {
                lemma_zero_bits(d);
            }
            return d;
        }
        if x >= y {
            Double::add_ordered(a, b)
        } else {
            Double::add_ordered(b, a)
        }
    }

    fn add_ordered(a: Double, b: Double) -> (d: Double)
        requires
            a.is_spend(),
            b.is_spend(),
            a.unsigned() >= b.unsigned(),
            a.unsigned() > 0,
        ensures
            d == number(closest(a.magnitude() + b.magnitude(), 1)),
            d.is_spend(),
    {
        let ghost sum = a.magnitude() + b.magnitude();
        if a.bits % SIGN >= INFINITY {
            let d = Double { bits: INFINITY };
            proof {
                lemma_infinite_units(a);
                lemma_closest_above(sum, 1, 2098);
                lemma_parts(d);
                lemma_number(d, closest(sum, 1));
            }
            return d;
        }
        let (p, s) = a.fields();
        let (q, t) = b.fields();
        proof {
            lemma_parts(a);
            lemma_parts(b);
            assert(s >= t) by (nonlinear_arith)
                requires
                    s * HIDDEN + p >= t * HIDDEN + q,
                    p < 2 * HIDDEN,
                    t > 0 ==> q >= HIDDEN,
                    s > 0 ==> p >= HIDDEN,
                    s == 0 ==> (p < HIDDEN || t <= s),
            ;
        }
        let gap: u32 = s - t;
        proof {
            lemma_pow2_adds(gap as nat, t as nat);
            assert(p * pow2(s as nat) == (p * pow2(gap as nat)) * pow2(t as nat))
                by (nonlinear_arith)
                requires
                    pow2(s as nat) == pow2(gap as nat) * pow2(t as nat),
            ;
        }
        if gap <= 63 {
            let scaled: u128 = two_to(gap);
            proof {
                lemma_pow2_52();
                lemma_pow2_mono(gap as nat, 63);
                assert(p * scaled <= 0x20_0000_0000_0000 * 0x8000_0000_0000_0000)
                    by (nonlinear_arith)
                    requires
                        p < 0x20_0000_0000_0000,
                        scaled <= 0x8000_0000_0000_0000,
                        p >= 0,
                        scaled >= 0,
                ;
            }
            let joined: u128 = (p as u128) * scaled + q as u128;
            let d = pack(joined, 1, t);
            proof {
                assert(joined * pow2(t as nat) == sum) by (nonlinear_arith)
                    requires
                        joined == p * scaled + q,
                        scaled == pow2(gap as nat),
                        sum == (p * pow2(gap as nat)) * pow2(t as nat) + q * pow2(t as nat),
                ;
                lemma_number(d, closest(sum, 1));
            }
            d
        } else {
            let d = Double { bits: a.bits % SIGN };
            proof {
                lemma_absorbed(p as nat, s as nat, q as nat, t as nat);
                lemma_same_size(a, d);
                lemma_finite_bound(a);
                lemma_number(d, closest(sum, 1));
            }
            d
        }
    }

    /// Multiplies by a count.
    pub fn times(self, k: u64) -> (d: Double)
        requires
            k < 0x1_0000_0000,
        ensures
            d == product(self, k),
    {
        if self.bits % SIGN >= INFINITY {
            return self;
        }
        let (p, s) = self.fields();
        proof {
            assert(p * k < 0x20_0000_0000_0000 * 0x1_0000_0000) by (nonlinear_arith)
                requires
                    p < 0x20_0000_0000_0000,
                    k < 0x1_0000_0000,
                    p >= 0,
                    k >= 0,
            ;
        }
        let wide: u128 = (p as u128) * (k as u128);
        let d = pack(wide, 1, s);
        proof {
            lemma_pow2_pos(s as nat);
            assert(wide * pow2(s as nat) == self.magnitude() * k) by (nonlinear_arith)
                requires
                    wide == p * k,
                    self.magnitude() == p * pow2(s as nat),
            ;
            lemma_number(d, closest(self.magnitude() * k as nat, 1));
            lemma_parts(d);
        }
        if self.bits >= SIGN {
            Double { bits: d.bits + SIGN }
        } else {
            d
        }
    }
}

proof fn lemma_same_size(a: Double, b: Double)
    requires
        b.bits == a.unsigned(),
    ensures
        b.magnitude() == a.magnitude(),
        !b.negative(),
        b.unsigned() == a.unsigned(),
{
    lemma_parts(a);
}

/// What is far below the last bit of a number is lost when it is added.
proof fn lemma_absorbed(p: nat, s: nat, q: nat, t: nat)
    requires
        HIDDEN <= p < 2 * HIDDEN,
        q < 2 * HIDDEN,
        s >= t + 64,
    ensures
        closest(p * pow2(s) + q * pow2(t), 1) == p * pow2(s),
{
    lemma_pow2_52();
    let n = p * pow2(s) + q * pow2(t);
    let u = pow2(s);
    lemma_pow2_pos(t);
    lemma_pow2_adds(64, t);
    lemma_pow2_mono(64 + t, s);
    let low = q * pow2(t);
    assert(2 * low < u && low >= 0) by (nonlinear_arith)
        requires
            low == q * pow2(t),
            q < 2 * HIDDEN,
            u >= (2 * SIGN) * pow2(t),
            pow2(t) > 0,
            HIDDEN * 8 <= SIGN,
            q >= 0,
    ;
    assert(pow2(52) * (1 * u) <= n < pow2(53) * (1 * u)) by (nonlinear_arith)
        requires
            n == p * u + low,
            pow2(52) == HIDDEN,
            pow2(53) == 2 * HIDDEN,
            HIDDEN <= p < 2 * HIDDEN,
            0 <= 2 * low < u,
    ;
    assert(drops(n, 1, s));
    lemma_drops_unique(n, 1, s, excess(n, 1));
    lemma_fundamental_div_mod_converse(n as int, u as int, p as int, low as int);
    lemma_pow2_mono(1, s);
    lemma2_to64();
    assert(pow2(53) * 1 <= n) by (nonlinear_arith)
        requires
            pow2(52) * (1 * u) <= n,
            pow2(53) == 2 * pow2(52),
            u >= 2,
    ;
    assert(1 * u == u);
}

// ---------------------------------------------------------------- levels
impl Double {
    /// `round(part / whole * k)`.
    pub fn level(part: Double, whole: Double, k: u64) -> (r: u64)
        requires
            part.is_amount(),
            whole.is_amount(),
            part.magnitude() <= whole.magnitude(),
            whole.magnitude() > 0,
            1 <= k <= 8,
        ensures
            r == level_of(part.magnitude(), whole.magnitude(), k as nat),
            r <= k,
    {
        let (p, s) = part.fields();
        let (w, t) = whole.fields();
        let ghost share = closest(part.magnitude() * units(), whole.magnitude());
        let ghost scaled = closest(share * k as nat, 1);
        proof {
            lemma_parts(part);
            lemma_parts(whole);
            if part.unsigned() > whole.unsigned() {
                lemma_magnitude_grows(whole, part);
            }
            lemma_zero_bits(whole);
            assert(s <= t) by (nonlinear_arith)
                requires
                    s * HIDDEN + p <= t * HIDDEN + w,
                    w < 2 * HIDDEN,
                    s > 0 ==> p >= HIDDEN,
                    t > 0 ==> w >= HIDDEN,
                    t == 0 ==> (w < HIDDEN || s <= t),
            ;
            lemma_level_bounds(part.magnitude(), whole.magnitude(), k as nat);
        }
        if t - s >= 6 {
            proof {
                lemma_far_apart(p as nat, s as nat, w as nat, t as nat);
                lemma_small_level(part.magnitude(), whole.magnitude(), k as nat);
            }
            return 0;
        }
        let e: u32 = 1074 - (t - s);
        proof {
            let c = pow2(t as nat);
            lemma_pow2_pos(t as nat);
            lemma_pow2_adds(s as nat, 1074);
            lemma_pow2_adds(e as nat, t as nat);
            assert((p * pow2(e as nat)) * c == part.magnitude() * units()) by (nonlinear_arith)
                requires
                    part.magnitude() == p * pow2(s as nat),
                    pow2(s as nat) * units() == pow2(e as nat) * c,
            ;
            assert(w > 0) by (nonlinear_arith)
                requires
                    w * c > 0,
                    w >= 0,
            ;
            lemma_closest_scaled(p as nat * pow2(e as nat), w as nat, c);
        }
        let d = pack(p as u128, w as u128, e);
        let m = d.times(k);
        let (n, z) = m.fields();
        proof {
            lemma_pow2_adds(1074, 3);
            lemma_pow2_strictly_increases(1077, 2098);
            lemma_pow2_strictly_increases(1074, 2098);
            assert(d.magnitude() == share);
            lemma_number_holds(scaled, d, k);
            assert(m.magnitude() == scaled);
            lemma_pow2_52();
        }
        if z <= 1010 {
            proof {
                lemma_pow2_adds(53, z as nat);
                lemma_pow2_mono(53 + z as nat, 1063);
                lemma_pow2_pos(z as nat);
                assert(n * pow2(z as nat) < pow2(53) * pow2(z as nat)) by (nonlinear_arith)
                    requires
                        n < pow2(53),
                        pow2(z as nat) > 0,
                ;
                lemma_pow2_adds(1063, 11);
                lemma2_to64();
                lemma_fundamental_div_mod_converse(
                    (2 * scaled + units()) as int,
                    (2 * units()) as int,
                    0,
                    (2 * scaled + units()) as int,
                );
            }
            return 0;
        }
        proof {
            if z > 1025 {
                lemma_parts(m);
                lemma_pow2_adds(52, z as nat);
                lemma_pow2_mono(1078, 52 + z as nat);
                lemma_pow2_unfold(1078);
                lemma_pow2_pos(1077);
                assert(n * pow2(z as nat) >= pow2(52) * pow2(z as nat)) by (nonlinear_arith)
                    requires
                        n >= pow2(52),
                ;
            }
        }
        let one: u128 = two_to(1074 - z);
        proof {
            let c = pow2(z as nat);
            lemma_pow2_pos(z as nat);
            lemma_pow2_adds((1074 - z) as nat, z as nat);
            lemma_pow2_mono((1074 - z) as nat, 63);
            lemma2_to64_rest();
            let a = 2 * n as nat + one as nat;
            let b = 2 * one as nat;
            assert(a * c == 2 * scaled + units() && b * c == 2 * units()) by (nonlinear_arith)
                requires
                    a == 2 * n + one,
                    b == 2 * one,
                    scaled == n * c,
                    units() == one * c,
            ;
            lemma_scaled_div(a, b, c);
        }
        let r: u128 = (2 * (n as u128) + one) / (2 * one);
        r as u64
    }
}

proof fn lemma_number_holds(n: nat, d: Double, k: u64)
    requires
        d.is_finite(),
        !d.negative(),
        k < 0x1_0000_0000,
        n == closest(d.magnitude() * k as nat, 1),
        n < pow2(2098),
    ensures
        product(d, k).is_finite(),
        !product(d, k).negative(),
        product(d, k).magnitude() == n,
{
    let e = lemma_representable(d.magnitude() * k as nat, 1);
    lemma_number(e, n);
    lemma_parts(e);
}

/// Every number of units that rounding gives is the worth of some number.
proof fn lemma_representable(num: nat, den: nat) -> (d: Double)
    requires
        den > 0,
    ensures
        d.holds(closest(num, den)),
{
    lemma_pow2_52();
    let (mant, e) = if num < pow2(53) * den {
        lemma2_to64();
        lemma_nearest_bounds(num, den, pow2(53));
        let near = nearest(num, den);
        assert(near * pow2(0) == near) by (nonlinear_arith)
            requires
                pow2(0) == 1,
        ;
        (near, 0nat)
    } else {
        lemma_pow2_unfold(53);
        assert(pow2(52) * den <= num) by (nonlinear_arith)
            requires
                pow2(53) * den <= num,
                pow2(53) == 2 * pow2(52),
        ;
        lemma_excess_found(num, den);
        let e = excess(num, den);
        lemma_pow2_pos(e);
        assert(den * pow2(e) > 0) by (nonlinear_arith)
            requires
                den > 0,
                pow2(e) > 0,
        ;
        lemma_nearest_bounds(num, den * pow2(e), pow2(52));
        lemma_nearest_bounds(num, den * pow2(e), pow2(53));
        (nearest(num, den * pow2(e)), e)
    };
    let bits = if e * HIDDEN + mant < INFINITY {
        (e * HIDDEN + mant) as u64
    } else {
        INFINITY
    };
    let d = Double { bits };
    lemma_packed(mant, e, d);
    d
}

/// A share of at most one stays at most one, and `k` times it at most `k`.
proof fn lemma_level_bounds(part: nat, whole: nat, k: nat)
    requires
        part <= whole,
        whole > 0,
        1 <= k <= 8,
    ensures
        closest(part * units(), whole) <= units(),
        closest(closest(part * units(), whole) * k, 1) <= k * units(),
        level_of(part, whole, k) <= k,
        k * units() <= pow2(1077),
{
    let share = closest(part * units(), whole);
    assert(part * units() <= pow2(1074) * whole) by (nonlinear_arith)
        requires
            part <= whole,
            units() == pow2(1074),
    ;
    lemma_closest_below(part * units(), whole, 1074);
    lemma_pow2_52();
    lemma2_to64();
    lemma_pow2_adds(1074, 3);
    lemma_pow2_pos(1074);
    assert(k * units() <= pow2(1077)) by (nonlinear_arith)
        requires
            k <= 8,
            pow2(1077) == units() * 8,
    ;
    assert(share * k <= k * units()) by (nonlinear_arith)
        requires
            share <= units(),
    ;
    lemma_closest_at_most(share * k, k);
    let scaled = closest(share * k, 1);
    let a = 2 * scaled + units();
    let b = 2 * units();
    lemma_fundamental_div_mod(a as int, b as int);
    lemma_mod_bound(a as int, b as int);
    assert(b * k == 2 * (k * units())) by (nonlinear_arith)
        requires
            b == 2 * units(),
    ;
    assert(a / b <= k) by (nonlinear_arith)
        requires
            a == b * (a / b) + a % b,
            a % b >= 0,
            a <= b * k + units(),
            b == 2 * units(),
            units() > 0,
    ;
}

proof fn lemma_closest_at_most(n: nat, k: nat)
    requires
        1 <= k <= 8,
        n <= k * units(),
    ensures
        closest(n, 1) <= k * units(),
{
    lemma_pow2_52();
    lemma2_to64();
    if n >= pow2(53) * 1 {
        lemma_pow2_unfold(53);
        lemma_excess_found(n, 1);
        let e = excess(n, 1);
        lemma_pow2_pos(e);
        assert(1 * pow2(e) == pow2(e));
        lemma_pow2_adds(52, e);
        lemma_pow2_adds(1074, 3);
        if e > 1025 {
            lemma_pow2_mono(1078, 52 + e);
            lemma_pow2_unfold(1078);
            lemma_pow2_pos(1077);
            assert(k * units() <= pow2(1077)) by (nonlinear_arith)
                requires
                    k <= 8,
                    pow2(1077) == units() * 8,
            ;
        }
        let q = k * pow2((1074 - e) as nat);
        lemma_pow2_adds((1074 - e) as nat, e);
        assert(q * pow2(e) == k * units()) by (nonlinear_arith)
            requires
                q == k * pow2((1074 - e) as nat),
                units() == pow2((1074 - e) as nat) * pow2(e),
        ;
        if n == q * pow2(e) {
            lemma_nearest_whole(q, pow2(e));
        } else {
            lemma_nearest_bounds(n, pow2(e), q);
        }
        assert(nearest(n, pow2(e)) * pow2(e) <= q * pow2(e)) by (nonlinear_arith)
            requires
                nearest(n, pow2(e)) <= q,
        ;
    } else {
        lemma_nearest_whole(n, 1);
    }
}

proof fn lemma_far_apart(p: nat, s: nat, w: nat, t: nat)
    requires
        p < 2 * HIDDEN,
        w >= HIDDEN,
        t >= s + 6,
    ensures
        32 * (p * pow2(s)) <= w * pow2(t),
{
    lemma2_to64();
    lemma_pow2_adds(s, 6);
    lemma_pow2_mono(s + 6, t);
    lemma_pow2_pos(s);
    assert(32 * (p * pow2(s)) <= w * pow2(t)) by (nonlinear_arith)
        requires
            p < 2 * HIDDEN,
            w >= HIDDEN,
            pow2(t) >= pow2(s) * 64,
            pow2(s) > 0,
    ;
}

proof fn lemma_small_level(part: nat, whole: nat, k: nat)
    requires
        whole > 0,
        32 * part <= whole,
        1 <= k <= 8,
    ensures
        level_of(part, whole, k) == 0,
{
    lemma2_to64();
    lemma_pow2_adds(1069, 5);
    lemma_pow2_adds(1069, 3);
    lemma_pow2_pos(1069);
    let small = pow2(1069);
    assert(part * units() <= small * whole) by (nonlinear_arith)
        requires
            32 * part <= whole,
            units() == small * 32,
    ;
    lemma_closest_below(part * units(), whole, 1069);
    let share = closest(part * units(), whole);
    assert(share * k <= pow2(1072) * 1) by (nonlinear_arith)
        requires
            share <= small,
            k <= 8,
            pow2(1072) == small * 8,
    ;
    lemma_closest_below(share * k, 1, 1072);
    let scaled = closest(share * k, 1);
    lemma_fundamental_div_mod_converse(
        (2 * scaled + units()) as int,
        (2 * units()) as int,
        0,
        (2 * scaled + units()) as int,
    );
}

// ---------------------------------------------------------------- decimal text
/// `10` to the power `p`.
pub open spec fn ten(p: nat) -> nat
    decreases p,
{
    if p == 0 {
        1
    } else {
        10 * ten((p - 1) as nat)
    }
}

/// The last `p` decimal digits of `n`.
pub open spec fn last_digits(n: nat, p: nat) -> Seq<char>
    decreases p,
{
    if p == 0 {
        Seq::empty()
    } else {
        last_digits(n / 10, (p - 1) as nat).push(digit(n % 10))
    }
}

/// `n` over `10^p`, written out with `p` decimals.
pub open spec fn pointed(n: nat, p: nat) -> Seq<char> {
    if p == 0 {
        dec(n)
    } else {
        dec(n / ten(p)) + seq!['.'] + last_digits(n, p)
    }
}

impl Double {
    /// The size of this number with `p` decimals, rounded to the nearest, ties to even.
    pub open spec fn size_text(self, p: nat) -> Seq<char> {
        if self.is_infinite() {
            "inf"@
        } else {
            pointed(nearest(self.magnitude() * ten(p), units()), p)
        }
    }

    /// This number with `p` decimals.
    pub open spec fn text(self, p: nat) -> Seq<char> {
        if self.is_nan() {
            "NaN"@
        } else if self.negative() {
            "-"@ + self.size_text(p)
        } else {
            self.size_text(p)
        }
    }

    /// This number with `p` decimals and its sign, plus or minus.
    pub open spec fn signed_text(self, p: nat) -> Seq<char> {
        if self.is_nan() {
            "NaN"@
        } else if self.negative() {
            "-"@ + self.size_text(p)
        } else {
            "+"@ + self.size_text(p)
        }
    }
}

/// What a list of decimal digits is worth, the lowest first.
spec fn worth(s: Seq<u8>) -> nat
    decreases s.len(),
{
    if s.len() == 0 {
        0
    } else {
        s[0] as nat + 10 * worth(s.skip(1))
    }
}

spec fn are_digits(s: Seq<u8>) -> bool {
    forall|i: int| 0 <= i < s.len() ==> #[trigger] s[i] < 10
}

proof fn lemma_worth_push(s: Seq<u8>, x: u8)
    ensures
        worth(s.push(x)) == worth(s) + x * ten(s.len()),
    decreases s.len(),
{
    if s.len() == 0 {
        assert(s.push(x).skip(1) =~= Seq::<u8>::empty());
        assert(worth(Seq::<u8>::empty()) == 0);
        assert(s.push(x)[0] == x);
        assert(x * ten(0) == x) by (nonlinear_arith)
            requires
                ten(0) == 1,
        ;
    } else {
        let t = s.skip(1);
        assert(s.push(x).skip(1) =~= t.push(x));
        assert(s.push(x)[0] == s[0]);
        lemma_worth_push(t, x);
        assert(x * ten(s.len()) == 10 * (x * ten(t.len()))) by (nonlinear_arith)
            requires
                ten(s.len()) == 10 * ten(t.len()),
        ;
    }
}

/// Written from the highest to the lowest, the digits are the decimal text.
proof fn lemma_worth_text(s: Seq<u8>)
    requires
        s.len() > 0,
        are_digits(s),
        s.len() > 1 ==> s.last() > 0,
    ensures
        dec(worth(s)) =~= Seq::new(s.len(), |j: int| digit(s[s.len() - 1 - j] as nat)),
        s.last() > 0 ==> worth(s) > 0,
    decreases s.len(),
{
    let t = s.skip(1);
    if s.len() == 1 {
        assert(t =~= Seq::<u8>::empty());
        assert(worth(t) == 0);
        assert(worth(s) == s[0]);
    } else {
        assert(t.last() == s.last());
        lemma_worth_text(t);
        let n = worth(s);
        assert(n / 10 == worth(t) && n % 10 == s[0]);
        assert(dec(n) == dec(n / 10).push(digit(n % 10)));
    }
}

/// Twice a list of digits.
fn doubled(d: &Vec<u8>) -> (r: Vec<u8>)
    requires
        are_digits(d@),
        d@.len() > 0,
        d@.last() > 0,
    ensures
        are_digits(r@),
        r@.len() > 0,
        r@.last() > 0,
        worth(r@) == 2 * worth(d@),
{
    let mut out: Vec<u8> = Vec::new();
    let mut carry: u8 = 0;
    let mut i: usize = 0;
    proof {
        assert(d@.take(0) =~= Seq::<u8>::empty());
        assert(d@.take(d@.len() as int) =~= d@);
    }
    while i < d.len()
        invariant
            i <= d@.len(),
            are_digits(d@),
            d@.last() > 0,
            out@.len() == i,
            are_digits(out@),
            carry <= 1,
            worth(out@) + carry * ten(i as nat) == 2 * worth(d@.take(i as int)),
            i == d@.len() && carry == 0 ==> i > 0 && out@.last() > 0 || i == 0,
        decreases d@.len() - i,
    {
        let x: u8 = 2 * d[i] + carry;
        proof {
            assert(d@.take(i + 1) =~= d@.take(i as int).push(d@[i as int]));
            lemma_worth_push(d@.take(i as int), d@[i as int]);
            lemma_worth_push(out@, x % 10);
            let z = ten(i as nat);
            assert((x % 10) * z + (x / 10) * (10 * z) == 2 * (d@[i as int] * z) + carry * z)
                by (nonlinear_arith)
                requires
                    x == 2 * d@[i as int] + carry,
                    x == 10 * (x / 10) + x % 10,
            ;
            assert(ten((i + 1) as nat) == 10 * z);
        }
        out.push(x % 10);
        carry = x / 10;
        i = i + 1;
    }
    if carry > 0 {
        proof {
            lemma_worth_push(out@, carry);
        }
        out.push(carry);
    }
    out
}

/// Writes `m * 2^k` in decimal.
fn shifted_decimal(m: u64, k: u32) -> (r: String)
    requires
        m > 0,
    ensures
        r@ == dec(m as nat * pow2(k as nat)),
{
    let mut digits: Vec<u8> = Vec::new();
    let mut rest: u64 = m;
    proof {
        lemma2_to64();
        assert(rest * ten(0) == rest) by (nonlinear_arith)
            requires
                ten(0) == 1,
        ;
    }
    while rest > 0
        invariant
            are_digits(digits@),
            worth(digits@) + rest * ten(digits@.len()) == m,
            rest == 0 ==> digits@.len() > 0 && digits@.last() > 0,
        decreases rest,
    {
        let x: u8 = (rest % 10) as u8;
        proof {
            lemma_worth_push(digits@, x);
            let z = ten(digits@.len());
            assert(x * z + (rest / 10) * (10 * z) == rest * z) by (nonlinear_arith)
                requires
                    x == rest % 10,
                    rest == 10 * (rest / 10) + rest % 10,
            ;
            assert(ten(digits@.push(x).len()) == 10 * z);
        }
        digits.push(x);
        rest = rest / 10;
    }
    proof {
        let z = ten(digits@.len());
        assert(0 * z == 0) by (nonlinear_arith);
        assert(m * pow2(0) == m) by (nonlinear_arith)
            requires
                pow2(0) == 1,
        ;
    }
    let mut i: u32 = 0;
    while i < k
        invariant
            i <= k,
            are_digits(digits@),
            digits@.len() > 0,
            digits@.last() > 0,
            worth(digits@) == m * pow2(i as nat),
        decreases k - i,
    {
        proof {
            lemma_pow2_unfold((i + 1) as nat);
            assert(m * (2 * pow2(i as nat)) == 2 * (m * pow2(i as nat))) by (nonlinear_arith);
        }
        digits = doubled(&digits);
        i = i + 1;
    }
    let mut r = String::new();
    let mut j: usize = digits.len();
    while j > 0
        invariant
            j <= digits@.len(),
            are_digits(digits@),
            r@ =~= Seq::new(
                (digits@.len() - j) as nat,
                |x: int| digit(digits@[digits@.len() - 1 - x] as nat),
            ),
        decreases j,
    {
        j = j - 1;
        let c = (48 + digits[j]) as char;
        r.push(c);
    }
    proof {
        lemma_worth_text(digits@);
    }
    r
}

/// A number with none, one or two decimals, digit by digit.
proof fn lemma_few_decimals(n: nat, p: nat)
    requires
        p <= 2,
    ensures
        p == 0 ==> ten(p) == 1 && pointed(n, p) == dec(n),
        p == 1 ==> ten(p) == 10 && pointed(n, p) == dec(n / 10).push('.').push(digit(n % 10)),
        p == 2 ==> ten(p) == 100 && pointed(n, p) == dec(n / 100).push('.').push(
            digit(n / 10 % 10),
        ).push(digit(n % 10)),
{
    reveal_with_fuel(ten, 3);
    reveal_with_fuel(last_digits, 3);
    if p == 1 {
        assert(last_digits(n, 1) =~= seq![digit(n % 10)]);
        assert(pointed(n, 1) =~= dec(n / 10).push('.').push(digit(n % 10)));
    } else if p == 2 {
        assert(last_digits(n, 2) =~= seq![digit(n / 10 % 10), digit(n % 10)]);
        assert(pointed(n, 2) =~= dec(n / 100).push('.').push(digit(n / 10 % 10)).push(
            digit(n % 10),
        ));
    }
}

impl Double {
    /// Writes the size of the number with `p` decimals.
    pub fn size(self, p: u32) -> (r: String)
        requires
            p <= 2,
            !self.is_nan(),
        ensures
            r@ == self.size_text(p as nat),
    {
        proof {
            lemma_parts(self);
        }
        if self.bits % SIGN == INFINITY {
            return "inf".to_owned();
        }
        let (m, s) = self.fields();
        let scale: u64 = if p == 0 {
            1
        } else if p == 1 {
            10
        } else {
            100
        };
        let ghost n = nearest(self.magnitude() * ten(p as nat), units());
        proof {
            lemma_pow2_pos(1074);
            lemma_few_decimals(n, p as nat);
        }
        assert(self.size_text(p as nat) == pointed(n, p as nat));
        if s >= 1074 {
            let ghost whole = m as nat * pow2((s - 1074) as nat);
            proof {
                lemma_pow2_adds((s - 1074) as nat, 1074);
                assert(self.magnitude() * ten(p as nat) == (whole * scale) * units())
                    by (nonlinear_arith)
                    requires
                        self.magnitude() == m * pow2(s as nat),
                        pow2(s as nat) == pow2((s - 1074) as nat) * units(),
                        whole == m * pow2((s - 1074) as nat),
                        ten(p as nat) == scale,
                ;
                lemma_nearest_whole(whole * scale as nat, units());
                assert(n == whole * scale);
                if p == 0 {
                    assert(n == whole) by (nonlinear_arith)
                        requires
                            n == whole * scale,
                            scale == 1,
                    ;
                } else if p == 1 {
                    assert(n == 10 * whole) by (nonlinear_arith)
                        requires
                            n == whole * scale,
                            scale == 10,
                    ;
                } else {
                    assert(n == 100 * whole) by (nonlinear_arith)
                        requires
                            n == whole * scale,
                            scale == 100,
                    ;
                }
            }
            let mut r = shifted_decimal(m, s - 1074);
            if p > 0 {
                r.push('.');
                r.push('0');
                if p == 2 {
                    r.push('0');
                }
            }
            proof {
                if p == 0 {
                    assert(r@ =~= pointed(n, 0));
                } else if p == 1 {
                    assert(n / 10 == whole && n % 10 == 0);
                    assert(digit(0) == '0');
                    assert(r@ =~= dec(whole).push('.').push('0'));
                } else {
                    assert(n / 100 == whole && n / 10 % 10 == 0 && n % 10 == 0);
                    assert(digit(0) == '0');
                    assert(r@ =~= dec(whole).push('.').push('0').push('0'));
                }
            }
            return r;
        }
        let down: u32 = 1074 - s;
        assert(m * scale < 0x4000_0000_0000_0000) by (nonlinear_arith)
            requires
                m < 0x20_0000_0000_0000,
                1 <= scale <= 100,
        ;
        let wide: u64 = m * scale;
        proof {
            lemma_pow2_adds(s as nat, down as nat);
            lemma_pow2_pos(s as nat);
            lemma_pow2_pos(down as nat);
            assert(self.magnitude() * ten(p as nat) == wide * pow2(s as nat)) by (nonlinear_arith)
                requires
                    self.magnitude() == m * pow2(s as nat),
                    wide == m * scale,
                    ten(p as nat) == scale,
            ;
            assert(units() == pow2(down as nat) * pow2(s as nat)) by (nonlinear_arith)
                requires
                    units() == pow2(s as nat) * pow2(down as nat),
            ;
            lemma_nearest_scaled(wide as nat, pow2(down as nat), pow2(s as nat));
        }
        let units_of: u64 = if down < 64 {
            let under: u128 = two_to(down);
            let q: u128 = round_div(wide as u128, under);
            proof {
                lemma_nearest_bounds(wide as nat, under as nat, (wide + 1) as nat);
                assert(wide < (wide + 1) * under) by (nonlinear_arith)
                    requires
                        under >= 1,
                        wide >= 0,
                ;
            }
            q as u64
        } else {
            proof {
                lemma_pow2_52();
                lemma_pow2_mono(64, down as nat);
                lemma_fundamental_div_mod_converse(
                    wide as int,
                    pow2(down as nat) as int,
                    0,
                    wide as int,
                );
            }
            0
        };
        assert(units_of == n);
        let mut r = decimal(units_of / scale);
        if p > 0 {
            r.push('.');
            if p == 2 {
                let c = (48 + (units_of / 10 % 10) as u8) as char;
                r.push(c);
            }
            let c = (48 + (units_of % 10) as u8) as char;
            r.push(c);
            proof {
                if p == 1 {
                    assert(r@ =~= dec(n / 10).push('.').push(digit(n % 10)));
                } else {
                    assert(r@ =~= dec(n / 100).push('.').push(digit(n / 10 % 10)).push(
                        digit(n % 10),
                    ));
                }
            }
        }
        r
    }

    /// Writes the number with `p` decimals.
    pub fn fixed(self, p: u32) -> (r: String)
        requires
            p <= 2,
        ensures
            r@ == self.text(p as nat),
    {
        if self.is_undefined() {
            return "NaN".to_owned();
        }
        let t = self.size(p);
        if self.bits >= SIGN {
            let mut r = "-".to_owned();
            r.append(t.as_str());
            r
        } else {
            t
        }
    }

    /// Writes the number with `p` decimals and its sign.
    pub fn signed(self, p: u32) -> (r: String)
        requires
            p <= 2,
        ensures
            r@ == self.signed_text(p as nat),
    {
        if self.is_undefined() {
            return "NaN".to_owned();
        }
        let t = self.size(p);
        let mut r = if self.bits >= SIGN {
            "-".to_owned()
        } else {
            "+".to_owned()
        };
        r.append(t.as_str());
        r
    }
}

// ---------------------------------------------------------------- the rest of one
proof fn lemma_nearest_grows(a: nat, b: nat, d: nat)
    requires
        a <= b,
        d > 0,
    ensures
        nearest(a, d) <= nearest(b, d),
{
    lemma_fundamental_div_mod(a as int, d as int);
    lemma_fundamental_div_mod(b as int, d as int);
    lemma_mod_bound(a as int, d as int);
    lemma_mod_bound(b as int, d as int);
    let p = a / d;
    let q = b / d;
    assert(p <= q) by (nonlinear_arith)
        requires
            a == d * p + a % d,
            b == d * q + b % d,
            0 <= a % d < d,
            0 <= b % d < d,
            a <= b,
    ;
}

/// Rounding keeps the order.
proof fn lemma_closest_grows(a: nat, b: nat, den: nat)
    requires
        a <= b,
        den > 0,
    ensures
        closest(a, den) <= closest(b, den),
{
    lemma_pow2_unfold(53);
    lemma_pow2_pos(52);
    assert(pow2(52) * den <= pow2(53) * den) by (nonlinear_arith)
        requires
            pow2(52) <= pow2(53),
    ;
    if b < pow2(53) * den {
        lemma_nearest_grows(a, b, den);
    } else {
        lemma_excess_found(b, den);
        let f = excess(b, den);
        lemma_pow2_pos(f);
        lemma_pow2_adds(52, f);
        assert(pow2(52 + f) * den <= b) by (nonlinear_arith)
            requires
                pow2(52) * (den * pow2(f)) <= b,
                pow2(52 + f) == pow2(52) * pow2(f),
        ;
        if a < pow2(53) * den {
            lemma_closest_below(a, den, 53);
            lemma_closest_above(b, den, 53);
        } else {
            lemma_excess_found(a, den);
            let e = excess(a, den);
            lemma_pow2_pos(e);
            if e == f {
                assert(den * pow2(e) > 0) by (nonlinear_arith)
                    requires
                        den > 0,
                        pow2(e) > 0,
                ;
                lemma_nearest_grows(a, b, den * pow2(e));
                assert(nearest(a, den * pow2(e)) * pow2(e) <= nearest(b, den * pow2(e)) * pow2(e))
                    by (nonlinear_arith)
                    requires
                        nearest(a, den * pow2(e)) <= nearest(b, den * pow2(e)),
                ;
            } else {
                lemma_drops_order(b, den, f, e);
                lemma_pow2_adds(53, e);
                assert(a <= pow2(53 + e) * den) by (nonlinear_arith)
                    requires
                        a < pow2(53) * (den * pow2(e)),
                        pow2(53 + e) == pow2(53) * pow2(e),
                ;
                lemma_closest_below(a, den, 53 + e);
                lemma_closest_above(b, den, 52 + f);
                lemma_pow2_mono(53 + e, 52 + f);
            }
        }
    }
}

/// A share lies between `2^-64` and one.
pub proof fn lemma_ratio_bounds(part: u64, whole: u64)
    requires
        0 < part <= whole,
    ensures
        pow2(1010) <= ratio_units(part, whole) <= units(),
{
    lemma_count_bounds(part);
    lemma_count_bounds(whole);
    lemma_pow2_pos(1074);
    let a = count_units(part);
    let b = count_units(whole);
    assert(part * units() <= whole * units()) by (nonlinear_arith)
        requires
            part <= whole,
    ;
    lemma_closest_grows(part as nat * units(), whole as nat * units(), 1);
    assert(a * units() <= pow2(1074) * b) by (nonlinear_arith)
        requires
            a <= b,
            units() == pow2(1074),
    ;
    lemma_closest_below(a * units(), b, 1074);
    lemma_pow2_adds(1010, 64);
    assert(pow2(1010) * b <= a * units()) by (nonlinear_arith)
        requires
            b <= units() * pow2(64),
            units() == pow2(1010) * pow2(64),
            a >= units(),
    ;
    lemma_closest_above(a * units(), b, 1010);
}

/// One less a number.
pub open spec fn rest(d: Double) -> Double {
    number(closest((units() - d.magnitude()) as nat, 1))
}

impl Double {
    /// One less this number.
    pub fn complement(self) -> (d: Double)
        requires
            self.is_amount(),
            self.magnitude() == 0 || pow2(1010) <= self.magnitude() <= units(),
        ensures
            d == rest(self),
    {
        if self.bits % SIGN == 0 {
            proof {
                lemma_zero_bits(self);
                assert(1 * units() == units());
            }
            return Double::count(1);
        }
        let (p, s) = self.fields();
        proof {
            lemma_zero_bits(self);
            lemma_parts(self);
            lemma_pow2_52();
            lemma_pow2_adds(53, s as nat);
            lemma_pow2_adds(52, s as nat);
            lemma_pow2_pos(s as nat);
            if s < 957 {
                lemma_pow2_mono(53 + s as nat, 1010);
                assert(p * pow2(s as nat) < pow2(53) * pow2(s as nat)) by (nonlinear_arith)
                    requires
                        p < pow2(53),
                        pow2(s as nat) > 0,
                ;
            }
            if s > 1022 {
                lemma_pow2_strictly_increases(1074, 52 + s as nat);
                assert(p * pow2(s as nat) >= pow2(52) * pow2(s as nat)) by (nonlinear_arith)
                    requires
                        p >= pow2(52),
                ;
            }
            lemma_pow2_adds((1074 - s) as nat, s as nat);
            lemma_pow2_mono((1074 - s) as nat, 117);
            lemma_pow2_adds(64, 53);
        }
        let one: u128 = two_to(1074 - s);
        proof {
            assert(p <= one) by (nonlinear_arith)
                requires
                    p * pow2(s as nat) <= one * pow2(s as nat),
                    pow2(s as nat) > 0,
            ;
            assert((one - p) * pow2(s as nat) == units() - self.magnitude()) by (nonlinear_arith)
                requires
                    units() == one * pow2(s as nat),
                    self.magnitude() == p * pow2(s as nat),
            ;
            assert(one <= 0x20_0000_0000_0000_0000_0000_0000_0000);
        }
        let d = pack(one - p as u128, 1, s);
        proof {
            lemma_number(d, closest((units() - self.magnitude()) as nat, 1));
        }
        d
    }
}

/// A share of some counted things is a number between zero and one.
pub proof fn lemma_rate_is_share(part: u64, whole: u64, d: Double)
    requires
        part <= whole,
        whole > 0,
        d.holds(ratio_units(part, whole)),
    ensures
        d.is_amount(),
        d.magnitude() <= units(),
        d.magnitude() == 0 || pow2(1010) <= d.magnitude(),
        part == 0 ==> d.magnitude() == 0,
{
    lemma_pow2_strictly_increases(1074, 2098);
    lemma_pow2_pos(1074);
    if part > 0 {
        lemma_ratio_bounds(part, whole);
    } else {
        lemma_count_bounds(whole);
        lemma_closest_zero(1);
        lemma_closest_zero(count_units(whole));
        assert(0 * units() == 0);
        lemma_pow2_pos(2098);
    }
}

/// A part over a whole is a number from zero to one, and so is what is left of one.
pub proof fn lemma_rates_are_shares(part: u64, whole: u64)
    requires
        part <= whole,
        whole > 0,
    ensures
        number(ratio_units(part, whole)).is_share(),
        rest(number(ratio_units(part, whole))).is_share(),
{
    lemma_counts_grow(part, whole);
    let d = lemma_representable(count_units(part) * units(), count_units(whole));
    lemma_number(d, ratio_units(part, whole));
    lemma_rate_is_share(part, whole, d);
    let left = (units() - d.magnitude()) as nat;
    let e = lemma_representable(left, 1);
    lemma_number(e, closest(left, 1));
    lemma_closest_below(left, 1, 1074);
    lemma_pow2_strictly_increases(1074, 2098);
}

/// A larger count is no smaller number.
pub proof fn lemma_counts_grow(a: u64, b: u64)
    requires
        a <= b,
    ensures
        count_units(a) <= count_units(b),
        b > 0 ==> count_units(b) > 0,
{
    assert(a * units() <= b * units()) by (nonlinear_arith)
        requires
            a <= b,
    ;
    lemma_closest_grows(a as nat * units(), b as nat * units(), 1);
    lemma_count_bounds(b);
    lemma_pow2_pos(1074);
}

// ---------------------------------------------------------------- differences and quotients
/// The bits of what is no number.
pub const UNDEFINED: u64 = 0x7FF8_0000_0000_0000;

/// A number of units with a sign.
pub open spec fn with_sign(d: Double, negative: bool) -> Double {
    Double {
        bits: if negative {
            (d.unsigned() + SIGN) as u64
        } else {
            d.unsigned() as u64
        },
    }
}

/// One number less another.
pub open spec fn difference(a: Double, b: Double) -> Double {
    if a.is_nan() || b.is_nan() {
        Double { bits: UNDEFINED }
    } else if a.is_infinite() {
        if b.is_infinite() && a.negative() == b.negative() {
            Double { bits: UNDEFINED }
        } else {
            a
        }
    } else if b.is_infinite() {
        with_sign(b, !b.negative())
    } else {
        let n = a.amount() - b.amount();
        if n == 0 {
            with_sign(Double { bits: 0 }, a.negative() && !b.negative())
        } else if n > 0 {
            number(closest(n as nat, 1))
        } else {
            with_sign(number(closest((-n) as nat, 1)), true)
        }
    }
}

/// One number over another that is above zero.
pub open spec fn quotient(a: Double, b: Double) -> Double {
    if a.is_nan() || (a.is_infinite() && b.is_infinite()) {
        Double { bits: UNDEFINED }
    } else if a.is_infinite() {
        a
    } else if b.is_infinite() {
        with_sign(Double { bits: 0 }, a.negative())
    } else {
        with_sign(number(closest(a.magnitude() * units(), b.magnitude())), a.negative())
    }
}

proof fn lemma_signed(d: Double, negative: bool)
    ensures
        with_sign(d, negative).unsigned() == d.unsigned(),
        with_sign(d, negative).negative() == negative,
        with_sign(d, negative).magnitude() == d.magnitude(),
{
    lemma_parts(d);
    let e = with_sign(d, negative);
    lemma_parts(e);
    assert(e.unsigned() == d.unsigned()) by {
        if negative {
            lemma_fundamental_div_mod_converse(
                e.bits as int,
                SIGN as int,
                1,
                d.unsigned() as int,
            );
        } else {
            lemma_fundamental_div_mod_converse(
                e.bits as int,
                SIGN as int,
                0,
                d.unsigned() as int,
            );
        }
    }
}

/// What is far below the last bit of a number is lost when it is taken away.
proof fn lemma_absorbed_below(p: nat, s: nat, q: nat, t: nat)
    requires
        HIDDEN <= p < 2 * HIDDEN,
        q < 2 * HIDDEN,
        s >= t + 64,
    ensures
        q * pow2(t) <= p * pow2(s),
        closest((p * pow2(s) - q * pow2(t)) as nat, 1) == p * pow2(s),
{
    lemma_pow2_52();
    let u = pow2(s);
    lemma_pow2_pos(t);
    lemma_pow2_pos(s);
    lemma_pow2_adds(64, t);
    lemma_pow2_mono(64 + t, s);
    let low = q * pow2(t);
    assert(8 * low < u && low >= 0) by (nonlinear_arith)
        requires
            low == q * pow2(t),
            q < 2 * HIDDEN,
            u >= (2 * SIGN) * pow2(t),
            pow2(t) > 0,
            HIDDEN * 16 <= SIGN,
            q >= 0,
    ;
    assert(p * u >= u) by (nonlinear_arith)
        requires
            p >= 1,
            u > 0,
    ;
    let n = (p * u - low) as nat;
    if low == 0 {
        lemma_closest_exact(p, s);
    } else {
        let (e, v, m) = if p > HIDDEN {
            (s, u, p)
        } else {
            ((s - 1) as nat, pow2((s - 1) as nat), 2 * HIDDEN as nat)
        };
        lemma_pow2_unfold(s);
        lemma_pow2_pos((s - 1) as nat);
        assert(p * u == m * v) by (nonlinear_arith)
            requires
                p > HIDDEN ==> m == p && v == u,
                p <= HIDDEN ==> m == 2 * p && u == 2 * v,
        ;
        assert(pow2(52) * (1 * v) <= n < pow2(53) * (1 * v)) by (nonlinear_arith)
            requires
                n == m * v - low,
                pow2(52) == HIDDEN,
                pow2(53) == 2 * HIDDEN,
                HIDDEN < m <= 2 * HIDDEN,
                0 < 4 * low < v,
        ;
        assert(drops(n, 1, e));
        lemma_drops_unique(n, 1, e, excess(n, 1));
        assert(n == (m - 1) * v + (v - low)) by (nonlinear_arith)
            requires
                n == m * v - low,
        ;
        lemma_fundamental_div_mod_converse(n as int, v as int, m - 1, v - low);
        lemma2_to64();
        assert(v >= 2) by {
            lemma_pow2_mono(1, e);
        }
        assert(pow2(53) * 1 <= n) by (nonlinear_arith)
            requires
                pow2(52) * (1 * v) <= n,
                pow2(53) == 2 * pow2(52),
                v >= 2,
        ;
        assert(1 * v == v);
        assert(nearest(n, v) == m);
    }
}

impl Double {
    fn signed_as(self, negative: bool) -> (d: Double)
        ensures
            d == with_sign(self, negative),
    {
        let m: u64 = self.bits % SIGN;
        proof {
            lemma_parts(self);
        }
        if negative {
            Double { bits: m + SIGN }
        } else {
            Double { bits: m }
        }
    }

    fn take_ordered(a: Double, b: Double) -> (d: Double)
        requires
            a.is_finite(),
            b.is_finite(),
            a.unsigned() > b.unsigned(),
        ensures
            a.magnitude() > b.magnitude(),
            d == number(closest((a.magnitude() - b.magnitude()) as nat, 1)),
    {
        let (p, s) = a.fields();
        let (q, t) = b.fields();
        let ghost left = (a.magnitude() - b.magnitude()) as nat;
        proof {
            lemma_magnitude_grows(b, a);
            lemma_parts(a);
            lemma_parts(b);
            assert(s >= t) by (nonlinear_arith)
                requires
                    s * HIDDEN + p >= t * HIDDEN + q,
                    p < 2 * HIDDEN,
                    t > 0 ==> q >= HIDDEN,
                    s > 0 ==> p >= HIDDEN,
                    s == 0 ==> (p < HIDDEN || t <= s),
            ;
        }
        let gap: u32 = s - t;
        proof {
            lemma_pow2_adds(gap as nat, t as nat);
            lemma_pow2_pos(t as nat);
            assert(p * pow2(s as nat) == (p * pow2(gap as nat)) * pow2(t as nat))
                by (nonlinear_arith)
                requires
                    pow2(s as nat) == pow2(gap as nat) * pow2(t as nat),
            ;
        }
        if gap <= 63 {
            let scaled: u128 = two_to(gap);
            proof {
                lemma_pow2_52();
                lemma_pow2_mono(gap as nat, 63);
                assert(p * scaled <= 0x20_0000_0000_0000 * 0x8000_0000_0000_0000)
                    by (nonlinear_arith)
                    requires
                        p < 0x20_0000_0000_0000,
                        scaled <= 0x8000_0000_0000_0000,
                        p >= 0,
                        scaled >= 0,
                ;
                assert(p * scaled > q) by (nonlinear_arith)
                    requires
                        (p * scaled) * pow2(t as nat) > q * pow2(t as nat),
                        pow2(t as nat) > 0,
                ;
            }
            let rest: u128 = (p as u128) * scaled - q as u128;
            let d = pack(rest, 1, t);
            proof {
                assert(rest * pow2(t as nat) == left) by (nonlinear_arith)
                    requires
                        rest == p * scaled - q,
                        scaled == pow2(gap as nat),
                        left == (p * pow2(gap as nat)) * pow2(t as nat) - q * pow2(t as nat),
                ;
                lemma_number(d, closest(left, 1));
            }
            d
        } else {
            let d = Double { bits: a.bits % SIGN };
            proof {
                lemma_absorbed_below(p as nat, s as nat, q as nat, t as nat);
                lemma_same_size(a, d);
                lemma_finite_bound(a);
                lemma_number(d, closest(left, 1));
            }
            d
        }
    }

    /// Takes one number from another.
    pub fn minus(a: Double, b: Double) -> (d: Double)
        ensures
            d == difference(a, b),
    {
        if a.is_undefined() || b.is_undefined() {
            return Double { bits: UNDEFINED };
        }
        let x: u64 = a.bits % SIGN;
        let y: u64 = b.bits % SIGN;
        let less = a.bits >= SIGN;
        let low = b.bits >= SIGN;
        if x == INFINITY {
            if y == INFINITY && less == low {
                return Double { bits: UNDEFINED };
            }
            return a;
        }
        if y == INFINITY {
            return b.signed_as(!low);
        }
        proof {
            lemma_zero_bits(a);
            lemma_zero_bits(b);
            lemma_parts(a);
            lemma_parts(b);
            lemma_signed(a, false);
            lemma_signed(b, false);
            if x < y {
                lemma_magnitude_grows(a, b);
            }
            if y < x {
                lemma_magnitude_grows(b, a);
            }
        }
        if less != low {
            if x == 0 && y == 0 {
                return Double { bits: 0 }.signed_as(less);
            }
            let m = Double::add(a.signed_as(false), b.signed_as(false));
            if less {
                m.signed_as(true)
            } else {
                m
            }
        } else if x == y {
            Double { bits: 0 }.signed_as(false)
        } else if x > y {
            let m = Double::take_ordered(a, b);
            if less {
                m.signed_as(true)
            } else {
                m
            }
        } else {
            let m = Double::take_ordered(b, a);
            if less {
                m
            } else {
                m.signed_as(true)
            }
        }
    }

    /// Divides one number by another that is above zero.
    pub fn over(self, b: Double) -> (d: Double)
        requires
            !b.negative(),
            !b.is_nan(),
            b.magnitude() > 0,
        ensures
            d == quotient(self, b),
    {
        let far = b.bits == INFINITY;
        proof {
            lemma_parts(self);
            lemma_parts(b);
            lemma_zero_bits(b);
        }
        if self.is_undefined() || (self.bits % SIGN == INFINITY && far) {
            return Double { bits: UNDEFINED };
        }
        if self.bits % SIGN == INFINITY {
            return self;
        }
        let less = self.bits >= SIGN;
        if far {
            return Double { bits: 0 }.signed_as(less);
        }
        let (p, s) = self.fields();
        let (w, t) = b.fields();
        let ghost n = self.magnitude() * units();
        let ghost m = b.magnitude();
        proof {
            lemma_pow2_pos(t as nat);
            lemma_pow2_pos(s as nat);
            lemma_pow2_adds(s as nat, 1074);
            assert(w > 0) by (nonlinear_arith)
                requires
                    w * pow2(t as nat) > 0,
                    w >= 0,
            ;
        }
        let size = if t <= s + 1074 {
            let e: u32 = s + 1074 - t;
            proof {
                let c = pow2(t as nat);
                lemma_pow2_adds(e as nat, t as nat);
                assert((p * pow2(e as nat)) * c == n) by (nonlinear_arith)
                    requires
                        n == (p * pow2(s as nat)) * units(),
                        pow2(s as nat) * units() == pow2(e as nat) * c,
                ;
                lemma_closest_scaled(p as nat * pow2(e as nat), w as nat, c);
            }
            let d = pack(p as u128, w as u128, e);
            proof {
                lemma_number(d, closest(n, m));
            }
            d
        } else {
            let k: u32 = t - s - 1074;
            proof {
                lemma_pow2_adds((s + 1074) as nat, k as nat);
            }
            if k <= 3 {
                let up: u128 = two_to(k);
                proof {
                    lemma2_to64();
                    lemma_pow2_mono(k as nat, 3);
                    let c = pow2((s + 1074) as nat);
                    lemma_pow2_pos((s + 1074) as nat);
                    assert(p * c == n) by (nonlinear_arith)
                        requires
                            n == (p * pow2(s as nat)) * units(),
                            c == pow2(s as nat) * units(),
                    ;
                    assert((w * up) * c == m) by (nonlinear_arith)
                        requires
                            m == w * pow2(t as nat),
                            pow2(t as nat) == c * up,
                    ;
                    assert(w * up <= 0x20_0000_0000_0000 * 8 && w * up > 0) by (nonlinear_arith)
                        requires
                            0 < w < 0x20_0000_0000_0000,
                            0 < up <= 8,
                    ;
                    lemma_closest_scaled(p as nat, (w * up) as nat, c);
                    assert(p * pow2(0) == p) by (nonlinear_arith)
                        requires
                            pow2(0) == 1,
                    ;
                }
                let d = pack(p as u128, w as u128 * up, 0);
                proof {
                    lemma_number(d, closest(n, m));
                }
                d
            } else {
                let d = Double::zero();
                proof {
                    lemma_tiny(p as nat, s as nat, w as nat, t as nat, n, m);
                    lemma_number(d, closest(n, m));
                }
                d
            }
        };
        size.signed_as(less)
    }
}

/// A quotient far below the unit is zero.
proof fn lemma_tiny(p: nat, s: nat, w: nat, t: nat, n: nat, m: nat)
    requires
        p < 2 * HIDDEN,
        w >= HIDDEN,
        t >= s + 1078,
        n == (p * pow2(s)) * units(),
        m == w * pow2(t),
    ensures
        closest(n, m) == 0,
{
    lemma2_to64();
    lemma_pow2_pos(s);
    lemma_pow2_pos(1074);
    lemma_pow2_adds(s, 1074);
    lemma_pow2_adds(s + 1074, 4);
    lemma_pow2_mono(s + 1078, t);
    let c = pow2(s + 1074);
    lemma_pow2_pos(s + 1074);
    assert(n == p * c) by (nonlinear_arith)
        requires
            n == (p * pow2(s)) * units(),
            c == pow2(s) * units(),
    ;
    assert(2 * n < m && m > 0) by (nonlinear_arith)
        requires
            n == p * c,
            m == w * pow2(t),
            pow2(t) >= c * 16,
            p < 2 * HIDDEN,
            w >= HIDDEN,
            c > 0,
    ;
    lemma_pow2_52();
    assert(n < pow2(53) * m) by (nonlinear_arith)
        requires
            2 * n < m,
            pow2(53) == 2 * HIDDEN,
    ;
    lemma_fundamental_div_mod_converse(n as int, m as int, 0, n as int);
}

/// Zero is worth nothing.
pub proof fn lemma_zero()
    ensures
        (Double { bits: 0 }).magnitude() == 0,
        (Double { bits: 0 }).amount() == 0,
        !(Double { bits: 0 }).is_nan(),
        !(Double { bits: 0 }).negative(),
        (Double { bits: 0 }).is_amount(),
{
    lemma_zero_bits(Double { bits: 0 });
    lemma_parts(Double { bits: 0 });
}

/// What is worth more than nothing has no sign, and is infinite where it is not finite.
pub proof fn lemma_above_zero(d: Double)
    requires
        !d.is_nan(),
        d.amount() > 0,
    ensures
        !d.negative(),
        d.magnitude() == d.amount(),
        d.is_amount() || d.is_infinite(),
{
    lemma_parts(d);
}

/// The total order agrees with comparing: what stands no lower in it is not less.
pub proof fn lemma_rank_orders(high: Double, low: Double)
    requires
        high.rank() >= low.rank(),
    ensures
        !low.above(high),
{
    if high.unsigned() < low.unsigned() {
        lemma_magnitude_grows(high, low);
    } else if low.unsigned() < high.unsigned() {
        lemma_magnitude_grows(low, high);
    } else {
        assert(high.magnitude() == low.magnitude());
    }
}

/// All of a whole is the highest level.
pub proof fn lemma_full_level(m: nat, k: nat)
    requires
        m > 0,
        1 <= k <= 8,
    ensures
        level_of(m, m, k) == k,
{
    lemma_pow2_pos(1074);
    lemma_pow2_52();
    lemma2_to64();
    lemma_closest_scaled(units(), 1, m);
    assert(m * units() == units() * m && 1 * m == m) by (nonlinear_arith);
    lemma_closest_exact(1, 1074);
    assert(1 * pow2(1074) == units());
    lemma_closest_exact(k, 1074);
    assert(units() * k == k * pow2(1074)) by (nonlinear_arith)
        requires
            units() == pow2(1074),
    ;
    let u = units();
    assert(2 * (k * u) + u == k * (2 * u) + u) by (nonlinear_arith);
    lemma_fundamental_div_mod_converse(
        (2 * (k * u) + u) as int,
        (2 * u) as int,
        k as int,
        u as int,
    );
}

// ---------------------------------------------------------------- sums as folds
/// A sum is what comes of adding the amounts one after the other.
pub proof fn lemma_summed_is_fold<T>(
    start: Double,
    s: Seq<T>,
    f: spec_fn(T) -> Double,
    step: spec_fn(Double, T) -> Double,
)
    requires
        forall|sum: Double, x: T| #[trigger] step(sum, x) == plus(sum, f(x)),
    ensures
        summed(start, s.map_values(f)) == s.fold_left(start, step),
    decreases s.len(),
{
    if s.len() > 0 {
        lemma_summed_is_fold(start, s.drop_last(), f, step);
        assert(s.map_values(f).drop_last() =~= s.drop_last().map_values(f));
        let before = s.drop_last().fold_left(start, step);
        assert(step(before, s.last()) == plus(before, f(s.last())));
    }
}

// ---------------------------------------------------------------- how near results are
/// Rounding to a whole number is off by at most a half, and a half goes to the even one.
pub proof fn lemma_nearest_is_near(a: nat, b: nat)
    requires
        b > 0,
    ensures
        -(b as int) <= 2 * (nearest(a, b) * b - a) <= b,
        2 * (nearest(a, b) * b - a) == b || 2 * (a - nearest(a, b) * b) == b ==> nearest(a, b) % 2
            == 0,
{
    let q = a / b;
    let r = a % b;
    lemma_fundamental_div_mod(a as int, b as int);
    lemma_mod_bound(a as int, b as int);
    assert(q * b == b * q) by (nonlinear_arith);
    assert((q + 1) * b == b * q + b) by (nonlinear_arith);
}

/// Rounding to a number is off by at most half a unit, or by less than one in `2^53`.
pub proof fn lemma_closest_is_near(num: nat, den: nat)
    requires
        den > 0,
    ensures
        ({
            let off = closest(num, den) * den - num;
            ||| -(den as int) <= 2 * off <= den
            ||| -(num as int) <= pow2(53) * off <= num
        }),
{
    if num < pow2(53) * den {
        lemma_nearest_is_near(num, den);
    } else {
        lemma_pow2_unfold(53);
        let low = pow2(52);
        assert(low * den <= num) by (nonlinear_arith)
            requires
                pow2(53) * den <= num,
                pow2(53) == 2 * low,
        ;
        lemma_excess_found(num, den);
        let e = pow2(excess(num, den));
        lemma_pow2_pos(excess(num, den));
        let step = den * e;
        assert(step > 0) by (nonlinear_arith)
            requires
                step == den * e,
                den > 0,
                e > 0,
        ;
        lemma_nearest_is_near(num, step);
        let q = nearest(num, step);
        assert(q * step == (q * e) * den) by (nonlinear_arith)
            requires
                step == den * e,
        ;
        let off = (q * e) * den - num;
        assert(-(num as int) <= pow2(53) * off <= num) by (nonlinear_arith)
            requires
                pow2(53) == 2 * low,
                low * step <= num,
                -(step as int) <= 2 * off <= step,
                low >= 0,
        ;
    }
}

proof fn lemma_number_of(num: nat, den: nat)
    requires
        den > 0,
    ensures
        number(closest(num, den)).holds(closest(num, den)),
{
    let d = lemma_representable(num, den);
    lemma_number(d, closest(num, den));
}

/// Whether a number without sign is a fraction, or off from it by at most half a unit or by less
/// than one in `2^53`; it is infinite where that is past the finite numbers.
pub open spec fn is_near(d: Double, num: nat, den: nat) -> bool {
    let off = d.magnitude() * den - num;
    &&& !d.is_nan()
    &&& d.is_finite() ==> -(den as int) <= 2 * off <= den || -(num as int) <= pow2(53) * off <= num
    &&& d.is_infinite() ==> pow2(2097) * den <= num
}

/// Rounding to a number gives one that is near.
proof fn lemma_number_is_near(num: nat, den: nat)
    requires
        den > 0,
    ensures
        is_near(number(closest(num, den)), num, den),
{
    let n = closest(num, den);
    lemma_number_of(num, den);
    lemma_closest_is_near(num, den);
    if n >= pow2(2098) {
        if num <= pow2(2097) * den {
            lemma_closest_below(num, den, 2097);
            lemma_pow2_strictly_increases(2097, 2098);
        }
    }
}

/// The sum of two amounts is near what they add up to, in either order, and adding nothing changes
/// nothing.
pub proof fn lemma_plus_adds(a: Double, b: Double)
    requires
        a.is_amount(),
        b.is_amount(),
    ensures
        is_near(plus(a, b), a.magnitude() + b.magnitude(), 1),
        plus(a, b) == plus(b, a),
        b.magnitude() == 0 ==> plus(a, b).magnitude() == a.magnitude(),
{
    lemma_number_is_near(a.magnitude() + b.magnitude(), 1);
    if a.magnitude() == 0 && b.magnitude() == 0 {
        lemma_zero();
        let r = plus(a, b);
        lemma_zero_bits(r);
        lemma_parts(r);
    } else if b.magnitude() == 0 {
        lemma_parts(a);
        lemma_pow2_52();
        lemma_pow2_unfold(53);
        lemma_closest_exact(a.significand(), a.shift());
        lemma_finite_bound(a);
        lemma_number_of(a.magnitude(), 1);
    }
}

/// A number times a count is near their product, with the sign of the number.
pub proof fn lemma_product_multiplies(d: Double, k: u64)
    requires
        d.is_finite(),
    ensures
        is_near(product(d, k), d.magnitude() * k as nat, 1),
        product(d, k).negative() == d.negative(),
{
    let n = number(closest(d.magnitude() * k as nat, 1));
    lemma_number_is_near(d.magnitude() * k as nat, 1);
    lemma_number_of(d.magnitude() * k as nat, 1);
    lemma_parts(n);
    lemma_signed(n, d.negative());
    assert(product(d, k) == with_sign(n, d.negative()));
}

/// One number over another is near their quotient, with the sign of the first.
pub proof fn lemma_quotient_divides(a: Double, b: Double)
    requires
        a.is_finite(),
        b.is_finite(),
        b.magnitude() > 0,
    ensures
        is_near(quotient(a, b), a.magnitude() * units(), b.magnitude()),
        quotient(a, b).negative() == a.negative(),
{
    let n = number(closest(a.magnitude() * units(), b.magnitude()));
    lemma_number_is_near(a.magnitude() * units(), b.magnitude());
    lemma_signed(n, a.negative());
}

/// One number less another is near their difference, above zero exactly where the first is the
/// greater and below where it is the less.
pub proof fn lemma_difference_subtracts(a: Double, b: Double)
    requires
        a.is_finite(),
        b.is_finite(),
    ensures
        ({
            let d = difference(a, b);
            &&& a.amount() >= b.amount() ==> is_near(d, (a.amount() - b.amount()) as nat, 1)
            &&& a.amount() <= b.amount() ==> is_near(d, (b.amount() - a.amount()) as nat, 1)
            &&& d.amount() > 0 <==> a.amount() > b.amount()
            &&& d.amount() < 0 <==> a.amount() < b.amount()
        }),
{
    let n = a.amount() - b.amount();
    let d = difference(a, b);
    if n == 0 {
        let zero = Double { bits: 0 };
        lemma_zero();
        lemma_parts(zero);
        lemma_signed(zero, a.negative() && !b.negative());
        assert(d.magnitude() == 0);
    } else {
        let size = if n > 0 {
            n as nat
        } else {
            (-n) as nat
        };
        let r = number(closest(size, 1));
        lemma_number_is_near(size, 1);
        lemma_number_of(size, 1);
        lemma2_to64();
        lemma_closest_above(size, 1, 0);
        if r.is_infinite() {
            lemma_infinite_units(r);
            lemma_pow2_pos(2098);
        }
        assert(r.magnitude() > 0);
        lemma_signed(r, true);
    }
}

// ---------------------------------------------------------------- how near texts are
proof fn lemma_last_digits(n: nat, p: nat)
    ensures
        last_digits(n, p).len() == p,
        forall|i: int| 0 <= i < p ==> is_digit(#[trigger] last_digits(n, p)[i]),
        digits_value(last_digits(n, p)) == n % ten(p),
        ten(p) > 0,
    decreases p,
{
    if p > 0 {
        let q = (p - 1) as nat;
        let s = last_digits(n, p);
        lemma_last_digits(n / 10, q);
        assert(s.drop_last() =~= last_digits(n / 10, q));
        assert(s.last() == digit(n % 10));
        let t = ten(q);
        let m = n / 10;
        let d = n % 10;
        lemma_fundamental_div_mod(m as int, t as int);
        lemma_mod_bound(m as int, t as int);
        let k = m / t;
        assert((10 * t) * k == 10 * (t * k)) by (nonlinear_arith);
        lemma_fundamental_div_mod_converse(
            n as int,
            (10 * t) as int,
            (m / t) as int,
            (10 * (m % t) + d) as int,
        );
    } else {
        lemma_fundamental_div_mod_converse(n as int, 1, n as int, 0);
    }
}

/// A finite number with decimals: a whole part, a point and as many digits as asked for, which
/// together are off from the number by at most half of the last digit, a half going to the even
/// one.
pub proof fn lemma_text_is_near(d: Double, p: nat)
    requires
        d.is_finite(),
        p > 0,
    ensures
        ({
            let s = d.size_text(p);
            let at = s.len() - 1 - p;
            let told = digits_value(s.take(at)) * ten(p) + digits_value(s.skip(at + 1));
            let off = told * units() - d.magnitude() * ten(p);
            &&& at > 0
            &&& s[at] == '.'
            &&& forall|i: int| 0 <= i < s.len() && i != at ==> is_digit(#[trigger] s[i])
            &&& -(units() as int) <= 2 * off <= units()
            &&& 2 * off == units() || -2 * off == units() ==> told % 2 == 0
        }),
{
    let n = nearest(d.magnitude() * ten(p), units());
    lemma_pow2_pos(1074);
    lemma_nearest_is_near(d.magnitude() * ten(p), units());
    lemma_last_digits(n, p);
    lemma_dec_digits(n / ten(p));
    lemma_fundamental_div_mod(n as int, ten(p) as int);
    let s = d.size_text(p);
    let whole = dec(n / ten(p));
    let at = s.len() - 1 - p;
    assert(s =~= whole + seq!['.'] + last_digits(n, p));
    assert(s.take(at) =~= whole);
    assert(s.skip(at + 1) =~= last_digits(n, p));
    assert((n / ten(p)) * ten(p) + n % ten(p) == n) by (nonlinear_arith)
        requires
            n == ten(p) * (n / ten(p)) + n % ten(p),
    ;
    assert forall|i: int| 0 <= i < s.len() && i != at implies is_digit(#[trigger] s[i]) by {
        if i < at {
            assert(s[i] == whole[i]);
        } else {
            assert(s[i] == last_digits(n, p)[i - at - 1]);
        }
    }
}

/// Without decimals a finite number is told as the nearest whole one.
pub proof fn lemma_whole_text_is_near(d: Double)
    requires
        d.is_finite(),
    ensures
        ({
            let told = digits_value(d.size_text(0));
            let off = told * units() - d.magnitude();
            &&& d.size_text(0).len() > 0
            &&& -(units() as int) <= 2 * off <= units()
            &&& 2 * off == units() || -2 * off == units() ==> told % 2 == 0
        }),
{
    let n = nearest(d.magnitude(), units());
    lemma_pow2_pos(1074);
    lemma_nearest_is_near(d.magnitude(), units());
    lemma_dec_digits(n);
    assert(ten(0) == 1);
    assert(d.magnitude() * ten(0) == d.magnitude()) by (nonlinear_arith)
        requires
            ten(0) == 1,
    ;
    assert(d.size_text(0) == dec(n));
}

} // verus!
