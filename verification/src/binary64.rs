//! The magnitudes of IEEE 754 binary64 numbers as exact integers, and the
//! correctly rounded operations on them that the approximation of a value by
//! a fraction needs.
//!
//! Every finite binary64 number is a whole multiple of 2^-1074. A magnitude
//! is therefore held in specifications as a natural number that counts these
//! units, so that comparisons, integer parts and remainders are plain integer
//! arithmetic, and rounding is the only place where precision is lost.

use vstd::arithmetic::div_mod::*;
use vstd::arithmetic::mul::*;
use vstd::arithmetic::power2::*;
use vstd::prelude::*;

verus! {

/// The number one, counted in units of 2^-1074.
pub open spec fn unit() -> nat {
    pow2(1074)
}

/// 2^53: a significand holds 53 bits, so it is below this limit.
pub open spec fn significand_limit() -> nat {
    0x20_0000_0000_0000
}

/// The integer nearest to `num / den`; of two equally near integers, the even
/// one.
pub open spec fn round_half_even(num: nat, den: nat) -> nat {
    let q = num / den;
    let r = num % den;
    if 2 * r < den || (2 * r == den && q % 2 == 0) {
        q
    } else {
        q + 1
    }
}

/// `num / den` units of 2^-1074, rounded to the nearest magnitude that
/// binary64 holds, ties to the even significand. Up to 2^53 units these
/// magnitudes are the whole numbers of units; from there on their spacing
/// doubles each time the magnitude does. The exponent is taken to have no
/// upper limit: a quotient beyond the largest finite binary64 number is
/// rounded in the same way.
pub open spec fn round(num: nat, den: nat) -> nat
    decreases num / den,
    via round_decreases
{
    if den == 0 {
        0
    } else if num < significand_limit() * den {
        round_half_even(num, den)
    } else {
        2 * round(num, 2 * den)
    }
}

#[via_fn]
proof fn round_decreases(num: nat, den: nat) {
    if den != 0 && num >= significand_limit() * den {
        lemma_halved_quotient(num, den);
    }
}

/// Doubling the divisor of a quotient that is at least one makes it smaller.
pub proof fn lemma_halved_quotient(num: nat, den: nat)
    requires
        den > 0,
        num >= den,
    ensures
        num / (2 * den) < num / den,
{
    let q = num as int / (2 * den) as int;
    lemma_fundamental_div_mod(num as int, (2 * den) as int);
    lemma_fundamental_div_mod(num as int, den as int);
    let r = num as int % (2 * den) as int;
    let q1 = num as int / den as int;
    let r1 = num as int % den as int;
    assert(q < q1) by (nonlinear_arith)
        requires
            num as int == (2 * den) * q + r,
            num as int == den * q1 + r1,
            0 <= r < 2 * den,
            0 <= r1 < den,
            num >= den,
            den > 0,
    ;
}

/// A magnitude that binary64 holds exactly, were its exponent without an
/// upper limit: a whole number of units of at most 53 bits (2^53 itself
/// included, which is 2^52 doubled), or the double of such a magnitude.
pub open spec fn representable(g: nat) -> bool
    decreases g,
{
    g <= significand_limit() || (g % 2 == 0 && representable(g / 2))
}

/// A common factor of dividend and divisor leaves the quotient as it is and
/// multiplies the remainder.
pub proof fn lemma_div_mod_scaled(num: nat, den: nat, c: nat)
    requires
        den > 0,
        c > 0,
    ensures
        (c * num) / (c * den) == num / den,
        (c * num) % (c * den) == c * (num % den),
{
    let q = num as int / den as int;
    let r = num as int % den as int;
    lemma_fundamental_div_mod(num as int, den as int);
    assert((c * num) as int == q * (c * den) as int + c * r && 0 <= c * r < c * den)
        by (nonlinear_arith)
        requires
            num as int == den * q + r,
            0 <= r < den,
            c > 0,
    ;
    lemma_fundamental_div_mod_converse((c * num) as int, (c * den) as int, q, c * r);
}

/// Rounding to an integer sees only the ratio of its arguments.
pub proof fn lemma_round_half_even_scaled(num: nat, den: nat, c: nat)
    requires
        den > 0,
        c > 0,
    ensures
        round_half_even(c * num, c * den) == round_half_even(num, den),
{
    lemma_div_mod_scaled(num, den, c);
    let r = num % den;
    assert((2 * (c * r) < c * den) == (2 * r < den) && (2 * (c * r) == c * den) == (2 * r == den))
        by (nonlinear_arith)
        requires
            c > 0,
    ;
}

/// Rounding sees only the ratio of its arguments.
pub proof fn lemma_round_scaled(num: nat, den: nat, c: nat)
    requires
        den > 0,
        c > 0,
    ensures
        round(c * num, c * den) == round(num, den),
    decreases num / den,
{
    let l = significand_limit();
    assert((c * num < l * (c * den)) == (num < l * den)) by (nonlinear_arith)
        requires
            c > 0,
    ;
    if num < l * den {
        lemma_round_half_even_scaled(num, den, c);
    } else {
        assert(num >= den) by (nonlinear_arith)
            requires
                num >= l * den,
                l >= 1,
        ;
        lemma_halved_quotient(num, den);
        lemma_round_scaled(num, 2 * den, c);
        assert(c * (2 * den) == 2 * (c * den)) by (nonlinear_arith);
    }
}

/// Where the quotient has reached 2^52, doubling the dividend doubles the
/// rounded value.
pub proof fn lemma_round_doubled(num: nat, den: nat)
    requires
        den > 0,
        2 * num >= significand_limit() * den,
    ensures
        round(2 * num, den) == 2 * round(num, den),
{
    lemma_round_scaled(num, den, 2);
}

/// Where the quotient has reached 2^52, multiplying the dividend by a power
/// of two multiplies the rounded value by it.
pub proof fn lemma_round_times_pow2(num: nat, den: nat, k: nat)
    requires
        den > 0,
        2 * num >= significand_limit() * den,
    ensures
        round(pow2(k) * num, den) == pow2(k) * round(num, den),
    decreases k,
{
    lemma_pow2_pos(k);
    if k == 0 {
        lemma2_to64();
    } else {
        let p = pow2((k - 1) as nat);
        lemma_pow2_pos((k - 1) as nat);
        lemma_pow2_unfold(k);
        lemma_round_times_pow2(num, den, (k - 1) as nat);
        assert(2 * (p * num) >= significand_limit() * den && pow2(k) * num == 2 * (p * num)
            && pow2(k) * round(num, den) == 2 * (p * round(num, den))) by (nonlinear_arith)
            requires
                2 * num >= significand_limit() * den,
                p >= 1,
                pow2(k) == 2 * p,
        ;
        lemma_round_doubled(p * num, den);
    }
}

/// Rounding to an integer stays between the integers around the quotient.
pub proof fn lemma_round_half_even_bounds(num: nat, den: nat, g: nat)
    requires
        den > 0,
    ensures
        num >= g * den ==> round_half_even(num, den) >= g,
        num <= g * den ==> round_half_even(num, den) <= g,
{
    let q = num as int / den as int;
    let r = num as int % den as int;
    lemma_fundamental_div_mod(num as int, den as int);
    if num >= g * den {
        assert(q >= g) by (nonlinear_arith)
            requires
                num as int == den * q + r,
                0 <= r < den,
                num >= g * den,
        ;
    }
    if num <= g * den {
        assert(q < g || (q == g && r == 0)) by (nonlinear_arith)
            requires
                num as int == den * q + r,
                0 <= r < den,
                num <= g * den,
        ;
    }
}

/// Rounding does not cross a representable magnitude: a quotient that is at
/// least `g` rounds to at least `g`, and one that is at most `g` to at most
/// `g`.
pub proof fn lemma_round_monotonic(num: nat, den: nat, g: nat)
    requires
        den > 0,
        representable(g),
    ensures
        num >= g * den ==> round(num, den) >= g,
        num <= g * den ==> round(num, den) <= g,
    decreases num / den,
{
    let l = significand_limit();
    if num < l * den {
        lemma_round_half_even_bounds(num, den, g);
    } else {
        assert(num >= den) by (nonlinear_arith)
            requires
                num >= l * den,
                l >= 1,
        ;
        lemma_halved_quotient(num, den);
        if g <= l {
            let h: nat = 0x10_0000_0000_0000;
            assert(num >= h * (2 * den)) by (nonlinear_arith)
                requires
                    num >= l * den,
                    l == 2 * h,
            ;
            lemma_round_monotonic(num, 2 * den, h);
            if num <= g * den {
                assert(g == l) by (nonlinear_arith)
                    requires
                        num >= l * den,
                        num <= g * den,
                        g <= l,
                        den > 0,
                ;
                assert(num <= h * (2 * den)) by (nonlinear_arith)
                    requires
                        num <= g * den,
                        g == 2 * h,
                ;
            }
        } else {
            let h = g / 2;
            assert((g * den >= num) == (h * (2 * den) >= num) && (g * den <= num) == (h * (2
                * den) <= num)) by (nonlinear_arith)
                requires
                    g == 2 * h,
            ;
            lemma_round_monotonic(num, 2 * den, h);
        }
    }
}

/// A representable magnitude rounds to itself.
pub proof fn lemma_round_exact(g: nat, den: nat)
    requires
        den > 0,
        representable(g),
    ensures
        round(g * den, den) == g,
{
    lemma_round_monotonic(g * den, den, g);
}

/// A significand of at most 53 bits (or 2^53) times a power of two is
/// representable.
pub proof fn lemma_representable_times_pow2(mant: nat, k: nat)
    requires
        mant <= significand_limit(),
    ensures
        representable(mant * pow2(k)),
    decreases k,
{
    if k == 0 {
        lemma2_to64();
        assert(mant * pow2(0) == mant) by (nonlinear_arith)
            requires
                pow2(0) == 1,
        ;
    } else {
        let p = pow2((k - 1) as nat);
        lemma_pow2_unfold(k);
        lemma_representable_times_pow2(mant, (k - 1) as nat);
        let g = mant * pow2(k);
        assert(g == 2 * (mant * p)) by (nonlinear_arith)
            requires
                g == mant * pow2(k),
                pow2(k) == 2 * p,
        ;
        assert(g % 2 == 0 && g / 2 == mant * p);
    }
}

/// The values of the powers of two that the bit layout of binary64 and the
/// bounds of this module use.
pub proof fn lemma_pow2_values()
    ensures
        pow2(0) == 1,
        pow2(1) == 2,
        pow2(11) == 0x800,
        pow2(22) == 0x40_0000,
        pow2(31) == 0x8000_0000,
        pow2(32) == 0x1_0000_0000,
        pow2(34) == 0x4_0000_0000,
        pow2(52) == 0x10_0000_0000_0000,
        pow2(53) == 0x20_0000_0000_0000,
        pow2(63) == 0x8000_0000_0000_0000,
        pow2(64) == 0x1_0000_0000_0000_0000,
        pow2(84) == 0x10_0000_0000_0000_0000_0000,
        pow2(105) == 0x200_0000_0000_0000_0000_0000_0000,
        pow2(106) == 0x400_0000_0000_0000_0000_0000_0000,
        pow2(117) == 0x20_0000_0000_0000_0000_0000_0000_0000,
        pow2(127) == 0x8000_0000_0000_0000_0000_0000_0000_0000,
{
    lemma2_to64();
    lemma2_to64_rest();
    lemma_pow2_adds(32, 52);
    lemma_pow2_adds(52, 53);
    lemma_pow2_adds(53, 53);
    lemma_pow2_adds(53, 64);
    lemma_pow2_adds(63, 64);
}

/// A smaller power of two has the smaller exponent.
pub proof fn lemma_pow2_order(a: nat, b: nat)
    ensures
        a <= b <==> pow2(a) <= pow2(b),
        a < b <==> pow2(a) < pow2(b),
{
    if a < b {
        lemma_pow2_strictly_increases(a, b);
    }
    if b < a {
        lemma_pow2_strictly_increases(b, a);
    }
}

/// `m * 2^(a + b)` is `m * 2^a * 2^b`.
pub proof fn lemma_times_pow2_adds(m: nat, a: nat, b: nat)
    ensures
        m * pow2(a + b) == (m * pow2(a)) * pow2(b),
        m * pow2(a + b) == pow2(b) * (m * pow2(a)),
{
    lemma_pow2_adds(a, b);
    lemma_mul_is_associative(m as int, pow2(a) as int, pow2(b) as int);
    lemma_mul_is_commutative((m * pow2(a)) as int, pow2(b) as int);
}

/// `m * 2^k`, for a product that fits.
pub fn times_pow2(m: u128, k: u32) -> (r: u128)
    requires
        m * pow2(k as nat) <= u128::MAX,
    ensures
        r == m * pow2(k as nat),
{
    let mut r: u128 = m;
    let mut i: u32 = 0;
    proof {
        lemma_pow2_values();
    }
    while i < k
        invariant
            i <= k,
            r == m * pow2(i as nat),
            m * pow2(k as nat) <= u128::MAX,
        decreases k - i,
    {
        proof {
            lemma_pow2_unfold((i + 1) as nat);
            lemma_pow2_order((i + 1) as nat, k as nat);
            let pi = pow2(i as nat);
            let pk = pow2(k as nat);
            assert(2 * r == m * pow2((i + 1) as nat) && m * pow2((i + 1) as nat) <= m * pk)
                by (nonlinear_arith)
                requires
                    r == m * pi,
                    pow2((i + 1) as nat) == 2 * pi,
                    pow2((i + 1) as nat) <= pk,
            ;
        }
        r = r * 2;
        i = i + 1;
    }
    r
}

/// A nonnegative binary number `mant * 2^exp`, the form in which the
/// magnitude of a binary64 value is computed with.
#[derive(Clone, Copy, Debug)]
pub struct Dyadic {
    pub mant: u64,
    pub exp: i32,
}

impl View for Dyadic {
    type V = nat;

    /// The number, counted in units of 2^-1074.
    open spec fn view(&self) -> nat {
        (self.mant as nat) * pow2((self.exp + 1074) as nat)
    }
}

impl Dyadic {
    /// The significand has at most 53 bits (2^53 itself is allowed, as the
    /// result of rounding up), and the exponent is one of binary64.
    pub open spec fn wf(self) -> bool {
        &&& self.mant <= significand_limit()
        &&& -1074 <= self.exp <= 971
    }

    /// The form that decoding gives: the leading bit of a normal number is
    /// set, and a subnormal number has the least exponent.
    pub open spec fn normalized(self) -> bool {
        self.mant >= 0x10_0000_0000_0000 || self.exp == -1074
    }
}

/// A well-formed number is representable.
pub proof fn lemma_dyadic_representable(x: Dyadic)
    requires
        x.wf(),
    ensures
        representable(x@),
{
    lemma_representable_times_pow2(x.mant as nat, (x.exp + 1074) as nat);
}

/// Bounds on the value bound the exponent: a number below `2^k` (in units of
/// 2^-1074) whose leading bit is set has an exponent below `k - 1126`, and a
/// number of at least `2^k` has an exponent of at least `k - 1127`.
pub proof fn lemma_exponent_bounds(x: Dyadic, k: nat)
    requires
        x.wf(),
    ensures
        x.mant >= 0x10_0000_0000_0000 && x@ < pow2(k) ==> x.exp + 1126 < k,
        x@ >= pow2(k) ==> x.exp + 1127 >= k,
        x.mant >= 0x10_0000_0000_0000 && x.exp + 1126 >= k ==> x@ >= pow2(k),
        x.exp + 1127 < k ==> x@ < pow2(k),
{
    lemma_pow2_values();
    let e = (x.exp + 1074) as nat;
    let m = x.mant as nat;
    if x.exp + 1126 >= k {
        lemma_pow2_adds(52, e);
        lemma_pow2_order(k, 52 + e);
        assert(m >= pow2(52) ==> m * pow2(e) >= pow2(52) * pow2(e)) by (nonlinear_arith);
    }
    if x.exp + 1127 < k {
        lemma_pow2_adds(53, e);
        lemma_pow2_order(53 + e, k);
        lemma_pow2_pos(e);
        assert(m * pow2(e) <= pow2(53) * pow2(e)) by (nonlinear_arith)
            requires
                m <= pow2(53),
        ;
        lemma_pow2_strictly_increases(53 + e, k);
    }
}

/// Whether the sign bit of the binary64 number with these bits is set.
pub open spec fn sign_bit(bits: u64) -> bool {
    bits >= 0x8000_0000_0000_0000
}

/// The eleven exponent bits.
pub open spec fn exponent_field(bits: u64) -> nat {
    ((bits / 0x10_0000_0000_0000) % 0x800) as nat
}

/// The fifty-two fraction bits.
pub open spec fn fraction_field(bits: u64) -> nat {
    (bits % 0x10_0000_0000_0000) as nat
}

/// Neither an infinity nor a NaN.
pub open spec fn is_finite(bits: u64) -> bool {
    exponent_field(bits) != 0x7ff
}

/// The magnitude of a finite binary64 number, in units of 2^-1074: the
/// fraction bits themselves for a subnormal number, and for a normal one the
/// fraction with its hidden leading bit, doubled once for every step of the
/// exponent above one.
pub open spec fn magnitude(bits: u64) -> nat {
    if exponent_field(bits) == 0 {
        fraction_field(bits)
    } else {
        (0x10_0000_0000_0000 + fraction_field(bits)) * pow2((exponent_field(bits) - 1) as nat)
    }
}

/// Decodes the bits of a binary64 number into its sign bit and its
/// magnitude; `None` for an infinity or a NaN.
pub fn decode(bits: u64) -> (r: Option<(bool, Dyadic)>)
    ensures
        r is Some <==> is_finite(bits),
        r matches Some((sign, x)) ==> {
            &&& sign == sign_bit(bits)
            &&& x@ == magnitude(bits)
            &&& x.wf()
            &&& x.normalized()
            &&& x.mant < significand_limit()
        },
{
    let sign: bool = bits >= 0x8000_0000_0000_0000;
    let e: u64 = (bits / 0x10_0000_0000_0000) % 0x800;
    let f: u64 = bits % 0x10_0000_0000_0000;
    if e == 0x7ff {
        None
    } else if e == 0 {
        proof {
            lemma_pow2_values();
            assert((f as nat) * pow2(0) == f) by (nonlinear_arith)
                requires
                    pow2(0) == 1,
            ;
        }
        Some((sign, Dyadic { mant: f, exp: -1074 }))
    } else {
        let exp: i32 = (e as i32) - 1075;
        Some((sign, Dyadic { mant: 0x10_0000_0000_0000 + f, exp }))
    }
}

/// Splits a number whose integer part fits 64 bits into that part and the
/// rest.
pub fn split(q: Dyadic) -> (r: (u64, Dyadic))
    requires
        q.wf(),
        q@ / unit() <= u64::MAX,
    ensures
        r.0 == q@ / unit(),
        r.1@ == q@ % unit(),
        r.1.wf(),
        r.1.exp <= 0,
{
    proof {
        lemma_pow2_values();
        lemma_pow2_pos((q.exp + 1074) as nat);
        lemma_pow2_pos(1074);
    }
    if q.exp >= 0 {
        proof {
            let whole = q.mant as nat * pow2(q.exp as nat);
            lemma_times_pow2_adds(q.mant as nat, q.exp as nat, 1074);
            assert(q@ == whole * unit());
            lemma_fundamental_div_mod_converse(q@ as int, unit() as int, whole as int, 0);
            assert((0nat) * pow2(0) == 0) by (nonlinear_arith);
        }
        let a: u128 = times_pow2(q.mant as u128, q.exp as u32);
        (a as u64, Dyadic { mant: 0, exp: -1074 })
    } else if q.exp <= -64 {
        proof {
            let e = (q.exp + 1074) as nat;
            lemma_pow2_adds(e, (-q.exp) as nat);
            lemma_pow2_order(64, (-q.exp) as nat);
            assert(q@ < unit()) by (nonlinear_arith)
                requires
                    q@ == q.mant * pow2(e),
                    unit() == pow2(e) * pow2((-q.exp) as nat),
                    q.mant < pow2((-q.exp) as nat),
                    pow2(e) > 0,
            ;
            lemma_fundamental_div_mod_converse(q@ as int, unit() as int, 0, q@ as int);
        }
        (0, q)
    } else {
        let k: u32 = (-q.exp) as u32;
        proof {
            lemma_pow2_order(k as nat, 63);
            lemma_pow2_pos(k as nat);
        }
        let p: u64 = times_pow2(1, k) as u64;
        assert(p == pow2(k as nat) && p > 0);
        let a: u64 = q.mant / p;
        let m: u64 = q.mant % p;
        proof {
            let e = (q.exp + 1074) as nat;
            lemma_pow2_order(k as nat, 63);
            lemma_pow2_adds(e, k as nat);
            lemma_mod_decreases(q.mant as nat, p as nat);
            lemma_div_mod_scaled(q.mant as nat, p as nat, pow2(e));
            lemma_mul_is_commutative(q.mant as int, pow2(e) as int);
            lemma_mul_is_commutative(m as int, pow2(e) as int);
        }
        (a, Dyadic { mant: m, exp: q.exp })
    }
}

/// Whether `x` is less than `y`.
pub fn lt(x: Dyadic, y: Dyadic) -> (r: bool)
    requires
        x.wf(),
        y.wf(),
    ensures
        r == (x@ < y@),
{
    proof {
        lemma_pow2_values();
    }
    if x.exp >= y.exp {
        let diff: i32 = x.exp - y.exp;
        proof {
            let e = (y.exp + 1074) as nat;
            lemma_times_pow2_adds(x.mant as nat, diff as nat, e);
            lemma_pow2_pos(e);
            lemma_pow2_pos(diff as nat);
        }
        if x.mant == 0 {
            proof {
                let e = (y.exp + 1074) as nat;
                assert(x@ == 0 && (y@ > 0) == (y.mant > 0)) by (nonlinear_arith)
                    requires
                        x@ == x.mant * pow2((x.exp + 1074) as nat),
                        x.mant == 0,
                        y@ == y.mant * pow2(e),
                        pow2(e) > 0,
                ;
            }
            y.mant > 0
        } else if diff >= 64 {
            proof {
                let e = (y.exp + 1074) as nat;
                lemma_pow2_order(64, diff as nat);
                assert(x@ >= y@) by (nonlinear_arith)
                    requires
                        x@ == (x.mant * pow2(diff as nat)) * pow2(e),
                        y@ == y.mant * pow2(e),
                        x.mant >= 1,
                        pow2(diff as nat) >= 0x1_0000_0000_0000_0000,
                        y.mant < 0x1_0000_0000_0000_0000,
                ;
            }
            false
        } else {
            proof {
                lemma_pow2_order(diff as nat, 63);
                lemma_mul_inequality(pow2(diff as nat) as int, pow2(63) as int, x.mant as int);
                lemma_mul_is_commutative(x.mant as int, pow2(diff as nat) as int);
                lemma_mul_is_commutative(x.mant as int, pow2(63) as int);
                lemma_mul_inequality(x.mant as int, pow2(53) as int, pow2(63) as int);
            }
            let xs: u128 = times_pow2(x.mant as u128, diff as u32);
            proof {
                let e = (y.exp + 1074) as nat;
                assert((xs < y.mant) == (xs * pow2(e) < y.mant * pow2(e))) by (nonlinear_arith)
                    requires
                        pow2(e) > 0,
                ;
            }
            xs < y.mant as u128
        }
    } else {
        let diff: i32 = y.exp - x.exp;
        proof {
            let e = (x.exp + 1074) as nat;
            lemma_times_pow2_adds(y.mant as nat, diff as nat, e);
            lemma_pow2_pos(e);
            lemma_pow2_pos(diff as nat);
        }
        if y.mant == 0 {
            proof {
                assert(y@ == 0) by (nonlinear_arith)
                    requires
                        y@ == y.mant * pow2((y.exp + 1074) as nat),
                        y.mant == 0,
                ;
            }
            false
        } else if diff >= 64 {
            proof {
                let e = (x.exp + 1074) as nat;
                lemma_pow2_order(64, diff as nat);
                assert(x@ < y@) by (nonlinear_arith)
                    requires
                        y@ == (y.mant * pow2(diff as nat)) * pow2(e),
                        x@ == x.mant * pow2(e),
                        y.mant >= 1,
                        pow2(diff as nat) >= 0x1_0000_0000_0000_0000,
                        x.mant < 0x1_0000_0000_0000_0000,
                        pow2(e) > 0,
                ;
            }
            true
        } else {
            proof {
                lemma_pow2_order(diff as nat, 63);
                lemma_mul_inequality(pow2(diff as nat) as int, pow2(63) as int, y.mant as int);
                lemma_mul_is_commutative(y.mant as int, pow2(diff as nat) as int);
                lemma_mul_is_commutative(y.mant as int, pow2(63) as int);
                lemma_mul_inequality(y.mant as int, pow2(53) as int, pow2(63) as int);
            }
            let ys: u128 = times_pow2(y.mant as u128, diff as u32);
            proof {
                let e = (x.exp + 1074) as nat;
                assert((x.mant < ys) == (x.mant * pow2(e) < ys * pow2(e))) by (nonlinear_arith)
                    requires
                        pow2(e) > 0,
                ;
            }
            (x.mant as u128) < ys
        }
    }
}

/// The quotient `num / den` of two integers, rounded to the nearest
/// binary64 number, ties to even.
pub fn divide(num: u64, den: u64) -> (x: Dyadic)
    requires
        num < 0x20_0000_0000_0000,
        0 < den <= 0x20_0000_0000_0000,
    ensures
        x@ == round((num as nat) * unit(), den as nat),
        x.wf(),
        num == 0 ==> x.mant == 0,
        num > 0 ==> x.mant >= 0x10_0000_0000_0000 && -105 <= x.exp <= 0,
        0 < num <= den ==> x.exp <= -52,
{
    proof {
        lemma_pow2_values();
    }
    if num == 0 {
        proof {
            assert(0 * unit() == 0 && 0 * pow2(0) == 0 && 0 < significand_limit() * den)
                by (nonlinear_arith)
                requires
                    den > 0,
                    significand_limit() > 0,
            ;
            lemma_fundamental_div_mod_converse(0, den as int, 0, 0);
        }
        return Dyadic { mant: 0, exp: -1074 };
    }
    let bound: u128 = (den as u128) * 0x10_0000_0000_0000;
    let mut n: u128 = num as u128;
    let mut s: i32 = 0;
    proof {
        assert((num as nat) * pow2(0) == num) by (nonlinear_arith)
            requires
                pow2(0) == 1,
        ;
    }
    while n < bound
        invariant
            0 < den <= 0x20_0000_0000_0000,
            bound == den * 0x10_0000_0000_0000,
            num >= 1,
            n == num * pow2(s as nat),
            n < 2 * bound,
            0 <= s <= 105,
        decreases 2 * bound - n,
    {
        proof {
            lemma_pow2_values();
            lemma_pow2_order(s as nat, 105);
            lemma_pow2_pos(s as nat);
            lemma_pow2_unfold((s + 1) as nat);
            let ps = pow2(s as nat);
            assert(ps <= n && 2 * n == num * pow2((s + 1) as nat)) by (nonlinear_arith)
                requires
                    n == num * ps,
                    num >= 1,
                    pow2((s + 1) as nat) == 2 * ps,
            ;
        }
        n = n * 2;
        s = s + 1;
    }
    let q: u128 = n / (den as u128);
    let r: u128 = n % (den as u128);
    proof {
        lemma_fundamental_div_mod(n as int, den as int);
        assert(0x10_0000_0000_0000 <= q < 0x20_0000_0000_0000) by (nonlinear_arith)
            requires
                n as int == den * q + r,
                0 <= r < den,
                den * 0x10_0000_0000_0000 <= n < 2 * (den * 0x10_0000_0000_0000),
        ;
    }
    let m: u128 = if 2 * r < den as u128 || (2 * r == den as u128 && q % 2 == 0) {
        q
    } else {
        q + 1
    };
    proof {
        let k = (1074 - s) as nat;
        lemma_times_pow2_adds(num as nat, s as nat, k);
        assert(n < significand_limit() * den && 2 * n >= significand_limit() * den)
            by (nonlinear_arith)
            requires
                den * 0x10_0000_0000_0000 <= n < 2 * (den * 0x10_0000_0000_0000),
                significand_limit() == 0x20_0000_0000_0000,
        ;
        lemma_round_times_pow2(n as nat, den as nat, k);
        assert(round(n as nat, den as nat) == m);
        if num <= den {
            lemma_pow2_order(52, s as nat);
            let ps = pow2(s as nat);
            assert(ps >= 0x10_0000_0000_0000) by (nonlinear_arith)
                requires
                    n == num * ps,
                    n >= den * 0x10_0000_0000_0000,
                    0 < num <= den,
            ;
        }
        lemma_mul_is_commutative(m as int, pow2(k) as int);
    }
    Dyadic { mant: m as u64, exp: -s }
}

/// The reciprocal of a positive number whose exponent lies between -1022 and
/// 969, rounded to the nearest binary64 number, ties to even. The reciprocal
/// of such a number is a normal binary64 number.
pub fn reciprocal(f: Dyadic) -> (r: Dyadic)
    requires
        f.wf(),
        f.mant > 0,
        -1022 <= f.exp <= 969,
    ensures
        r@ == round(unit() * unit(), f@),
        r.wf(),
        r.mant >= 0x10_0000_0000_0000,
{
    let d: Dyadic = divide(1, f.mant);
    proof {
        lemma_pow2_values();
        let u = unit();
        let fm = f.mant as nat;
        assert(1 * u == u);
        if f.exp <= 0 {
            // f is fm / 2^j, so 1 / f is 2^j / fm.
            let j = (-f.exp) as nat;
            let c = pow2((f.exp + 1074) as nat);
            lemma_pow2_pos((f.exp + 1074) as nat);
            lemma_pow2_adds((f.exp + 1074) as nat, j);
            assert(u * u == c * (pow2(j) * u)) by (nonlinear_arith)
                requires
                    u == c * pow2(j),
            ;
            lemma_mul_is_commutative(fm as int, c as int);
            lemma_round_scaled(pow2(j) * u, fm, c);
            lemma_pow2_order(106, 1074);
            assert(2 * u >= significand_limit() * fm) by (nonlinear_arith)
                requires
                    u >= 0x400_0000_0000_0000_0000_0000_0000,
                    fm <= 0x20_0000_0000_0000,
                    significand_limit() == 0x20_0000_0000_0000,
            ;
            lemma_round_times_pow2(u, fm, j);
            lemma_times_pow2_adds(d.mant as nat, (d.exp + 1074) as nat, j);
        } else {
            // f is fm * 2^e, so 1 / f is (1 / fm) / 2^e.
            let e = f.exp as nat;
            let p = pow2(e);
            let rest = pow2((1074 - e) as nat);
            lemma_pow2_pos(e);
            lemma_pow2_pos(1074);
            lemma_pow2_adds(e, (1074 - e) as nat);
            lemma_times_pow2_adds(fm, e, 1074);
            lemma_mul_is_commutative((fm * p) as int, u as int);
            lemma_mul_is_commutative(fm as int, p as int);
            assert(fm * p > 0) by (nonlinear_arith)
                requires
                    fm > 0,
                    p > 0,
            ;
            lemma_round_scaled(u, fm * p, u);
            lemma_round_scaled(rest, fm, p);
            lemma_pow2_order(105, (1074 - e) as nat);
            assert(2 * rest >= significand_limit() * fm) by (nonlinear_arith)
                requires
                    rest >= 0x200_0000_0000_0000_0000_0000_0000,
                    fm <= 0x20_0000_0000_0000,
                    significand_limit() == 0x20_0000_0000_0000,
            ;
            lemma_round_times_pow2(rest, fm, e);
            lemma_times_pow2_adds(d.mant as nat, (d.exp - f.exp + 1074) as nat, e);
            let x = d.mant as nat * pow2((d.exp - f.exp + 1074) as nat);
            assert(x == round(rest, fm)) by (nonlinear_arith)
                requires
                    x * p == p * round(rest, fm),
                    p > 0,
            ;
        }
    }
    Dyadic { mant: d.mant, exp: d.exp - f.exp }
}

} // verus!
