//! Divisibility and the greatest common divisor over the natural numbers.

use vstd::arithmetic::div_mod::*;
use vstd::arithmetic::mul::*;
use vstd::prelude::*;

verus! {

/// `d` divides `n`: some multiple of `d` is `n`. Zero divides only zero.
pub open spec fn divides(d: nat, n: nat) -> bool {
    if d == 0 {
        n == 0
    } else {
        n % d == 0
    }
}

/// `d` divides both `a` and `b`.
pub open spec fn is_common_divisor(d: nat, a: nat, b: nat) -> bool {
    divides(d, a) && divides(d, b)
}

/// The greatest common divisor, by Euclid's recurrence. `gcd(a, 0)` is `a`,
/// so `gcd(0, 0)` is 0.
pub open spec fn gcd(a: nat, b: nat) -> nat
    decreases b,
{
    if b == 0 {
        a
    } else {
        gcd(b, a % b)
    }
}

/// A divisor of `x` and of `y` divides `q * y + x`.
pub proof fn lemma_divides_combination(d: nat, x: nat, y: nat, q: nat)
    requires
        divides(d, x),
        divides(d, y),
    ensures
        divides(d, q * y + x),
{
    if d == 0 {
        assert(q * y == 0) by (nonlinear_arith)
            requires
                y == 0,
        ;
    } else {
        let di = d as int;
        lemma_fundamental_div_mod(x as int, di);
        lemma_fundamental_div_mod(y as int, di);
        let k = q * (y / d) + x / d;
        assert((q * y + x) as int == di * k) by (nonlinear_arith)
            requires
                x as int == di * (x as int / di),
                y as int == di * (y as int / di),
                k == q * (y as int / di) + x as int / di,
        ;
        lemma_mod_multiples_basic(k as int, di);
        assert(di * k == k * di) by (nonlinear_arith);
    }
}

/// A divisor of `b` and of `a` divides `a % b`.
pub proof fn lemma_divides_remainder(d: nat, a: nat, b: nat)
    requires
        b > 0,
        divides(d, a),
        divides(d, b),
    ensures
        divides(d, a % b),
{
    if d != 0 {
        let di = d as int;
        lemma_fundamental_div_mod(a as int, b as int);
        lemma_fundamental_div_mod(a as int, di);
        lemma_fundamental_div_mod(b as int, di);
        let q = a as int / b as int;
        let k = a as int / di - q * (b as int / di);
        assert((a % b) as int == k * di) by (nonlinear_arith)
            requires
                a as int == b as int * q + (a % b) as int,
                a as int == di * (a as int / di),
                b as int == di * (b as int / di),
                k == a as int / di - q * (b as int / di),
        ;
        lemma_mod_multiples_basic(k, di);
    }
}

/// The greatest common divisor divides both arguments.
pub proof fn lemma_gcd_divides(a: nat, b: nat)
    ensures
        is_common_divisor(gcd(a, b), a, b),
    decreases b,
{
    if b == 0 {
        if a != 0 {
            lemma_mod_self_0(a as int);
        }
    } else {
        lemma_gcd_divides(b, a % b);
        let g = gcd(a, b);
        lemma_fundamental_div_mod(a as int, b as int);
        lemma_divides_combination(g, a % b, b, a / b);
        assert((a / b) * b + a % b == a) by (nonlinear_arith)
            requires
                a as int == b as int * (a as int / b as int) + a as int % b as int,
        ;
    }
}

/// Every common divisor of the arguments divides their greatest common divisor.
pub proof fn lemma_gcd_greatest(a: nat, b: nat, d: nat)
    requires
        is_common_divisor(d, a, b),
    ensures
        divides(d, gcd(a, b)),
    decreases b,
{
    if b != 0 {
        lemma_divides_remainder(d, a, b);
        lemma_gcd_greatest(b, a % b, d);
    }
}

/// A divisor of a positive number is at most that number.
pub proof fn lemma_divisor_le(d: nat, n: nat)
    requires
        n > 0,
        divides(d, n),
    ensures
        0 < d <= n,
{
    lemma_fundamental_div_mod(n as int, d as int);
    let q = n as int / d as int;
    assert(d <= n) by (nonlinear_arith)
        requires
            n as int == d as int * q,
            n > 0,
            d > 0,
    ;
}

/// Two numbers that divide each other are equal.
pub proof fn lemma_divides_antisymmetric(x: nat, y: nat)
    requires
        divides(x, y),
        divides(y, x),
    ensures
        x == y,
{
    if x != 0 && y != 0 {
        lemma_divisor_le(x, y);
        lemma_divisor_le(y, x);
    }
}

/// The greatest common divisor does not depend on the order of its arguments.
pub proof fn lemma_gcd_symmetric(a: nat, b: nat)
    ensures
        gcd(a, b) == gcd(b, a),
{
    lemma_gcd_divides(a, b);
    lemma_gcd_divides(b, a);
    lemma_gcd_greatest(a, b, gcd(b, a));
    lemma_gcd_greatest(b, a, gcd(a, b));
    lemma_divides_antisymmetric(gcd(a, b), gcd(b, a));
}

/// With zero as one argument, the greatest common divisor is the other.
pub proof fn lemma_gcd_zero(a: nat)
    ensures
        gcd(a, 0) == a,
        gcd(0, a) == a,
        gcd(0, 0) == 0,
{
    lemma_gcd_symmetric(a, 0);
}

/// For positive arguments the greatest common divisor is positive, divides
/// both, and no larger number divides both.
pub proof fn lemma_gcd_is_greatest_common_divisor(a: nat, b: nat)
    requires
        a > 0,
        b > 0,
    ensures
        gcd(a, b) > 0,
        a % gcd(a, b) == 0,
        b % gcd(a, b) == 0,
        forall|d: nat| d > gcd(a, b) ==> !(#[trigger] is_common_divisor(d, a, b)),
{
    lemma_gcd_divides(a, b);
    lemma_divisor_le(gcd(a, b), a);
    assert forall|d: nat| d > gcd(a, b) implies !(#[trigger] is_common_divisor(d, a, b)) by {
        if is_common_divisor(d, a, b) {
            lemma_gcd_greatest(a, b, d);
            lemma_divisor_le(d, gcd(a, b));
        }
    }
}

/// Two numbers are coprime if a combination of them with two others, taken
/// crosswise, differs from the other by one.
pub proof fn lemma_unit_determinant_coprime(n: nat, d: nat, x: nat, y: nat)
    requires
        n * y == x * d + 1 || x * d == n * y + 1,
    ensures
        gcd(n, d) == 1,
{
    let g = gcd(n, d);
    lemma_gcd_divides(n, d);
    if g == 0 {
        assert(n * y == 0 && x * d == 0) by (nonlinear_arith)
            requires
                n == 0,
                d == 0,
        ;
    } else {
        lemma_mod_self_0(g as int);
        lemma_small_mod(0, g);
        lemma_divides_combination(g, 0, n, y);
        lemma_divides_combination(g, 0, d, x);
        let a = y * n;
        let b = x * d;
        lemma_fundamental_div_mod(a as int, g as int);
        lemma_fundamental_div_mod(b as int, g as int);
        let ka = a as int / g as int;
        let kb = b as int / g as int;
        assert(g == 1) by (nonlinear_arith)
            requires
                a as int == g * ka,
                b as int == g * kb,
                a == b + 1 || b == a + 1,
                g > 0,
        ;
    }
}

/// The magnitude of an integer.
pub open spec fn abs(n: int) -> nat {
    if n < 0 {
        (-n) as nat
    } else {
        n as nat
    }
}

/// A common factor of both arguments is a factor of their greatest common
/// divisor: `gcd(c * a, c * b) == c * gcd(a, b)`.
pub proof fn lemma_gcd_scaled(a: nat, b: nat, c: nat)
    ensures
        gcd(c * a, c * b) == c * gcd(a, b),
    decreases b,
{
    if c == 0 {
        assert(c * a == 0 && c * b == 0 && c * gcd(a, b) == 0) by (nonlinear_arith)
            requires
                c == 0,
        ;
    } else if b == 0 {
        assert(c * b == 0) by (nonlinear_arith)
            requires
                b == 0,
        ;
    } else {
        assert(c * b > 0) by (nonlinear_arith)
            requires
                c > 0,
                b > 0,
        ;
        lemma_truncate_middle(a as int, c as int, b as int);
        lemma_gcd_scaled(b, a % b, c);
    }
}

/// Dividing two numbers by their greatest common divisor leaves coprime
/// numbers.
pub proof fn lemma_quotients_coprime(a: nat, b: nat, x: nat, y: nat)
    requires
        gcd(a, b) > 0,
        x * gcd(a, b) == a,
        y * gcd(a, b) == b,
    ensures
        gcd(x, y) == 1,
{
    let g = gcd(a, b);
    lemma_gcd_scaled(x, y, g);
    assert(g * x == a && g * y == b) by (nonlinear_arith)
        requires
            x * g == a,
            y * g == b,
    ;
    assert(gcd(x, y) == 1) by (nonlinear_arith)
        requires
            g == g * gcd(x, y),
            g > 0,
    ;
}

} // verus!
