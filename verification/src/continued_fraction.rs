//! The continued-fraction expansion of a binary64 magnitude into a fraction
//! of two 31-bit numbers, as a mathematical function, and what holds of it.
//!
//! Magnitudes are counted in units of 2^-1074, as in [`crate::binary64`].

use crate::binary64::{
    divide, exponent_field, fraction_field, is_finite, lemma_dyadic_representable,
    lemma_exponent_bounds, lemma_pow2_order, lemma_pow2_values, lemma_representable_times_pow2,
    lemma_round_exact, lemma_round_monotonic, lemma_times_pow2_adds, lt, magnitude,
    representable, round, sign_bit, times_pow2, unit, Dyadic,
};
use crate::number_theory::{abs, gcd, lemma_unit_determinant_coprime};
use vstd::arithmetic::div_mod::*;
use vstd::arithmetic::power2::*;
use vstd::prelude::*;

verus! {

/// The number of terms after which the expansion ends at the latest.
pub const MAX_ITERATIONS: usize = 30;

/// The largest numerator and denominator: 2^31 - 1.
pub open spec fn max_term() -> nat {
    0x7fff_ffff
}

/// The binary64 number nearest to 1e-10: a remainder below it counts as zero.
pub open spec fn epsilon() -> nat {
    7737125245533627 * pow2(988)
}

/// The binary64 number nearest to 1e-20: an error below it ends the
/// expansion.
pub open spec fn tolerance() -> nat {
    6646139978924579 * pow2(955)
}

/// Whether the fraction `n / d`, rounded to binary64, differs from the value
/// that is approximated by less than the tolerance. The value has the
/// magnitude `target` and is negative if `negative`; the fraction is never
/// negative. The difference is rounded to binary64 before it is compared.
pub open spec fn close_enough(n: nat, d: nat, negative: bool, target: nat) -> bool {
    let x = round(n * unit(), d);
    let diff = if negative {
        x + target
    } else if x >= target {
        (x - target) as nat
    } else {
        (target - x) as nat
    };
    round(diff, 1) < tolerance()
}

/// The reciprocal of a remainder, rounded to binary64.
pub open spec fn next_quotient(f: nat) -> nat {
    round(unit() * unit(), f)
}

/// The convergent at which the expansion of `q` ends, from the last two
/// convergents `n0 / d0` and `n1 / d1` and with `steps` terms left.
///
/// The integer part `a` of `q` gives the next convergent
/// `(a * n1 + n0) / (a * d1 + d0)`. If a term of it would exceed 2^31 - 1, or
/// no step is left, the expansion ends at `n1 / d1`. It ends at the next
/// convergent if the remainder of `q` is below `epsilon()` or the convergent
/// is `close_enough`; else it goes on with the rounded reciprocal of the
/// remainder.
pub open spec fn expansion(
    q: nat,
    target: nat,
    negative: bool,
    n0: nat,
    d0: nat,
    n1: nat,
    d1: nat,
    steps: nat,
) -> (nat, nat)
    decreases steps,
{
    let a = q / unit();
    let f = q % unit();
    let n = a * n1 + n0;
    let d = a * d1 + d0;
    if steps == 0 || n > max_term() || d > max_term() {
        (n1, d1)
    } else if f < epsilon() || close_enough(n, d, negative, target) {
        (n, d)
    } else {
        expansion(next_quotient(f), target, negative, n1, d1, n, d, (steps - 1) as nat)
    }
}

/// Whether the value with these bits is below zero: the sign bit of a zero
/// does not count.
pub open spec fn is_negative(bits: u64) -> bool {
    sign_bit(bits) && magnitude(bits) != 0
}

/// Whether the value with these bits is finite and its magnitude at most
/// 2^31 - 1.
pub open spec fn in_range(bits: u64) -> bool {
    is_finite(bits) && magnitude(bits) <= max_term() * unit()
}

/// The fraction that approximates the binary64 value with these bits: none
/// for a value that is not finite or whose magnitude exceeds 2^31 - 1, else
/// the convergent at which the expansion of the magnitude ends, with the sign
/// of the value on the numerator.
pub open spec fn approximation(bits: u64) -> Option<(int, int)> {
    let mag = magnitude(bits);
    let (n, d) = expansion(mag, mag, is_negative(bits), 0, 1, 1, 0, MAX_ITERATIONS as nat);
    if !in_range(bits) || d == 0 {
        None
    } else if is_negative(bits) {
        Some((-(n as int), d as int))
    } else {
        Some((n as int, d as int))
    }
}

/// Successive convergents `n0 / d0` and `n1 / d1` satisfy
/// `n1 * d0 - n0 * d1 == 1` or `-1`.
pub open spec fn unit_determinant(n0: nat, d0: nat, n1: nat, d1: nat) -> bool {
    n1 * d0 == n0 * d1 + 1 || n0 * d1 == n1 * d0 + 1
}

/// The fraction `n / d` lies between `a0` and `a0 + 1`.
pub open spec fn within_unit_interval(n: nat, d: nat, a0: nat) -> bool {
    a0 * d <= n <= (a0 + 1) * d
}

/// What holds, before each term, of the expansion of a magnitude with the
/// integer part `a0`: either nothing has been expanded yet, or `q` is a
/// rounded reciprocal of a remainder that was not below `epsilon()`, and the
/// last convergents lie between `a0` and `a0 + 1`.
pub open spec fn valid_state(q: nat, n0: nat, d0: nat, n1: nat, d1: nat, a0: nat) -> bool {
    &&& unit_determinant(n0, d0, n1, d1)
    &&& n0 <= max_term() && d0 <= max_term() && n1 <= max_term() && d1 <= max_term()
    &&& if d1 == 0 {
        n0 == 0 && d0 == 1 && n1 == 1 && q <= max_term() * unit() && a0 == q / unit()
    } else {
        &&& unit() <= q <= pow2(1108)
        &&& within_unit_interval(n1, d1, a0)
        &&& if d0 == 0 {
            n0 == 1 && d1 == 1 && n1 == a0
        } else {
            within_unit_interval(n0, d0, a0)
        }
    }
}

/// `1e-10 >= 2^-34` and `1e-20 < 2^-66`, in units of 2^-1074; both are
/// representable, and so is the number below the tolerance.
pub proof fn lemma_constants()
    ensures
        pow2(1040) <= epsilon() < pow2(1041),
        pow2(1007) <= tolerance() < pow2(1008),
        representable(epsilon()),
        representable(tolerance()),
        representable((6646139978924578 * pow2(955)) as nat),
        unit() > 0,
{
    lemma_pow2_values();
    lemma_pow2_adds(52, 988);
    lemma_pow2_adds(53, 988);
    lemma_pow2_adds(52, 955);
    lemma_pow2_adds(53, 955);
    lemma_pow2_pos(988);
    lemma_pow2_pos(955);
    lemma_pow2_pos(1074);
    let e = pow2(988);
    let t = pow2(955);
    assert(0x10_0000_0000_0000 * e <= 7737125245533627 * e < 0x20_0000_0000_0000 * e)
        by (nonlinear_arith)
        requires
            e > 0,
    ;
    assert(0x10_0000_0000_0000 * t <= 6646139978924579 * t < 0x20_0000_0000_0000 * t)
        by (nonlinear_arith)
        requires
            t > 0,
    ;
    lemma_representable_times_pow2(7737125245533627, 988);
    lemma_representable_times_pow2(6646139978924579, 955);
    lemma_representable_times_pow2(6646139978924578, 955);
}

/// The rounded reciprocal of a remainder that is not below `epsilon()` lies
/// between 1 and 2^34.
pub proof fn lemma_next_quotient_bounds(f: nat)
    requires
        epsilon() <= f <= unit(),
    ensures
        unit() <= next_quotient(f) <= pow2(1108),
{
    lemma_constants();
    lemma_pow2_values();
    let u = unit();
    lemma_representable_times_pow2(1, 1074);
    lemma_representable_times_pow2(1, 1108);
    assert(1 * pow2(1074) == pow2(1074) && 1 * pow2(1108) == pow2(1108));
    lemma_pow2_adds(1108, 1040);
    lemma_pow2_adds(1074, 1074);
    lemma_pow2_pos(1040);
    assert(u * u >= u * f && u * u <= pow2(1108) * f) by (nonlinear_arith)
        requires
            pow2(1040) <= f <= u,
            u * u == pow2(1108) * pow2(1040),
    ;
    lemma_round_monotonic(u * u, f, u);
    lemma_round_monotonic(u * u, f, pow2(1108));
}

/// In a valid state the integer part of `q` is at most 2^34.
pub proof fn lemma_integer_part_bound(q: nat, n0: nat, d0: nat, n1: nat, d1: nat, a0: nat)
    requires
        valid_state(q, n0, d0, n1, d1, a0),
    ensures
        q / unit() <= 0x4_0000_0000,
{
    lemma_constants();
    lemma_pow2_values();
    lemma_pow2_adds(34, 1074);
    let u = unit();
    lemma_fundamental_div_mod(q as int, u as int);
    lemma_mod_bound(q as int, u as int);
    assert(q / u <= 0x4_0000_0000) by (nonlinear_arith)
        requires
            q as int == u * (q / u) + q % u,
            0 <= q % u,
            q <= 0x4_0000_0000 * u,
            u > 0,
    ;
}

/// One term of the expansion: from a valid state whose next convergent
/// fits, that convergent has a positive denominator, is in lowest terms and
/// lies between `a0` and `a0 + 1`; and if the remainder is not below
/// `epsilon()`, the state after the term is valid again.
pub proof fn lemma_step(q: nat, n0: nat, d0: nat, n1: nat, d1: nat, a0: nat)
    requires
        valid_state(q, n0, d0, n1, d1, a0),
        (q / unit()) * n1 + n0 <= max_term(),
        (q / unit()) * d1 + d0 <= max_term(),
    ensures
        ({
            let a = q / unit();
            let f = q % unit();
            let n = a * n1 + n0;
            let d = a * d1 + d0;
            &&& d >= 1
            &&& gcd(n, d) == 1
            &&& within_unit_interval(n, d, a0)
            &&& unit_determinant(n1, d1, n, d)
            &&& f < unit()
            &&& f >= epsilon() ==> valid_state(next_quotient(f), n1, d1, n, d, a0)
        }),
{
    lemma_constants();
    let u = unit();
    let a = q / u;
    let f = q % u;
    let n = a * n1 + n0;
    let d = a * d1 + d0;
    lemma_fundamental_div_mod(q as int, u as int);
    lemma_mod_bound(q as int, u as int);
    assert(unit_determinant(n1, d1, n, d)) by (nonlinear_arith)
        requires
            n == a * n1 + n0,
            d == a * d1 + d0,
            unit_determinant(n0, d0, n1, d1),
    ;
    lemma_unit_determinant_coprime(n, d, n1, d1);
    if d1 == 0 {
        assert(n == a && d == 1) by (nonlinear_arith)
            requires
                n == a * n1 + n0,
                d == a * d1 + d0,
                n0 == 0,
                d0 == 1,
                n1 == 1,
                d1 == 0,
        ;
        assert(within_unit_interval(n, d, a0)) by (nonlinear_arith)
            requires
                n == a0,
                d == 1,
        ;
    } else {
        assert(a >= 1) by (nonlinear_arith)
            requires
                q as int == u * a + f,
                0 <= f < u,
                q >= u,
        ;
        if d0 == 0 {
            assert(n == a * a0 + 1 && d == a && within_unit_interval(n, d, a0))
                by (nonlinear_arith)
                requires
                    n == a * n1 + n0,
                    d == a * d1 + d0,
                    n0 == 1,
                    d0 == 0,
                    n1 == a0,
                    d1 == 1,
                    a >= 1,
            ;
        } else {
            assert(within_unit_interval(n, d, a0) && d >= 1) by (nonlinear_arith)
                requires
                    n == a * n1 + n0,
                    d == a * d1 + d0,
                    within_unit_interval(n1, d1, a0),
                    within_unit_interval(n0, d0, a0),
                    a >= 1,
                    d1 >= 1,
            ;
        }
    }
    if f >= epsilon() {
        lemma_next_quotient_bounds(f);
    }
}

/// Where the expansion starts, its first convergent fits: it is the integer
/// part of the magnitude over one.
pub proof fn lemma_first_term_fits(q: nat)
    requires
        q <= max_term() * unit(),
    ensures
        q / unit() <= max_term(),
        (q / unit()) * 1 + 0 <= max_term(),
        (q / unit()) * 0 + 1 <= max_term(),
{
    lemma_constants();
    let u = unit();
    lemma_fundamental_div_mod(q as int, u as int);
    lemma_mod_bound(q as int, u as int);
    let a = q / u;
    assert(a <= max_term()) by (nonlinear_arith)
        requires
            q as int == u * a + q % u,
            0 <= q % u,
            q <= max_term() * u,
            u > 0,
    ;
    assert(a * 1 + 0 == a && a * 0 + 1 == 1) by (nonlinear_arith);
}

/// The expansion from a valid state ends at a fraction of two numbers up to
/// 2^31 - 1 that has a positive denominator, is in lowest terms and lies
/// between `a0` and `a0 + 1`.
pub proof fn lemma_expansion_ends_well(
    q: nat,
    target: nat,
    negative: bool,
    n0: nat,
    d0: nat,
    n1: nat,
    d1: nat,
    steps: nat,
    a0: nat,
)
    requires
        valid_state(q, n0, d0, n1, d1, a0),
        d1 == 0 ==> steps >= 1,
    ensures
        ({
            let (n, d) = expansion(q, target, negative, n0, d0, n1, d1, steps);
            &&& 1 <= d <= max_term()
            &&& n <= max_term()
            &&& gcd(n, d) == 1
            &&& within_unit_interval(n, d, a0)
        }),
    decreases steps,
{
    let a = q / unit();
    let f = q % unit();
    let n = a * n1 + n0;
    let d = a * d1 + d0;
    if d1 == 0 {
        lemma_first_term_fits(q);
        assert(n == a * 1 + 0 && d == a * 0 + 1);
    }
    if steps == 0 || n > max_term() || d > max_term() {
        lemma_unit_determinant_coprime(n1, d1, n0, d0);
    } else {
        lemma_step(q, n0, d0, n1, d1, a0);
        if !(f < epsilon() || close_enough(n, d, negative, target)) {
            lemma_expansion_ends_well(
                next_quotient(f),
                target,
                negative,
                n1,
                d1,
                n,
                d,
                (steps - 1) as nat,
                a0,
            );
        }
    }
}

/// A value has a fraction exactly if it is finite and its magnitude is at
/// most 2^31 - 1. The fraction is then in lowest terms, its denominator is
/// positive, its numerator has the sign of the value, and its magnitude lies
/// between the integer part of the value's magnitude and the next integer.
pub proof fn lemma_approximation(bits: u64)
    ensures
        approximation(bits) is Some <==> in_range(bits),
        approximation(bits) matches Some((n, d)) ==> {
            &&& 0 < d <= max_term()
            &&& abs(n) <= max_term()
            &&& gcd(abs(n), d as nat) == 1
            &&& is_negative(bits) ==> n <= 0
            &&& !is_negative(bits) ==> n >= 0
            &&& within_unit_interval(abs(n), d as nat, magnitude(bits) / unit())
        },
{
    if in_range(bits) {
        let mag = magnitude(bits);
        lemma_first_term_fits(mag);
        lemma_expansion_ends_well(
            mag,
            mag,
            is_negative(bits),
            0,
            1,
            1,
            0,
            MAX_ITERATIONS as nat,
            mag / unit(),
        );
    }
}

/// A value that is less than `epsilon()` above an integer has that integer
/// over one as its fraction.
pub proof fn lemma_near_integer(bits: u64)
    requires
        in_range(bits),
        magnitude(bits) % unit() < epsilon(),
    ensures
        approximation(bits) == Some(
            (
                if is_negative(bits) {
                    -((magnitude(bits) / unit()) as int)
                } else {
                    (magnitude(bits) / unit()) as int
                },
                1int,
            ),
        ),
{
    let mag = magnitude(bits);
    let a = mag / unit();
    lemma_first_term_fits(mag);
    assert(a * 1 + 0 == a && a * 0 + 1 == 1) by (nonlinear_arith);
}

/// The bits of the negated value: the same but for the sign bit.
pub open spec fn negated(bits: u64) -> u64 {
    if bits >= 0x8000_0000_0000_0000 {
        (bits - 0x8000_0000_0000_0000) as u64
    } else {
        (bits + 0x8000_0000_0000_0000) as u64
    }
}

/// Negation changes the sign bit and leaves the magnitude.
pub proof fn lemma_negated(bits: u64)
    ensures
        sign_bit(negated(bits)) == !sign_bit(bits),
        is_finite(negated(bits)) == is_finite(bits),
        magnitude(negated(bits)) == magnitude(bits),
        in_range(negated(bits)) == in_range(bits),
        negated(negated(bits)) == bits,
{
    let other = negated(bits);
    assert(other / 0x10_0000_0000_0000 == bits / 0x10_0000_0000_0000 + 0x800 || other
        / 0x10_0000_0000_0000 + 0x800 == bits / 0x10_0000_0000_0000);
    assert(exponent_field(other) == exponent_field(bits));
    assert(fraction_field(other) == fraction_field(bits));
}

/// Whether the expansion for a positive value never ends because a
/// convergent is `close_enough`.
pub open spec fn never_close(
    q: nat,
    target: nat,
    n0: nat,
    d0: nat,
    n1: nat,
    d1: nat,
    steps: nat,
) -> bool
    decreases steps,
{
    let a = q / unit();
    let f = q % unit();
    let n = a * n1 + n0;
    let d = a * d1 + d0;
    if steps == 0 || n > max_term() || d > max_term() || f < epsilon() {
        true
    } else if close_enough(n, d, false, target) {
        false
    } else {
        never_close(next_quotient(f), target, n1, d1, n, d, (steps - 1) as nat)
    }
}

/// No fraction is close to a negative value whose magnitude is at least
/// `epsilon()`: a fraction is not negative.
pub proof fn lemma_negative_never_close(n: nat, d: nat, target: nat)
    requires
        target >= epsilon(),
    ensures
        !close_enough(n, d, true, target),
{
    lemma_constants();
    lemma_pow2_order(1008, 1040);
    let diff = round(n * unit(), d) + target;
    assert(diff >= epsilon() * 1) by (nonlinear_arith)
        requires
            diff >= epsilon(),
    ;
    lemma_round_monotonic(diff, 1, epsilon());
}

/// Where the expansion for a positive value never ends because a convergent
/// is close, the expansion for the negated value is the same.
pub proof fn lemma_same_expansion_unless_close(
    q: nat,
    target: nat,
    n0: nat,
    d0: nat,
    n1: nat,
    d1: nat,
    steps: nat,
)
    requires
        never_close(q, target, n0, d0, n1, d1, steps),
        q == target || target >= epsilon(),
    ensures
        expansion(q, target, false, n0, d0, n1, d1, steps) == expansion(
            q,
            target,
            true,
            n0,
            d0,
            n1,
            d1,
            steps,
        ),
    decreases steps,
{
    let a = q / unit();
    let f = q % unit();
    let n = a * n1 + n0;
    let d = a * d1 + d0;
    if !(steps == 0 || n > max_term() || d > max_term() || f < epsilon()) {
        lemma_constants();
        lemma_mod_decreases(q, unit());
        lemma_negative_never_close(n, d, target);
        lemma_same_expansion_unless_close(
            next_quotient(f),
            target,
            n1,
            d1,
            n,
            d,
            (steps - 1) as nat,
        );
    }
}

/// Negating a value negates the numerator of its fraction and leaves the
/// denominator, for every value other than zero that has a fraction and
/// whose expansion is the same with either sign. The expansions differ only
/// where the one for the positive value ends because a convergent is
/// `close_enough`, which never ends the one for the negative value.
pub proof fn lemma_negation(bits: u64)
    requires
        in_range(bits),
        magnitude(bits) != 0,
        expansion(magnitude(bits), magnitude(bits), false, 0, 1, 1, 0, MAX_ITERATIONS as nat)
            == expansion(
            magnitude(bits),
            magnitude(bits),
            true,
            0,
            1,
            1,
            0,
            MAX_ITERATIONS as nat,
        ),
    ensures
        approximation(bits) matches Some((n, d)) && approximation(negated(bits)) == Some((-n, d)),
{
    lemma_negated(bits);
    lemma_approximation(bits);
    lemma_approximation(negated(bits));
}

/// Negating a value negates the numerator of its fraction and leaves the
/// denominator, for every value other than zero that has a fraction and
/// whose expansion never ends because a convergent is `close_enough`.
pub proof fn lemma_negation_unless_close(bits: u64)
    requires
        in_range(bits),
        magnitude(bits) != 0,
        never_close(magnitude(bits), magnitude(bits), 0, 1, 1, 0, MAX_ITERATIONS as nat),
    ensures
        approximation(bits) matches Some((n, d)) && approximation(negated(bits)) == Some((-n, d)),
{
    lemma_same_expansion_unless_close(
        magnitude(bits),
        magnitude(bits),
        0,
        1,
        1,
        0,
        MAX_ITERATIONS as nat,
    );
    lemma_negation(bits);
}

/// 1e-10 as a binary64 number.
pub fn epsilon_value() -> (x: Dyadic)
    ensures
        x@ == epsilon(),
        x.wf(),
{
    Dyadic { mant: 7737125245533627, exp: -86 }
}

/// 1e-20 as a binary64 number.
pub fn tolerance_value() -> (x: Dyadic)
    ensures
        x@ == tolerance(),
        x.wf(),
{
    Dyadic { mant: 6646139978924579, exp: -119 }
}

/// 2^31 - 1 as a binary64 number.
pub fn max_term_value() -> (x: Dyadic)
    ensures
        x@ == max_term() * unit(),
        x.wf(),
{
    Dyadic { mant: 0x7fff_ffff, exp: 0 }
}

/// Whether `n / d` is `close_enough` to the value of magnitude `target`.
pub fn is_close(n: u32, d: u32, negative: bool, target: Dyadic) -> (r: bool)
    requires
        n <= 0x7fff_ffff,
        0 < d <= 0x7fff_ffff,
        target.wf(),
        target.normalized(),
        target@ <= max_term() * unit(),
    ensures
        r == close_enough(n as nat, d as nat, negative, target@),
{
    let x: Dyadic = divide(n as u64, d as u64);
    proof {
        lemma_constants();
        lemma_pow2_values();
    }
    if n == 0 {
        proof {
            assert(x@ == 0) by (nonlinear_arith)
                requires
                    x@ == x.mant * pow2((x.exp + 1074) as nat),
                    x.mant == 0,
            ;
            lemma_dyadic_representable(target);
            lemma_round_exact(target@, 1);
            assert(target@ * 1 == target@) by (nonlinear_arith);
        }
        return lt(target, tolerance_value());
    }
    proof {
        // 2^-31 <= n / d <= 2^31
        let u = unit();
        lemma_pow2_adds(1043, 31);
        lemma_pow2_adds(31, 1074);
        lemma_representable_times_pow2(1, 1043);
        lemma_representable_times_pow2(1, 1105);
        assert(1 * pow2(1043) == pow2(1043) && 1 * pow2(1105) == pow2(1105));
        assert(n * u >= pow2(1043) * d && n * u <= pow2(1105) * d) by (nonlinear_arith)
            requires
                u == pow2(1043) * 0x8000_0000,
                pow2(1105) == 0x8000_0000 * u,
                1 <= n <= 0x7fff_ffff,
                1 <= d <= 0x7fff_ffff,
        ;
        lemma_round_monotonic(n as nat * u, d as nat, pow2(1043));
        lemma_round_monotonic(n as nat * u, d as nat, pow2(1105));
        lemma_pow2_order(1105, 1106);
        lemma_exponent_bounds(x, 1043);
        lemma_exponent_bounds(x, 1106);
        lemma_pow2_order(1008, 1042);
        lemma_pow2_order(1042, 1043);
        lemma_pow2_unfold(1043);
    }
    if negative {
        proof {
            let diff = x@ + target@;
            lemma_representable_times_pow2(1, 1042);
            assert(1 * pow2(1042) == pow2(1042));
            assert(diff >= pow2(1042) * 1) by (nonlinear_arith)
                requires
                    diff >= pow2(1042),
            ;
            lemma_round_monotonic(diff, 1, pow2(1042));
        }
        return false;
    }
    if target.exp < -85 {
        proof {
            lemma_exponent_bounds(target, 1042);
            let diff = (x@ - target@) as nat;
            lemma_representable_times_pow2(1, 1042);
            assert(1 * pow2(1042) == pow2(1042));
            assert(diff >= pow2(1042) * 1) by (nonlinear_arith)
                requires
                    diff >= pow2(1042),
            ;
            lemma_round_monotonic(diff, 1, pow2(1042));
        }
        return false;
    }
    proof {
        lemma_pow2_adds(31, 1074);
        assert(target@ < pow2(1105)) by (nonlinear_arith)
            requires
                target@ <= max_term() * unit(),
                pow2(1105) == 0x8000_0000 * unit(),
                max_term() == 0x7fff_ffff,
                unit() > 0,
        ;
        lemma_exponent_bounds(target, 1105);
        let xe = (x.exp + 85) as nat;
        let te = (target.exp + 85) as nat;
        lemma_pow2_order(xe, 64);
        lemma_pow2_order(te, 64);
        assert(x.mant * pow2(xe) <= 0x20_0000_0000_0000 * 0x1_0000_0000_0000_0000 && target.mant
            * pow2(te) <= 0x20_0000_0000_0000 * 0x1_0000_0000_0000_0000) by (nonlinear_arith)
            requires
                x.mant <= 0x20_0000_0000_0000,
                target.mant <= 0x20_0000_0000_0000,
                pow2(xe) <= 0x1_0000_0000_0000_0000,
                pow2(te) <= 0x1_0000_0000_0000_0000,
        ;
    }
    let xs: u128 = times_pow2(x.mant as u128, (x.exp + 85) as u32);
    let ts: u128 = times_pow2(target.mant as u128, (target.exp + 85) as u32);
    let delta: u128 = if xs >= ts {
        xs - ts
    } else {
        ts - xs
    };
    proof {
        let p = pow2(989);
        let t = pow2(955);
        lemma_times_pow2_adds(x.mant as nat, (x.exp + 85) as nat, 989);
        lemma_times_pow2_adds(target.mant as nat, (target.exp + 85) as nat, 989);
        lemma_pow2_adds(34, 955);
        lemma_pow2_pos(955);
        let diff: nat = if x@ >= target@ {
            (x@ - target@) as nat
        } else {
            (target@ - x@) as nat
        };
        assert(diff == delta * p) by (nonlinear_arith)
            requires
                x@ == xs * p,
                target@ == ts * p,
                delta == (if xs >= ts {
                    xs - ts
                } else {
                    ts - xs
                }),
                diff == (if x@ >= target@ {
                    x@ - target@
                } else {
                    target@ - x@
                }),
        ;
        let below: nat = (6646139978924578 * t) as nat;
        if delta <= 386856 {
            assert(diff <= below * 1 && below < tolerance()) by (nonlinear_arith)
                requires
                    diff == delta * p,
                    p == 0x4_0000_0000 * t,
                    delta <= 386856,
                    below == 6646139978924578 * t,
                    tolerance() == 6646139978924579 * t,
                    t > 0,
            ;
            lemma_round_monotonic(diff, 1, below);
        } else {
            assert(diff >= tolerance() * 1) by (nonlinear_arith)
                requires
                    diff == delta * p,
                    p == 0x4_0000_0000 * t,
                    delta >= 386857,
                    tolerance() == 6646139978924579 * t,
                    t > 0,
            ;
            lemma_round_monotonic(diff, 1, tolerance());
        }
    }
    delta <= 386856
}

} // verus!
