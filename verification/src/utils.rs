//! Small utilities shared by plugin code.

use crate::binary64::{
    decode, lemma_exponent_bounds, lemma_pow2_values, lt, magnitude, reciprocal, split, unit,
    Dyadic,
};
use crate::continued_fraction::{
    approximation, epsilon_value, expansion, in_range, is_close, is_negative, lemma_constants,
    lemma_expansion_ends_well, lemma_first_term_fits, lemma_integer_part_bound, lemma_step,
    max_term, max_term_value, valid_state, within_unit_interval, MAX_ITERATIONS,
};
use crate::number_theory;
use crate::rational::ratio_new;
use vstd::arithmetic::power2::*;
use vstd::prelude::*;

verus! {

/// The result of handing a buffer downstream, as the media framework counts
/// it: success is zero and each failure a negative code.
#[derive(Clone, Copy, Debug, PartialEq, Eq, Structural)]
pub enum GstFlowReturn {
    Success,
    NotLinked,
    Flushing,
    Eos,
    NotNegotiated,
    Error,
}

impl GstFlowReturn {
    /// The number that the media framework uses for each outcome.
    pub open spec fn spec_code(self) -> int {
        match self {
            GstFlowReturn::Success => 0,
            GstFlowReturn::NotLinked => -1,
            GstFlowReturn::Flushing => -2,
            GstFlowReturn::Eos => -3,
            GstFlowReturn::NotNegotiated => -4,
            GstFlowReturn::Error => -5,
        }
    }

    /// The number that the media framework uses for this outcome.
    pub fn code(&self) -> (c: i32)
        ensures
            c == self.spec_code(),
    {
        match self {
            GstFlowReturn::Success => 0,
            GstFlowReturn::NotLinked => -1,
            GstFlowReturn::Flushing => -2,
            GstFlowReturn::Eos => -3,
            GstFlowReturn::NotNegotiated => -4,
            GstFlowReturn::Error => -5,
        }
    }
}

/// A truth value as the C side of the media framework passes it.
#[derive(Clone, Copy, Debug, PartialEq, Eq, Structural)]
pub enum GBoolean {
    False,
    True,
}

impl GBoolean {
    /// `True` for `true`, `False` for `false`.
    pub fn from_bool(v: bool) -> (b: GBoolean)
        ensures
            b == (if v {
                GBoolean::True
            } else {
                GBoolean::False
            }),
            (b is True) == v,
    {
        if v {
            GBoolean::True
        } else {
            GBoolean::False
        }
    }

    /// `true` exactly for `True`.
    pub fn to_bool(&self) -> (v: bool)
        ensures
            v == (*self is True),
    {
        !(*self == GBoolean::False)
    }
}

/// The greatest common divisor of `a` and `b`, by Euclid's algorithm.
pub fn gcd(a: u32, b: u32) -> (g: u32)
    ensures
        g == number_theory::gcd(a as nat, b as nat),
        number_theory::is_common_divisor(g as nat, a as nat, b as nat),
        forall|d: nat|
            number_theory::is_common_divisor(d, a as nat, b as nat) ==> #[trigger] number_theory::divides(
                d,
                g as nat,
            ),
        b == 0 ==> g == a,
        a == 0 ==> g == b,
{
    let mut x: u32 = a;
    let mut y: u32 = b;
    while y != 0
        invariant
            number_theory::gcd(x as nat, y as nat) == number_theory::gcd(a as nat, b as nat),
        decreases y,
    {
        let tmp: u32 = x;
        x = y;
        y = tmp % y;
    }
    proof {
        number_theory::lemma_gcd_divides(a as nat, b as nat);
        number_theory::lemma_gcd_zero(b as nat);
        assert forall|d: nat|
            number_theory::is_common_divisor(d, a as nat, b as nat) implies #[trigger] number_theory::divides(
            d,
            x as nat,
        ) by {
            number_theory::lemma_gcd_greatest(a as nat, b as nat, d);
        }
    }
    x
}

/// Approximates the binary64 value with the given bits by a fraction of two
/// 32-bit integers, by expanding its magnitude into a continued fraction.
///
/// Returns the numerator and the denominator. There is no fraction for an
/// infinity or a NaN, nor for a value whose magnitude exceeds 2^31 - 1; every
/// other value has one. The fraction is in lowest terms, its denominator is
/// positive, its numerator has the sign of the value, and it lies in the same
/// interval between two neighbouring integers as the value.
pub fn f64_to_fraction(bits: u64) -> (r: Option<(i32, i32)>)
    ensures
        r is Some <==> in_range(bits),
        match r {
            Some((n, d)) => approximation(bits) == Some((n as int, d as int)),
            None => approximation(bits) is None,
        },
        r matches Some((n, d)) ==> {
            let a0 = magnitude(bits) / unit();
            &&& d > 0
            &&& number_theory::gcd(number_theory::abs(n as int), d as nat) == 1
            &&& is_negative(bits) ==> n <= 0
            &&& !is_negative(bits) ==> n >= 0
            &&& within_unit_interval(number_theory::abs(n as int), d as nat, a0)
        },
{
    let (sign, target): (bool, Dyadic) = match decode(bits) {
        None => {
            return None;
        },
        Some(p) => p,
    };
    let negative: bool = sign && target.mant != 0;
    proof {
        lemma_constants();
        lemma_pow2_values();
        lemma_pow2_pos((target.exp + 1074) as nat);
        assert((target.mant != 0) == (target@ != 0)) by (nonlinear_arith)
            requires
                target@ == target.mant * pow2((target.exp + 1074) as nat),
                pow2((target.exp + 1074) as nat) > 0,
        ;
    }
    if lt(max_term_value(), target) {
        return None;
    }
    let ghost a0: nat = target@ / unit();
    proof {
        lemma_first_term_fits(target@);
        lemma_expansion_ends_well(target@, target@, negative, 0, 1, 1, 0, MAX_ITERATIONS as nat, a0);
    }
    let mut q: Dyadic = target;
    let mut n0: u32 = 0;
    let mut d0: u32 = 1;
    let mut n1: u32 = 1;
    let mut d1: u32 = 0;
    let mut i: usize = 0;
    while i < MAX_ITERATIONS
        invariant_except_break
            i <= MAX_ITERATIONS,
            q.wf(),
            valid_state(q@, n0 as nat, d0 as nat, n1 as nat, d1 as nat, a0),
            expansion(
                q@,
                target@,
                negative,
                n0 as nat,
                d0 as nat,
                n1 as nat,
                d1 as nat,
                (MAX_ITERATIONS - i) as nat,
            ) == expansion(target@, target@, negative, 0, 1, 1, 0, MAX_ITERATIONS as nat),
        invariant
            target.wf(),
            target.normalized(),
            target@ <= max_term() * unit(),
        ensures
            (n1 as nat, d1 as nat) == expansion(
                target@,
                target@,
                negative,
                0,
                1,
                1,
                0,
                MAX_ITERATIONS as nat,
            ),
        decreases MAX_ITERATIONS - i,
    {
        proof {
            lemma_integer_part_bound(q@, n0 as nat, d0 as nat, n1 as nat, d1 as nat, a0);
        }
        let (a, f): (u64, Dyadic) = split(q);
        proof {
            lemma_constants();
            assert((n1 >= 1 ==> a * n1 >= a) && (d1 >= 1 ==> a * d1 >= a)) by (nonlinear_arith)
                requires
                    a >= 0,
            ;
            assert(a <= 0x7fff_ffff ==> a * n1 <= 0x7fff_ffff * 0x7fff_ffff && a * d1 <= 0x7fff_ffff
                * 0x7fff_ffff) by (nonlinear_arith)
                requires
                    n1 <= 0x7fff_ffff,
                    d1 <= 0x7fff_ffff,
            ;
        }
        if a > 0x7fff_ffff {
            break ;
        }
        let n: u64 = a * (n1 as u64) + (n0 as u64);
        let d: u64 = a * (d1 as u64) + (d0 as u64);
        if n > 0x7fff_ffff || d > 0x7fff_ffff {
            break ;
        }
        proof {
            lemma_step(q@, n0 as nat, d0 as nat, n1 as nat, d1 as nat, a0);
        }
        n0 = n1;
        d0 = d1;
        n1 = n as u32;
        d1 = d as u32;
        if lt(f, epsilon_value()) {
            break ;
        }
        proof {
            lemma_pow2_pos((f.exp + 1074) as nat);
            assert(f.mant > 0) by (nonlinear_arith)
                requires
                    f@ == f.mant * pow2((f.exp + 1074) as nat),
                    f@ > 0,
            ;
            lemma_exponent_bounds(f, 1040);
        }
        let r: Dyadic = reciprocal(f);
        // Convergents are in lowest terms, so this division leaves them as
        // they are.
        let g: u32 = gcd(n1, d1);
        if g != 0 {
            n1 = n1 / g;
            d1 = d1 / g;
        }
        if is_close(n as u32, d as u32, negative, target) {
            break ;
        }
        q = r;
        i = i + 1;
    }
    if d1 == 0 {
        return None;
    }
    let numer: i32 = if negative {
        -(n1 as i32)
    } else {
        n1 as i32
    };
    let (n, d): (i32, i32) = ratio_new(numer, d1 as i32);
    proof {
        let gg = number_theory::gcd(number_theory::abs(numer as int), number_theory::abs(d1 as int));
        assert(gg == 1);
        assert(n * 1 == n && d * 1 == d);
    }
    Some((n, d))
}

} // verus!
