//! Fractions of 32-bit integers in lowest terms.

use crate::number_theory::{abs, gcd, lemma_gcd_divides, lemma_quotients_coprime};
use num_rational::Ratio;
use vstd::prelude::*;

verus! {

/// `num_rational::Ratio::new`, with the numerator and the denominator of the
/// ratio it makes read back by `Ratio::numer` and `Ratio::denom`.
///
/// Believed of it: the ratio is the given one with both terms divided by
/// their greatest common divisor, and with the sign moved to the numerator so
/// that the denominator is positive. A zero denominator makes `Ratio::new`
/// panic, and `i32::MIN` has no negation, so both are kept out.
#[verifier::external_body]
pub(crate) fn ratio_new(numer: i32, denom: i32) -> (r: (i32, i32))
    requires
        denom != 0,
        numer > i32::MIN,
        denom > i32::MIN,
    ensures
        r.1 > 0,
        r.0 * gcd(abs(numer as int), abs(denom as int)) == (if denom > 0 {
            numer as int
        } else {
            -(numer as int)
        }),
        r.1 * gcd(abs(numer as int), abs(denom as int)) == abs(denom as int),
{
    let ratio = Ratio::new(numer, denom);
    (*ratio.numer(), *ratio.denom())
}

/// The fraction `numer / denom` in lowest terms and with a positive
/// denominator. There is none where `denom` is zero, nor where a term is
/// `i32::MIN`, whose magnitude no `i32` holds.
pub fn lowest_terms(numer: i32, denom: i32) -> (r: Option<(i32, i32)>)
    ensures
        r is Some <==> denom != 0 && numer > i32::MIN && denom > i32::MIN,
        r matches Some((n, d)) ==> {
            let g = gcd(abs(numer as int), abs(denom as int));
            &&& d > 0
            &&& g > 0
            &&& n * g == (if denom > 0 {
                numer as int
            } else {
                -(numer as int)
            })
            &&& d * g == abs(denom as int)
            &&& gcd(abs(n as int), d as nat) == 1
        },
{
    if denom == 0 || numer == i32::MIN || denom == i32::MIN {
        return None;
    }
    let r: (i32, i32) = ratio_new(numer, denom);
    proof {
        let a = abs(numer as int);
        let b = abs(denom as int);
        let g = gcd(a, b);
        lemma_gcd_divides(a, b);
        assert(abs(r.0 as int) * g == a) by (nonlinear_arith)
            requires
                r.0 * g == numer || r.0 * g == -numer,
                a == abs(numer as int),
                g >= 0,
        ;
        lemma_quotients_coprime(a, b, abs(r.0 as int), r.1 as nat);
    }
    Some(r)
}

} // verus!
