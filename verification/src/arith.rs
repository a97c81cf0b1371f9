//! Modular arithmetic over unsigned integers whose products overflow a
//! machine word: greatest common divisors, widened multiply-and-reduce,
//! modular exponentiation, and the extended Euclidean algorithm.

use num_bigint::ToBigUint;
use num_traits::cast::ToPrimitive;
use vstd::prelude::*;

verus! {

use vstd::arithmetic::power::{pow, lemma_pow_adds, lemma_pow0, lemma_pow1};
use vstd::arithmetic::div_mod::{
    lemma_mul_mod_noop_general,
    lemma_small_mod,
    lemma_fundamental_div_mod,
    lemma_mul_mod_noop_right,
};

/// Greatest common divisor, defined by the Euclidean recursion.
pub open spec fn spec_gcd(a: nat, b: nat) -> nat
    decreases b,
{
    if b == 0 {
        a
    } else {
        spec_gcd(b, a % b)
    }
}

/// Euclid's algorithm.
pub fn gcd(a: u128, b: u128) -> (r: u128)
    ensures
        r == spec_gcd(a as nat, b as nat),
    decreases b,
{
    if b == 0 {
        a
    } else {
        gcd(b, a % b)
    }
}

/// Relies on num_bigint: `ToBigUint::to_biguint` on a `u128` always succeeds,
/// `Mul` and `Rem` on `BigUint` are arbitrary-precision product and remainder,
/// and `ToPrimitive::to_u128` succeeds because the remainder is below `m`.
#[verifier::external_body]
pub(crate) fn mul_mod(a: u128, b: u128, m: u128) -> (r: u128)
    requires
        m >= 1,
    ensures
        r == (a as nat * b as nat) % (m as nat),
{
    let big_a = a.to_biguint().unwrap();
    let big_b = b.to_biguint().unwrap();
    let big_m = m.to_biguint().unwrap();
    ((big_a * big_b) % big_m).to_u128().unwrap()
}

/// Modular exponentiation by halving the exponent: squares descend an even
/// exponent, a multiply-then-decrement handles an odd one. An exponent of
/// zero yields 1 whatever the base, even a base of zero.
pub fn expmod(base: u128, exp: u128, modulo: u128) -> (r: u128)
    requires
        modulo >= 1,
    ensures
        exp == 0 ==> r == 1,
        exp > 0 ==> r == pow(base as int, exp as nat) % (modulo as int),
        modulo >= 2 ==> r == pow(base as int, exp as nat) % (modulo as int),
    decreases exp,
{
    if exp == 0 {
        proof {
            lemma_pow0(base as int);
            if modulo >= 2 {
                lemma_small_mod(1nat, modulo as nat);
            }
        }
        return 1;
    }

    if exp % 2 == 0 {
        let expm: u128 = expmod(base, exp / 2, modulo);
        let res: u128 = mul_mod(expm, expm, modulo);
        proof {
            let b = base as int;
            let m = modulo as int;
            let h = (exp / 2) as nat;
            lemma_mul_mod_noop_general(pow(b, h), pow(b, h), m);
            lemma_pow_adds(b, h, h);
            assert(h + h == exp as nat);
        }
        res
    } else {
        let expm: u128 = expmod(base, exp - 1, modulo);
        let res: u128 = mul_mod(base, expm, modulo);
        proof {
            let b = base as int;
            let m = modulo as int;
            let e1 = (exp - 1) as nat;
            if e1 == 0 {
                lemma_pow0(b);
                lemma_pow1(b);
                lemma_mul_mod_noop_right(b, 1, m);
            } else {
                lemma_mul_mod_noop_general(b, pow(b, e1), m);
                lemma_pow1(b);
                lemma_pow_adds(b, 1nat, e1);
            }
        }
        res
    }
}

/// The extended Euclidean algorithm. Returns the greatest common divisor of
/// `num` and `modulo` and leaves in `x` and `y` a pair of Bezout coefficients
/// for it, both bounded so that every intermediate fits an `i128`.
pub fn calculate_inverse(num: u128, modulo: u128, x: &mut i128, y: &mut i128) -> (g: u128)
    requires
        1 <= modulo <= i128::MAX,
        num <= i128::MAX,
    ensures
        g == spec_gcd(modulo as nat, num as nat),
        *final(x) * num + *final(y) * modulo == g,
        -(modulo as int) <= *final(x) <= modulo as int,
        num == 0 ==> *final(x) == 0 && *final(y) == 1,
        num >= 1 ==> -(num as int) <= *final(y) <= num as int,
    decreases num,
{
    if num == 0 {
        *x = 0;
        *y = 1;
        return modulo;
    }

    let mut x1: i128 = 0;
    let mut y1: i128 = 0;
    let gcd_val: u128 = calculate_inverse(modulo % num, num, &mut x1, &mut y1);
    let quot: u128 = modulo / num;

    proof {
        let a = num as int;
        let b = modulo as int;
        let q = b / a;
        let r = b % a;
        lemma_fundamental_div_mod(b, a);
        assert(b == q * a + r);
        // b % a == b - (b / a) * a, so the recursive Bezout identity
        // x1 * (b % a) + y1 * a == g rearranges to the one returned here.
        assert((y1 - q * x1) * a + x1 * b == x1 * r + y1 * a) by (nonlinear_arith)
            requires
                r == b - q * a,
        {}
        // |quot * x1| <= (b / a) * a == b - r keeps the products inside i128.
        if modulo % num == 0 {
            assert(x1 == 0);
        } else {
            assert(-(b - r) <= q * x1 <= b - r) by (nonlinear_arith)
                requires
                    a >= 1,
                    0 <= q,
                    q * a == b - r,
                    -a <= x1 <= a,
            {}
        }
    }

    *x = y1 - (quot as i128) * x1;
    *y = x1;

    gcd_val
}

} // verus!
