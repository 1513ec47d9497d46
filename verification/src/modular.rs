//! Powers under a modulus.

use vstd::prelude::*;
use vstd::arithmetic::div_mod::{lemma_mul_mod_noop_left, lemma_mul_mod_noop_right};
use vstd::arithmetic::div_mod::{lemma_add_mod_noop, lemma_fundamental_div_mod, lemma_mod_self_0};
use vstd::arithmetic::div_mod::{lemma_small_mod, lemma_sub_mod_noop};
use vstd::arithmetic::power::{lemma_pow0, lemma_pow_adds, lemma_pow1, lemma_pow_mod_noop};
use vstd::arithmetic::power::{lemma_pow_multiplies, lemma_square_is_pow2, pow};

verus! {

/// `start` times the power `base` to the `exp`, reduced by `modulus`.
pub open spec fn power_mod_model(start: nat, base: nat, exp: nat, modulus: nat) -> nat {
    ((start * pow(base as int, exp)) % (modulus as int)) as nat
}

/// The product of `a` and `b`, reduced by `modulus`.
pub fn mul_mod(a: u64, b: u64, modulus: u64) -> (r: u64)
    requires
        modulus > 0,
    ensures
        r == (a as int * b as int) % (modulus as int),
        r < modulus,
{
    assert(a as int * b as int <= u128::MAX && a as int * b as int >= 0) by (nonlinear_arith)
        requires
            0 <= a <= 0xffff_ffff_ffff_ffff,
            0 <= b <= 0xffff_ffff_ffff_ffff,
            u128::MAX == 0xffff_ffff_ffff_ffff_ffff_ffff_ffff_ffff,
    ;
    let wide: u128 = (a as u128) * (b as u128);
    (wide % (modulus as u128)) as u64
}

/// Squaring the base halves the exponent.
pub proof fn lemma_power_halves(r: int, b: int, e: nat, m: int)
    requires
        m > 0,
        e > 0,
    ensures
        e % 2 == 0 ==> (r * pow((b * b) % m, e / 2)) % m == (r * pow(b, e)) % m,
        e % 2 == 1 ==> (((r * b) % m) * pow((b * b) % m, e / 2)) % m == (r * pow(b, e)) % m,
{
    let half = e / 2;
    let p = pow(b * b, half);
    let q = pow((b * b) % m, half);
    lemma_pow_mod_noop(b * b, half, m);
    lemma_square_is_pow2(b);
    lemma_pow_multiplies(b, 2, half);
    assert(pow(b, 2 * half) == p);
    if e % 2 == 0 {
        assert(e == 2 * half);
        lemma_mul_mod_noop_right(r, q, m);
        lemma_mul_mod_noop_right(r, p, m);
    } else {
        assert(e == 1 + 2 * half);
        lemma_pow_adds(b, 1, 2 * half);
        lemma_pow1(b);
        assert(pow(b, e) == b * p);
        lemma_mul_mod_noop_left(r * b, q, m);
        lemma_mul_mod_noop_right(r * b, q, m);
        lemma_mul_mod_noop_right(r * b, p, m);
        assert((r * b) * p == r * (b * p)) by (nonlinear_arith);
    }
}

/// `start` times the power `base` to the `exp`, reduced by `modulus`; by
/// squaring the base and halving the exponent.
pub fn power_mod(start: u64, base: u64, exp: u64, modulus: u64) -> (r: u64)
    requires
        modulus > 0,
    ensures
        r == power_mod_model(start as nat, base as nat, exp as nat, modulus as nat),
        r < modulus,
{
    let ghost m = modulus as int;
    let mut result: u64 = start % modulus;
    let mut b: u64 = base % modulus;
    let mut e: u64 = exp;
    proof {
        let x = pow(b as int, exp as nat);
        lemma_mul_mod_noop_left(start as int, x, m);
        lemma_mul_mod_noop_right(start as int, x, m);
        lemma_pow_mod_noop(base as int, exp as nat, m);
        lemma_mul_mod_noop_right(start as int, pow(base as int, exp as nat), m);
    }
    while e > 0
        invariant
            m == modulus as int,
            m > 0,
            result < modulus,
            b < modulus,
            (result as int * pow(b as int, e as nat)) % m == (start as int * pow(
                base as int,
                exp as nat,
            )) % m,
        decreases e,
    {
        proof {
            lemma_power_halves(result as int, b as int, e as nat, m);
        }
        if e % 2 == 1 {
            result = mul_mod(result, b, modulus);
        }
        b = mul_mod(b, b, modulus);
        e = e / 2;
    }
    proof {
        lemma_pow0(b as int);
        lemma_small_mod(result as nat, modulus as nat);
        assert(result as int * 1 == result as int);
    }
    result
}

/// The greatest common divisor of `a` and `b`, by repeated division.
pub open spec fn gcd_model(a: nat, b: nat) -> nat
    decreases b,
{
    if b == 0 {
        a
    } else {
        gcd_model(b, a % b)
    }
}

/// `d` divides `a`.
pub open spec fn divides(d: nat, a: nat) -> bool {
    d > 0 && a % d == 0
}

/// What divides two numbers divides their sum of a multiple of the first
/// and the second.
proof fn lemma_divides_combination(d: nat, b: nat, q: nat, r: nat)
    requires
        divides(d, b),
        divides(d, r),
    ensures
        divides(d, b * q + r),
{
    let di = d as int;
    let bi = b as int;
    let qi = q as int;
    lemma_mul_mod_noop_left(bi, qi, di);
    assert((bi % di) * qi == 0) by (nonlinear_arith)
        requires
            bi % di == 0,
    ;
    lemma_small_mod(0, d);
    assert((bi * qi) % di == 0);
    lemma_add_mod_noop(bi * qi, r as int, di);
    assert((b * q + r) as int == bi * qi + r as int);
}

/// What divides two numbers divides the remainder of the first by the second.
proof fn lemma_divides_remainder(d: nat, a: nat, b: nat)
    requires
        divides(d, a),
        divides(d, b),
        b > 0,
    ensures
        divides(d, a % b),
{
    let di = d as int;
    let q = a / b;
    lemma_fundamental_div_mod(a as int, b as int);
    let bi = b as int;
    let qi = q as int;
    lemma_mul_mod_noop_left(bi, qi, di);
    assert((bi % di) * qi == 0) by (nonlinear_arith)
        requires
            bi % di == 0,
    ;
    lemma_small_mod(0, d);
    assert((bi * qi) % di == 0);
    lemma_sub_mod_noop(a as int, bi * qi, di);
    assert((a % b) as int == a as int - bi * qi);
}

/// The result of the repeated division is the greatest common divisor: it
/// divides both numbers, and whatever divides both divides it.
pub proof fn lemma_gcd_is_greatest(a: nat, b: nat)
    requires
        a > 0 || b > 0,
    ensures
        divides(gcd_model(a, b), a),
        divides(gcd_model(a, b), b),
        forall|d: nat| divides(d, a) && divides(d, b) ==> divides(d, gcd_model(a, b)),
    decreases b,
{
    if b == 0 {
        lemma_mod_self_0(a as int);
    } else {
        let r = a % b;
        let g = gcd_model(b, r);
        lemma_gcd_is_greatest(b, r);
        lemma_fundamental_div_mod(a as int, b as int);
        lemma_divides_combination(g, b, a / b, r);
        assert forall|d: nat| divides(d, a) && divides(d, b) implies divides(d, g) by {
            lemma_divides_remainder(d, a, b);
        }
    }
}

/// The greatest common divisor of `a` and `b`.
pub fn gcd(a: u64, b: u64) -> (r: u64)
    ensures
        r == gcd_model(a as nat, b as nat),
        a > 0 || b > 0 ==> divides(r as nat, a as nat) && divides(r as nat, b as nat),
        a > 0 || b > 0 ==> forall|d: nat|
            divides(d, a as nat) && divides(d, b as nat) ==> divides(d, r as nat),
{
    proof {
        if a > 0 || b > 0 {
            lemma_gcd_is_greatest(a as nat, b as nat);
        }
    }
    let mut x: u64 = a;
    let mut y: u64 = b;
    while y != 0
        invariant
            gcd_model(x as nat, y as nat) == gcd_model(a as nat, b as nat),
        decreases y,
    {
        let rest = x % y;
        x = y;
        y = rest;
    }
    x
}

} // verus!
