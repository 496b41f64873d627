use vstd::arithmetic::div_mod::{lemma_mul_mod_noop, lemma_mod_bound};
use vstd::arithmetic::power::{lemma_pow_adds, lemma_pow_mod_noop, lemma_pow_multiplies, pow};
use vstd::prelude::*;

verus! {

/// If `a ≡ c` and `b ≡ d` modulo `m`, then `a * b ≡ c * d` modulo `m`.
pub proof fn lemma_mul_cong(a: int, b: int, c: int, d: int, m: int)
    requires
        m > 0,
        a % m == c % m,
        b % m == d % m,
    ensures
        (a * b) % m == (c * d) % m,
{
    lemma_mul_mod_noop(a, b, m);
    lemma_mul_mod_noop(c, d, m);
}

/// `(a * b) mod modulus`, computed through a 128-bit intermediate so that it
/// never overflows.
pub fn multiply_mod(a: u64, b: u64, modulus: u64) -> (r: u64)
    requires
        modulus > 0,
    ensures
        r as int == (a as int * b as int) % (modulus as int),
        r < modulus,
{
    let x: u128 = (a % modulus) as u128;
    let y: u128 = (b % modulus) as u128;
    proof {
        lemma_mul_mod_noop(a as int, b as int, modulus as int);
        assert(x * y <= (u64::MAX as u128) * (u64::MAX as u128)) by (nonlinear_arith)
            requires
                x < u64::MAX,
                y < u64::MAX,
        ;
    }
    let p: u128 = x * y;
    let r: u128 = p % (modulus as u128);
    proof {
        lemma_mod_bound(p as int, modulus as int);
    }
    r as u64
}

/// `base ^ exp mod modulus` by square-and-multiply.
pub fn mod_pow(base: u64, exp: u64, modulus: u64) -> (r: u64)
    requires
        modulus > 0,
    ensures
        r as int == pow(base as int, exp as nat) % (modulus as int),
        r < modulus,
{
    let m = Ghost(modulus as int);
    if modulus == 1 {
        return 0;
    }
    let mut result: u64 = 1;
    let mut b: u64 = base % modulus;
    let mut e: u64 = exp;
    proof {
        lemma_pow_mod_noop(base as int, exp as nat, m@);
        assert((1 * pow(b as int, e as nat)) % m@ == pow(base as int, exp as nat) % m@);
    }
    while e > 0
        invariant
            m@ == modulus as int,
            modulus > 1,
            result < modulus,
            b < modulus,
            (result as int * pow(b as int, e as nat)) % m@ == pow(base as int, exp as nat) % m@,
        decreases e,
    {
        let ghost old_r = result as int;
        let ghost old_b = b as int;
        let ghost old_e = e as nat;
        let ghost h: nat = (e / 2) as nat;
        proof {
            lemma_pow_multiplies(old_b, 2, h);
            lemma_pow_adds(old_b, 1, 1);
            vstd::arithmetic::power::lemma_pow1(old_b);
            assert(pow(old_b, 2) == old_b * old_b);
        }
        if e % 2 == 1 {
            result = multiply_mod(result, b, modulus);
            proof {
                assert(old_e == 2 * h + 1);
                lemma_pow_adds(old_b, 1, 2 * h);
                assert(pow(old_b, old_e) == old_b * pow(old_b * old_b, h));
            }
        } else {
            proof {
                assert(old_e == 2 * h);
            }
        }
        e = e / 2;
        b = multiply_mod(b, b, modulus);
        proof {
            lemma_pow_mod_noop(old_b * old_b, h, m@);
            assert(pow(b as int, h) % m@ == pow(old_b * old_b, h) % m@);
            if old_e % 2 == 1 {
                assert(result as int % m@ == (old_r * old_b) % m@) by {
                    lemma_mod_bound(old_r * old_b, m@);
                    vstd::arithmetic::div_mod::lemma_mod_twice(old_r * old_b, m@);
                }
                lemma_mul_cong(result as int, pow(b as int, h), old_r * old_b, pow(old_b * old_b, h), m@);
                assert(old_r * old_b * pow(old_b * old_b, h) == old_r * (old_b * pow(old_b * old_b, h))) by (nonlinear_arith);
            } else {
                assert(result as int % m@ == old_r % m@);
                lemma_mul_cong(result as int, pow(b as int, h), old_r, pow(old_b * old_b, h), m@);
            }
        }
    }
    proof {
        vstd::arithmetic::power::lemma_pow0(b as int);
        vstd::arithmetic::div_mod::lemma_small_mod(result as nat, modulus as nat);
    }
    result
}

} // verus!
