//! Arithmetic in the prime field of integers modulo `p`, on `u64` residues.
use vstd::prelude::*;
use vstd::arithmetic::div_mod::{lemma_mod_bound, lemma_sub_mod_noop};

verus! {

/// `p` is a prime number.
pub open spec fn is_prime(p: int) -> bool {
    &&& p >= 2
    &&& forall|d: int| 1 < d < p ==> #[trigger] (p % d) != 0
}

/// In a prime field the product of two non-zero residues is non-zero.
pub proof fn lemma_no_zero_divisors(p: int, a: int, b: int)
    requires
        is_prime(p),
        0 < a < p,
        0 < b < p,
    ensures
        (a * b) % p != 0,
    decreases a,
{
    if a == 1 {
        assert(a * b == b);
        vstd::arithmetic::div_mod::lemma_small_mod(b as nat, p as nat);
    } else {
        let q = p / a;
        let r = p % a;
        assert(p % a != 0);
        vstd::arithmetic::div_mod::lemma_fundamental_div_mod(p, a);
        lemma_mod_bound(p, a);
        lemma_no_zero_divisors(p, r, b);
        if (a * b) % p == 0 {
            let k = (a * b) / p;
            vstd::arithmetic::div_mod::lemma_fundamental_div_mod(a * b, p);
            assert(a * b == p * k);
            assert(r * b == p * (b - q * k)) by (nonlinear_arith)
                requires
                    p == a * q + r,
                    a * b == p * k,
            ;
            vstd::arithmetic::div_mod::lemma_mod_multiples_basic(b - q * k, p);
            assert((b - q * k) * p == p * (b - q * k)) by (nonlinear_arith);
        }
    }
}

/// Sum of two residues, reduced modulo `p`.
pub fn add_mod(p: u64, x: u64, y: u64) -> (r: u64)
    requires
        p >= 1,
    ensures
        r as int == (x + y) % (p as int),
{
    let s: u128 = x as u128 + y as u128;
    (s % (p as u128)) as u64
}

/// Product of two residues, reduced modulo `p`.
pub fn mul_mod(p: u64, x: u64, y: u64) -> (r: u64)
    requires
        p >= 1,
    ensures
        r as int == (x * y) % (p as int),
{
    proof {
        let xi = x as int;
        let yi = y as int;
        assert(xi * yi <= 0xffff_ffff_ffff_ffff * 0xffff_ffff_ffff_ffff) by (nonlinear_arith)
            requires
                0 <= xi <= 0xffff_ffff_ffff_ffff,
                0 <= yi <= 0xffff_ffff_ffff_ffff,
        ;
        assert(0 <= xi * yi) by (nonlinear_arith)
            requires
                0 <= xi,
                0 <= yi,
        ;
    }
    let m: u128 = (x as u128) * (y as u128);
    (m % (p as u128)) as u64
}

/// Difference of two residues, reduced modulo `p`.
pub fn sub_mod(p: u64, x: u64, y: u64) -> (r: u64)
    requires
        p >= 1,
    ensures
        r as int == (x - y) % (p as int),
{
    let xr: u64 = x % p;
    let yr: u64 = y % p;
    let s: u128 = xr as u128 + (p - yr) as u128;
    let r: u64 = (s % (p as u128)) as u64;
    proof {
        let pi = p as int;
        lemma_sub_mod_noop(x as int, y as int, pi);
        assert((xr as int + (pi - yr as int)) % pi == (xr as int - yr as int) % pi) by {
            vstd::arithmetic::div_mod::lemma_mod_add_multiples_vanish(
                xr as int - yr as int,
                pi,
            );
        }
    }
    r
}

/// `x` is the zero element modulo `p`.
pub fn is_zero_mod(p: u64, x: u64) -> (r: bool)
    requires
        p >= 1,
    ensures
        r == (x % p == 0),
{
    x % p == 0
}

} // verus!
