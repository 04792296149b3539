//! Modular exponentiation and the number-theoretic predicates that the
//! exchange is checked against.

use vstd::arithmetic::div_mod::*;
use vstd::arithmetic::power::*;
use vstd::prelude::*;

verus! {

/// `b` raised to `e`, reduced modulo `m`, in unbounded integer arithmetic.
pub open spec fn mod_pow(b: int, e: nat, m: int) -> int {
    pow(b, e) % m
}

/// `mod_pow` on machine words: `b^e mod m`. For `m > 0` the value is below `m`.
pub open spec fn power_mod(b: u32, e: u32, m: u32) -> u32 {
    mod_pow(b as int, e as nat, m as int) as u32
}

/// `n` is prime: at least 2, and no integer strictly between 1 and `n` divides it.
pub open spec fn is_prime_spec(n: nat) -> bool {
    n >= 2 && forall|d: int| 2 <= d < n ==> #[trigger] (n as int % d) != 0
}

/// `g` generates distinct residues `g^1, g^2, ..., g^(p-1)` modulo `p`,
/// which for a prime `p` makes it a primitive root.
pub open spec fn is_primitive_root_spec(p: nat, g: nat) -> bool {
    forall|i: nat, j: nat|
        1 <= i < j < p ==> #[trigger] mod_pow(g as int, i, p as int) != #[trigger] mod_pow(
            g as int,
            j,
            p as int,
        )
}

/// A divisor `d` of `n` above its square root has a cofactor `n / d` below it:
/// trial division up to the square root finds every composite.
pub proof fn lemma_cofactor_below_root(n: int, d: int)
    requires
        2 <= d < n,
        n % d == 0,
        d * d > n,
    ensures
        2 <= n / d < d,
        (n / d) * (n / d) < n,
        n % (n / d) == 0,
{
    let q = n / d;
    lemma_fundamental_div_mod(n, d);
    assert(n == d * q);
    assert(q >= 2) by (nonlinear_arith)
        requires
            n == d * q,
            2 <= d < n,
    ;
    assert(q < d) by (nonlinear_arith)
        requires
            n == d * q,
            d * d > n,
            d >= 2,
    ;
    assert(q * q < n) by (nonlinear_arith)
        requires
            n == d * q,
            q < d,
            q >= 2,
    ;
    lemma_mod_multiples_basic(d, q);
    assert(d * q == n);
}

/// One squaring step of the square-and-multiply method keeps the product
/// `r * b^e` unchanged modulo `m`.
proof fn lemma_square_step(r: int, b: int, e: nat, m: int)
    requires
        m > 0,
    ensures
        e % 2 == 1 ==> ((r * b) % m * pow((b * b) % m, e / 2)) % m == (r * pow(b, e)) % m,
        e % 2 == 0 ==> (r * pow((b * b) % m, e / 2)) % m == (r * pow(b, e)) % m,
{
    let h: nat = e / 2;
    lemma_pow_multiplies(b, 2, h);
    lemma_square_is_pow2(b);
    lemma_pow_mod_noop(b * b, h, m);
    let full = pow(b * b, h);
    let reduced = pow((b * b) % m, h);
    assert(pow(b, 2 * h) == full);
    if e % 2 == 1 {
        assert(e == 2 * h + 1);
        lemma_pow_adds(b, 2 * h, 1);
        lemma_pow1(b);
        assert(pow(b, e) == full * b);
        lemma_mul_mod_noop_general(r * b, reduced, m);
        lemma_mul_mod_noop_general(r * b, full, m);
        assert((r * b) * full == r * (full * b)) by (nonlinear_arith);
    } else {
        assert(e == 2 * h);
        lemma_mul_mod_noop_general(r, reduced, m);
        lemma_mul_mod_noop_general(r, full, m);
    }
}

/// `b^(e+1) mod m` from `b^e mod m`: one more factor `b`.
pub proof fn lemma_mod_pow_succ(b: int, e: nat, m: int)
    requires
        m > 0,
    ensures
        mod_pow(b, e + 1, m) == (mod_pow(b, e, m) * (b % m)) % m,
{
    lemma_pow_adds(b, e, 1);
    lemma_pow1(b);
    lemma_mul_mod_noop(pow(b, e), b, m);
}

/// A residue modulo a positive `m` lies in `[0, m)`.
pub proof fn lemma_mod_pow_bound(b: int, e: nat, m: int)
    requires
        m > 0,
    ensures
        0 <= mod_pow(b, e, m) < m,
{
    lemma_mod_bound(pow(b, e), m);
}

/// Raising `g^a mod p` to `b` and raising `g^b mod p` to `a` give the same
/// residue, `g^(a*b) mod p`: the two parties of an exchange agree.
pub proof fn lemma_shared_secrets_agree(p: u32, g: u32, a: u32, b: u32)
    requires
        p > 0,
    ensures
        power_mod(power_mod(g, a, p), b, p) == power_mod(power_mod(g, b, p), a, p),
        power_mod(power_mod(g, a, p), b, p) as int == mod_pow(g as int, (a * b) as nat, p as int),
{
    let ga = mod_pow(g as int, a as nat, p as int);
    let gb = mod_pow(g as int, b as nat, p as int);
    lemma_mod_pow_bound(g as int, a as nat, p as int);
    lemma_mod_pow_bound(g as int, b as nat, p as int);
    assert(power_mod(g, a, p) as int == ga);
    assert(power_mod(g, b, p) as int == gb);
    lemma_pow_mod_noop(pow(g as int, a as nat), b as nat, p as int);
    lemma_pow_mod_noop(pow(g as int, b as nat), a as nat, p as int);
    lemma_pow_multiplies(g as int, a as nat, b as nat);
    lemma_pow_multiplies(g as int, b as nat, a as nat);
    assert((a as nat) * (b as nat) == (b as nat) * (a as nat)) by (nonlinear_arith);
    lemma_mod_pow_bound(ga, b as nat, p as int);
    lemma_mod_pow_bound(gb, a as nat, p as int);
}

/// Computes `base^exp mod m` by square-and-multiply, reducing after every
/// product so that no intermediate value leaves 64 bits.
pub fn pow_mod(base: u32, exp: u32, m: u32) -> (r: u32)
    requires
        m > 0,
    ensures
        r < m,
        r == power_mod(base, exp, m),
        (r as int) == mod_pow(base as int, exp as nat, m as int),
{
    let mm: u64 = m as u64;
    let mut acc: u64 = 1 % mm;
    let mut b: u64 = (base as u64) % mm;
    let mut e: u32 = exp;
    proof {
        lemma_mul_mod_noop_general(1, pow(b as int, e as nat), m as int);
        lemma_pow_mod_noop(base as int, exp as nat, m as int);
    }
    while e > 0
        invariant
            mm == m as u64,
            m > 0,
            acc < mm,
            b < mm,
            (acc * pow(b as int, e as nat)) % (m as int) == pow(base as int, exp as nat) % (m as int),
        decreases e,
    {
        proof {
            lemma_square_step(acc as int, b as int, e as nat, m as int);
        }
        assert(acc * b < 0x1_0000_0000_0000_0000) by (nonlinear_arith)
            requires
                acc < mm,
                b < mm,
                mm <= 0xffff_ffff,
        ;
        assert(b * b < 0x1_0000_0000_0000_0000) by (nonlinear_arith)
            requires
                b < mm,
                mm <= 0xffff_ffff,
        ;
        if e % 2 == 1 {
            acc = acc * b % mm;
        }
        b = b * b % mm;
        e = e / 2;
    }
    proof {
        lemma_pow0(b as int);
        lemma_small_mod(acc as nat, m as nat);
        lemma_mod_pow_bound(base as int, exp as nat, m as int);
    }
    acc as u32
}

} // verus!
