//! The exchange engine: the shared parameters, both parties' public values,
//! and the checks and computations on them.

use crate::arith::{
    is_prime_spec, is_primitive_root_spec, lemma_cofactor_below_root, lemma_mod_pow_bound,
    lemma_mod_pow_succ, lemma_shared_secrets_agree, mod_pow, pow_mod, power_mod,
};
use vstd::arithmetic::power::lemma_pow1;
use std::collections::HashSet;
use vstd::prelude::*;

verus! {

broadcast use vstd::std_specs::hash::group_hash_axioms;

/// The ways an exchange can fail.
#[derive(Debug, Clone, Copy, PartialEq, Eq, Structural)]
pub enum DHError {
    /// A shared secret was asked for before the other party's public value existed.
    SecretNotComputed,
    /// The modulus is not prime.
    InvalidP,
    /// The generator is not a primitive root of the modulus.
    InvalidG,
}

impl DHError {
    /// A sentence that describes the error.
    pub fn message(&self) -> (r: &'static str)
        ensures
            match *self {
                DHError::SecretNotComputed => r@ == "Pub Value not yet computed with P and G values"@,
                DHError::InvalidP => r@ == "Invalid value of P, not prime"@,
                DHError::InvalidG => r@ == "Invalid value of G, not primitive root"@,
            },
    {
        match self {
            DHError::SecretNotComputed => "Pub Value not yet computed with P and G values",
            DHError::InvalidP => "Invalid value of P, not prime",
            DHError::InvalidG => "Invalid value of G, not primitive root",
        }
    }
}

/// What the primality check returns for `n`.
pub open spec fn prime_check(n: u32) -> Result<(), DHError> {
    if is_prime_spec(n as nat) {
        Ok(())
    } else {
        Err(DHError::InvalidP)
    }
}

/// What the primitive-root check returns for `g` against `p`.
pub open spec fn root_check(p: u32, g: u32) -> Result<(), DHError> {
    if is_primitive_root_spec(p as nat, g as nat) {
        Ok(())
    } else {
        Err(DHError::InvalidG)
    }
}

/// What validating the parameters `(p, g)` returns: the primality check
/// first, and the primitive-root check only once the modulus is prime.
pub open spec fn validity(p: u32, g: u32) -> Result<(), DHError> {
    match prime_check(p) {
        Err(e) => Err(e),
        Ok(()) => root_check(p, g),
    }
}

/// The shared modulus `p` and generator `g`, and the public values of party A
/// (`x`) and party B (`y`) once they are computed.
pub struct DiffieHellman {
    p: u32,
    g: u32,
    x: Option<u32>,
    y: Option<u32>,
}

impl DiffieHellman {
    /// A public value only exists once reduced modulo a nonzero modulus.
    #[verifier::type_invariant]
    spec fn inv(self) -> bool {
        &&& (self.x matches Some(v) ==> v < self.p)
        &&& (self.y matches Some(v) ==> v < self.p)
    }

    /// The modulus.
    pub closed spec fn spec_p(self) -> u32 {
        self.p
    }

    /// The generator.
    pub closed spec fn spec_g(self) -> u32 {
        self.g
    }

    /// Party A's public value, if computed.
    pub closed spec fn spec_x(self) -> Option<u32> {
        self.x
    }

    /// Party B's public value, if computed.
    pub closed spec fn spec_y(self) -> Option<u32> {
        self.y
    }

    /// Party A's shared secret: `y^secret mod p` once party B's public value
    /// `y` exists.
    pub open spec fn spec_shared_secret_a(self, secret: u32) -> Result<u32, DHError> {
        match self.spec_y() {
            Some(y) => Ok(power_mod(y, secret, self.spec_p())),
            None => Err(DHError::SecretNotComputed),
        }
    }

    /// Party B's shared secret: `x^secret mod p` once party A's public value
    /// `x` exists.
    pub open spec fn spec_shared_secret_b(self, secret: u32) -> Result<u32, DHError> {
        match self.spec_x() {
            Some(x) => Ok(power_mod(x, secret, self.spec_p())),
            None => Err(DHError::SecretNotComputed),
        }
    }

    /// An exchange over modulus `p` and generator `g`, with no public value yet.
    /// The parameters are not checked here; see `is_valid`.
    pub fn new(p: u32, g: u32) -> (r: Self)
        ensures
            r.spec_p() == p,
            r.spec_g() == g,
            r.spec_x() == None::<u32>,
            r.spec_y() == None::<u32>,
    {
        DiffieHellman { p, g, x: None, y: None }
    }

    /// Checks that `number` is prime by trial division up to its square root.
    pub fn is_prime(number: &u32) -> (r: Result<(), DHError>)
        ensures
            r == prime_check(*number),
    {
        let n: u32 = *number;
        if n < 2 {
            assert(!is_prime_spec(n as nat));
            return Err(DHError::InvalidP);
        }
        if n == 2 {
            return Ok(());
        }
        let nn: u64 = n as u64;
        let mut i: u64 = 2;
        while i * i <= nn
            invariant
                n == *number,
                nn == n as u64,
                n >= 3,
                2 <= i <= 0x1_0000,
                i * i <= 0x1_0000_0000,
                forall|d: int| 2 <= d < i ==> #[trigger] (n as int % d) != 0,
            decreases 0x1_0000 - i,
        {
            assert(i < 0x1_0000 && i < nn) by (nonlinear_arith)
                requires
                    i * i <= nn,
                    nn <= 0xffff_ffff,
                    i >= 2,
            ;
            if nn % i == 0 {
                assert((n as int % i as int) == 0);
                assert(!is_prime_spec(n as nat));
                return Err(DHError::InvalidP);
            }
            i = i + 1;
            assert(i * i <= 0x1_0000_0000) by (nonlinear_arith)
                requires
                    i <= 0x1_0000,
            ;
        }
        proof {
            assert forall|d: int| 2 <= d < n implies #[trigger] (n as int % d) != 0 by {
                if n as int % d == 0 && d >= i {
                    assert(d * d > n) by (nonlinear_arith)
                        requires
                            d >= i,
                            i * i > n,
                            i >= 2,
                    ;
                    lemma_cofactor_below_root(n as int, d);
                    let q = n as int / d;
                    assert(q < i) by (nonlinear_arith)
                        requires
                            q * q < n,
                            i * i > n,
                            q >= 2,
                            i >= 2,
                    ;
                }
            }
        }
        Ok(())
    }

    /// Checks that `g` is a primitive root of `prime`: the powers
    /// `g^1, ..., g^(prime-1)` modulo `prime` must all differ. Stops at the
    /// first repeated residue.
    pub fn is_primitive_root(prime: &u32, g: &u32) -> (r: Result<(), DHError>)
        ensures
            r == root_check(*prime, *g),
    {
        let p: u32 = *prime;
        let gg: u32 = *g;
        if p < 2 {
            return Ok(());
        }
        let pp: u64 = p as u64;
        let step: u64 = (gg as u64) % pp;
        let mut seen: HashSet<u32> = HashSet::new();
        let mut i: u32 = 1;
        let mut cur: u64 = step;
        proof {
            lemma_pow1(gg as int);
        }
        while i < p
            invariant
                p == *prime,
                gg == *g,
                pp == p as u64,
                p >= 2,
                step == (gg as int) % (p as int),
                1 <= i <= p,
                cur as int == mod_pow(gg as int, i as nat, p as int),
                forall|v: u32|
                    seen@.contains(v) <==> exists|k: nat|
                        1 <= k < i && v as int == #[trigger] mod_pow(gg as int, k, p as int),
                forall|a: nat, b: nat|
                    1 <= a < b < i ==> #[trigger] mod_pow(gg as int, a, p as int) != #[trigger] mod_pow(
                        gg as int,
                        b,
                        p as int,
                    ),
            decreases p - i,
        {
            proof {
                lemma_mod_pow_bound(gg as int, i as nat, p as int);
                lemma_mod_pow_succ(gg as int, i as nat, p as int);
            }
            let v: u32 = cur as u32;
            if seen.contains(&v) {
                proof {
                    let k = choose|k: nat|
                        1 <= k < i && v as int == #[trigger] mod_pow(gg as int, k, p as int);
                    assert(mod_pow(gg as int, k, p as int) == mod_pow(gg as int, i as nat, p as int));
                    assert(!is_primitive_root_spec(p as nat, gg as nat));
                }
                return Err(DHError::InvalidG);
            }
            seen.insert(v);
            assert(cur * step < 0x1_0000_0000_0000_0000) by (nonlinear_arith)
                requires
                    cur < pp,
                    step < pp,
                    pp <= 0xffff_ffff,
            ;
            cur = cur * step % pp;
            i = i + 1;
            proof {
                assert forall|w: u32|
                    seen@.contains(w) implies exists|k: nat|
                        1 <= k < i && w as int == #[trigger] mod_pow(gg as int, k, p as int) by {
                    if w == v {
                        assert(w as int == mod_pow(gg as int, (i - 1) as nat, p as int));
                    }
                }
            }
        }
        Ok(())
    }
    /// Validates the parameters: the modulus must be prime, then the generator
    /// must be a primitive root of it. The first failing check decides the error.
    pub fn is_valid(&self) -> (r: Result<(), DHError>)
        ensures
            r == validity(self.spec_p(), self.spec_g()),
    {
        match DiffieHellman::is_prime(&self.p) {
            Err(e) => return Err(e),
            Ok(()) => {},
        }
        match DiffieHellman::is_primitive_root(&self.p, &self.g) {
            Err(e) => return Err(e),
            Ok(()) => {},
        }
        Ok(())
    }

    /// Party A's public value `g^secret mod p` is computed and attached.
    pub fn calculate_pub_x(self, secret: u32) -> (r: Self)
        requires
            self.spec_p() > 0,
        ensures
            r.spec_p() == self.spec_p(),
            r.spec_g() == self.spec_g(),
            r.spec_x() == Some(power_mod(self.spec_g(), secret, self.spec_p())),
            r.spec_y() == self.spec_y(),
    {
        proof {
            use_type_invariant(&self);
        }
        let v: u32 = pow_mod(self.g, secret, self.p);
        DiffieHellman { p: self.p, g: self.g, x: Some(v), y: self.y }
    }

    /// Party B's public value `g^secret mod p` is computed and attached.
    pub fn calculate_pub_y(self, secret: u32) -> (r: Self)
        requires
            self.spec_p() > 0,
        ensures
            r.spec_p() == self.spec_p(),
            r.spec_g() == self.spec_g(),
            r.spec_x() == self.spec_x(),
            r.spec_y() == Some(power_mod(self.spec_g(), secret, self.spec_p())),
    {
        proof {
            use_type_invariant(&self);
        }
        let v: u32 = pow_mod(self.g, secret, self.p);
        DiffieHellman { p: self.p, g: self.g, x: self.x, y: Some(v) }
    }

    /// Party A's shared secret `y^secret mod p`, from party B's public value `y`.
    pub fn shared_secret_a(&self, secret: u32) -> (r: Result<u32, DHError>)
        ensures
            r == self.spec_shared_secret_a(secret),
    {
        proof {
            use_type_invariant(self);
        }
        match self.y {
            Some(y) => Ok(pow_mod(y, secret, self.p)),
            None => Err(DHError::SecretNotComputed),
        }
    }

    /// Party B's shared secret `x^secret mod p`, from party A's public value `x`.
    pub fn shared_secret_b(&self, secret: u32) -> (r: Result<u32, DHError>)
        ensures
            r == self.spec_shared_secret_b(secret),
    {
        proof {
            use_type_invariant(self);
        }
        match self.x {
            Some(x) => Ok(pow_mod(x, secret, self.p)),
            None => Err(DHError::SecretNotComputed),
        }
    }

    /// The modulus `p`.
    pub fn modulus(&self) -> (r: u32)
        ensures
            r == self.spec_p(),
    {
        self.p
    }

    /// The generator `g`.
    pub fn generator(&self) -> (r: u32)
        ensures
            r == self.spec_g(),
    {
        self.g
    }

    /// Party A's public value, if computed.
    pub fn public_x(&self) -> (r: Option<u32>)
        ensures
            r == self.spec_x(),
    {
        self.x
    }

    /// Party B's public value, if computed.
    pub fn public_y(&self) -> (r: Option<u32>)
        ensures
            r == self.spec_y(),
    {
        self.y
    }
}

/// Validation succeeds exactly when both the primality check and the
/// primitive-root check succeed; when the modulus is not prime, that is the
/// error reported, whatever the generator.
pub proof fn lemma_valid_iff_both_checks(p: u32, g: u32)
    ensures
        validity(p, g) is Ok <==> (prime_check(p) is Ok && root_check(p, g) is Ok),
        prime_check(p) is Err ==> validity(p, g) == Err::<(), DHError>(DHError::InvalidP),
        prime_check(p) is Ok ==> validity(p, g) == root_check(p, g),
{
}

/// Validation reads the modulus and generator alone: two exchanges with the
/// same parameters, among them one exchange validated twice, or before and
/// after its public values are attached, get the same answer.
pub proof fn lemma_validity_stable(d1: DiffieHellman, d2: DiffieHellman)
    requires
        d1.spec_p() == d2.spec_p(),
        d1.spec_g() == d2.spec_g(),
    ensures
        validity(d1.spec_p(), d1.spec_g()) == validity(d2.spec_p(), d2.spec_g()),
{
}

/// Once party A has attached `g^a mod p` and party B `g^b mod p`, party A's
/// shared secret from `a` and party B's from `b` both exist and are equal.
pub proof fn lemma_exchange_agrees(d: DiffieHellman, a: u32, b: u32)
    requires
        d.spec_p() > 0,
        d.spec_x() == Some(power_mod(d.spec_g(), a, d.spec_p())),
        d.spec_y() == Some(power_mod(d.spec_g(), b, d.spec_p())),
    ensures
        d.spec_shared_secret_a(a) is Ok,
        d.spec_shared_secret_a(a) == d.spec_shared_secret_b(b),
{
    lemma_shared_secrets_agree(d.spec_p(), d.spec_g(), a, b);
}

} // verus!
