//! RSA keys: generation from two random primes, and the textbook transforms
//! `m^e mod n` and `c^d mod n` over hexadecimal text.
use crate::hex::{hex_len, hex_value, is_hex, is_upper_hex_digit};
use crate::prime::{has_small_factor_spec, rand_prime, survives_rounds};
use crate::uint::Uint;
use vstd::arithmetic::div_mod::*;
use vstd::arithmetic::mul::*;
use vstd::arithmetic::power::*;
use vstd::arithmetic::power2::*;
use vstd::prelude::*;

verus! {

/// Greatest common divisor, by Euclid's rule.
pub open spec fn gcd(a: nat, b: nat) -> nat
    decreases b,
{
    if b == 0 {
        a
    } else {
        gcd(b, a % b)
    }
}

/// Congruence of Bezout coefficients is kept by one Euclid step.
proof fn lemma_coefficient_step(s0: int, s1: int, r0: int, r1: int, q: int, m: int, n: int)
    requires
        n > 0,
        (s0 * m) % n == r0 % n,
        (s1 * m) % n == r1 % n,
    ensures
        (((s1 - q * s0) % n) * m) % n == (r1 - q * r0) % n,
{
    lemma_mul_mod_noop_left(s1 - q * s0, m, n);
    assert((s1 - q * s0) * m == s1 * m - q * (s0 * m)) by {
        lemma_mul_is_distributive_sub_other_way(m, s1, q * s0);
        lemma_mul_is_associative(q, s0, m);
    }
    lemma_sub_mod_noop(s1 * m, q * (s0 * m), n);
    lemma_mul_mod_noop_right(q, s0 * m, n);
    lemma_mul_mod_noop_right(q, r0, n);
    lemma_sub_mod_noop(r1, q * r0, n);
}

/// Inverse of `m` modulo `n` by the extended Euclidean algorithm, with each
/// remainder and coefficient step taken by `mod_sub` modulo `n`. The result
/// `r` is below `n` and `r m` is `gcd(m, n)` modulo `n`: where `m` and `n`
/// are coprime, it is the inverse.
pub fn modinv(m: &Uint, n: &Uint) -> (r: Uint)
    requires
        m.wf(),
        n.wf(),
        n@ > 0,
    ensures
        r.wf(),
        r@ < n@,
        (r@ * m@) % n@ == gcd(m@, n@) % n@,
{
    let ghost nn = n@;
    let mut s0 = Uint::zero();
    let mut s1 = Uint::from(1);
    let mut r0 = n.duplicate();
    let mut r1 = m.duplicate();
    proof {
        lemma_mul_basics(m@ as int);
        lemma_mod_self_0(nn as int);
        lemma_mul_mod_noop_left(0, m@ as int, nn as int);
    }
    while !r0.is_zero()
        invariant
            nn == n@,
            nn > 0,
            n.wf(),
            m.wf(),
            s0.wf(),
            s1.wf(),
            r0.wf(),
            r1.wf(),
            r0@ <= n@,
            gcd(r1@, r0@) == gcd(m@, n@),
            (s0@ * m@) % nn == r0@ % nn,
            (s1@ * m@) % nn == r1@ % nn,
        decreases r0@,
    {
        let q = r1.div(&r0);
        let next_r = r1.mod_sub(&q.mul(&r0), n);
        let next_s = s1.mod_sub(&q.mul(&s0), n);
        proof {
            let a = r1@ as int;
            let b = r0@ as int;
            lemma_fundamental_div_mod(a, b);
            lemma_mod_bound(a, b);
            lemma_mul_is_commutative(q@ as int, b);
            assert(a - q@ * b == a % b);
            lemma_small_mod((a % b) as nat, n@);
            lemma_coefficient_step(s0@ as int, s1@ as int, b, a, q@ as int, m@ as int, nn as int);
            lemma_mod_twice(a % b, nn as int);
        }
        r1 = r0;
        r0 = next_r;
        s1 = s0;
        s0 = next_s;
    }
    proof {
        lemma_mul_mod_noop_left(s1@ as int, m@ as int, nn as int);
        lemma_mod_bound(s1@ as int, nn as int);
    }
    s1.rem(n)
}

/// The public exponent of generated keys.
pub const PUBLIC_EXPONENT: u64 = 65537;

/// Bit length of each prime of a generated key.
pub const PRIME_BITS: usize = 1024;

/// Miller-Rabin rounds for each prime of a generated key.
pub const WITNESS_ROUNDS: usize = 6;

/// How many candidates a prime search draws before it gives up.
pub const PRIME_TRIES: usize = 1_000_000;

/// How many prime pairs key generation draws before it gives up.
pub const KEY_TRIES: usize = 16;

/// Private key: modulus `n` and private exponent `d`.
pub struct PrivKey {
    n: Uint,
    d: Uint,
}

/// Public key: modulus `n` and public exponent `e`.
pub struct PubKey {
    n: Uint,
    e: Uint,
}

impl PrivKey {
    /// Both parts normalized.
    pub closed spec fn wf(&self) -> bool {
        self.n.wf() && self.d.wf()
    }

    pub closed spec fn modulus(&self) -> nat {
        self.n@
    }

    pub closed spec fn exponent(&self) -> nat {
        self.d@
    }

    /// A key from the hexadecimal text of `n` and `d`; refused where either
    /// is not hexadecimal.
    pub fn from_str(n: &str, d: &str) -> (r: Result<PrivKey, ()>)
        ensures
            r is Ok <==> (is_hex(n@) && is_hex(d@)),
            r matches Ok(k) ==> k.wf() && k.modulus() == hex_value(n@) && k.exponent() == hex_value(d@),
    {
        let n = match Uint::from_str(n) {
            Ok(v) => v,
            Err(e) => {
                return Err(e);
            },
        };
        let d = match Uint::from_str(d) {
            Ok(v) => v,
            Err(e) => {
                return Err(e);
            },
        };
        Ok(PrivKey { n, d })
    }

    /// `c^d mod n`, with `c` and the result in hexadecimal; refused where
    /// `c` is not hexadecimal.
    pub fn decrypt(&self, c: &str) -> (r: Result<String, ()>)
        requires
            self.wf(),
        ensures
            r is Ok <==> (is_hex(c@) && self.modulus() > 0),
            r matches Ok(m) ==> is_hex(m@) && (forall|i: int| 0 <= i < m@.len() ==> is_upper_hex_digit(#[trigger] m@[i]))
                && hex_value(m@) == pow(hex_value(c@) as int, self.exponent()) % (self.modulus() as int)
                && m@.len() == hex_len(hex_value(m@)),
    {
        let cint = Uint::from_str(c)?;
        if self.n.is_zero() {
            return Err(());
        }
        let m = cint.mod_pow(&self.d, &self.n);
        Ok(m.to_hex())
    }

    /// The modulus.
    pub fn n(&self) -> (r: &Uint)
        requires
            self.wf(),
        ensures
            r.wf(),
            r@ == self.modulus(),
    {
        &self.n
    }

    /// The private exponent.
    pub fn d(&self) -> (r: &Uint)
        requires
            self.wf(),
        ensures
            r.wf(),
            r@ == self.exponent(),
    {
        &self.d
    }
}

impl PubKey {
    /// Both parts normalized.
    pub closed spec fn wf(&self) -> bool {
        self.n.wf() && self.e.wf()
    }

    pub closed spec fn modulus(&self) -> nat {
        self.n@
    }

    pub closed spec fn exponent(&self) -> nat {
        self.e@
    }

    /// A key from the hexadecimal text of `n` and `e`; refused where either
    /// is not hexadecimal.
    pub fn from_str(n: &str, e: &str) -> (r: Result<PubKey, ()>)
        ensures
            r is Ok <==> (is_hex(n@) && is_hex(e@)),
            r matches Ok(k) ==> k.wf() && k.modulus() == hex_value(n@) && k.exponent() == hex_value(e@),
    {
        let n = match Uint::from_str(n) {
            Ok(v) => v,
            Err(e) => {
                return Err(e);
            },
        };
        let e = match Uint::from_str(e) {
            Ok(v) => v,
            Err(e) => {
                return Err(e);
            },
        };
        Ok(PubKey { n, e })
    }

    /// `m^e mod n`, with `m` and the result in hexadecimal; refused where
    /// `m` is not hexadecimal.
    pub fn encrypt(&self, m: &str) -> (r: Result<String, ()>)
        requires
            self.wf(),
        ensures
            r is Ok <==> (is_hex(m@) && self.modulus() > 0),
            r matches Ok(c) ==> is_hex(c@) && (forall|i: int| 0 <= i < c@.len() ==> is_upper_hex_digit(#[trigger] c@[i]))
                && hex_value(c@) == pow(hex_value(m@) as int, self.exponent()) % (self.modulus() as int)
                && c@.len() == hex_len(hex_value(c@)),
    {
        let mint = Uint::from_str(m)?;
        if self.n.is_zero() {
            return Err(());
        }
        let c = mint.mod_pow(&self.e, &self.n);
        Ok(c.to_hex())
    }

    /// The modulus.
    pub fn n(&self) -> (r: &Uint)
        requires
            self.wf(),
        ensures
            r.wf(),
            r@ == self.modulus(),
    {
        &self.n
    }

    /// The public exponent.
    pub fn e(&self) -> (r: &Uint)
        requires
            self.wf(),
        ensures
            r.wf(),
            r@ == self.exponent(),
    {
        &self.e
    }
}

/// What the prime search shows of each of `p` and `q`: `bits` bits wide,
/// odd, no small table factor, and `rounds` passed Miller-Rabin rounds.
pub open spec fn key_primes(p: nat, q: nat, bits: nat, rounds: nat) -> bool {
    &&& pow2((bits - 1) as nat) <= p < pow2(bits)
    &&& pow2((bits - 1) as nat) <= q < pow2(bits)
    &&& p % 2 == 1
    &&& q % 2 == 1
    &&& !has_small_factor_spec(p)
    &&& !has_small_factor_spec(q)
    &&& survives_rounds(p, rounds)
    &&& survives_rounds(q, rounds)
}

/// `(p - 1)(q - 1)`.
pub open spec fn totient(p: nat, q: nat) -> nat {
    ((p - 1) * (q - 1)) as nat
}

/// The key pair of primes `p` and `q`: `n = p q`, `e` the public exponent,
/// and `d` its inverse modulo `(p - 1)(q - 1)`. `None` where `e` has no
/// inverse there.
pub fn keys_from_primes(p: &Uint, q: &Uint) -> (r: Option<(PrivKey, PubKey)>)
    requires
        p.wf(),
        q.wf(),
        p@ > 1,
        q@ > 1,
    ensures
        r is Some <==> gcd(PUBLIC_EXPONENT as nat, totient(p@, q@)) % totient(p@, q@) == 1,
        r matches Some(keys) ==> {
            &&& keys.0.wf()
            &&& keys.1.wf()
            &&& keys.0.modulus() == p@ * q@
            &&& keys.1.modulus() == p@ * q@
            &&& keys.1.exponent() == PUBLIC_EXPONENT
            &&& keys.0.exponent() < totient(p@, q@)
            &&& (keys.0.exponent() * (PUBLIC_EXPONENT as nat)) % totient(p@, q@) == 1
        },
{
    let one = Uint::from(1);
    let e = Uint::from(PUBLIC_EXPONENT);
    let n = p.mul(q);
    let phi = p.sub(&one).mul(&q.sub(&one));
    proof {
        lemma_mul_inequality(1, (p@ - 1) as int, (q@ - 1) as int);
        lemma_mul_inequality(1, p@ as int, q@ as int);
    }
    let d = modinv(&e, &phi);
    let check = d.mul(&e).rem(&phi);
    if !check.equals(&one) {
        return None;
    }
    let n2 = n.duplicate();
    Some((PrivKey { n, d }, PubKey { n: n2, e }))
}

/// A key pair from two random primes of `bits` bits, each passing `rounds`
/// Miller-Rabin rounds; prime pairs whose totient shares a factor with the
/// public exponent are drawn again. `None` when the draws run out.
pub fn keygen_with_bits(bits: usize, rounds: usize) -> (r: Option<(PrivKey, PubKey)>)
    requires
        3 <= bits,
    ensures
        r matches Some(keys) ==> {
            &&& keys.0.wf()
            &&& keys.1.wf()
            &&& keys.0.modulus() == keys.1.modulus()
            &&& keys.1.exponent() == PUBLIC_EXPONENT
            &&& exists|p: nat, q: nat|
                #[trigger] key_primes(p, q, bits as nat, rounds as nat) && keys.0.modulus() == p * q
                    && keys.0.exponent() < totient(p, q)
                    && (keys.0.exponent() * (PUBLIC_EXPONENT as nat)) % totient(p, q) == 1
                    && gcd(PUBLIC_EXPONENT as nat, totient(p, q)) % totient(p, q) == 1
        },
{
    let mut attempt: usize = 0;
    while attempt < KEY_TRIES
        invariant
            3 <= bits,
        decreases KEY_TRIES - attempt,
    {
        attempt = attempt + 1;
        let p = match rand_prime(bits, rounds, PRIME_TRIES) {
            Some(v) => v,
            None => {
                return None;
            },
        };
        let q = match rand_prime(bits, rounds, PRIME_TRIES) {
            Some(v) => v,
            None => {
                return None;
            },
        };
        proof {
            lemma_pow2_unfold((bits - 1) as nat);
            lemma_pow2_pos((bits - 2) as nat);
        }
        match keys_from_primes(&p, &q) {
            Some(keys) => {
                proof {
                    assert(key_primes(p@, q@, bits as nat, rounds as nat));
                }
                return Some(keys);
            },
            None => {},
        }
    }
    None
}

/// A key pair from two random 1024-bit primes, each passing six Miller-Rabin
/// rounds.
pub fn keygen() -> (r: Option<(PrivKey, PubKey)>)
    ensures
        r matches Some(keys) ==> {
            &&& keys.0.wf()
            &&& keys.1.wf()
            &&& keys.0.modulus() == keys.1.modulus()
            &&& keys.1.exponent() == PUBLIC_EXPONENT
            &&& exists|p: nat, q: nat|
                #[trigger] key_primes(p, q, PRIME_BITS as nat, WITNESS_ROUNDS as nat) && keys.0.modulus() == p
                    * q && keys.0.exponent() < totient(p, q) && (keys.0.exponent() * (PUBLIC_EXPONENT as nat))
                    % totient(p, q) == 1 && gcd(PUBLIC_EXPONENT as nat, totient(p, q)) % totient(p, q) == 1
        },
{
    keygen_with_bits(PRIME_BITS, WITNESS_ROUNDS)
}

} // verus!
