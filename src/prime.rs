//! Random probable primes: trial division by the small odd primes, then
//! Miller-Rabin rounds with random witnesses.
use crate::uint::Uint;
use vstd::arithmetic::div_mod::*;
use vstd::arithmetic::mul::*;
use vstd::arithmetic::power::*;
use vstd::arithmetic::power2::*;
use vstd::prelude::*;

verus! {

/// The odd primes from 3 to 1013.
pub open spec fn small_prime_table() -> Seq<u64> {
    seq![
        3u64, 5, 7, 11, 13, 17, 19, 23, 29, 31, 37, 41, 43,
        47, 53, 59, 61, 67, 71, 73, 79, 83, 89, 97, 101, 103,
        107, 109, 113, 127, 131, 137, 139, 149, 151, 157, 163, 167, 173,
        179, 181, 191, 193, 197, 199, 211, 223, 227, 229, 233, 239, 241,
        251, 257, 263, 269, 271, 277, 281, 283, 293, 307, 311, 313, 317,
        331, 337, 347, 349, 353, 359, 367, 373, 379, 383, 389, 397, 401,
        409, 419, 421, 431, 433, 439, 443, 449, 457, 461, 463, 467, 479,
        487, 491, 499, 503, 509, 521, 523, 541, 547, 557, 563, 569, 571,
        577, 587, 593, 599, 601, 607, 613, 617, 619, 631, 641, 643, 647,
        653, 659, 661, 673, 677, 683, 691, 701, 709, 719, 727, 733, 739,
        743, 751, 757, 761, 769, 773, 787, 797, 809, 811, 821, 823, 827,
        829, 839, 853, 857, 859, 863, 877, 881, 883, 887, 907, 911, 919,
        929, 937, 941, 947, 953, 967, 971, 977, 983, 991, 997, 1009, 1013,
    ]
}

/// The odd primes from 3 to 1013, as a vector.
pub fn small_primes() -> (r: Vec<u64>)
    ensures
        r@ == small_prime_table(),
{
    vec![
        3u64, 5, 7, 11, 13, 17, 19, 23, 29, 31, 37, 41, 43,
        47, 53, 59, 61, 67, 71, 73, 79, 83, 89, 97, 101, 103,
        107, 109, 113, 127, 131, 137, 139, 149, 151, 157, 163, 167, 173,
        179, 181, 191, 193, 197, 199, 211, 223, 227, 229, 233, 239, 241,
        251, 257, 263, 269, 271, 277, 281, 283, 293, 307, 311, 313, 317,
        331, 337, 347, 349, 353, 359, 367, 373, 379, 383, 389, 397, 401,
        409, 419, 421, 431, 433, 439, 443, 449, 457, 461, 463, 467, 479,
        487, 491, 499, 503, 509, 521, 523, 541, 547, 557, 563, 569, 571,
        577, 587, 593, 599, 601, 607, 613, 617, 619, 631, 641, 643, 647,
        653, 659, 661, 673, 677, 683, 691, 701, 709, 719, 727, 733, 739,
        743, 751, 757, 761, 769, 773, 787, 797, 809, 811, 821, 823, 827,
        829, 839, 853, 857, 859, 863, 877, 881, 883, 887, 907, 911, 919,
        929, 937, 941, 947, 953, 967, 971, 977, 983, 991, 997, 1009, 1013,
    ]
}

/// Some entry of the small prime table below `n` divides `n`.
pub open spec fn has_small_factor_spec(n: nat) -> bool {
    exists|i: int|
        0 <= i < small_prime_table().len() && 0 < small_prime_table()[i] < n && n % (
        #[trigger] small_prime_table()[i] as nat) == 0
}

/// Trial division by the entries of the small prime table below `num`.
pub fn has_small_factor(num: &Uint) -> (r: bool)
    requires
        num.wf(),
    ensures
        r == has_small_factor_spec(num@),
{
    let table = small_primes();
    let mut i: usize = 0;
    while i < table.len()
        invariant
            table@ == small_prime_table(),
            i <= table@.len(),
            num.wf(),
            forall|j: int|
                0 <= j < i ==> !(0 < table@[j] < num@ && num@ % (#[trigger] small_prime_table()[j] as nat) == 0),
        decreases table@.len() - i,
    {
        let p = table[i];
        let divisor = Uint::from(p);
        if p != 0 && divisor.lt(num) {
            if num.rem(&divisor).is_zero() {
                return true;
            }
        }
        i = i + 1;
    }
    false
}

/// The number of factors 2 in `x`.
pub open spec fn twos(x: nat) -> nat
    decreases x,
{
    if x > 0 && x % 2 == 0 {
        1 + twos(x / 2)
    } else {
        0
    }
}

/// `x` without its factors 2.
pub open spec fn odd_part(x: nat) -> nat
    decreases x,
{
    if x > 0 && x % 2 == 0 {
        odd_part(x / 2)
    } else {
        x
    }
}

/// Witness `a` does not show `n` composite: with `n - 1 = d 2^k` and `d`
/// odd, `a^d` is 1 modulo `n`, or `a^(d 2^i)` is `n - 1` for some `i < k`.
pub open spec fn passes_witness(n: nat, a: nat) -> bool {
    let d = odd_part((n - 1) as nat);
    let k = twos((n - 1) as nat);
    pow(a as int, d) % (n as int) == 1 || exists|i: nat|
        i < k && #[trigger] (pow(a as int, d * pow2(i)) % (n as int)) == n - 1
}

/// Splits a positive `dec` below 2^bits into its odd part and its number
/// of factors 2.
pub fn split_twos(dec: &Uint, bits: usize) -> (r: (Uint, usize))
    requires
        dec.wf(),
        0 < dec@ < pow2(bits as nat),
    ensures
        r.0.wf(),
        r.0@ == odd_part(dec@),
        r.1 == twos(dec@),
        r.1 < bits,
{
    let mut d = dec.duplicate();
    let mut k: usize = 0;
    proof {
        lemma_pow2_pos(0);
        assert(pow2(0) == 1) by {
            lemma2_to64();
        }
        lemma_mul_basics(dec@ as int);
        if bits == 0 {
            assert(false);
        }
    }
    while !d.get_bit(0)
        invariant
            d.wf(),
            d@ > 0,
            k < bits,
            odd_part(d@) == odd_part(dec@),
            twos(d@) + k == twos(dec@),
            d@ * pow2(k as nat) == dec@,
            dec@ < pow2(bits as nat),
            pow2(0) == 1,
        decreases d@,
    {
        let ghost old_d = d@;
        proof {
            lemma_div_basics(old_d as int);
            assert(old_d % 2 == 0);
            lemma_fundamental_div_mod(old_d as int, 2);
            lemma_pow2_unfold((k + 1) as nat);
            assert(old_d == 2 * (old_d / 2));
            assert((old_d / 2) * pow2((k + 1) as nat) == dec@) by {
                lemma_mul_is_associative((old_d / 2) as int, 2, pow2(k as nat) as int);
                lemma_mul_is_commutative((old_d / 2) as int, 2);
            }
            lemma_mul_inequality(1, (old_d / 2) as int, pow2((k + 1) as nat) as int);
            if bits <= k + 1 {
                if bits < k + 1 {
                    lemma_pow2_strictly_increases(bits as nat, (k + 1) as nat);
                }
                assert(false);
            }
        }
        d = d.shr(1);
        proof {
            assert(pow2(1) == 2) by {
                lemma2_to64();
            }
        }
        k = k + 1;
    }
    proof {
        lemma_div_basics(d@ as int);
    }
    (d, k)
}

/// One Miller-Rabin round on an odd `num` above 2 with witness `a`, where
/// `d` and `k` split `num - 1`.
pub fn witness_passes(num: &Uint, a: &Uint, d: &Uint, k: usize) -> (r: bool)
    requires
        num.wf(),
        a.wf(),
        d.wf(),
        num@ > 2,
        d@ == odd_part((num@ - 1) as nat),
        k == twos((num@ - 1) as nat),
    ensures
        r == passes_witness(num@, a@),
{
    let ghost n = num@ as int;
    let ghost b = a@ as int;
    let one = Uint::from(1);
    let dec = num.sub(&one);
    let mut y = a.mod_pow(d, num);
    if y.equals(&one) {
        return true;
    }
    let mut i: usize = 0;
    proof {
        lemma_mul_basics(d@ as int);
        assert(pow2(0) == 1) by {
            lemma2_to64();
        }
    }
    while i < k
        invariant
            n == num@,
            b == a@,
            n > 2,
            num.wf(),
            d.wf(),
            d@ == odd_part((num@ - 1) as nat),
            k == twos((num@ - 1) as nat),
            dec.wf(),
            dec@ == n - 1,
            y.wf(),
            i <= k,
            y@ == pow(b, d@ * pow2(i as nat)) % n,
            pow(b, d@) % n != 1,
            forall|j: nat| j < i ==> #[trigger] (pow(b, d@ * pow2(j)) % n) != n - 1,
        decreases k - i,
    {
        if y.equals(&dec) {
            proof {
                let w = i as nat;
                assert(w < twos((num@ - 1) as nat));
                assert(pow(b, odd_part((num@ - 1) as nat) * pow2(w)) % n == num@ - 1);
            }
            return true;
        }
        let ghost e = d@ * pow2(i as nat);
        proof {
            lemma_mul_mod_noop(pow(b, e), pow(b, e), n);
            lemma_pow_adds(b, e, e);
            lemma_pow2_unfold((i + 1) as nat);
            assert(d@ * pow2((i + 1) as nat) == e + e) by {
                lemma_mul_is_associative(d@ as int, 2, pow2(i as nat) as int);
                lemma_mul_is_commutative(d@ as int, 2);
                lemma_mul_is_associative(2, d@ as int, pow2(i as nat) as int);
            }
        }
        y = y.mul(&y).rem(num);
        i = i + 1;
    }
    false
}

/// Forces bit 0 and bit `digits - 1` of a value below 2^(digits - 1): the
/// result is odd and has exactly `digits` bits.
pub fn full_width_odd(r: Uint, digits: usize) -> (num: Uint)
    requires
        r.wf(),
        2 <= digits,
        r@ < pow2((digits - 1) as nat),
    ensures
        num.wf(),
        pow2((digits - 1) as nat) <= num@ < pow2(digits as nat),
        num@ % 2 == 1,
        num@ == pow2((digits - 1) as nat) + r@ + (if r@ % 2 == 0 { 1nat } else { 0nat }),
{
    let ghost top = pow2((digits - 1) as nat);
    proof {
        lemma_pow2_unfold((digits - 1) as nat);
        lemma_pow2_unfold(digits as nat);
        assert(pow2(0) == 1) by {
            lemma2_to64();
        }
        lemma_div_basics(r@ as int);
    }
    let mut num = r;
    num.set_bit(0, true);
    let ghost low = num@;
    proof {
        lemma_div_basics(low as int);
        lemma_basic_div(low as int, top as int);
    }
    num.set_bit(digits - 1, true);
    num
}

/// `n` passed `t` Miller-Rabin rounds: some `t` witnesses in `[2, n - 1)`
/// that all pass.
pub open spec fn survives_rounds(n: nat, t: nat) -> bool {
    exists|ws: Seq<nat>|
        ws.len() == t && forall|i: int|
            0 <= i < t ==> 2 <= #[trigger] ws[i] < n - 1 && passes_witness(n, ws[i])
}

/// The acceptance test for a candidate `num`, with `d` and `k` splitting
/// `num - 1`: no table prime below it divides it, and every witness passes.
pub fn accept_candidate(num: &Uint, d: &Uint, k: usize, ws: &Vec<Uint>) -> (r: bool)
    requires
        num.wf(),
        d.wf(),
        num@ > 2,
        d@ == odd_part((num@ - 1) as nat),
        k == twos((num@ - 1) as nat),
        forall|i: int| 0 <= i < ws@.len() ==> (#[trigger] ws@[i]).wf(),
    ensures
        r == (!has_small_factor_spec(num@) && forall|i: int| 0 <= i < ws@.len() ==> passes_witness(num@, (#[trigger] ws@[i])@)),
{
    if has_small_factor(num) {
        return false;
    }
    let mut i: usize = 0;
    while i < ws.len()
        invariant
            num.wf(),
            d.wf(),
            num@ > 2,
            d@ == odd_part((num@ - 1) as nat),
            k == twos((num@ - 1) as nat),
            forall|j: int| 0 <= j < ws@.len() ==> (#[trigger] ws@[j]).wf(),
            i <= ws@.len(),
            forall|j: int| 0 <= j < i ==> passes_witness(num@, (#[trigger] ws@[j])@),
        decreases ws@.len() - i,
    {
        if !witness_passes(num, &ws[i], d, k) {
            return false;
        }
        i = i + 1;
    }
    true
}

/// A random odd number of `digits` bits, with `t` random witnesses in
/// `[2, n - 1)`, accepted by `accept_candidate`; at most `tries` candidates
/// are drawn, and `None` comes back when every one was rejected.
pub fn rand_prime(digits: usize, t: usize, tries: usize) -> (r: Option<Uint>)
    requires
        3 <= digits,
    ensures
        tries == 0 ==> r is None,
        r matches Some(p) ==> {
            &&& p.wf()
            &&& pow2((digits - 1) as nat) <= p@ < pow2(digits as nat)
            &&& p@ % 2 == 1
            &&& !has_small_factor_spec(p@)
            &&& survives_rounds(p@, t as nat)
        },
{
    let one = Uint::from(1);
    let two = Uint::from(2);
    let three = Uint::from(3);
    let top = one.shl(digits - 1);
    let units: usize = digits / 64 + 1;
    proof {
        lemma_pow2_pos((digits - 1) as nat);
        lemma_pow2_unfold((digits - 1) as nat);
        lemma_pow2_unfold((digits - 2) as nat);
        lemma_pow2_pos((digits - 3) as nat);
        lemma_mul_basics(pow2((digits - 1) as nat) as int);
    }
    let mut attempt: usize = 0;
    while attempt < tries
        invariant
            3 <= digits,
            one@ == 1,
            two@ == 2,
            three@ == 3,
            one.wf(),
            two.wf(),
            three.wf(),
            top.wf(),
            top@ == pow2((digits - 1) as nat),
            top@ >= 4,
        decreases tries - attempt,
    {
        attempt = attempt + 1;
        let drawn = Uint::rand(units).rem(&top);
        let num = full_width_odd(drawn, digits);
        let dec = num.sub(&one);
        let (d, k) = split_twos(&dec, digits);
        let span = num.sub(&three);
        let mut ws: Vec<Uint> = Vec::new();
        let mut round: usize = 0;
        while round < t
            invariant
                num.wf(),
                num@ >= 4,
                span.wf(),
                span@ == num@ - 3,
                two.wf(),
                two@ == 2,
                round <= t,
                ws@.len() == round,
                forall|i: int| 0 <= i < round ==> (#[trigger] ws@[i]).wf() && 2 <= ws@[i]@ < num@ - 1,
            decreases t - round,
        {
            let a = Uint::rand(units).rem(&span).add(&two);
            ws.push(a);
            round = round + 1;
        }
        if accept_candidate(&num, &d, k, &ws) {
            proof {
                let seen = Seq::new(t as nat, |i: int| ws@[i]@);
                assert(forall|i: int| 0 <= i < t ==> #[trigger] seen[i] == ws@[i]@);
                assert forall|i: int| 0 <= i < t implies 2 <= #[trigger] seen[i] < num@ - 1 && passes_witness(num@, seen[i]) by {
                    assert(ws@[i].wf() && 2 <= ws@[i]@ < num@ - 1);
                    assert(passes_witness(num@, ws@[i]@));
                }
                assert(seen.len() == t);
                assert(survives_rounds(num@, t as nat));
            }
            return Some(num);
        }
    }
    None
}

} // verus!
