//! Mathematical model of a little-endian sequence of 64-bit limbs, and the
//! facts about it that the arithmetic in `uint` relies on.
use vstd::arithmetic::div_mod::*;
use vstd::arithmetic::mul::*;
use vstd::arithmetic::power2::*;
use vstd::prelude::*;

verus! {

/// The radix of one limb, 2^64.
pub open spec fn limb_base() -> nat {
    0x1_0000_0000_0000_0000
}

/// The weight of limb `n`: 2^(64 n).
pub open spec fn pow_b(n: nat) -> nat {
    pow2(64 * n)
}

/// Limb `i` of `s`, where limbs past the end are zero.
pub open spec fn digit(s: Seq<u64>, i: int) -> nat {
    if 0 <= i < s.len() {
        s[i] as nat
    } else {
        0
    }
}

/// The value of the lowest `n` limbs of `s`.
pub open spec fn val_upto(s: Seq<u64>, n: nat) -> nat
    decreases n,
{
    if n == 0 {
        0
    } else {
        val_upto(s, (n - 1) as nat) + digit(s, n - 1) * pow_b((n - 1) as nat)
    }
}

/// The number that the limbs `s` stand for, least significant limb first.
pub open spec fn limbs_value(s: Seq<u64>) -> nat {
    val_upto(s, s.len())
}

/// No most significant zero limb; zero is the empty sequence.
pub open spec fn limbs_normalized(s: Seq<u64>) -> bool {
    s.len() == 0 || s.last() != 0
}

pub proof fn lemma_pow_b_facts(n: nat)
    ensures
        pow_b(n) > 0,
        pow_b(n + 1) == pow_b(n) * limb_base(),
        pow_b(0) == 1,
        pow_b(1) == limb_base(),
{
    lemma_pow2_pos(64 * n);
    lemma_pow2_adds(64 * n, 64);
    lemma2_to64();
    assert(64 * (n + 1) == 64 * n + 64);
    assert(64 * (1 as nat) == 64);
}

pub proof fn lemma_pow_b_adds(a: nat, b: nat)
    ensures
        pow_b(a) * pow_b(b) == pow_b(a + b),
{
    lemma_pow2_adds(64 * a, 64 * b);
    assert(64 * a + 64 * b == 64 * (a + b));
}

pub proof fn lemma_pow_b_mono(a: nat, b: nat)
    requires
        a <= b,
    ensures
        pow_b(a) <= pow_b(b),
{
    lemma_pow_b_adds(a, (b - a) as nat);
    lemma_pow_b_facts((b - a) as nat);
    lemma_pow_b_facts(a);
    lemma_mul_inequality(1, pow_b((b - a) as nat) as int, pow_b(a) as int);
    lemma_mul_is_commutative(pow_b(a) as int, pow_b((b - a) as nat) as int);
}

pub proof fn lemma_val_upto_bound(s: Seq<u64>, n: nat)
    ensures
        val_upto(s, n) < pow_b(n),
    decreases n,
{
    lemma_pow_b_facts(n);
    if n > 0 {
        let m = (n - 1) as nat;
        lemma_val_upto_bound(s, m);
        lemma_pow_b_facts(m);
        assert(digit(s, m as int) <= limb_base() - 1);
        lemma_mul_inequality(digit(s, m as int) as int, limb_base() - 1, pow_b(m) as int);
        lemma_mul_is_distributive_sub_other_way(pow_b(m) as int, limb_base() as int, 1);
    }
}

pub proof fn lemma_value_bound(s: Seq<u64>)
    ensures
        limbs_value(s) < pow_b(s.len()),
{
    lemma_val_upto_bound(s, s.len());
}

pub proof fn lemma_val_upto_ext(s: Seq<u64>, t: Seq<u64>, n: nat)
    requires
        forall|j: int| 0 <= j < n ==> digit(s, j) == digit(t, j),
    ensures
        val_upto(s, n) == val_upto(t, n),
    decreases n,
{
    if n > 0 {
        lemma_val_upto_ext(s, t, (n - 1) as nat);
    }
}

pub proof fn lemma_val_upto_beyond(s: Seq<u64>, n: nat)
    requires
        n >= s.len(),
    ensures
        val_upto(s, n) == limbs_value(s),
    decreases n,
{
    if n > s.len() {
        lemma_val_upto_beyond(s, (n - 1) as nat);
        assert(digit(s, n - 1) == 0);
        assert(val_upto(s, n) == val_upto(s, (n - 1) as nat) + digit(s, n - 1) * pow_b((n - 1) as nat));
    }
}

pub proof fn lemma_value_push(s: Seq<u64>, x: u64)
    ensures
        limbs_value(s.push(x)) == limbs_value(s) + x * pow_b(s.len()),
{
    lemma_val_upto_ext(s, s.push(x), s.len());
}

pub proof fn lemma_value_drop_zero(s: Seq<u64>)
    requires
        s.len() > 0,
        s.last() == 0,
    ensures
        limbs_value(s) == limbs_value(s.drop_last()),
{
    lemma_value_push(s.drop_last(), 0);
    assert(s.drop_last().push(0) =~= s);
}

pub proof fn lemma_value_lower(s: Seq<u64>)
    requires
        limbs_normalized(s),
        s.len() > 0,
    ensures
        limbs_value(s) >= pow_b((s.len() - 1) as nat),
{
    let m = (s.len() - 1) as nat;
    lemma_pow_b_facts(m);
    lemma_mul_inequality(1, digit(s, m as int) as int, pow_b(m) as int);
}

/// The value of a sequence splits at limb `k` into a low and a high part.
pub proof fn lemma_val_upto_split(s: Seq<u64>, k: nat, n: nat)
    requires
        k <= n,
        k <= s.len(),
    ensures
        val_upto(s, n) == val_upto(s, k) + pow_b(k) * val_upto(s.subrange(k as int, s.len() as int), (n - k) as nat),
    decreases n,
{
    let t = s.subrange(k as int, s.len() as int);
    if n > k {
        let m = (n - 1) as nat;
        lemma_val_upto_split(s, k, m);
        assert(digit(t, (m - k) as int) == digit(s, m as int));
        assert((n - k) as nat - 1 == (m - k) as nat);
        assert(val_upto(t, (n - k) as nat) == val_upto(t, (m - k) as nat) + digit(t, (m - k) as int) * pow_b((m - k) as nat));
        lemma_pow_b_adds(k, (m - k) as nat);
        lemma_mul_is_associative(pow_b(k) as int, digit(t, (m - k) as int) as int, pow_b((m - k) as nat) as int);
        lemma_mul_is_commutative(pow_b(k) as int, digit(t, (m - k) as int) as int);
        lemma_mul_is_associative(digit(t, (m - k) as int) as int, pow_b(k) as int, pow_b((m - k) as nat) as int);
        lemma_mul_is_distributive_add(pow_b(k) as int, val_upto(t, (m - k) as nat) as int, (digit(t, (m - k) as int) * pow_b((m - k) as nat)) as int);
        assert(val_upto(s, n) == val_upto(s, m) + digit(s, m as int) * pow_b(m));
        assert(pow_b(k) * pow_b((m - k) as nat) == pow_b(m));
    } else {
        assert(val_upto(t, 0) == 0);
        lemma_mul_basics(pow_b(k) as int);
    }
}

pub proof fn lemma_value_split(s: Seq<u64>, k: nat)
    requires
        k <= s.len(),
    ensures
        limbs_value(s) == val_upto(s, k) + pow_b(k) * limbs_value(s.subrange(k as int, s.len() as int)),
{
    lemma_val_upto_split(s, k, s.len());
}

pub proof fn lemma_value_cons(x: u64, t: Seq<u64>)
    ensures
        limbs_value(seq![x] + t) == x + limb_base() * limbs_value(t),
{
    let s = seq![x] + t;
    lemma_value_split(s, 1);
    lemma_pow_b_facts(0);
    assert(s.subrange(1, s.len() as int) =~= t);
    assert(digit(s, 0) == x);
    assert(val_upto(s, 1) == val_upto(s, 0) + digit(s, 0) * pow_b(0));
    assert(val_upto(s, 1) == x);
    assert(limbs_value(s.subrange(1, s.len() as int)) == limbs_value(t));
}

/// Placing `k` zero limbs below `t` multiplies its value by 2^(64 k).
pub proof fn lemma_value_zeros_below(k: nat, t: Seq<u64>)
    ensures
        limbs_value(Seq::new(k, |i: int| 0u64) + t) == pow_b(k) * limbs_value(t),
{
    let z = Seq::new(k, |i: int| 0u64);
    let s = z + t;
    lemma_value_split(s, k);
    assert(s.subrange(k as int, s.len() as int) =~= t);
    lemma_val_upto_ext(s, Seq::<u64>::empty(), k);
    lemma_val_upto_beyond(Seq::<u64>::empty(), k);
}

/// Limbs of equal value below `n` are equal below `n`.
pub proof fn lemma_val_upto_inj(s: Seq<u64>, t: Seq<u64>, n: nat)
    requires
        val_upto(s, n) == val_upto(t, n),
    ensures
        forall|j: int| 0 <= j < n ==> digit(s, j) == digit(t, j),
    decreases n,
{
    if n > 0 {
        let m = (n - 1) as nat;
        lemma_val_upto_bound(s, m);
        lemma_val_upto_bound(t, m);
        lemma_pow_b_facts(m);
        let v = val_upto(s, n) as int;
        lemma_mul_is_commutative(digit(s, m as int) as int, pow_b(m) as int);
        lemma_mul_is_commutative(digit(t, m as int) as int, pow_b(m) as int);
        lemma_fundamental_div_mod_converse(v, pow_b(m) as int, digit(s, m as int) as int, val_upto(s, m) as int);
        lemma_fundamental_div_mod_converse(v, pow_b(m) as int, digit(t, m as int) as int, val_upto(t, m) as int);
        lemma_val_upto_inj(s, t, m);
    }
}

/// A value has exactly one normalized limb sequence.
pub proof fn lemma_canonical(s: Seq<u64>, t: Seq<u64>)
    requires
        limbs_normalized(s),
        limbs_normalized(t),
        limbs_value(s) == limbs_value(t),
    ensures
        s == t,
{
    if s.len() < t.len() {
        lemma_value_bound(s);
        lemma_value_lower(t);
        lemma_pow_b_mono(s.len(), (t.len() - 1) as nat);
    } else if t.len() < s.len() {
        lemma_value_bound(t);
        lemma_value_lower(s);
        lemma_pow_b_mono(t.len(), (s.len() - 1) as nat);
    } else {
        lemma_val_upto_inj(s, t, s.len());
        assert forall|j: int| 0 <= j < s.len() implies s[j] == t[j] by {
            assert(digit(s, j) == digit(t, j));
        }
        assert(s =~= t);
    }
}

/// Two limb sequences that agree above limb `i` and differ at `i` are
/// ordered as their limbs at `i` are.
pub proof fn lemma_val_upto_first_difference(s: Seq<u64>, t: Seq<u64>, i: nat, n: nat)
    requires
        i < n,
        digit(s, i as int) < digit(t, i as int),
        forall|j: int| i < j < n ==> digit(s, j) == digit(t, j),
    ensures
        val_upto(s, n) < val_upto(t, n),
    decreases n,
{
    let m = (n - 1) as nat;
    if m == i {
        lemma_val_upto_bound(s, m);
        lemma_mul_inequality((digit(s, m as int) + 1) as int, digit(t, m as int) as int, pow_b(m) as int);
        lemma_mul_is_distributive_add_other_way(pow_b(m) as int, digit(s, m as int) as int, 1);
    } else {
        lemma_val_upto_first_difference(s, t, i, m);
    }
}

/// Bit `64 o + r` of the value is bit `r` of limb `o`.
pub proof fn lemma_bit_of_value(s: Seq<u64>, o: nat, r: nat)
    requires
        o < s.len(),
        r < 64,
    ensures
        (limbs_value(s) / pow2(64 * o + r)) % 2 == (s[o as int] as nat / pow2(r)) % 2,
{
    let v = limbs_value(s) as int;
    let hi = s.subrange(o as int, s.len() as int);
    let rest = s.subrange((o + 1) as int, s.len() as int);
    let t = limbs_value(hi) as int;
    let h = limbs_value(rest) as int;
    let d = s[o as int] as int;
    let lo = val_upto(s, o) as int;
    let pb = pow_b(o) as int;
    let pr = pow2(r) as int;
    let pq = pow2((64 - r) as nat) as int;
    lemma_value_split(s, o);
    lemma_val_upto_bound(s, o);
    lemma_pow_b_facts(o);
    lemma_pow2_pos(r);
    lemma_pow2_pos((64 - r) as nat);
    // v / 2^(64 o) is the value of the limbs from `o` up
    lemma_mul_is_commutative(pb, t);
    lemma_fundamental_div_mod_converse(v, pb, t, lo);
    assert(hi =~= seq![s[o as int]] + rest);
    lemma_value_cons(s[o as int], rest);
    // dividing by 2^(64 o + r) is dividing by 2^(64 o), then by 2^r
    lemma_pow2_adds(64 * o, r);
    lemma_div_denominator(v, pb, pr);
    // t = d + 2^64 h, and 2^64 = 2^r 2^(64 - r)
    lemma_pow2_adds(r, (64 - r) as nat);
    lemma2_to64();
    let q = d / pr;
    lemma_fundamental_div_mod(d, pr);
    lemma_mod_bound(d, pr);
    assert(t == (q + pq * h) * pr + d % pr) by {
        lemma_mul_is_associative(pr, pq, h);
        lemma_mul_is_distributive_add_other_way(pr, q, pq * h);
        lemma_mul_is_commutative(pr, q + pq * h);
        lemma_mul_is_commutative(pr, q);
    }
    lemma_fundamental_div_mod_converse(t, pr, q + pq * h, d % pr);
    // the high part is even
    lemma_pow2_adds(1, (63 - r) as nat);
    assert(pow2(1) == 2) by {
        lemma2_to64();
    }
    let pe = pow2((63 - r) as nat) as int;
    assert(pq * h == 2 * (pe * h)) by {
        lemma_mul_is_associative(2, pe, h);
    }
    lemma_mod_multiples_vanish(pe * h, q, 2);
}

/// A value held in `n` limbs is below 2^(64 n).
pub proof fn lemma_value_div_top(s: Seq<u64>)
    ensures
        limbs_value(s) / pow2(64 * s.len()) == 0,
{
    lemma_value_bound(s);
    lemma_pow_b_facts(s.len());
    lemma_basic_div(limbs_value(s) as int, pow2(64 * s.len()) as int);
}

/// The number of limbs that a normalized integer of value `v` holds.
#[verifier::opaque]
pub open spec fn limbs_for(v: nat) -> nat
    decreases v,
{
    if v == 0 {
        0
    } else {
        1 + limbs_for(v / limb_base())
    }
}

/// Normalized limbs are exactly as many as their value needs.
pub proof fn lemma_limbs_for(s: Seq<u64>)
    requires
        limbs_normalized(s),
    ensures
        limbs_for(limbs_value(s)) == s.len(),
    decreases s.len(),
{
    reveal(limbs_for);
    if s.len() > 0 {
        let rest = s.subrange(1, s.len() as int);
        assert(s =~= seq![s[0]] + rest);
        lemma_value_cons(s[0], rest);
        lemma_value_lower(s);
        lemma_pow_b_facts((s.len() - 1) as nat);
        if rest.len() > 0 {
            assert(rest.last() == s.last());
        }
        lemma_limbs_for(rest);
        lemma_fundamental_div_mod_converse(
            limbs_value(s) as int,
            limb_base() as int,
            limbs_value(rest) as int,
            s[0] as int,
        );
        lemma_mul_is_commutative(limb_base() as int, limbs_value(rest) as int);
    }
}

} // verus!
