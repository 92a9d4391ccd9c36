//! Arbitrary precision unsigned integers held as 64-bit limbs.
use crate::hex::{hex_char, hex_len, hex_value, is_hex, is_upper_hex_digit, lemma_hex_value_push};
use crate::limbs::{
    digit, lemma_bit_of_value, lemma_canonical, lemma_pow_b_facts, lemma_pow_b_mono,
    lemma_limbs_for, lemma_val_upto_beyond, lemma_val_upto_bound, lemma_val_upto_first_difference,
    lemma_value_bound, lemma_value_cons, lemma_value_div_top, lemma_value_drop_zero,
    lemma_value_lower, lemma_value_push, lemma_value_split, lemma_value_zeros_below, limb_base, limbs_normalized,
    limbs_for, limbs_value, pow_b, val_upto,
};
use core::cmp::Ordering;
use vstd::arithmetic::div_mod::*;
use vstd::arithmetic::mul::*;
use vstd::arithmetic::power::*;
use vstd::arithmetic::power2::*;
use vstd::bits::*;
use vstd::prelude::*;

verus! {

/// Arbitrary precision unsigned integer, least significant limb first.
#[derive(Clone, Debug, PartialEq, Eq)]
pub struct Uint {
    digits: Vec<u64>,
}

impl View for Uint {
    type V = nat;

    closed spec fn view(&self) -> nat {
        limbs_value(self.digits@)
    }
}

proof fn lemma_add_step(p: int, lo: int, hi: int, x: int, y: int, c: int) by (nonlinear_arith)
    requires
        lo + hi * limb_base() == x + y + c,
    ensures
        lo * p + hi * (p * limb_base()) == x * p + y * p + c * p,
{
}

proof fn lemma_sub_step(p: int, lo: int, hi: int, x: int, y: int, c: int) by (nonlinear_arith)
    requires
        lo - hi * limb_base() == x - y - c,
    ensures
        lo * p - hi * (p * limb_base()) == x * p - y * p - c * p,
{
}

proof fn lemma_mul_limb_step(p: int, lo: int, hi: int, x: int, k: int, c: int, v: int, va: int) by (nonlinear_arith)
    requires
        lo + hi * limb_base() == x * k + c,
        v + c * p == va * k,
    ensures
        v + lo * p + hi * (p * limb_base()) == (va + x * p) * k,
{
}

proof fn lemma_limb_product_bound(x: int, k: int, c: int) by (nonlinear_arith)
    requires
        0 <= x < limb_base(),
        0 <= k < limb_base(),
        0 <= c < limb_base(),
    ensures
        x * k + c < limb_base() * limb_base(),
        0 <= x * k + c,
{
}

/// `a - b`, or zero where `b` is the larger.
pub open spec fn sub_clamped(a: nat, b: nat) -> nat {
    if a >= b {
        (a - b) as nat
    } else {
        0
    }
}

/// Limb-wise sum of two limb sequences, which need not be normalized.
fn add_limbs(a: &Vec<u64>, b: &Vec<u64>) -> (r: Vec<u64>)
    ensures
        limbs_value(r@) == limbs_value(a@) + limbs_value(b@),
{
    let n: usize = if a.len() >= b.len() { a.len() } else { b.len() };
    let mut r: Vec<u64> = Vec::new();
    let mut carry: u64 = 0;
    let mut i: usize = 0;
    while i < n
        invariant
            n >= a.len(),
            n >= b.len(),
            i <= n,
            r@.len() == i,
            carry <= 1,
            limbs_value(r@) + carry * pow_b(i as nat) == val_upto(a@, i as nat) + val_upto(b@, i as nat),
        decreases n - i,
    {
        let x: u64 = if i < a.len() { a[i] } else { 0 };
        let y: u64 = if i < b.len() { b[i] } else { 0 };
        let s: u128 = x as u128 + y as u128 + carry as u128;
        let lo: u64 = (s % 0x1_0000_0000_0000_0000u128) as u64;
        let hi: u64 = (s / 0x1_0000_0000_0000_0000u128) as u64;
        proof {
            assert(x == digit(a@, i as int));
            assert(y == digit(b@, i as int));
            lemma_value_push(r@, lo);
            lemma_pow_b_facts(i as nat);
            lemma_add_step(pow_b(i as nat) as int, lo as int, hi as int, x as int, y as int, carry as int);
        }
        r.push(lo);
        carry = hi;
        i = i + 1;
    }
    proof {
        lemma_val_upto_beyond(a@, n as nat);
        lemma_val_upto_beyond(b@, n as nat);
    }
    if carry > 0 {
        proof {
            lemma_value_push(r@, carry);
        }
        r.push(carry);
    }
    r
}

impl Uint {
    /// Normalized: no most significant zero limb, and zero has no limbs.
    pub closed spec fn wf(&self) -> bool {
        limbs_normalized(self.digits@)
    }

    /// The number of limbs.
    pub closed spec fn limb_len(&self) -> nat {
        self.digits@.len()
    }

    /// The limbs, least significant first.
    pub closed spec fn limbs(&self) -> Seq<u64> {
        self.digits@
    }

    /// A normalized integer has no most significant zero limb, and zero is
    /// held as no limbs at all.
    pub proof fn law_normalized(u: &Uint)
        requires
            u.wf(),
        ensures
            u.limbs().len() == 0 <==> u@ == 0,
            u.limbs().len() > 0 ==> u.limbs().last() != 0,
    {
        if u.digits@.len() > 0 {
            lemma_value_lower(u.digits@);
            lemma_pow_b_facts((u.digits@.len() - 1) as nat);
        }
    }

    /// How the limbs stand for the value: the number of limbs, the value
    /// they make, and the limb count that a normalized value needs.
    pub proof fn law_limbs(u: &Uint)
        ensures
            u.limb_len() == u.limbs().len(),
            u@ == limbs_value(u.limbs()),
            u.wf() == limbs_normalized(u.limbs()),
            u@ < pow_b(u.limb_len()),
            u.wf() ==> limbs_for(u@) == u.limb_len(),
            u.wf() && u.limb_len() > 0 ==> pow_b((u.limb_len() - 1) as nat) <= u@,
    {
        lemma_value_bound(u.digits@);
        if u.wf() {
            lemma_limbs_for(u.digits@);
            if u.digits@.len() > 0 {
                lemma_value_lower(u.digits@);
            }
        }
    }

    /// Two normalized integers of the same value are the same.
    pub proof fn lemma_unique(a: &Uint, b: &Uint)
        requires
            a.wf(),
            b.wf(),
            a@ == b@,
        ensures
            a.limbs() == b.limbs(),
    {
        lemma_canonical(a.digits@, b.digits@);
    }

    pub fn from(n: u64) -> (r: Uint)
        ensures
            r.wf(),
            r@ == n,
    {
        let mut digits: Vec<u64> = Vec::new();
        if n != 0 {
            digits.push(n);
            proof {
                assert(digits@ =~= Seq::<u64>::empty().push(n));
                lemma_value_push(Seq::<u64>::empty(), n);
                lemma_pow_b_facts(0);
                lemma_mul_basics(n as int);
            }
        }
        Uint { digits }
    }

    pub fn zero() -> (r: Uint)
        ensures
            r.wf(),
            r@ == 0,
    {
        Uint { digits: Vec::new() }
    }

    /// A copy of `self`.
    pub fn duplicate(&self) -> (r: Uint)
        ensures
            r.limbs() == self.limbs(),
            r@ == self@,
            r.wf() == self.wf(),
    {
        let mut digits: Vec<u64> = Vec::new();
        let mut i: usize = 0;
        while i < self.digits.len()
            invariant
                i <= self.digits@.len(),
                digits@ == self.digits@.subrange(0, i as int),
            decreases self.digits@.len() - i,
        {
            digits.push(self.digits[i]);
            i = i + 1;
            proof {
                assert(digits@ =~= self.digits@.subrange(0, i as int));
            }
        }
        proof {
            assert(digits@ =~= self.digits@);
        }
        Uint { digits }
    }

    /// The integer that the limbs `digits` stand for, least significant
    /// first.
    pub(crate) fn from_limbs(digits: Vec<u64>) -> (r: Uint)
        ensures
            r.wf(),
            r@ == limbs_value(digits@),
    {
        Uint { digits }.trim()
    }

    /// Drops the most significant zero limbs; the value is kept.
    pub fn trim(self) -> (r: Uint)
        ensures
            r.wf(),
            r@ == self@,
            r.limbs().len() <= self.limbs().len(),
    {
        let mut digits = self.digits;
        while digits.len() > 0 && digits[digits.len() - 1] == 0
            invariant
                limbs_value(digits@) == limbs_value(self.digits@),
                digits@.len() <= self.digits@.len(),
            decreases digits@.len(),
        {
            proof {
                lemma_value_drop_zero(digits@);
            }
            digits.pop();
        }
        Uint { digits }
    }

    /// `self + other * 2^(64 shift)`.
    pub fn shift_add(&self, other: &Uint, shift: usize) -> (r: Uint)
        ensures
            r.wf(),
            r@ == self@ + other@ * pow_b(shift as nat),
    {
        let moved = with_low_zeros(&other.digits, shift);
        proof {
            lemma_value_zeros_below(shift as nat, other.digits@);
            lemma_mul_is_commutative(pow_b(shift as nat) as int, other@ as int);
        }
        let sum = add_limbs(&self.digits, &moved);
        Uint { digits: sum }.trim()
    }

    pub fn add(&self, other: &Uint) -> (r: Uint)
        ensures
            r.wf(),
            r@ == self@ + other@,
    {
        let sum = add_limbs(&self.digits, &other.digits);
        Uint { digits: sum }.trim()
    }

    /// Subtraction that stops at zero: `self - other`, or zero where
    /// `other` is the larger.
    pub fn sub(&self, other: &Uint) -> (r: Uint)
        ensures
            r.wf(),
            r@ == sub_clamped(self@, other@),
    {
        let a = &self.digits;
        let b = &other.digits;
        let n: usize = if a.len() >= b.len() { a.len() } else { b.len() };
        let mut r: Vec<u64> = Vec::new();
        let mut borrow: u64 = 0;
        let mut i: usize = 0;
        while i < n
            invariant
                n >= a.len(),
                n >= b.len(),
                i <= n,
                r@.len() == i,
                borrow <= 1,
                limbs_value(r@) - borrow * pow_b(i as nat) == val_upto(a@, i as nat) - val_upto(b@, i as nat),
            decreases n - i,
        {
            let x: u64 = if i < a.len() { a[i] } else { 0 };
            let y: u64 = if i < b.len() { b[i] } else { 0 };
            let t: u128 = y as u128 + borrow as u128;
            let lo: u64;
            let nb: u64;
            if x as u128 >= t {
                lo = (x as u128 - t) as u64;
                nb = 0;
            } else {
                lo = (x as u128 + 0x1_0000_0000_0000_0000u128 - t) as u64;
                nb = 1;
            }
            proof {
                assert(x == digit(a@, i as int));
                assert(y == digit(b@, i as int));
                lemma_value_push(r@, lo);
                lemma_pow_b_facts(i as nat);
                lemma_sub_step(pow_b(i as nat) as int, lo as int, nb as int, x as int, y as int, borrow as int);
            }
            r.push(lo);
            borrow = nb;
            i = i + 1;
        }
        proof {
            lemma_val_upto_beyond(a@, n as nat);
            lemma_val_upto_beyond(b@, n as nat);
            lemma_value_bound(r@);
        }
        if borrow > 0 {
            return Uint::zero();
        }
        Uint { digits: r }.trim()
    }

    /// `self * k` for a single limb `k`.
    pub fn mul_limb(&self, k: u64) -> (r: Uint)
        ensures
            r.wf(),
            r@ == self@ * k,
            r.limb_len() <= self.limb_len() + 1,
    {
        let a = &self.digits;
        let mut r: Vec<u64> = Vec::new();
        let mut carry: u64 = 0;
        let mut i: usize = 0;
        proof {
            lemma_mul_basics(k as int);
            lemma_mul_basics(pow_b(0) as int);
        }
        while i < a.len()
            invariant
                i <= a@.len(),
                r@.len() == i,
                limbs_value(r@) + carry * pow_b(i as nat) == val_upto(a@, i as nat) * k,
            decreases a@.len() - i,
        {
            let x: u64 = a[i];
            proof {
                lemma_limb_product_bound(x as int, k as int, carry as int);
            }
            let s: u128 = x as u128 * k as u128 + carry as u128;
            let lo: u64 = (s % 0x1_0000_0000_0000_0000u128) as u64;
            let hi: u64 = (s / 0x1_0000_0000_0000_0000u128) as u64;
            proof {
                assert(x == digit(a@, i as int));
                lemma_value_push(r@, lo);
                lemma_pow_b_facts(i as nat);
                lemma_mul_limb_step(
                    pow_b(i as nat) as int,
                    lo as int,
                    hi as int,
                    x as int,
                    k as int,
                    carry as int,
                    limbs_value(r@) as int,
                    val_upto(a@, i as nat) as int,
                );
            }
            r.push(lo);
            carry = hi;
            i = i + 1;
        }
        if carry > 0 {
            proof {
                lemma_value_push(r@, carry);
            }
            r.push(carry);
        }
        Uint { digits: r }.trim()
    }

    /// Schoolbook product: one scaled partial product per limb of `other`.
    pub fn mul(&self, other: &Uint) -> (r: Uint)
        ensures
            r.wf(),
            r@ == self@ * other@,
    {
        let mut result = Uint::zero();
        let mut j: usize = 0;
        proof {
            lemma_mul_basics(self@ as int);
        }
        while j < other.digits.len()
            invariant
                j <= other.digits@.len(),
                result.wf(),
                result@ == self@ * val_upto(other.digits@, j as nat),
            decreases other.digits@.len() - j,
        {
            let part = self.mul_limb(other.digits[j]);
            let ghost before = result@;
            result = result.shift_add(&part, j);
            proof {
                let d = digit(other.digits@, j as int);
                assert(other.digits[j as int] == d);
                assert(val_upto(other.digits@, (j + 1) as nat) == val_upto(other.digits@, j as nat) + d * pow_b(j as nat));
                lemma_mul_is_distributive_add(self@ as int, val_upto(other.digits@, j as nat) as int, (d * pow_b(j as nat)) as int);
                lemma_mul_is_associative(self@ as int, d as int, pow_b(j as nat) as int);
            }
            j = j + 1;
        }
        result
    }

    /// Three-way comparison of the values.
    pub fn cmp(&self, other: &Uint) -> (r: Ordering)
        requires
            self.wf(),
            other.wf(),
        ensures
            (r == Ordering::Less) == (self@ < other@),
            (r == Ordering::Equal) == (self@ == other@),
            (r == Ordering::Greater) == (self@ > other@),
    {
        let a = &self.digits;
        let b = &other.digits;
        let la = a.len();
        let lb = b.len();
        if la < lb {
            proof {
                lemma_value_bound(a@);
                lemma_value_lower(b@);
                lemma_pow_b_mono(la as nat, (lb - 1) as nat);
            }
            return Ordering::Less;
        }
        if la > lb {
            proof {
                lemma_value_bound(b@);
                lemma_value_lower(a@);
                lemma_pow_b_mono(lb as nat, (la - 1) as nat);
            }
            return Ordering::Greater;
        }
        let mut i: usize = la;
        while i > 0
            invariant
                i <= la,
                a@ == self.digits@,
                b@ == other.digits@,
                la == a@.len(),
                la == b@.len(),
                forall|j: int| i <= j < la ==> a@[j] == b@[j],
            decreases i,
        {
            i = i - 1;
            if a[i] != b[i] {
                proof {
                    assert forall|j: int| i < j < la implies digit(a@, j) == digit(b@, j) by {
                        assert(a@[j] == b@[j]);
                    }
                }
                if a[i] < b[i] {
                    proof {
                        lemma_val_upto_first_difference(a@, b@, i as nat, la as nat);
                        assert(val_upto(a@, la as nat) < val_upto(b@, la as nat));
                        assert(self@ == limbs_value(a@));
                        assert(other@ == limbs_value(b@));
                        assert(self@ < other@);
                    }
                    return Ordering::Less;
                } else {
                    proof {
                        lemma_val_upto_first_difference(b@, a@, i as nat, la as nat);
                        assert(self@ > other@);
                    }
                    return Ordering::Greater;
                }
            }
        }
        proof {
            assert(a@ =~= b@);
        }
        Ordering::Equal
    }

    /// `self < other`.
    pub fn lt(&self, other: &Uint) -> (r: bool)
        requires
            self.wf(),
            other.wf(),
        ensures
            r == (self@ < other@),
    {
        match self.cmp(other) {
            Ordering::Less => true,
            _ => false,
        }
    }

    /// `self == other`.
    pub fn equals(&self, other: &Uint) -> (r: bool)
        requires
            self.wf(),
            other.wf(),
        ensures
            r == (self@ == other@),
    {
        match self.cmp(other) {
            Ordering::Equal => true,
            _ => false,
        }
    }

    /// `self == 0`.
    pub fn is_zero(&self) -> (r: bool)
        requires
            self.wf(),
        ensures
            r == (self@ == 0),
    {
        proof {
            if self.digits@.len() > 0 {
                lemma_value_lower(self.digits@);
                lemma_pow_b_facts((self.digits@.len() - 1) as nat);
            }
        }
        self.digits.len() == 0
    }
}

/// Bit `i` of `v`.
pub open spec fn bit_of(v: nat, i: nat) -> bool {
    (v / pow2(i)) % 2 == 1
}

/// One step of binary long division: pulling the next bit `b` into a
/// dividend `x` whose quotient and remainder are known.
proof fn lemma_long_division_step(x: int, m: int, b: int)
    requires
        m > 0,
        x >= 0,
        0 <= b <= 1,
    ensures
        2 * (x % m) + b >= m ==> (2 * x + b) / m == 2 * (x / m) + 1 && (2 * x + b) % m == 2 * (x % m) + b - m,
        2 * (x % m) + b < m ==> (2 * x + b) / m == 2 * (x / m) && (2 * x + b) % m == 2 * (x % m) + b,
{
    let q = x / m;
    let r = x % m;
    lemma_fundamental_div_mod(x, m);
    lemma_mod_bound(x, m);
    if 2 * r + b >= m {
        assert(2 * x + b == (2 * q + 1) * m + (2 * r + b - m)) by {
            lemma_mul_is_distributive_add_other_way(m, 2 * q, 1);
            lemma_mul_is_associative(2, q, m);
            lemma_mul_is_commutative(q, m);
        }
        lemma_fundamental_div_mod_converse(2 * x + b, m, 2 * q + 1, 2 * r + b - m);
    } else {
        assert(2 * x + b == (2 * q) * m + (2 * r + b)) by {
            lemma_mul_is_associative(2, q, m);
            lemma_mul_is_commutative(q, m);
        }
        lemma_fundamental_div_mod_converse(2 * x + b, m, 2 * q, 2 * r + b);
    }
}

/// Shifting right by `j` is shifting right by `j + 1`, doubling, and adding
/// back bit `j`.
proof fn lemma_halve(v: nat, j: nat)
    ensures
        v / pow2(j) == 2 * (v / pow2(j + 1)) + (v / pow2(j)) % 2,
        (v / pow2(j)) % 2 == 0 || (v / pow2(j)) % 2 == 1,
{
    lemma_pow2_pos(j);
    lemma_pow2_unfold(j + 1);
    lemma_mul_is_commutative(2, pow2(j) as int);
    lemma_div_denominator(v as int, pow2(j) as int, 2);
    lemma_fundamental_div_mod((v / pow2(j)) as int, 2);
    lemma_mod_bound((v / pow2(j)) as int, 2);
}

proof fn lemma_pow2_of_limbs(o: nat, r: nat)
    ensures
        pow_b(o) * pow2(r) == pow2(64 * o + r),
        pow2(64 * o + r) >= pow_b(o),
{
    lemma_pow2_adds(64 * o, r);
    lemma_pow2_pos(r);
    lemma_pow_b_facts(o);
    lemma_mul_inequality(1, pow2(r) as int, pow_b(o) as int);
    lemma_mul_is_commutative(pow2(r) as int, pow_b(o) as int);
}

impl Uint {
    /// Bit `r` of limb `o`.
    fn limb_bit(&self, o: usize, r: usize) -> (res: bool)
        requires
            o < self.limb_len(),
            r < 64,
        ensures
            res == bit_of(self@, (64 * o + r) as nat),
    {
        let limb = self.digits[o];
        let x: u64 = limb >> (r as u64);
        proof {
            lemma_u64_shr_is_div(limb, r as u64);
            lemma_bit_of_value(self.digits@, o as nat, r as nat);
            assert((x & 1) == x % 2) by (bit_vector);
        }
        (x & 1) == 1
    }

    /// Bit `bit` of the value; bits past the top are zero.
    pub fn get_bit(&self, bit: usize) -> (r: bool)
        ensures
            r == bit_of(self@, bit as nat),
            bit >= 64 * self.limb_len() ==> !r,
    {
        let o: usize = bit / 64;
        let b: usize = bit % 64;
        if o >= self.digits.len() {
            proof {
                lemma_value_bound(self.digits@);
                lemma_pow_b_mono(self.digits@.len(), o as nat);
                lemma_pow2_of_limbs(o as nat, b as nat);
                assert(bit == 64 * o + b);
                lemma_basic_div(self@ as int, pow2(bit as nat) as int);
            }
            false
        } else {
            self.limb_bit(o, b)
        }
    }

    /// Sets bit `bit` to `cont`, growing the limbs where the bit lies past
    /// the top.
    pub fn set_bit(&mut self, bit: usize, cont: bool)
        requires
            old(self).wf(),
        ensures
            final(self).wf(),
            final(self)@ as int == (if bit_of(old(self)@, bit as nat) == cont {
                old(self)@ as int
            } else if cont {
                (old(self)@ + pow2(bit as nat)) as int
            } else {
                old(self)@ - pow2(bit as nat)
            }),
    {
        let cur = self.get_bit(bit);
        if cur != cont {
            let p = Uint::from(1).shl(bit);
            proof {
                lemma_mul_basics(pow2(bit as nat) as int);
            }
            if cont {
                *self = self.add(&p);
            } else {
                proof {
                    let v = old(self)@ as int;
                    let d = pow2(bit as nat) as int;
                    lemma_pow2_pos(bit as nat);
                    lemma_fundamental_div_mod(v, d);
                    lemma_mod_bound(v, d);
                    assert(v / d >= 1);
                    lemma_mul_inequality(1, v / d, d);
                }
                *self = self.sub(&p);
            }
        }
    }

    /// The number of significant bits: 0 for zero.
    pub fn top_bit(&self) -> (r: usize)
        requires
            self.wf(),
            self.limb_len() * 64 <= usize::MAX,
        ensures
            self@ < pow2(r as nat),
            r > 0 ==> pow2((r - 1) as nat) <= self@,
            (r == 0) == (self@ == 0),
    {
        let n = self.digits.len();
        if n == 0 {
            proof {
                lemma_pow2_pos(0);
            }
            return 0;
        }
        let top = self.digits[n - 1];
        let mut bl: usize = 0;
        proof {
            lemma2_to64();
        }
        while bl < 64 && (top >> (bl as u64)) != 0
            invariant
                bl <= 64,
                bl > 0 ==> top as nat / pow2((bl - 1) as nat) >= 1,
            decreases 64 - bl,
        {
            proof {
                lemma_u64_shr_is_div(top, bl as u64);
            }
            bl = bl + 1;
        }
        proof {
            if bl < 64 {
                lemma_u64_shr_is_div(top, bl as u64);
            }
            lemma_pow2_pos(bl as nat);
            lemma2_to64();
            lemma_fundamental_div_mod(top as int, pow2(bl as nat) as int);
            lemma_mod_bound(top as int, pow2(bl as nat) as int);
            assert(top < pow2(bl as nat));
            let m = (n - 1) as nat;
            let pb = pow_b(m) as int;
            let lo = val_upto(self.digits@, m) as int;
            lemma_val_upto_bound(self.digits@, m);
            lemma_pow_b_facts(m);
            assert(self@ == lo + top * pb);
            lemma_pow2_of_limbs(m, bl as nat);
            lemma_mul_inequality(top + 1, pow2(bl as nat) as int, pb);
            lemma_mul_is_distributive_add_other_way(pb, top as int, 1);
            lemma_mul_is_commutative(pb, top as int);
            lemma_mul_is_commutative(pb, pow2(bl as nat) as int);
            if bl > 0 {
                let p1 = pow2((bl - 1) as nat) as int;
                lemma_pow2_pos((bl - 1) as nat);
                lemma_fundamental_div_mod(top as int, p1);
                lemma_mod_bound(top as int, p1);
                lemma_mul_inequality(1, top as int / p1, p1);
                lemma_mul_is_commutative(p1, top as int / p1);
                lemma_pow2_of_limbs(m, (bl - 1) as nat);
                lemma_mul_inequality(p1, top as int, pb);
                lemma_mul_is_commutative(pb, p1);
                assert(64 * m + bl == n * 64 - 64 + bl);
            } else {
                assert(false);
            }
        }
        (n - 1) * 64 + bl
    }
}

proof fn lemma_limb_division_bound(rem: int, d: int, k: int)
    by (nonlinear_arith)
    requires
        0 <= rem < k,
        0 <= d < limb_base(),
        k <= limb_base(),
    ensures
        0 <= rem * limb_base() + d < k * limb_base(),
        (rem * limb_base() + d) / k < limb_base(),
{
}

proof fn lemma_limb_division_step(h: int, d: int, upper: int, k: int, rem: int, cur: int, qi: int, ri: int)
    by (nonlinear_arith)
    requires
        h == d + limb_base() * (upper * k + rem),
        cur == rem * limb_base() + d,
        cur == k * qi + ri,
    ensures
        h == (qi + limb_base() * upper) * k + ri,
{
}

/// `count` zero limbs followed by `digits`.
fn with_low_zeros(digits: &Vec<u64>, count: usize) -> (r: Vec<u64>)
    ensures
        r@ == Seq::new(count as nat, |j: int| 0u64) + digits@,
{
    let mut moved: Vec<u64> = Vec::new();
    let mut i: usize = 0;
    while i < count
        invariant
            i <= count,
            moved@ == Seq::new(i as nat, |j: int| 0u64),
        decreases count - i,
    {
        moved.push(0);
        i = i + 1;
        proof {
            assert(moved@ =~= Seq::new(i as nat, |j: int| 0u64));
        }
    }
    let mut j: usize = 0;
    while j < digits.len()
        invariant
            j <= digits@.len(),
            moved@ == Seq::new(count as nat, |j: int| 0u64) + digits@.subrange(0, j as int),
        decreases digits@.len() - j,
    {
        moved.push(digits[j]);
        j = j + 1;
        proof {
            assert(moved@ =~= Seq::new(count as nat, |j: int| 0u64) + digits@.subrange(0, j as int));
        }
    }
    proof {
        assert(digits@.subrange(0, j as int) =~= digits@);
    }
    moved
}

/// Twice a number has bit 0 clear, and setting it adds one.
proof fn lemma_even_low_bit(x: nat)
    ensures
        x * pow2(1) == 2 * x,
        !bit_of(2 * x, 0),
        pow2(0) == 1,
{
    lemma2_to64();
    lemma_div_basics((2 * x) as int);
    lemma_mul_is_commutative(x as int, 2);
}

/// One square-and-multiply step: from `b^e mod m` to `b^(2 e + bit) mod m`.
proof fn lemma_square_multiply_step(b: int, e: nat, m: int, acc: int, bit: nat)
    requires
        m > 0,
        acc == pow(b, e) % m,
        bit <= 1,
    ensures
        (acc * acc) % m == pow(b, 2 * e) % m,
        ((acc * acc) % m * b) % m == pow(b, 2 * e + 1) % m,
{
    lemma_mul_mod_noop(pow(b, e), pow(b, e), m);
    lemma_pow_adds(b, e, e);
    assert(e + e == 2 * e);
    lemma_mul_mod_noop_left(pow(b, 2 * e), b, m);
    lemma_pow_adds(b, 2 * e, 1);
    lemma_pow1(b);
}

impl Uint {
    /// Binary long division: `(self / other, self % other)`.
    pub fn divrem(&self, other: &Uint) -> (r: (Uint, Uint))
        requires
            self.wf(),
            other.wf(),
            other@ != 0,
        ensures
            r.0.wf(),
            r.1.wf(),
            r.0@ == self@ / other@,
            r.1@ == self@ % other@,
    {
        if self.lt(other) {
            proof {
                lemma_basic_div(self@ as int, other@ as int);
                lemma_small_mod(self@, other@);
            }
            return (Uint::zero(), self.duplicate());
        }
        let ghost m = other@ as int;
        let ghost v = self@;
        let mut rem = Uint::zero();
        let mut quo = Uint::zero();
        let n: usize = self.digits.len();
        let mut o: usize = n;
        proof {
            lemma_value_div_top(self.digits@);
            lemma_small_mod(0, other@);
            lemma_basic_div(0, m);
        }
        while o > 0
            invariant
                o <= n,
                n == self.limb_len(),
                v == self@,
                m == other@,
                self.wf(),
                other.wf(),
                m > 0,
                rem.wf(),
                quo.wf(),
                rem@ == (v / pow2(64 * o as nat)) as int % m,
                quo@ == (v / pow2(64 * o as nat)) as int / m,
            decreases o,
        {
            o = o - 1;
            let mut r: usize = 64;
            while r > 0
                invariant
                    o < n,
                    n == self.limb_len(),
                    r <= 64,
                    v == self@,
                    m == other@,
                    self.wf(),
                    other.wf(),
                    m > 0,
                    rem.wf(),
                    quo.wf(),
                    rem@ == (v / pow2((64 * o + r) as nat)) as int % m,
                    quo@ == (v / pow2((64 * o + r) as nat)) as int / m,
                decreases r,
            {
                r = r - 1;
                let bit = self.limb_bit(o, r);
                let mut pulled = rem.shl(1);
                proof {
                    lemma_even_low_bit(rem@);
                }
                pulled.set_bit(0, bit);
                let mut doubled = quo.shl(1);
                proof {
                    let j = (64 * o + r) as nat;
                    lemma_halve(v, j);
                    lemma_pow2_pos(j + 1);
                    let x = (v / pow2(j + 1)) as int;
                    lemma_div_pos_is_pos(v as int, pow2(j + 1) as int);
                    let b: int = if bit { 1 } else { 0 };
                    assert(pulled@ == 2 * (x % m) + b);
                    lemma_long_division_step(x, m, b);
                    lemma_even_low_bit(quo@);
                }
                if pulled.lt(other) {
                    rem = pulled;
                    quo = doubled;
                } else {
                    rem = pulled.sub(other);
                    doubled.set_bit(0, true);
                    quo = doubled;
                }
            }
        }
        proof {
            assert(pow2(0) == 1) by {
                lemma2_to64();
            }
            lemma_div_basics(v as int);
        }
        (quo, rem)
    }

    /// `self / other`.
    pub fn div(&self, other: &Uint) -> (r: Uint)
        requires
            self.wf(),
            other.wf(),
            other@ != 0,
        ensures
            r.wf(),
            r@ == self@ / other@,
    {
        self.divrem(other).0
    }

    /// `self % other`.
    pub fn rem(&self, other: &Uint) -> (r: Uint)
        requires
            self.wf(),
            other.wf(),
            other@ != 0,
        ensures
            r.wf(),
            r@ == self@ % other@,
    {
        self.divrem(other).1
    }

    /// `self * 2^k`: the limbs move up by `k / 64` places, then every limb is
    /// shifted by `k % 64` bits with the bits shifted out carried into the
    /// next limb.
    pub fn shl(&self, k: usize) -> (r: Uint)
        ensures
            r.wf(),
            r@ == self@ * pow2(k as nat),
    {
        let outer: usize = k / 64;
        let inner: usize = k % 64;
        let moved = with_low_zeros(&self.digits, outer);
        proof {
            lemma_u64_pow2_no_overflow(inner as nat);
            lemma_u64_shl_is_mul(1, inner as u64);
        }
        let factor: u64 = 1u64 << (inner as u64);
        let r = Uint { digits: moved }.mul_limb(factor);
        proof {
            lemma_value_zeros_below(outer as nat, self.digits@);
            lemma_pow2_of_limbs(outer as nat, inner as nat);
            assert(k == 64 * outer + inner);
            lemma_mul_is_commutative(pow_b(outer as nat) as int, self@ as int);
            lemma_mul_is_associative(self@ as int, pow_b(outer as nat) as int, pow2(inner as nat) as int);
        }
        r
    }

    /// `(self / k, self % k)` for a single nonzero limb `k`, one limb at a
    /// time from the most significant.
    fn div_limb(&self, k: u64) -> (r: (Uint, u64))
        requires
            k > 0,
        ensures
            r.0.wf(),
            r.0@ == self@ / (k as nat),
            r.1 == self@ % (k as nat),
    {
        let n: usize = self.digits.len();
        let mut q: Vec<u64> = Vec::new();
        let mut z: usize = 0;
        while z < n
            invariant
                z <= n,
                q@.len() == z,
            decreases n - z,
        {
            q.push(0);
            z = z + 1;
        }
        let mut rem: u64 = 0;
        let mut i: usize = n;
        proof {
            assert(q@.subrange(n as int, n as int) =~= Seq::<u64>::empty());
            assert(self.digits@.subrange(n as int, n as int) =~= Seq::<u64>::empty());
            lemma_mul_basics(k as int);
        }
        while i > 0
            invariant
                n == self.digits@.len(),
                q@.len() == n,
                i <= n,
                rem < k,
                limbs_value(q@.subrange(i as int, n as int)) * k + rem == limbs_value(self.digits@.subrange(i as int, n as int)),
            decreases i,
        {
            i = i - 1;
            let d: u64 = self.digits[i];
            proof {
                lemma_limb_division_bound(rem as int, d as int, k as int);
            }
            let cur: u128 = rem as u128 * 0x1_0000_0000_0000_0000u128 + d as u128;
            let qi: u64 = (cur / k as u128) as u64;
            let ri: u64 = (cur % k as u128) as u64;
            let ghost upper = q@.subrange(i + 1, n as int);
            q[i] = qi;
            proof {
                assert(q@.subrange(i + 1, n as int) =~= upper);
                assert(q@.subrange(i as int, n as int) =~= seq![qi] + upper);
                assert(self.digits@.subrange(i as int, n as int) =~= seq![d] + self.digits@.subrange(i + 1, n as int));
                lemma_value_cons(qi, upper);
                lemma_value_cons(d, self.digits@.subrange(i + 1, n as int));
                lemma_fundamental_div_mod(cur as int, k as int);
                lemma_limb_division_step(
                    limbs_value(self.digits@.subrange(i as int, n as int)) as int,
                    d as int,
                    limbs_value(upper) as int,
                    k as int,
                    rem as int,
                    cur as int,
                    qi as int,
                    ri as int,
                );
            }
            rem = ri;
        }
        proof {
            assert(q@.subrange(0, n as int) =~= q@);
            assert(self.digits@.subrange(0, n as int) =~= self.digits@);
            lemma_fundamental_div_mod_converse(self@ as int, k as int, limbs_value(q@) as int, rem as int);
        }
        (Uint { digits: q }.trim(), rem)
    }

    /// `self / 2^k`: the lowest `k / 64` limbs are dropped, then every limb
    /// is shifted by `k % 64` bits with the bits shifted out carried into the
    /// limb below.
    pub fn shr(&self, k: usize) -> (r: Uint)
        ensures
            r.wf(),
            r@ == self@ / pow2(k as nat),
    {
        let outer: usize = k / 64;
        let inner: usize = k % 64;
        let n: usize = self.digits.len();
        proof {
            lemma_pow2_of_limbs(outer as nat, inner as nat);
            assert(k == 64 * outer + inner);
            lemma_pow2_pos(inner as nat);
            lemma_pow_b_facts(outer as nat);
        }
        if outer >= n {
            proof {
                lemma_value_bound(self.digits@);
                lemma_pow_b_mono(n as nat, outer as nat);
                lemma_basic_div(self@ as int, pow2(k as nat) as int);
            }
            return Uint::zero();
        }
        let mut high: Vec<u64> = Vec::new();
        let mut j: usize = outer;
        while j < n
            invariant
                outer <= j <= n,
                n == self.digits@.len(),
                high@ == self.digits@.subrange(outer as int, j as int),
            decreases n - j,
        {
            high.push(self.digits[j]);
            j = j + 1;
            proof {
                assert(high@ =~= self.digits@.subrange(outer as int, j as int));
            }
        }
        proof {
            lemma_value_split(self.digits@, outer as nat);
            lemma_val_upto_bound(self.digits@, outer as nat);
            lemma_mul_is_commutative(pow_b(outer as nat) as int, limbs_value(high@) as int);
            lemma_fundamental_div_mod_converse(
                self@ as int,
                pow_b(outer as nat) as int,
                limbs_value(high@) as int,
                val_upto(self.digits@, outer as nat) as int,
            );
            lemma_div_denominator(self@ as int, pow_b(outer as nat) as int, pow2(inner as nat) as int);
            lemma_u64_pow2_no_overflow(inner as nat);
            lemma_u64_shl_is_mul(1, inner as u64);
        }
        let divisor: u64 = 1u64 << (inner as u64);
        Uint { digits: high }.div_limb(divisor).0
    }

    /// `(self - other) mod m`, computed without going below zero: `other` is
    /// reduced, `m` is added to `self` where it is the smaller, and the
    /// difference is reduced.
    pub fn mod_sub(&self, other: &Uint, m: &Uint) -> (r: Uint)
        requires
            self.wf(),
            other.wf(),
            m.wf(),
            m@ != 0,
        ensures
            r.wf(),
            r@ == (self@ - other@) % (m@ as int),
    {
        let b = other.rem(m);
        let a = if self.lt(&b) { self.add(m) } else { self.duplicate() };
        let d = a.sub(&b);
        proof {
            let mm = m@ as int;
            let q = other@ as int / mm;
            let k: int = if self@ < b@ { 1 } else { 0 };
            lemma_fundamental_div_mod(other@ as int, mm);
            lemma_mod_bound(other@ as int, mm);
            assert(d@ == self@ + k * mm - b@);
            assert(d@ == mm * (k + q) + (self@ - other@)) by {
                lemma_mul_is_distributive_add(mm, k, q);
                lemma_mul_is_commutative(mm, k);
            }
            lemma_mod_multiples_vanish(k + q, self@ - other@, mm);
        }
        d.rem(m)
    }

    /// `self^p mod m` by square-and-multiply over the bits of `p`, most
    /// significant first.
    pub fn mod_pow(&self, p: &Uint, m: &Uint) -> (r: Uint)
        requires
            self.wf(),
            p.wf(),
            m.wf(),
            m@ != 0,
        ensures
            r.wf(),
            r@ == pow(self@ as int, p@) % (m@ as int),
    {
        let ghost b = self@ as int;
        let ghost mm = m@ as int;
        let ghost e = p@;
        let mut result = Uint::from(1).rem(m);
        let n: usize = p.digits.len();
        let mut o: usize = n;
        proof {
            lemma_value_div_top(p.digits@);
            lemma_pow0(b);
        }
        while o > 0
            invariant
                o <= n,
                n == p.limb_len(),
                b == self@,
                mm == m@,
                mm > 0,
                e == p@,
                self.wf(),
                m.wf(),
                result.wf(),
                result@ == pow(b, e / pow2(64 * o as nat)) % mm,
            decreases o,
        {
            o = o - 1;
            let mut r: usize = 64;
            while r > 0
                invariant
                    o < n,
                    n == p.limb_len(),
                    r <= 64,
                    b == self@,
                    mm == m@,
                    mm > 0,
                    e == p@,
                    self.wf(),
                    m.wf(),
                    result.wf(),
                    result@ == pow(b, e / pow2((64 * o + r) as nat)) % mm,
                decreases r,
            {
                r = r - 1;
                let bit = p.limb_bit(o, r);
                proof {
                    let j = (64 * o + r) as nat;
                    lemma_halve(e, j);
                    let x = e / pow2(j + 1);
                    lemma_square_multiply_step(b, x, mm, result@ as int, if bit { 1 } else { 0 });
                }
                let sq = result.mul(&result);
                result = sq.rem(m);
                if bit {
                    result = result.mul(self).rem(m);
                }
            }
        }
        proof {
            assert(pow2(0) == 1) by {
                lemma2_to64();
            }
            lemma_div_basics(e as int);
        }
        result
    }
}

/// Relies on `FromIterator<char>` for `String`: the string holds the
/// characters in their order.
#[verifier::external_body]
fn string_of_chars(v: &Vec<char>) -> (r: String)
    ensures
        r@ == v@,
{
    v.iter().collect()
}

proof fn lemma_nibble_step(h: int, p: int, q: int, r: int, y: int)
    by (nonlinear_arith)
    requires
        y == 16 * q + r,
    ensures
        (h * p + q) * 16 + r == h * (p * 16) + y,
{
}

proof fn lemma_hex_single(c: char)
    ensures
        hex_value(seq![c]) == crate::hex::hex_digit_value(c),
{
    assert(seq![c].drop_last() =~= Seq::<char>::empty());
    assert(hex_value(Seq::<char>::empty()) == 0);
    assert(seq![c].last() == c);
    assert(hex_value(seq![c]) == hex_value(seq![c].drop_last()) * 16 + crate::hex::hex_digit_value(seq![c].last()));
}

impl Uint {
    /// Upper-case hexadecimal, each limb as 16 digits, most significant
    /// first; zero is "0".
    pub fn to_hex(&self) -> (r: String)
        requires
            self.wf(),
        ensures
            is_hex(r@),
            forall|i: int| 0 <= i < r@.len() ==> is_upper_hex_digit(#[trigger] r@[i]),
            hex_value(r@) == self@,
            r@.len() == (if self@ == 0 { 1 } else { 16 * self.limb_len() }),
            r@.len() == hex_len(self@),
    {
        let n = self.digits.len();
        let mut out: Vec<char> = Vec::new();
        proof {
            lemma_limbs_for(self.digits@);
        }
        if n == 0 {
            let c = hex_char(0);
            out.push(c);
            proof {
                assert(out@ =~= seq![c]);
                lemma_hex_single(c);
            }
            return string_of_chars(&out);
        }
        proof {
            lemma_value_lower(self.digits@);
            lemma_pow_b_facts((n - 1) as nat);
            assert(self.digits@.subrange(n as int, n as int) =~= Seq::<u64>::empty());
        }
        let mut o: usize = n;
        while o > 0
            invariant
                o <= n,
                n == self.digits@.len(),
                out@.len() == 16 * (n - o),
                forall|i: int| 0 <= i < out@.len() ==> is_upper_hex_digit(#[trigger] out@[i]),
                hex_value(out@) == limbs_value(self.digits@.subrange(o as int, n as int)),
            decreases o,
        {
            o = o - 1;
            let d = self.digits[o];
            let ghost h = hex_value(out@) as int;
            let mut j: usize = 0;
            proof {
                lemma2_to64();
                lemma_basic_div(d as int, pow2(64) as int);
                lemma_mul_basics(h);
                assert(4 * (16 - 0) == 64);
            }
            while j < 16
                invariant
                    j <= 16,
                    o < n,
                    n == self.digits@.len(),
                    out@.len() == 16 * (n - o - 1) + j,
                    forall|i: int| 0 <= i < out@.len() ==> is_upper_hex_digit(#[trigger] out@[i]),
                    hex_value(out@) == h * pow2(4 * j as nat) + d as nat / pow2((4 * (16 - j)) as nat),
                decreases 16 - j,
            {
                let shift: u64 = (4 * (15 - j)) as u64;
                let y: u64 = d >> shift;
                let nib: u64 = y & 15;
                proof {
                    lemma_u64_shr_is_div(d, shift);
                    assert(nib == y % 16) by (bit_vector)
                        requires nib == y & 15;
                    lemma_pow2_adds(shift as nat, 4);
                    lemma_pow2_adds(4 * j as nat, 4);
                    lemma2_to64();
                    lemma_pow2_pos(shift as nat);
                    lemma_div_denominator(d as int, pow2(shift as nat) as int, 16);
                    lemma_fundamental_div_mod(y as int, 16);
                    assert((4 * (16 - j)) as nat == shift + 4);
                    assert(4 * (j + 1) as nat == 4 * j as nat + 4);
                    lemma_nibble_step(h, pow2(4 * j as nat) as int, y as int / 16, y as int % 16, y as int);
                }
                let c = hex_char(nib);
                proof {
                    lemma_hex_value_push(out@, c);
                }
                out.push(c);
                j = j + 1;
            }
            proof {
                lemma_pow_b_facts(0);
                assert(pow2(0) == 1) by {
                    lemma2_to64();
                }
                lemma_div_basics(d as int);
                assert(self.digits@.subrange(o as int, n as int) =~= seq![d] + self.digits@.subrange(o + 1, n as int));
                lemma_value_cons(d, self.digits@.subrange(o + 1, n as int));
                lemma_mul_is_commutative(h, limb_base() as int);
            }
        }
        proof {
            assert(self.digits@.subrange(0, n as int) =~= self.digits@);
        }
        string_of_chars(&out)
    }
}

/// Relies on `rand::random::<u64>`: a word from the thread-local
/// generator. Nothing is promised of its value.
#[verifier::external_body]
fn random_limb() -> (r: u64) {
    rand::random::<u64>()
}

impl Uint {
    /// `units` limbs of random words, normalized: a value below 2^(64 units).
    pub fn rand(units: usize) -> (r: Uint)
        ensures
            r.wf(),
            r@ < pow_b(units as nat),
    {
        let mut digits: Vec<u64> = Vec::new();
        let mut i: usize = 0;
        while i < units
            invariant
                i <= units,
                digits@.len() == i,
            decreases units - i,
        {
            digits.push(random_limb());
            i = i + 1;
        }
        proof {
            lemma_value_bound(digits@);
        }
        Uint { digits }.trim()
    }
}

} // verus!
