//! Hexadecimal text for integers: most significant digit first, upper case
//! on output, either case on input.
use crate::limbs::{lemma_pow_b_facts, lemma_value_push, limbs_value, pow_b};
use crate::uint::Uint;
use vstd::arithmetic::mul::*;
use vstd::arithmetic::power2::*;
use vstd::prelude::*;
use vstd::string::*;

verus! {

pub open spec fn is_hex_digit(c: char) -> bool {
    ('0' <= c && c <= '9') || ('a' <= c && c <= 'f') || ('A' <= c && c <= 'F')
}

pub open spec fn is_upper_hex_digit(c: char) -> bool {
    ('0' <= c && c <= '9') || ('A' <= c && c <= 'F')
}

/// The number a hexadecimal digit stands for.
pub open spec fn hex_digit_value(c: char) -> nat {
    if '0' <= c && c <= '9' {
        (c as u32 - '0' as u32) as nat
    } else if 'a' <= c && c <= 'f' {
        (c as u32 - 'a' as u32 + 10) as nat
    } else if 'A' <= c && c <= 'F' {
        (c as u32 - 'A' as u32 + 10) as nat
    } else {
        0
    }
}

/// A well-formed hexadecimal number: at least one digit, and digits only.
pub open spec fn is_hex(s: Seq<char>) -> bool {
    s.len() > 0 && forall|i: int| 0 <= i < s.len() ==> is_hex_digit(#[trigger] s[i])
}

/// The number that the digits `s` stand for, most significant first.
pub open spec fn hex_value(s: Seq<char>) -> nat
    decreases s.len(),
{
    if s.len() == 0 {
        0
    } else {
        hex_value(s.drop_last()) * 16 + hex_digit_value(s.last())
    }
}

pub proof fn lemma_hex_value_push(s: Seq<char>, c: char)
    ensures
        hex_value(s.push(c)) == hex_value(s) * 16 + hex_digit_value(c),
{
    assert(s.push(c).drop_last() =~= s);
}

/// The value of one hexadecimal digit, or `None` for another character.
pub fn hex_digit(c: char) -> (r: Option<u64>)
    ensures
        r is Some <==> is_hex_digit(c),
        r matches Some(v) ==> v == hex_digit_value(c) && v < 16,
{
    if '0' <= c && c <= '9' {
        Some((c as u32 - '0' as u32) as u64)
    } else if 'a' <= c && c <= 'f' {
        Some((c as u32 - 'a' as u32 + 10) as u64)
    } else if 'A' <= c && c <= 'F' {
        Some((c as u32 - 'A' as u32 + 10) as u64)
    } else {
        None
    }
}

/// The upper-case digit for a value below 16.
pub fn hex_char(d: u64) -> (c: char)
    requires
        d < 16,
    ensures
        is_upper_hex_digit(c),
        is_hex_digit(c),
        hex_digit_value(c) == d,
{
    match d {
        0 => '0',
        1 => '1',
        2 => '2',
        3 => '3',
        4 => '4',
        5 => '5',
        6 => '6',
        7 => '7',
        8 => '8',
        9 => '9',
        10 => 'A',
        11 => 'B',
        12 => 'C',
        13 => 'D',
        14 => 'E',
        _ => 'F',
    }
}

/// Digits in front multiply by 16 for each digit behind them.
pub proof fn lemma_hex_concat(a: Seq<char>, b: Seq<char>)
    ensures
        hex_value(a + b) == hex_value(a) * pow2(4 * b.len()) + hex_value(b),
    decreases b.len(),
{
    if b.len() == 0 {
        assert(a + b =~= a);
        assert(pow2(0) == 1) by {
            lemma2_to64();
        }
        lemma_mul_basics(hex_value(a) as int);
    } else {
        let c = b.last();
        let front = b.drop_last();
        lemma_hex_concat(a, front);
        assert(a + b =~= (a + front).push(c));
        assert(b =~= front.push(c));
        lemma_hex_value_push(a + front, c);
        lemma_hex_value_push(front, c);
        lemma_pow2_adds(4 * front.len(), 4);
        assert(pow2(4) == 16) by {
            lemma2_to64();
        }
        assert(4 * b.len() == 4 * front.len() + 4);
        lemma_mul_is_associative(hex_value(a) as int, pow2(4 * front.len()) as int, 16);
        lemma_mul_is_distributive_add_other_way(16, (hex_value(a) * pow2(4 * front.len())) as int, hex_value(front) as int);
    }
}

proof fn lemma_digit_step(limb: int, v: int, m: nat)
    by (nonlinear_arith)
    requires
        0 <= limb < pow2(4 * m),
        0 <= v < 16,
        pow2(4 * (m + 1)) == pow2(4 * m) * 16,
    ensures
        0 <= limb * 16 + v < pow2(4 * (m + 1)),
{
}

impl Uint {
    /// Parses hexadecimal digits, most significant first, in either case,
    /// sixteen digits to a limb from the least significant end. Empty text
    /// and text with any other character are refused.
    pub fn from_str(s: &str) -> (r: Result<Uint, ()>)
        ensures
            r is Ok <==> is_hex(s@),
            r matches Ok(u) ==> u.wf() && u@ == hex_value(s@),
    {
        let n = s.unicode_len();
        if n == 0 {
            return Err(());
        }
        let mut digits: Vec<u64> = Vec::new();
        let mut end: usize = n;
        proof {
            assert(s@.subrange(n as int, n as int) =~= Seq::<char>::empty());
            lemma2_to64();
        }
        while end > 0
            invariant
                n == s@.len(),
                end <= n,
                end > 0 ==> n - end == 16 * digits@.len(),
                limbs_value(digits@) == hex_value(s@.subrange(end as int, n as int)),
                forall|j: int| end <= j < n ==> is_hex_digit(#[trigger] s@[j]),
            decreases end,
        {
            let start: usize = if end >= 16 { end - 16 } else { 0 };
            let mut limb: u64 = 0;
            let mut i: usize = start;
            proof {
                assert(s@.subrange(start as int, start as int) =~= Seq::<char>::empty());
                assert(pow2(0) == 1) by {
                    lemma2_to64();
                }
            }
            while i < end
                invariant
                    n == s@.len(),
                    start <= i <= end <= n,
                    end - start <= 16,
                    limb == hex_value(s@.subrange(start as int, i as int)),
                    limb < pow2(4 * (i - start) as nat),
                    forall|j: int| start <= j < i ==> is_hex_digit(#[trigger] s@[j]),
                decreases end - i,
            {
                let c = s.get_char(i);
                match hex_digit(c) {
                    None => {
                        return Err(());
                    },
                    Some(v) => {
                        proof {
                            let m = (i - start) as nat;
                            lemma_pow2_adds(4 * m, 4);
                            lemma2_to64();
                            assert(4 * (m + 1) == 4 * m + 4);
                            lemma_digit_step(limb as int, v as int, m);
                            if m + 1 < 16 {
                                lemma_pow2_strictly_increases(4 * (m + 1), 64);
                            }
                            assert(s@.subrange(start as int, i + 1) =~= s@.subrange(start as int, i as int).push(c));
                            lemma_hex_value_push(s@.subrange(start as int, i as int), c);
                        }
                        limb = limb * 16 + v;
                    },
                }
                i = i + 1;
            }
            proof {
                let low = s@.subrange(start as int, end as int);
                let high = s@.subrange(end as int, n as int);
                assert(s@.subrange(start as int, n as int) =~= low + high);
                lemma_hex_concat(low, high);
                lemma_value_push(digits@, limb);
                if end < n {
                    lemma_pow_b_facts(0);
                }
                assert(4 * high.len() == 64 * digits@.len());
                lemma_mul_is_commutative(limb as int, pow_b(digits@.len()) as int);
            }
            digits.push(limb);
            end = start;
        }
        proof {
            assert(s@.subrange(0, n as int) =~= s@);
        }
        Ok(Uint::from_limbs(digits))
    }
}

/// The length of the hexadecimal text of `v`: 16 digits for each limb, and
/// one digit for zero.
pub open spec fn hex_len(v: nat) -> nat {
    if v == 0 {
        1
    } else {
        16 * crate::limbs::limbs_for(v)
    }
}

/// Upper-case hexadecimal text is fixed by its length and its value.
pub proof fn lemma_hex_text_unique(a: Seq<char>, b: Seq<char>)
    requires
        a.len() == b.len(),
        forall|i: int| 0 <= i < a.len() ==> is_upper_hex_digit(#[trigger] a[i]),
        forall|i: int| 0 <= i < b.len() ==> is_upper_hex_digit(#[trigger] b[i]),
        hex_value(a) == hex_value(b),
    ensures
        a == b,
    decreases a.len(),
{
    if a.len() > 0 {
        let ca = a.last();
        let cb = b.last();
        assert(is_upper_hex_digit(a[a.len() - 1]));
        assert(is_upper_hex_digit(b[b.len() - 1]));
        let ha = hex_value(a.drop_last()) as int;
        let hb = hex_value(b.drop_last()) as int;
        assert(hex_digit_value(ca) < 16);
        assert(hex_digit_value(cb) < 16);
        vstd::arithmetic::div_mod::lemma_fundamental_div_mod_converse(
            hex_value(a) as int,
            16,
            ha,
            hex_digit_value(ca) as int,
        );
        vstd::arithmetic::div_mod::lemma_fundamental_div_mod_converse(
            hex_value(a) as int,
            16,
            hb,
            hex_digit_value(cb) as int,
        );
        assert(ca == cb);
        lemma_hex_text_unique(a.drop_last(), b.drop_last());
        assert(a =~= a.drop_last().push(ca));
        assert(b =~= b.drop_last().push(cb));
    }
}

} // verus!
