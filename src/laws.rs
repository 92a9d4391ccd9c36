//! Laws that relate the integer operations to one another.
use crate::hex::{hex_value, is_hex};
use crate::uint::{sub_clamped, Uint};
use vstd::arithmetic::div_mod::*;
use vstd::arithmetic::mul::*;
use vstd::prelude::*;

verus! {

/// Adding `b` and then subtracting `b` gives back `a`, limb for limb.
pub proof fn law_add_then_sub(a: &Uint, b: &Uint, sum: &Uint, diff: &Uint)
    requires
        a.wf(),
        b.wf(),
        sum.wf(),
        diff.wf(),
        sum@ == a@ + b@,
        diff@ == sub_clamped(sum@, b@),
    ensures
        diff.limbs() == a.limbs(),
{
    Uint::lemma_unique(diff, a);
}

/// Subtracting a larger number gives zero.
pub proof fn law_sub_clamps(a: nat, b: nat)
    requires
        a < b,
    ensures
        sub_clamped(a, b) == 0,
{
}

/// Multiplying by a nonzero `b` and dividing by `b` again gives back `a`,
/// limb for limb, with nothing left over.
pub proof fn law_mul_then_divrem(a: &Uint, b: &Uint, prod: &Uint, quo: &Uint, rem: &Uint)
    requires
        a.wf(),
        b.wf(),
        quo.wf(),
        b@ != 0,
        prod@ == a@ * b@,
        quo@ == prod@ / b@,
        rem@ == prod@ % b@,
    ensures
        quo.limbs() == a.limbs(),
        rem@ == 0,
{
    lemma_div_multiples_vanish(a@ as int, b@ as int);
    lemma_mod_multiples_basic(a@ as int, b@ as int);
    lemma_mul_is_commutative(a@ as int, b@ as int);
    Uint::lemma_unique(quo, a);
}

/// Division with remainder: `a == (a / b) b + a % b` and `a % b < b`.
pub proof fn law_division(a: &Uint, b: &Uint, quo: &Uint, rem: &Uint)
    requires
        b@ != 0,
        quo@ == a@ / b@,
        rem@ == a@ % b@,
    ensures
        a@ == quo@ * b@ + rem@,
        rem@ < b@,
{
    lemma_fundamental_div_mod(a@ as int, b@ as int);
    lemma_mod_bound(a@ as int, b@ as int);
    lemma_mul_is_commutative(b@ as int, quo@ as int);
}

/// Hexadecimal text that renders `v` parses back to `v`, limb for limb.
pub proof fn law_hex_round_trip(v: &Uint, text: Seq<char>, back: &Uint)
    requires
        v.wf(),
        is_hex(text),
        hex_value(text) == v@,
        back.wf(),
        back@ == hex_value(text),
    ensures
        back.limbs() == v.limbs(),
{
    Uint::lemma_unique(back, v);
}

} // verus!
