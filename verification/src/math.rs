//! Powers of two and integer logarithms used by the layout arithmetic.

use vstd::prelude::*;

verus! {

/// Two to the power `e` (one for non-positive `e`).
pub open spec fn two_to(e: int) -> int
    decreases e,
{
    if e <= 0 {
        1
    } else {
        2 * two_to(e - 1)
    }
}

pub proof fn lemma_two_to_pos(e: int)
    ensures
        two_to(e) >= 1,
    decreases e,
{
    if e > 0 {
        lemma_two_to_pos(e - 1);
    }
}

pub proof fn lemma_two_to_mono(a: int, b: int)
    requires
        a <= b,
    ensures
        two_to(a) <= two_to(b),
    decreases b - a,
{
    if a < b {
        lemma_two_to_mono(a, b - 1);
        lemma_two_to_pos(b - 1);
    }
}

pub proof fn lemma_two_to_strict_mono(a: int, b: int)
    requires
        0 <= a < b,
    ensures
        two_to(a) < two_to(b),
{
    lemma_two_to_mono(a, b - 1);
    lemma_two_to_pos(b - 1);
}

pub proof fn lemma_two_to_adds(a: int, b: int)
    requires
        0 <= a,
        0 <= b,
    ensures
        two_to(a + b) == two_to(a) * two_to(b),
    decreases b,
{
    if b == 0 {
    } else {
        lemma_two_to_adds(a, b - 1);
        assert(two_to(a + b) == 2 * two_to(a + b - 1));
        assert(two_to(a) * two_to(b) == two_to(a) * (2 * two_to(b - 1)))
            by (nonlinear_arith)
            requires
                two_to(b) == 2 * two_to(b - 1),
        ;
        assert(two_to(a) * (2 * two_to(b - 1)) == 2 * (two_to(a) * two_to(b - 1)))
            by (nonlinear_arith);
    }
}

pub proof fn lemma_two_to_16()
    ensures
        two_to(16) == 0x10000,
{
    assert(two_to(16) == 0x10000) by {
        reveal_with_fuel(two_to, 17);
    }
}

/// Dividing and multiplying back never exceeds the dividend.
pub proof fn lemma_div_mul_le(a: int, b: int)
    requires
        a >= 0,
        b > 0,
    ensures
        (a / b) * b <= a,
        a / b >= 0,
{
    vstd::arithmetic::div_mod::lemma_fundamental_div_mod(a, b);
    vstd::arithmetic::div_mod::lemma_mod_division_less_than_divisor(a, b);
    assert(b * (a / b) == (a / b) * b) by (nonlinear_arith);
    vstd::arithmetic::div_mod::lemma_div_pos_is_pos(a, b);
}

/// Two to the power `e`, by repeated doubling.
pub fn pow2(e: usize) -> (r: usize)
    requires
        two_to(e as int) <= 0x10000,
    ensures
        r == two_to(e as int),
{
    let mut r: usize = 1;
    let mut i: usize = 0;
    while i < e
        invariant
            i <= e,
            r == two_to(i as int),
            two_to(e as int) <= 0x10000,
        decreases e - i,
    {
        proof {
            lemma_two_to_mono(i + 1, e as int);
        }
        r = r * 2;
        i = i + 1;
    }
    r
}

/// The least power of two that is at least `x`, returned as an exponent
/// and its power.
pub fn ceil_pow2(x: usize) -> (r: (usize, usize))
    requires
        1 <= x <= 0x10000,
    ensures
        r.1 == two_to(r.0 as int),
        x <= r.1,
        r.0 == 0 || two_to(r.0 as int - 1) < x,
{
    let mut e: usize = 0;
    let mut p: usize = 1;
    while p < x
        invariant
            p == two_to(e as int),
            x <= 0x10000,
            e == 0 || two_to(e as int - 1) < x,
            e <= 16,
        decreases 16 - e,
    {
        proof {
            lemma_two_to_pos(e as int);
            if e as int >= 16 {
                lemma_two_to_16();
                lemma_two_to_mono(16, e as int);
                assert(false);
            }
        }
        p = p * 2;
        e = e + 1;
    }
    (e, p)
}

/// The greatest exponent whose power of two is at most `x`.
pub fn floor_log2(x: usize) -> (e: usize)
    requires
        1 <= x <= 0x10000,
    ensures
        two_to(e as int) <= x < two_to(e as int + 1),
{
    let mut e: usize = 0;
    let mut p: usize = 1;
    while p * 2 <= x
        invariant
            p == two_to(e as int),
            p <= x <= 0x10000,
        decreases x - p,
    {
        proof {
            lemma_two_to_pos(e as int);
            if e as int >= 16 {
                lemma_two_to_16();
                lemma_two_to_mono(16, e as int);
                assert(false);
            }
        }
        p = p * 2;
        e = e + 1;
    }
    e
}

} // verus!
