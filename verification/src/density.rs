//! The density table: for every window-size class from two cells up to the
//! full store, the range of occupancy ratios that a window of that class
//! may hold. Lower bounds are interpolated linearly from 1/8 at the
//! smallest class up to 1/4 at the largest, upper bounds from 1 down to
//! 1/2 — the classic packed-memory-array density envelope.

use vstd::prelude::*;
use crate::math::{two_to, lemma_two_to_pos, lemma_two_to_mono, lemma_two_to_strict_mono};
use num_rational::Ratio;

verus! {

/// One table row: windows of up to `max_item_count` cells must keep the
/// ratio of occupied cells within `[lower, upper]`, each bound held as an
/// exact fraction.
pub(crate) struct Density {
    pub max_item_count: usize,
    pub lower_num: i64,
    pub lower_den: i64,
    pub upper_num: i64,
    pub upper_den: i64,
}

/// Relies on `num_rational::Ratio::<i64>::new` and the `Ord` it derives
/// its comparisons from: `new` reduces the fraction to lowest terms and
/// `cmp` compares exact rational values without overflow, so for positive
/// denominators `a/b <= c/d` holds exactly when `a*d <= c*b`. `new`
/// panics for a zero denominator, and the reduction's `gcd` cannot
/// represent the magnitude of the smallest integer; both are excluded
/// here.
#[verifier::external_body]
pub(crate) fn ratio_le(a_num: i64, a_den: i64, b_num: i64, b_den: i64) -> (r: bool)
    requires
        a_den > 0,
        b_den > 0,
        a_num > i64::MIN,
        b_num > i64::MIN,
    ensures
        r == (a_num * b_den <= b_num * a_den),
{
    Ratio::new(a_num, a_den) <= Ratio::new(b_num, b_den)
}

/// The table holds one row per class `i = j + 1`, for `j` in `[0, nd)`:
/// row `j` covers windows of up to `2^(j+1)` cells and carries the
/// interpolated bounds `(nd-1+j) / (8(nd-1))` and `(2(nd-1)-j) / (2(nd-1))`.
pub(crate) open spec fn table_wf(t: Seq<Density>, nd: int) -> bool {
    &&& 2 <= nd <= 16
    &&& t.len() == nd
    &&& forall|j: int|
        0 <= j < nd ==> {
            &&& (#[trigger] t[j]).max_item_count == two_to(j + 1)
            &&& t[j].lower_num == nd - 1 + j
            &&& t[j].lower_den == 8 * (nd - 1)
            &&& t[j].upper_num == 2 * (nd - 1) - j
            &&& t[j].upper_den == 2 * (nd - 1)
        }
}

/// Class `i` is the size class of a window of `count` cells: the smallest
/// class whose capacity `2^i` reaches `count`.
pub open spec fn valid_class(i: int, count: int, nd: int) -> bool {
    &&& 1 <= i <= nd
    &&& count <= two_to(i)
    &&& (i == 1 || two_to(i - 1) < count)
}

/// A window of `count` cells of class `i`, `numer` of them counted as
/// occupied, lies within the class's density bounds.
pub open spec fn bounds_ok(i: int, nd: int, count: int, numer: int) -> bool {
    &&& (nd - 1 + (i - 1)) * count <= numer * (8 * (nd - 1))
    &&& numer * (2 * (nd - 1)) <= (2 * (nd - 1) - (i - 1)) * count
}

/// A window of `count` cells with `numer` occupants lies within the
/// density bounds of its size class.
pub open spec fn density_ok(nd: int, count: int, numer: int) -> bool {
    exists|i: int| valid_class(i, count, nd) && bounds_ok(i, nd, count, numer)
}

/// A window size determines its class.
pub(crate) proof fn lemma_class_unique(i1: int, i2: int, count: int, nd: int)
    requires
        valid_class(i1, count, nd),
        valid_class(i2, count, nd),
    ensures
        i1 == i2,
{
    if i1 < i2 {
        lemma_two_to_mono(i1, i2 - 1);
        lemma_two_to_strict_mono(0, i2 - 1);
    } else if i2 < i1 {
        lemma_two_to_mono(i2, i1 - 1);
        lemma_two_to_strict_mono(0, i1 - 1);
    }
}

/// Builds the density table for a store of `2^nd` cells.
pub(crate) fn build_density_scale(nd: usize) -> (t: Vec<Density>)
    requires
        2 <= nd <= 16,
    ensures
        table_wf(t@, nd as int),
{
    let mut t: Vec<Density> = Vec::new();
    let mut j: usize = 0;
    let mut max: usize = 2;
    proof {
        reveal_with_fuel(two_to, 3);
    }
    while j < nd
        invariant
            2 <= nd <= 16,
            j <= nd,
            max == two_to(j as int + 1),
            t@.len() == j,
            forall|q: int|
                0 <= q < j ==> {
                    &&& (#[trigger] t@[q]).max_item_count == two_to(q + 1)
                    &&& t@[q].lower_num == nd - 1 + q
                    &&& t@[q].lower_den == 8 * (nd - 1)
                    &&& t@[q].upper_num == 2 * (nd - 1) - q
                    &&& t@[q].upper_den == 2 * (nd - 1)
                },
        decreases nd - j,
    {
        proof {
            lemma_two_to_mono(j as int + 1, 16);
            crate::math::lemma_two_to_16();
        }
        t.push(
            Density {
                max_item_count: max,
                lower_num: (nd as i64) - 1 + (j as i64),
                lower_den: 8 * ((nd as i64) - 1),
                upper_num: 2 * ((nd as i64) - 1) - (j as i64),
                upper_den: 2 * ((nd as i64) - 1),
            },
        );
        max = max * 2;
        j = j + 1;
    }
    t
}

/// Whether a window of `num_items` cells, `numer` of them counted as
/// occupied, lies within the density bounds of its size class. Mirrors the
/// exact rational test of the original density check.
pub(crate) fn within_density_threshold(
    scale: &Vec<Density>,
    num_items: usize,
    numer: usize,
    Ghost(nd): Ghost<int>,
) -> (r: bool)
    requires
        table_wf(scale@, nd),
        1 <= num_items <= two_to(nd),
        numer <= 0x20000,
    ensures
        r == density_ok(nd, num_items as int, numer as int),
{
    let n = scale.len();
    let mut j: usize = 0;
    loop
        invariant
            table_wf(scale@, nd),
            n == scale@.len(),
            1 <= num_items <= two_to(nd),
            numer <= 0x20000,
            j < n,
            forall|q: int| 0 <= q < j ==> (#[trigger] scale@[q]).max_item_count < num_items,
        decreases n - j,
    {
        if scale[j].max_item_count >= num_items {
            let row = &scale[j];
            proof {
                if j > 0 {
                    assert(scale@[j as int - 1].max_item_count < num_items);
                }
                assert(valid_class(j as int + 1, num_items as int, nd));
                crate::math::lemma_two_to_16();
                lemma_two_to_mono(nd, 16);
                assert(num_items <= 0x10000);
            }
            let r1 = ratio_le(row.lower_num, row.lower_den, numer as i64, num_items as i64);
            let r2 = ratio_le(numer as i64, num_items as i64, row.upper_num, row.upper_den);
            proof {
                let i0 = j as int + 1;
                if r1 && r2 {
                    assert(bounds_ok(i0, nd, num_items as int, numer as int));
                    assert(density_ok(nd, num_items as int, numer as int));
                } else {
                    if density_ok(nd, num_items as int, numer as int) {
                        let i1 = choose|i: int|
                            valid_class(i, num_items as int, nd) && bounds_ok(
                                i,
                                nd,
                                num_items as int,
                                numer as int,
                            );
                        lemma_class_unique(i1, i0, num_items as int, nd);
                        assert(false);
                    }
                }
            }
            return r1 && r2;
        }
        proof {
            if j + 1 >= n {
                lemma_two_to_pos(nd);
                assert(scale@[nd - 1].max_item_count == two_to(nd));
                assert(false);
            }
        }
        j = j + 1;
    }
}

} // verus!
