//! The key domain: integer keys extended with virtual minimum and maximum
//! sentinels, so that every subtree-threshold comparison in the index tree
//! is well defined without special-casing the tree's edges.

use vstd::prelude::*;

verus! {

/// A key extended with sentinels. `Infimum` orders before every value and
/// `Supremum` after every value; two values order as their integers do.
#[derive(Clone, Copy, PartialEq, Eq, Structural)]
pub enum Key {
    Infimum,
    Value(u64),
    Supremum,
}

/// The strict total order on sentinel-extended keys.
pub open spec fn key_lt(a: Key, b: Key) -> bool {
    match (a, b) {
        (Key::Value(x), Key::Value(y)) => x < y,
        (Key::Infimum, Key::Infimum) => false,
        (Key::Supremum, Key::Supremum) => false,
        (Key::Infimum, _) => true,
        (_, Key::Supremum) => true,
        _ => false,
    }
}

impl Key {
    /// Compares two keys in the sentinel-extended order.
    pub fn lt(&self, other: &Key) -> (r: bool)
        ensures
            r == key_lt(*self, *other),
    {
        match (self, other) {
            (Key::Value(x), Key::Value(y)) => *x < *y,
            (Key::Infimum, Key::Infimum) => false,
            (Key::Supremum, Key::Supremum) => false,
            (Key::Infimum, _) => true,
            (_, Key::Supremum) => true,
            _ => false,
        }
    }
}

/// The order is irreflexive and asymmetric, and trichotomy holds: of two
/// distinct keys one strictly precedes the other.
pub proof fn lemma_key_order_total(a: Key, b: Key)
    ensures
        !key_lt(a, a),
        key_lt(a, b) ==> !key_lt(b, a),
        a != b ==> key_lt(a, b) || key_lt(b, a),
{
}

} // verus!
