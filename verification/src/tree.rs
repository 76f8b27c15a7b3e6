//! The static index tree: an immutable-shape binary tree, built once at
//! construction, that routes a key to a contiguous window of the cell
//! store. The nodes live in a flat arena addressed by index; every edge
//! descends to a strictly larger index, so routing terminates. Internal
//! nodes are laid out by the van-Emde-Boas split: a subtree of `h` levels
//! is divided into an upper subtree whose level count is `h` minus the
//! next power of two reached by `ceil(h/2)`, and a forest of lower
//! subtrees hanging off the upper subtree's bottom branches; a residue of
//! at most three nodes is wired directly. Leaf thresholds keep the
//! supremum sentinel they are built with — nothing updates them
//! afterwards — so routing a value key always descends left.

use vstd::prelude::*;
use crate::keys::{Key, key_lt};
use crate::math::{two_to, pow2, lemma_two_to_pos, lemma_two_to_mono, lemma_two_to_adds, lemma_two_to_16};
use vstd::arithmetic::mul::lemma_mul_inequality;

verus! {

/// A window descriptor: a contiguous run of cells owned by one leaf.
#[derive(Clone, Copy, PartialEq, Eq, Structural)]
pub(crate) struct Block {
    pub start: usize,
    pub length: usize,
}

/// One node of the index tree: a leaf owning a block of cells, or a
/// branch whose children are arena indices. `min_rhs` is the routing
/// threshold: keys below it go left, all others right.
pub(crate) enum Node {
    Leaf(Key, Block),
    Branch { min_rhs: Key, left: usize, right: usize },
}

/// During construction a bottom branch is marked by linking to itself.
pub(crate) open spec fn is_bottom(nodes: Seq<Node>, i: int) -> bool {
    match nodes[i] {
        Node::Branch { left, .. } => left == i,
        _ => false,
    }
}

/// Node `i` as construction leaves it: a supremum-thresholded branch,
/// either self-linked (a bottom awaiting its block) or with both children
/// strictly between `i` and `hi`.
pub(crate) open spec fn built_at(nodes: Seq<Node>, i: int, hi: int) -> bool {
    match nodes[i] {
        Node::Branch { min_rhs, left, right } => min_rhs == Key::Supremum && ((left == i && right
            == i) || (i < left < hi && i < right < hi)),
        _ => false,
    }
}

/// The whole region `[lo, hi)` is built.
pub(crate) open spec fn region_built(nodes: Seq<Node>, lo: int, hi: int) -> bool {
    forall|i: int| lo <= i < hi ==> built_at(nodes, i, hi)
}

/// The finished tree: every branch carries the supremum threshold and
/// descends to strictly larger indices.
pub(crate) open spec fn tree_wf(nodes: Seq<Node>) -> bool {
    &&& 0 < nodes.len()
    &&& forall|i: int|
        0 <= i < nodes.len() ==> match #[trigger] nodes[i] {
            Node::Branch { min_rhs, left, right } => min_rhs == Key::Supremum && i < left
                < nodes.len() && i < right < nodes.len(),
            Node::Leaf(_, _) => true,
        }
}

/// The leaf that an always-left descent from node `i` reaches.
pub(crate) open spec fn routed_ix(nodes: Seq<Node>, i: int, fuel: nat) -> Option<int>
    decreases fuel,
{
    if fuel == 0 {
        None
    } else {
        match nodes[i] {
            Node::Leaf(_, _) => Some(i),
            Node::Branch { left, .. } => routed_ix(nodes, left as int, (fuel - 1) as nat),
        }
    }
}

/// The routing threshold a node carries.
pub(crate) open spec fn node_min_rhs(n: Node) -> Key {
    match n {
        Node::Leaf(k, _) => k,
        Node::Branch { min_rhs, .. } => min_rhs,
    }
}

/// With fuel enough to cover the remaining descent, the fuel does not
/// matter.
pub(crate) proof fn lemma_routed_fuel(nodes: Seq<Node>, i: int, f1: nat, f2: nat)
    requires
        tree_wf(nodes),
        0 <= i < nodes.len(),
        f1 >= nodes.len() - i,
        f2 >= nodes.len() - i,
    ensures
        routed_ix(nodes, i, f1) == routed_ix(nodes, i, f2),
    decreases f1,
{
    match nodes[i] {
        Node::Branch { left, .. } => {
            lemma_routed_fuel(nodes, left as int, (f1 - 1) as nat, (f2 - 1) as nat);
        },
        _ => {},
    }
}

/// Routing only reads branches: rewriting leaves in place, or turning a
/// leaf's content over, leaves the routed index unchanged.
pub(crate) proof fn lemma_routed_leaf_updates(t0: Seq<Node>, t1: Seq<Node>, i: int, fuel: nat)
    requires
        tree_wf(t0),
        t0.len() == t1.len(),
        forall|k: int|
            0 <= k < t0.len() ==> match #[trigger] t0[k] {
                Node::Branch { .. } => t1[k] == t0[k],
                Node::Leaf(_, _) => t1[k] is Leaf,
            },
        0 <= i < t0.len(),
    ensures
        routed_ix(t0, i, fuel) == routed_ix(t1, i, fuel),
    decreases fuel,
{
    if fuel > 0 {
        match t0[i] {
            Node::Branch { left, .. } => {
                lemma_routed_leaf_updates(t0, t1, left as int, (fuel - 1) as nat);
            },
            _ => {},
        }
    }
}

/// Descends the tree, going left wherever the key is below the routing
/// threshold, and returns the block of the leaf reached. Since every
/// threshold is the supremum sentinel, a value key always goes left.
pub(crate) fn search_to_block(nodes: &Vec<Node>, key: Key) -> (b: Block)
    requires
        tree_wf(nodes@),
        key is Value,
        routed_ix(nodes@, 0, nodes@.len() as nat) is Some,
    ensures
        ({
            let ix = routed_ix(nodes@, 0, nodes@.len() as nat);
            &&& ix is Some
            &&& nodes@[ix->0] matches Node::Leaf(_, blk) && b == blk
        }),
{
    let ghost len = nodes@.len() as nat;
    let mut at: usize = 0;
    loop
        invariant
            tree_wf(nodes@),
            key is Value,
            at < nodes@.len(),
            len == nodes@.len(),
            routed_ix(nodes@, at as int, (nodes@.len() - at as int) as nat) == routed_ix(
                nodes@,
                0,
                len,
            ),
        decreases nodes@.len() - at as int,
    {
        match &nodes[at] {
            Node::Leaf(_, block) => {
                return *block;
            },
            Node::Branch { min_rhs, left, right } => {
                let next = if key.lt(min_rhs) {
                    *left
                } else {
                    *right
                };
                proof {
                    assert(key_lt(key, Key::Supremum));
                    assert(next == *left);
                    lemma_routed_fuel(
                        nodes@,
                        next as int,
                        (nodes@.len() - at as int - 1) as nat,
                        (nodes@.len() - next as int) as nat,
                    );
                }
                at = next;
            },
        }
    }
}

/// Finds the leaf that routing reaches: the end of the always-left
/// descent from the root.
pub(crate) fn routed_leaf_index(nodes: &Vec<Node>) -> (ix: usize)
    requires
        tree_wf(nodes@),
    ensures
        ix < nodes@.len(),
        routed_ix(nodes@, 0, nodes@.len() as nat) == Some(ix as int),
        nodes@[ix as int] is Leaf,
{
    let ghost len = nodes@.len() as nat;
    let mut at: usize = 0;
    loop
        invariant
            tree_wf(nodes@),
            at < nodes@.len(),
            len == nodes@.len(),
            routed_ix(nodes@, at as int, (nodes@.len() - at as int) as nat) == routed_ix(
                nodes@,
                0,
                len,
            ),
        decreases nodes@.len() - at as int,
    {
        match &nodes[at] {
            Node::Leaf(_, _) => {
                return at;
            },
            Node::Branch { left, .. } => {
                let next = *left;
                proof {
                    lemma_routed_fuel(
                        nodes@,
                        next as int,
                        (nodes@.len() - at as int - 1) as nat,
                        (nodes@.len() - next as int) as nat,
                    );
                }
                at = next;
            },
        }
    }
}

/// Attaches a block of cells to a bottom branch, turning it into a leaf
/// that keeps the branch's threshold key.
pub(crate) fn finalize_leaf_node(nodes: &mut Vec<Node>, at: usize, start: usize, length: usize)
    requires
        at < old(nodes)@.len(),
    ensures
        final(nodes)@ == old(nodes)@.update(
            at as int,
            Node::Leaf(node_min_rhs(old(nodes)@[at as int]), Block { start, length }),
        ),
{
    let k = match &nodes[at] {
        Node::Leaf(k, _) => *k,
        Node::Branch { min_rhs, .. } => *min_rhs,
    };
    nodes[at] = Node::Leaf(k, Block { start, length });
}

/// Lays the region `[lo, hi)` out as a van-Emde-Boas subtree of `h`
/// levels and returns its bottom branches in left-to-right order, each
/// self-linked until its children — or its block — are attached.
#[verifier::rlimit(100)]
pub(crate) fn initialize_nodes(nodes: &mut Vec<Node>, lo: usize, hi: usize, h: usize) -> (bottoms:
    Vec<usize>)
    requires
        lo <= hi,
        hi <= old(nodes)@.len(),
        1 <= h <= 16,
        hi - lo == two_to(h as int) - 1,
    ensures
        final(nodes)@.len() == old(nodes)@.len(),
        forall|i: int|
            0 <= i < final(nodes)@.len() && !(lo <= i < hi) ==> final(nodes)@[i] == old(
                nodes,
            )@[i],
        region_built(final(nodes)@, lo as int, hi as int),
        bottoms@.len() == two_to(h as int - 1),
        forall|j: int| 0 <= j < bottoms@.len() ==> lo <= #[trigger] bottoms@[j] < hi,
        forall|j1: int, j2: int|
            0 <= j1 < j2 < bottoms@.len() ==> #[trigger] bottoms@[j1] < #[trigger] bottoms@[j2],
        forall|i: int|
            lo <= i < hi ==> (is_bottom(final(nodes)@, i) <==> bottoms@.contains(i as usize)),
    decreases h,
{
    proof {
        lemma_two_to_pos(h as int - 1);
        reveal_with_fuel(two_to, 4);
    }
    if hi - lo == 1 {
        nodes[lo] = Node::Branch { min_rhs: Key::Supremum, left: lo, right: lo };
        let mut bottoms: Vec<usize> = Vec::new();
        bottoms.push(lo);
        proof {
            assert(two_to(h as int) - 1 == 1 ==> two_to(h as int) == 2);
            if h as int - 1 >= 1 {
                crate::math::lemma_two_to_strict_mono(1, h as int);
                assert(false);
            }
            assert(bottoms@[0] == lo);
            assert(bottoms@.contains(lo));
        }
        bottoms
    } else if hi - lo == 3 {
        nodes[lo] = Node::Branch { min_rhs: Key::Supremum, left: lo + 1, right: lo + 2 };
        nodes[lo + 1] = Node::Branch { min_rhs: Key::Supremum, left: lo + 1, right: lo + 1 };
        nodes[lo + 2] = Node::Branch { min_rhs: Key::Supremum, left: lo + 2, right: lo + 2 };
        let mut bottoms: Vec<usize> = Vec::new();
        bottoms.push(lo + 1);
        bottoms.push(lo + 2);
        proof {
            if h as int - 1 != 1 {
                if h as int - 1 >= 2 {
                    crate::math::lemma_two_to_strict_mono(2, h as int);
                }
                assert(false);
            }
            assert(bottoms@[0] == (lo + 1) as usize && bottoms@[1] == (lo + 2) as usize);
            assert(bottoms@.contains((lo + 1) as usize));
            assert(bottoms@.contains((lo + 2) as usize));
        }
        bottoms
    } else {
        proof {
            if h <= 2 {
                assert(two_to(1) == 2 && two_to(2) == 4);
                assert(false);
            }
        }
        // The level split: the lower forest takes the next power of two
        // reached by half the levels, rounded up; the upper subtree keeps
        // the rest.
        let half = (h + 1) / 2;
        let hp = crate::math::ceil_pow2(half);
        let lower_h = hp.1;
        proof {
            lemma_ceil_half_bound(h as int, half as int, hp.0 as int, lower_h as int);
        }
        let upper_h = h - lower_h;
        proof {
            lemma_two_to_mono(upper_h as int, 16);
            lemma_two_to_mono(lower_h as int, 16);
            lemma_two_to_16();
            lemma_two_to_pos(upper_h as int);
            lemma_two_to_pos(lower_h as int);
            lemma_two_to_pos(upper_h as int - 1);
        }
        let upper_len = pow2(upper_h) - 1;
        let nb = pow2(upper_h - 1);
        let per = pow2(lower_h) - 1;
        let base = lo + upper_len;
        proof {
            lemma_two_to_pos(lower_h as int - 1);
            lemma_two_to_pos(upper_h as int - 1);
            assert(two_to(upper_h as int) == 2 * nb);
            lemma_two_to_adds(upper_h as int, lower_h as int);
            assert((2 * nb) * per == two_to(upper_h as int) * two_to(lower_h as int) - two_to(
                upper_h as int,
            ))
                by (nonlinear_arith)
                requires
                    per == two_to(lower_h as int) - 1,
                    two_to(upper_h as int) == 2 * nb,
            ;
            assert(hi - base == (2 * nb) * per);
        }
        let ub = initialize_nodes(nodes, lo, base, upper_h);
        let mut bottoms: Vec<usize> = Vec::new();
        let mut bi: usize = 0;
        proof {
            assert forall|j: int| 0 <= j < nb implies nodes@[#[trigger] ub@[j] as int]
                == (Node::Branch { min_rhs: Key::Supremum, left: ub@[j], right: ub@[j] }) by {
                assert(ub@.contains(ub@[j]));
                assert(is_bottom(nodes@, ub@[j] as int));
                assert(built_at(nodes@, ub@[j] as int, base as int));
            }
            assert((2 * 0) * (per as int) == 0);
            assert((2 * 0) * two_to(lower_h as int - 1) == 0);
        }
        while bi < nb
            invariant
                nodes@.len() == old(nodes)@.len(),
                lo <= base <= hi <= nodes@.len(),
                bi <= nb,
                nb == two_to(upper_h as int - 1),
                1 <= upper_h <= 16,
                1 <= lower_h <= 16,
                upper_h + lower_h == h,
                h <= 16,
                per == two_to(lower_h as int) - 1,
                per >= 1,
                base == lo + upper_len,
                upper_len == two_to(upper_h as int) - 1,
                hi - base == (2 * nb) * per,
                ub@.len() == nb,
                forall|j: int| 0 <= j < nb ==> lo <= #[trigger] ub@[j] < base,
                forall|j1: int, j2: int|
                    0 <= j1 < j2 < nb ==> #[trigger] ub@[j1] < #[trigger] ub@[j2],
                // frame: outside the whole region nothing moves
                forall|i: int|
                    0 <= i < nodes@.len() && !(lo <= i < hi) ==> nodes@[i] == old(nodes)@[i],
                // still-waiting upper bottoms are self-linked
                forall|j: int|
                    bi <= j < nb ==> nodes@[#[trigger] ub@[j] as int] == (Node::Branch {
                        min_rhs: Key::Supremum,
                        left: ub@[j],
                        right: ub@[j],
                    }),
                // linked upper bottoms point at their two chunk roots
                forall|j: int|
                    0 <= j < bi ==> nodes@[#[trigger] ub@[j] as int] == (Node::Branch {
                        min_rhs: Key::Supremum,
                        left: (base + (2 * j) * per) as usize,
                        right: (base + (2 * j + 1) * per) as usize,
                    }),
                // other upper nodes: built with proper children inside the upper region
                forall|i: int|
                    lo <= i < base && !ub@.contains(i as usize) ==> #[trigger] built_at(
                        nodes@,
                        i,
                        base as int,
                    ) && !is_bottom(nodes@, i),
                // processed chunk area
                forall|i: int|
                    base <= i < base + (2 * bi) * per ==> #[trigger] built_at(
                        nodes@,
                        i,
                        hi as int,
                    ),
                forall|i: int|
                    base <= i < base + (2 * bi) * per ==> (#[trigger] is_bottom(nodes@, i)
                        <==> bottoms@.contains(i as usize)),
                bottoms@.len() == (2 * bi) * two_to(lower_h as int - 1),
                forall|j: int|
                    0 <= j < bottoms@.len() ==> base <= #[trigger] bottoms@[j] < base + (2 * bi)
                        * per,
                forall|j1: int, j2: int|
                    0 <= j1 < j2 < bottoms@.len() ==> #[trigger] bottoms@[j1]
                        < #[trigger] bottoms@[j2],
            decreases nb - bi,
        {
            proof {
                lemma_mul_inequality(2 * bi as int + 2, 2 * nb as int, per as int);
                lemma_mul_inequality(2 * bi as int, 2 * nb as int, per as int);
                lemma_two_to_pos(lower_h as int - 1);
                assert((2 * bi as int) * per + 2 * per == (2 * bi as int + 2) * per)
                    by (nonlinear_arith);
                assert((2 * bi as int) * per >= 0) by (nonlinear_arith)
                    requires per >= 1, bi >= 0;
                assert(base + (2 * bi as int) * per + 2 * per <= hi);
            }
            let done = (2 * bi) * per;
            let cl = base + done;
            let cr = cl + per;
            let parent = ub[bi];
            let ghost ns0 = nodes@;
            nodes[parent] = Node::Branch { min_rhs: Key::Supremum, left: cl, right: cr };
            let ghost ns1 = nodes@;
            let mut bl = initialize_nodes(nodes, cl, cl + per, lower_h);
            let ghost ns2 = nodes@;
            let mut br = initialize_nodes(nodes, cr, cr + per, lower_h);
            let ghost ns3 = nodes@;
            proof {
                // the two fresh chunks were untouched by each other's pass
                assert(forall|i: int| cl <= i < cl + per ==> ns3[i] == ns2[i]);
                assert(forall|i: int|
                    0 <= i < ns3.len() && !(cl <= i < cr + per) ==> ns3[i] == ns1[i]);
                // outside the parent and the two chunks, this iteration wrote nothing
                assert(forall|i: int|
                    0 <= i < ns3.len() && i != parent && !(cl <= i < cr + per) ==> ns3[i]
                        == ns0[i]);
                assert(ub@.contains(ub@[bi as int]));
                // the already-processed area is untouched
                assert(forall|i: int| base <= i < cl ==> ns3[i] == ns0[i]);
                assert(forall|i: int|
                    base <= i < cl ==> (is_bottom(ns3, i) <==> is_bottom(ns0, i)));
            }
            let ghost b0 = bottoms@;
            let ghost blv = bl@;
            let ghost brv = br@;
            bottoms.append(&mut bl);
            bottoms.append(&mut br);
            proof {
                assert(bottoms@ =~= b0 + blv + brv);
                assert forall|i: int| cl <= i < cl + per implies (is_bottom(ns3, i)
                    <==> blv.contains(i as usize)) by {
                    assert(ns3[i] == ns2[i]);
                    assert(is_bottom(ns2, i) <==> blv.contains(i as usize));
                    assert(is_bottom(ns3, i) == is_bottom(ns2, i));
                }
                lemma_append_chunk_bottoms(b0, blv, brv, bottoms@, ns3, base as int,
                    cl as int, cr as int, per as int, hi as int);
            }
            bi = bi + 1;
            proof {
                assert((2 * bi as int) * per == (2 * (bi as int - 1)) * per + 2 * per)
                    by (nonlinear_arith);
                assert forall|i: int| base <= i < base + (2 * bi as int) * per implies
                    #[trigger] built_at(nodes@, i, hi as int) by {
                    assert(nodes@ == ns3);
                    if i < cl {
                        assert(ns3[i] == ns0[i]);
                        assert(built_at(ns0, i, hi as int));
                    } else if i < cl + per {
                        assert(ns3[i] == ns2[i]);
                        assert(built_at(ns2, i, cl as int + per));
                    } else {
                        assert(i < cr + per);
                        assert(built_at(ns3, i, cr as int + per));
                    }
                }
                assert forall|i: int| base <= i < base + (2 * bi as int) * per implies
                    (#[trigger] is_bottom(nodes@, i) <==> bottoms@.contains(i as usize)) by {
                    assert(base <= i < cr + per);
                }
                assert((2 * bi as int) * two_to(lower_h as int - 1) == (2 * (bi as int - 1))
                    * two_to(lower_h as int - 1) + 2 * two_to(lower_h as int - 1))
                    by (nonlinear_arith);
                assert(two_to(lower_h as int) - 1 == 2 * two_to(lower_h as int - 1) - 1);
                // untouched upper nodes keep their built shape
                assert forall|i: int| lo <= i < base && !ub@.contains(i as usize) implies
                    #[trigger] built_at(nodes@, i, base as int) && !is_bottom(nodes@, i) by {
                    if i == parent as int {
                        assert(ub@.contains(i as usize));
                        assert(false);
                    }
                    assert(!(cl <= i < cr + per));
                    assert(nodes@[i] == ns3[i]);
                    assert(ns3[i] == ns0[i]);
                    assert(built_at(ns0, i, base as int) && !is_bottom(ns0, i));
                }
                // chunk roots of earlier parents are below the new chunks
                assert forall|j: int| 0 <= j < bi implies nodes@[#[trigger] ub@[j] as int]
                    == (Node::Branch {
                    min_rhs: Key::Supremum,
                    left: (base + (2 * j) * per) as usize,
                    right: (base + (2 * j + 1) * per) as usize,
                }) by {
                    if j < bi - 1 {
                        assert(ub@[j] != parent);
                        assert(ns0[ub@[j] as int] == nodes@[ub@[j] as int]);
                    } else {
                        assert(ub@[j] == parent);
                        assert((2 * j) * per == done) by (nonlinear_arith)
                            requires j == bi - 1, done == (2 * (bi as int - 1)) * per;
                        assert((2 * j + 1) * per == done + per) by (nonlinear_arith)
                            requires j == bi - 1, done == (2 * (bi as int - 1)) * per;
                    }
                }
            }
        }
        proof {
            // the assembled region is built
            assert forall|i: int| lo <= i < hi implies built_at(nodes@, i, hi as int) by {
                if i >= base {
                    assert(built_at(nodes@, i, hi as int));
                } else if ub@.contains(i as usize) {
                    let j = choose|j: int| 0 <= j < ub@.len() && ub@[j] == i as usize;
                    lemma_mul_inequality(2 * j + 2, 2 * nb as int, per as int);
                    vstd::arithmetic::mul::lemma_mul_strict_inequality(
                        2 * j,
                        2 * nb as int,
                        per as int,
                    );
                    vstd::arithmetic::mul::lemma_mul_strict_inequality(
                        2 * j + 1,
                        2 * nb as int,
                        per as int,
                    );
                    assert((2 * j) * per >= 0) by (nonlinear_arith)
                        requires
                            j >= 0,
                            per >= 1,
                    ;
                    assert((2 * j) * per <= (2 * j + 1) * per) by (nonlinear_arith)
                        requires
                            j >= 0,
                            per >= 1,
                    ;
                    assert(nodes@[i] == (Node::Branch {
                        min_rhs: Key::Supremum,
                        left: (base + (2 * j) * per) as usize,
                        right: (base + (2 * j + 1) * per) as usize,
                    }));
                    assert(base + (2 * j) * per < hi);
                    assert(base + (2 * j + 1) * per < hi);
                    assert(built_at(nodes@, i, hi as int));
                } else {
                    assert(built_at(nodes@, i, base as int));
                    assert(built_at(nodes@, i, hi as int));
                }
            }
            // no bottom remains in the upper region, and every chunk bottom is listed
            assert forall|i: int| lo <= i < hi implies (is_bottom(nodes@, i)
                <==> bottoms@.contains(i as usize)) by {
                if i >= base {
                    assert(is_bottom(nodes@, i) <==> bottoms@.contains(i as usize));
                } else {
                    if ub@.contains(i as usize) {
                        let j = choose|j: int| 0 <= j < ub@.len() && ub@[j] == i as usize;
                        lemma_mul_inequality(2 * j + 2, 2 * nb as int, per as int);
                        assert((2 * j) * per >= 0) by (nonlinear_arith)
                            requires
                                j >= 0,
                                per >= 1,
                        ;
                        assert((2 * j) * per <= (2 * j + 2) * per) by (nonlinear_arith)
                            requires
                                j >= 0,
                                per >= 1,
                        ;
                        assert(nodes@[i] == (Node::Branch {
                            min_rhs: Key::Supremum,
                            left: (base + (2 * j) * per) as usize,
                            right: (base + (2 * j + 1) * per) as usize,
                        }));
                        assert(base + (2 * j) * per <= hi);
                        assert(base + (2 * j) * per >= base > i);
                        assert(!is_bottom(nodes@, i));
                    } else {
                        assert(built_at(nodes@, i, base as int));
                        assert(!is_bottom(nodes@, i));
                    }
                    if bottoms@.contains(i as usize) {
                        let j = choose|j: int| 0 <= j < bottoms@.len() && bottoms@[j]
                            == i as usize;
                        assert(base <= bottoms@[j]);
                        assert(false);
                    }
                }
            }
            assert(bottoms@.len() == two_to(h as int - 1)) by {
                lemma_two_to_adds(upper_h as int, lower_h as int - 1);
                assert((2 * nb as int) * two_to(lower_h as int - 1) == two_to(upper_h as int)
                    * two_to(lower_h as int - 1)) by (nonlinear_arith)
                    requires two_to(upper_h as int) == 2 * nb as int;
            }
        }
        bottoms
    }
}

/// Bottoms of two freshly built sibling chunks, appended in order, keep
/// the list sorted and keep it naming exactly the bottoms of the
/// processed area.
proof fn lemma_append_chunk_bottoms(
    b0: Seq<usize>,
    bl: Seq<usize>,
    br: Seq<usize>,
    all: Seq<usize>,
    ns: Seq<Node>,
    base: int,
    cl: int,
    cr: int,
    per: int,
    hi: int,
)
    requires
        all == b0 + bl + br,
        per >= 1,
        0 <= base <= cl,
        cr == cl + per,
        cr + per <= hi,
        hi <= usize::MAX,
        forall|j: int| 0 <= j < b0.len() ==> base <= #[trigger] b0[j] < cl,
        forall|j: int| 0 <= j < bl.len() ==> cl <= #[trigger] bl[j] < cl + per,
        forall|j: int| 0 <= j < br.len() ==> cr <= #[trigger] br[j] < cr + per,
        forall|j1: int, j2: int| 0 <= j1 < j2 < b0.len() ==> #[trigger] b0[j1] < #[trigger] b0[j2],
        forall|j1: int, j2: int| 0 <= j1 < j2 < bl.len() ==> #[trigger] bl[j1] < #[trigger] bl[j2],
        forall|j1: int, j2: int| 0 <= j1 < j2 < br.len() ==> #[trigger] br[j1] < #[trigger] br[j2],
        forall|i: int| base <= i < cl ==> (is_bottom(ns, i) <==> b0.contains(i as usize)),
        forall|i: int| cl <= i < cl + per ==> (is_bottom(ns, i) <==> bl.contains(i as usize)),
        forall|i: int| cr <= i < cr + per ==> (is_bottom(ns, i) <==> br.contains(i as usize)),
    ensures
        all.len() == b0.len() + bl.len() + br.len(),
        forall|j: int| 0 <= j < all.len() ==> base <= #[trigger] all[j] < cr + per,
        forall|j1: int, j2: int|
            0 <= j1 < j2 < all.len() ==> #[trigger] all[j1] < #[trigger] all[j2],
        forall|i: int|
            base <= i < cr + per ==> (#[trigger] is_bottom(ns, i) <==> all.contains(i as usize)),
{
    assert forall|i: int| base <= i < cr + per implies (#[trigger] is_bottom(ns, i)
        <==> all.contains(i as usize)) by {
        if is_bottom(ns, i) {
            if i < cl {
                let j = choose|j: int| 0 <= j < b0.len() && b0[j] == i as usize;
                assert(all[j] == i as usize);
            } else if i < cr {
                let j = choose|j: int| 0 <= j < bl.len() && bl[j] == i as usize;
                assert(all[b0.len() + j] == i as usize);
            } else {
                let j = choose|j: int| 0 <= j < br.len() && br[j] == i as usize;
                assert(all[b0.len() + bl.len() + j] == i as usize);
            }
        }
        if all.contains(i as usize) {
            let j = choose|j: int| 0 <= j < all.len() && all[j] == i as usize;
            if j < b0.len() {
                assert(b0[j] == i as usize);
                assert(b0.contains(i as usize));
                assert(base <= b0[j] < cl);
                assert(is_bottom(ns, i));
            } else if j < b0.len() + bl.len() {
                assert(bl[j - b0.len()] == i as usize);
                assert(bl.contains(i as usize));
                assert(cl <= bl[j - b0.len()] < cl + per);
                assert(is_bottom(ns, i));
            } else {
                assert(br[j - b0.len() - bl.len()] == i as usize);
                assert(br.contains(i as usize));
                assert(cr <= br[j - b0.len() - bl.len()] < cr + per);
                assert(is_bottom(ns, i));
            }
        }
    }
}

/// The power-of-two rounding of half the levels leaves at least one level
/// for the upper subtree.
proof fn lemma_ceil_half_bound(h: int, half: int, e: int, lower_h: int)
    requires
        3 <= h <= 16,
        half == (h + 1) / 2,
        lower_h >= half,
        e >= 0,
        lower_h == two_to(e),
        e == 0 || two_to(e - 1) < half,
    ensures
        1 <= lower_h <= h - 1,
{
    lemma_two_to_pos(e);
    if e == 0 {
        assert(lower_h == 1);
        assert(half >= 2);
        assert(false);
    }
    lemma_two_to_pos(e - 1);
    assert(lower_h == 2 * two_to(e - 1));
    assert(lower_h <= 2 * half - 2);
    assert(2 * half <= h + 1);
}

} // verus!
