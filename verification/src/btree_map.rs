//! The legacy prototype: a naive unbalanced binary search tree over a
//! fixed-capacity circular buffer of 32 value slots. It shows the same
//! `get`/`insert` shape as the packed-memory-array engine, with weaker
//! guarantees: no rebalancing, no concurrency support, and slot reuse once
//! the circular buffer wraps. The reference-counted interior-mutability
//! tree of the prototype is held here as a flat arena of nodes addressed
//! by index; a freshly created node always receives an index above its
//! parent's, so every downward edge strictly increases the index.
//!
//! The contracts mirror the prototype's tree discipline exactly, quirks
//! included: a leaf displaced by a split is re-anchored under a node keyed
//! by the displaced leaf's key, and the incoming entry always lands in
//! that node's left slot, wherever its key would route.

use vstd::prelude::*;

verus! {

/// A child slot of the unbalanced tree: either a subtree, by arena index,
/// or a leaf holding a key and its slot in the circular buffer.
#[derive(Clone, Copy)]
pub(crate) enum BinaryTreeEntry {
    Node(usize),
    Leaf { key: u64, index: usize },
}

/// One node of the unbalanced tree.
#[derive(Clone, Copy)]
pub(crate) struct BinaryTree {
    pub key: u64,
    pub left: Option<BinaryTreeEntry>,
    pub right: Option<BinaryTreeEntry>,
}

/// The number of value slots in the circular buffer.
pub(crate) open spec fn buffer_capacity() -> int {
    32
}

/// A child slot is well formed at node `i`: a subtree edge points past `i`
/// but into the arena, and a leaf's buffer slot is in range.
pub(crate) open spec fn entry_ok(e: Option<BinaryTreeEntry>, i: int, len: int) -> bool {
    match e {
        None => true,
        Some(BinaryTreeEntry::Leaf { key, index }) => index < buffer_capacity(),
        Some(BinaryTreeEntry::Node(j)) => i < j < len,
    }
}

/// Every edge of the arena descends to a strictly larger index.
pub(crate) open spec fn nodes_wf(nodes: Seq<BinaryTree>) -> bool {
    forall|i: int|
        0 <= i < nodes.len() ==> entry_ok(#[trigger] nodes[i].left, i, nodes.len() as int)
            && entry_ok(nodes[i].right, i, nodes.len() as int)
}

/// The slot the tree associates with a key, descending left where the key
/// is below a node's key and right otherwise, exactly as the prototype
/// searches.
pub(crate) open spec fn spec_search(
    nodes: Seq<BinaryTree>,
    at: int,
    search_key: u64,
    fuel: nat,
) -> Option<usize>
    decreases fuel,
{
    if fuel == 0 {
        None
    } else {
        let n = nodes[at];
        let e = if search_key < n.key {
            n.left
        } else {
            n.right
        };
        match e {
            None => None,
            Some(BinaryTreeEntry::Leaf { key, index }) => if key == search_key {
                Some(index)
            } else {
                None
            },
            Some(BinaryTreeEntry::Node(j)) => spec_search(nodes, j as int, search_key, (fuel
                - 1) as nat),
        }
    }
}

/// With fuel enough to cover the remaining descent, the fuel does not
/// matter.
pub(crate) proof fn lemma_spec_search_fuel(
    nodes: Seq<BinaryTree>,
    at: int,
    search_key: u64,
    f1: nat,
    f2: nat,
)
    requires
        nodes_wf(nodes),
        0 <= at < nodes.len(),
        f1 >= nodes.len() - at,
        f2 >= nodes.len() - at,
    ensures
        spec_search(nodes, at, search_key, f1) == spec_search(nodes, at, search_key, f2),
    decreases f1,
{
    let n = nodes[at];
    let e = if search_key < n.key {
        n.left
    } else {
        n.right
    };
    match e {
        Some(BinaryTreeEntry::Node(j)) => {
            lemma_spec_search_fuel(nodes, j as int, search_key, (f1 - 1) as nat, (f2 - 1) as nat);
        },
        _ => {},
    }
}

/// Where an insertion of `key` lands, mirroring the prototype: the arena
/// after any split, the node holding the target slot, and whether that
/// slot is the node's left one.
pub(crate) open spec fn spec_fetch(
    nodes: Seq<BinaryTree>,
    at: int,
    key: u64,
    fuel: nat,
) -> (Seq<BinaryTree>, int, bool)
    decreases fuel,
{
    if fuel == 0 {
        (nodes, at, true)
    } else {
        let n = nodes[at];
        if key < n.key {
            match n.left {
                None => (nodes, at, true),
                Some(BinaryTreeEntry::Leaf { key: lk, index: li }) => (
                    split_arena(nodes, at, lk, li, true),
                    nodes.len() as int,
                    true,
                ),
                Some(BinaryTreeEntry::Node(j)) => spec_fetch(nodes, j as int, key, (fuel
                    - 1) as nat),
            }
        } else {
            match n.right {
                None => (nodes, at, false),
                Some(BinaryTreeEntry::Leaf { key: rk, index: ri }) => if rk == key {
                    (nodes, at, false)
                } else {
                    (split_arena(nodes, at, rk, ri, false), nodes.len() as int, true)
                },
                Some(BinaryTreeEntry::Node(j)) => spec_fetch(nodes, j as int, key, (fuel
                    - 1) as nat),
            }
        }
    }
}

/// The arena after a leaf at node `at` (on the given side) is replaced by
/// a fresh node keyed by the displaced leaf's key, carrying that leaf as
/// its right child and an empty left slot.
pub(crate) open spec fn split_arena(
    nodes: Seq<BinaryTree>,
    at: int,
    leaf_key: u64,
    leaf_index: usize,
    left_side: bool,
) -> Seq<BinaryTree> {
    let fresh = BinaryTree {
        key: leaf_key,
        left: None,
        right: Some(BinaryTreeEntry::Leaf { key: leaf_key, index: leaf_index }),
    };
    let n = nodes[at];
    let linked = if left_side {
        BinaryTree {
            key: n.key,
            left: Some(BinaryTreeEntry::Node(nodes.len() as usize)),
            right: n.right,
        }
    } else {
        BinaryTree {
            key: n.key,
            left: n.left,
            right: Some(BinaryTreeEntry::Node(nodes.len() as usize)),
        }
    };
    nodes.update(at, linked).push(fresh)
}

/// With fuel enough to cover the remaining descent, the fuel does not
/// matter.
pub(crate) proof fn lemma_spec_fetch_fuel(
    nodes: Seq<BinaryTree>,
    at: int,
    key: u64,
    f1: nat,
    f2: nat,
)
    requires
        nodes_wf(nodes),
        0 <= at < nodes.len(),
        f1 >= nodes.len() - at,
        f2 >= nodes.len() - at,
    ensures
        spec_fetch(nodes, at, key, f1) == spec_fetch(nodes, at, key, f2),
    decreases f1,
{
    let n = nodes[at];
    if key < n.key {
        match n.left {
            Some(BinaryTreeEntry::Node(j)) => {
                lemma_spec_fetch_fuel(nodes, j as int, key, (f1 - 1) as nat, (f2 - 1) as nat);
            },
            _ => {},
        }
    } else {
        match n.right {
            Some(BinaryTreeEntry::Node(j)) => {
                lemma_spec_fetch_fuel(nodes, j as int, key, (f1 - 1) as nat, (f2 - 1) as nat);
            },
            _ => {},
        }
    }
}

/// Appends a fresh node for a displaced leaf: keyed by the leaf's key,
/// with the leaf as right child and an empty left slot ready to take the
/// incoming entry.
pub(crate) fn convert_leaf_to_node(
    nodes: &mut Vec<BinaryTree>,
    leaf_key: u64,
    leaf_index: usize,
) -> (j: usize)
    ensures
        j == old(nodes)@.len(),
        final(nodes)@ == old(nodes)@.push(
            BinaryTree {
                key: leaf_key,
                left: None,
                right: Some(BinaryTreeEntry::Leaf { key: leaf_key, index: leaf_index }),
            },
        ),
{
    let j = nodes.len();
    nodes.push(
        BinaryTree {
            key: leaf_key,
            left: None,
            right: Some(BinaryTreeEntry::Leaf { key: leaf_key, index: leaf_index }),
        },
    );
    j
}

impl BinaryTree {
    /// Descends from node `at` and reports the buffer slot associated
    /// with the key, if any.
    pub(crate) fn search(nodes: &Vec<BinaryTree>, at: usize, search_key: u64) -> (r: Option<usize>)
        requires
            nodes_wf(nodes@),
            at < nodes@.len(),
        ensures
            r == spec_search(nodes@, at as int, search_key, (nodes@.len() - at as int) as nat),
        decreases nodes@.len() - at as int,
    {
        let n = &nodes[at];
        let e = if search_key < n.key {
            n.left
        } else {
            n.right
        };
        match e {
            None => None,
            Some(BinaryTreeEntry::Leaf { key, index }) => if key == search_key {
                Some(index)
            } else {
                None
            },
            Some(BinaryTreeEntry::Node(j)) => {
                let r = Self::search(nodes, j, search_key);
                proof {
                    lemma_spec_search_fuel(
                        nodes@,
                        j as int,
                        search_key,
                        (nodes@.len() - j as int) as nat,
                        (nodes@.len() - at as int - 1) as nat,
                    );
                }
                r
            },
        }
    }

    /// Descends from node `at` to the slot where an entry for the key
    /// belongs, splitting a leaf into a fresh node on the way if the slot
    /// is taken, and returns the node index and whether the slot is its
    /// left one.
    pub(crate) fn fetch_insertion_cell(
        nodes: &mut Vec<BinaryTree>,
        at: usize,
        insertion_key: u64,
    ) -> (loc: (usize, bool))
        requires
            nodes_wf(old(nodes)@),
            at < old(nodes)@.len(),
        ensures
            nodes_wf(final(nodes)@),
            final(nodes)@.len() >= old(nodes)@.len(),
            loc.0 < final(nodes)@.len(),
            ({
                let r = spec_fetch(
                    old(nodes)@,
                    at as int,
                    insertion_key,
                    (old(nodes)@.len() - at as int) as nat,
                );
                final(nodes)@ == r.0 && loc.0 == r.1 && loc.1 == r.2
            }),
        decreases old(nodes)@.len() - at as int,
    {
        let n_key = nodes[at].key;
        if insertion_key < n_key {
            let e = nodes[at].left;
            match e {
                None => (at, true),
                Some(BinaryTreeEntry::Leaf { key: lk, index: li }) => {
                    let j = convert_leaf_to_node(nodes, lk, li);
                    let r = nodes[at].right;
                    nodes[at] = BinaryTree {
                        key: n_key,
                        left: Some(BinaryTreeEntry::Node(j)),
                        right: r,
                    };
                    proof {
                        let sa = split_arena(old(nodes)@, at as int, lk, li, true);
                        assert(final(nodes)@ =~= sa);
                        assert forall|i: int| 0 <= i < final(nodes)@.len() implies entry_ok(
                            #[trigger] final(nodes)@[i].left,
                            i,
                            final(nodes)@.len() as int,
                        ) && entry_ok(final(nodes)@[i].right, i, final(nodes)@.len() as int) by {
                            if i != at && i < old(nodes)@.len() {
                                assert(final(nodes)@[i] == old(nodes)@[i]);
                            }
                        }
                    }
                    (j, true)
                },
                Some(BinaryTreeEntry::Node(j)) => {
                    let loc = Self::fetch_insertion_cell(nodes, j, insertion_key);
                    proof {
                        lemma_spec_fetch_fuel(
                            old(nodes)@,
                            j as int,
                            insertion_key,
                            (old(nodes)@.len() - j as int) as nat,
                            (old(nodes)@.len() - at as int - 1) as nat,
                        );
                    }
                    loc
                },
            }
        } else {
            let e = nodes[at].right;
            match e {
                None => (at, false),
                Some(BinaryTreeEntry::Leaf { key: rk, index: ri }) => {
                    if rk == insertion_key {
                        (at, false)
                    } else {
                        let j = convert_leaf_to_node(nodes, rk, ri);
                        let l = nodes[at].left;
                        nodes[at] = BinaryTree {
                            key: n_key,
                            left: l,
                            right: Some(BinaryTreeEntry::Node(j)),
                        };
                        proof {
                            let sa = split_arena(old(nodes)@, at as int, rk, ri, false);
                            assert(final(nodes)@ =~= sa);
                            assert forall|i: int| 0 <= i < final(nodes)@.len() implies entry_ok(
                                #[trigger] final(nodes)@[i].left,
                                i,
                                final(nodes)@.len() as int,
                            ) && entry_ok(final(nodes)@[i].right, i, final(nodes)@.len() as int) by {
                                if i != at && i < old(nodes)@.len() {
                                    assert(final(nodes)@[i] == old(nodes)@[i]);
                                }
                            }
                        }
                        (j, true)
                    }
                },
                Some(BinaryTreeEntry::Node(j)) => {
                    let loc = Self::fetch_insertion_cell(nodes, j, insertion_key);
                    proof {
                        lemma_spec_fetch_fuel(
                            old(nodes)@,
                            j as int,
                            insertion_key,
                            (old(nodes)@.len() - j as int) as nat,
                            (old(nodes)@.len() - at as int - 1) as nat,
                        );
                    }
                    loc
                },
            }
        }
    }
}

/// The legacy map: an unbalanced tree routing keys to slots of a
/// fixed-capacity circular value buffer.
pub struct CacheObliviousBTreeMap<V> {
    packed_dataset: Vec<Option<V>>,
    nodes: Vec<BinaryTree>,
    root: Option<usize>,
    next_loc: usize,
}

impl<V> CacheObliviousBTreeMap<V> {
    /// The structural invariant: the buffer holds exactly its fixed
    /// capacity of slots, the next write position is in range, and every
    /// tree edge descends into the arena.
    pub closed spec fn wf(self) -> bool {
        &&& self.packed_dataset@.len() == buffer_capacity()
        &&& self.next_loc < buffer_capacity()
        &&& nodes_wf(self.nodes@)
        &&& match self.root {
            None => true,
            Some(r) => (r as int) < self.nodes@.len(),
        }
    }

    /// A map that has taken no insertion yet: no tree, and no slot of the
    /// buffer written.
    pub closed spec fn is_empty(self) -> bool {
        &&& self.root is None
        &&& self.nodes@.len() == 0
        &&& self.next_loc == 0
        &&& forall|i: int| 0 <= i < self.packed_dataset@.len() ==> self.packed_dataset@[i] is None
    }

    /// What a lookup of `key` yields: the value in the buffer slot the
    /// tree associates with the key, if any.
    pub closed spec fn spec_get(self, key: u64) -> Option<V> {
        match self.root {
            None => None,
            Some(r) => match spec_search(self.nodes@, r as int, key, self.nodes@.len()) {
                None => None,
                Some(idx) => self.packed_dataset@[idx as int],
            },
        }
    }

    /// How one insertion rewrites the map: the value lands in the next
    /// circular-buffer slot, the write position advances by one modulo the
    /// capacity, and the tree gains an entry for the key exactly where the
    /// prototype's descent puts it — in the root position when the tree
    /// was empty, else in the slot that `spec_fetch` designates.
    pub closed spec fn inserted(self, prev: Self, key: u64, value: V) -> bool {
        let index = prev.next_loc;
        &&& self.packed_dataset@ == prev.packed_dataset@.update(index as int, Some(value))
        &&& self.next_loc == (prev.next_loc + 1) % buffer_capacity()
        &&& match prev.root {
            None => {
                &&& self.root == Some(prev.nodes@.len() as usize)
                &&& self.nodes@ == prev.nodes@.push(
                    BinaryTree {
                        key,
                        left: None,
                        right: Some(BinaryTreeEntry::Leaf { key, index }),
                    },
                )
            },
            Some(r) => {
                let f = spec_fetch(prev.nodes@, r as int, key, prev.nodes@.len());
                let n = f.0[f.1];
                &&& self.root == prev.root
                &&& self.nodes@ == f.0.update(
                    f.1,
                    if f.2 {
                        BinaryTree {
                            key: n.key,
                            left: Some(BinaryTreeEntry::Leaf { key, index }),
                            right: n.right,
                        }
                    } else {
                        BinaryTree {
                            key: n.key,
                            left: n.left,
                            right: Some(BinaryTreeEntry::Leaf { key, index }),
                        }
                    },
                )
            },
        }
    }

    /// A fresh map: an empty tree over a buffer of unset slots, so every
    /// lookup comes back empty.
    pub fn new() -> (m: Self)
        ensures
            m.wf(),
            m.is_empty(),
            forall|k: u64| m.spec_get(k) is None,
    {
        let mut packed: Vec<Option<V>> = Vec::new();
        let mut i: usize = 0;
        while i < 32
            invariant
                i <= 32,
                packed@.len() == i,
                forall|j: int| 0 <= j < i ==> packed@[j] is None,
            decreases 32 - i,
        {
            packed.push(None);
            i = i + 1;
        }
        CacheObliviousBTreeMap { packed_dataset: packed, nodes: Vec::new(), root: None, next_loc: 0 }
    }

    /// The next circular-buffer slot, advancing the write position by one
    /// modulo the capacity.
    fn next_cache_location(&mut self) -> (loc: usize)
        requires
            old(self).next_loc < 32,
        ensures
            loc == old(self).next_loc,
            final(self).next_loc == (old(self).next_loc + 1) % 32,
            final(self).packed_dataset == old(self).packed_dataset,
            final(self).nodes == old(self).nodes,
            final(self).root == old(self).root,
    {
        let loc = self.next_loc;
        self.next_loc = (loc + 1) % 32;
        loc
    }
}

impl<V: Copy> CacheObliviousBTreeMap<V> {
    /// Looks the key up through the tree and returns the value in the
    /// slot it routes to.
    pub fn get(&self, key: u64) -> (result: Option<V>)
        requires
            self.wf(),
        ensures
            result == self.spec_get(key),
    {
        match self.root {
            None => None,
            Some(r) => {
                let found = BinaryTree::search(&self.nodes, r, key);
                proof {
                    lemma_spec_search_fuel(
                        self.nodes@,
                        r as int,
                        key,
                        (self.nodes@.len() - r as int) as nat,
                        self.nodes@.len(),
                    );
                }
                match found {
                    None => None,
                    Some(idx) => {
                        proof {
                            lemma_search_index_in_range(
                                self.nodes@,
                                r as int,
                                key,
                                self.nodes@.len(),
                            );
                        }
                        self.packed_dataset[idx]
                    },
                }
            },
        }
    }

    /// Writes the value into the next circular-buffer slot and hangs an
    /// entry for the key where the tree's descent puts it.
    pub fn insert(&mut self, key: u64, value: V)
        requires
            old(self).wf(),
        ensures
            final(self).wf(),
            final(self).inserted(*old(self), key, value),
    {
        let index = self.next_cache_location();
        proof {
            assert(index < 32);
        }
        self.packed_dataset[index] = Some(value);
        match self.root {
            None => {
                let j = self.nodes.len();
                self.nodes.push(
                    BinaryTree {
                        key,
                        left: None,
                        right: Some(BinaryTreeEntry::Leaf { key, index }),
                    },
                );
                self.root = Some(j);
                proof {
                    assert forall|i: int| 0 <= i < self.nodes@.len() implies entry_ok(
                        #[trigger] self.nodes@[i].left,
                        i,
                        self.nodes@.len() as int,
                    ) && entry_ok(self.nodes@[i].right, i, self.nodes@.len() as int) by {
                        if i < old(self).nodes@.len() {
                            assert(self.nodes@[i] == old(self).nodes@[i]);
                        }
                    }
                }
            },
            Some(r) => {
                let (j, left_side) = BinaryTree::fetch_insertion_cell(&mut self.nodes, r, key);
                proof {
                    lemma_spec_fetch_fuel(
                        old(self).nodes@,
                        r as int,
                        key,
                        (old(self).nodes@.len() - r as int) as nat,
                        old(self).nodes@.len(),
                    );
                }
                let k2 = self.nodes[j].key;
                if left_side {
                    let rr = self.nodes[j].right;
                    self.nodes[j] = BinaryTree {
                        key: k2,
                        left: Some(BinaryTreeEntry::Leaf { key, index }),
                        right: rr,
                    };
                } else {
                    let ll = self.nodes[j].left;
                    self.nodes[j] = BinaryTree {
                        key: k2,
                        left: ll,
                        right: Some(BinaryTreeEntry::Leaf { key, index }),
                    };
                }
                proof {
                    assert forall|i: int| 0 <= i < self.nodes@.len() implies entry_ok(
                        #[trigger] self.nodes@[i].left,
                        i,
                        self.nodes@.len() as int,
                    ) && entry_ok(self.nodes@[i].right, i, self.nodes@.len() as int) by {
                        if i != j {
                        }
                    }
                }
            },
        }
    }
}

/// The first insertion into a fresh map is found again: the root node it
/// creates carries the key as its own threshold and hangs the entry on
/// its right, exactly where a lookup of the same key descends. (Deeper in
/// the tree the prototype's descent gives weaker guarantees: a leaf
/// displaced into a fresh node's left slot need not be reachable.)
pub proof fn lemma_first_insert_found<V>(
    m0: CacheObliviousBTreeMap<V>,
    m1: CacheObliviousBTreeMap<V>,
    key: u64,
    value: V,
)
    requires
        m0.wf(),
        m0.is_empty(),
        m1.inserted(m0, key, value),
    ensures
        m1.spec_get(key) == Some(value),
{
    let root = BinaryTree {
        key,
        left: None,
        right: Some(BinaryTreeEntry::Leaf { key, index: m0.next_loc }),
    };
    assert(m1.nodes@ =~= seq![root]);
    assert(m1.root == Some(0usize));
    assert(spec_search(m1.nodes@, 0, key, m1.nodes@.len()) == Some(m0.next_loc));
    assert(m1.packed_dataset@[m0.next_loc as int] == Some(value));
}

/// A slot that a search returns is in range of the circular buffer.
pub(crate) proof fn lemma_search_index_in_range(
    nodes: Seq<BinaryTree>,
    at: int,
    search_key: u64,
    fuel: nat,
)
    requires
        nodes_wf(nodes),
        0 <= at < nodes.len(),
    ensures
        spec_search(nodes, at, search_key, fuel) matches Some(idx) ==> idx
            < buffer_capacity(),
    decreases fuel,
{
    if fuel > 0 {
        let n = nodes[at];
        let e = if search_key < n.key {
            n.left
        } else {
            n.right
        };
        match e {
            Some(BinaryTreeEntry::Node(j)) => {
                lemma_search_index_in_range(nodes, j as int, search_key, (fuel - 1) as nat);
            },
            _ => {},
        }
    }
}

} // verus!
