//! The packed-memory-array engine: a fixed array of versioned cells kept
//! sorted with interspersed gaps, addressed through the static index
//! tree, with the density table governing how far a rebalance must
//! extend. Every mutation of a cell goes through the marker protocol:
//! claim the cell by installing a marker carrying the next version,
//! mutate the occupant, then publish an `Empty` marker with the version
//! advanced by two. In this single-threaded engine the claim always
//! succeeds and a reader always observes matching cell and marker
//! versions — the invariant that the concurrent design re-checks on every
//! read — so the re-read and restart paths are provably vacuous.

use vstd::prelude::*;
use crate::keys::Key;
use crate::cell::{
    Cell, Marker, bump1, bump2, quiescent, occ, ckey, cells_quiescent, cells_sorted,
    vacant_outside, has_key, idx_of, kv_map, lemma_key_unique,
};
use crate::density::{Density, table_wf, density_ok, within_density_threshold};
use crate::tree::{
    Node, Block, tree_wf, routed_ix, search_to_block, routed_leaf_index, finalize_leaf_node,
    initialize_nodes, lemma_routed_leaf_updates,
};
use crate::math::{two_to, lemma_two_to_pos, lemma_two_to_mono, lemma_two_to_16, lemma_div_mul_le};

verus! {

/// The ordered index: a packed memory array of versioned cells behind a
/// static cache-oblivious search tree.
pub struct StaticSearchTree<V> {
    nodes: Vec<Node>,
    cells: Vec<Cell<V>>,
    active_start: usize,
    active_end: usize,
    density_scale: Vec<Density>,
}

impl<V> View for StaticSearchTree<V> {
    type V = Map<u64, V>;

    /// The key-to-value map held by the occupied cells of the active
    /// range.
    closed spec fn view(&self) -> Map<u64, V> {
        kv_map(self.cells@, self.active_start as int, self.active_end as int)
    }
}

impl<V> StaticSearchTree<V> {
    /// The number of density classes: the base-two logarithm of the cell
    /// store's size.
    pub closed spec fn nd(self) -> int {
        self.density_scale@.len() as int
    }

    /// The structural invariant: the index tree is well formed and routes
    /// to a leaf whose block begins the active range; the cells are
    /// quiescent, their occupants confined to the active range and
    /// strictly sorted by key; and the density table matches its
    /// interpolation formulas and covers every window size.
    pub closed spec fn wf(self) -> bool {
        &&& tree_wf(self.nodes@)
        &&& ({
            let ix = routed_ix(self.nodes@, 0, self.nodes@.len() as nat);
            &&& ix is Some
            &&& self.nodes@[ix->0] matches Node::Leaf(_, blk) && blk.start == self.active_start
        })
        &&& self.active_start <= self.active_end <= self.cells@.len()
        &&& self.cells@.len() <= 0x10000
        &&& cells_quiescent(self.cells@)
        &&& cells_sorted(self.cells@, self.active_start as int, self.active_end as int)
        &&& vacant_outside(self.cells@, self.active_start as int, self.active_end as int)
        &&& table_wf(self.density_scale@, self.nd())
        &&& self.active_end <= two_to(self.nd())
    }

    /// The keys of the occupied active cells, read left to right.
    pub closed spec fn key_seq(self) -> Seq<u64> {
        key_seq_of(self.cells@, self.active_start as int, self.active_end as int)
    }
}

/// The size of the backing cell store for an expected key count: the
/// smallest double-exponential number (a power of two whose exponent is
/// itself a power of two) that holds eight cells per expected key — the
/// ideal-density provisioning of the packed array. For the admitted key
/// counts these are sixteen, two hundred fifty-six and sixty-five
/// thousand five hundred thirty-six cells.
pub open spec fn store_size(num_keys: u32) -> int {
    if 8 * num_keys <= 16 {
        16
    } else if 8 * num_keys <= 256 {
        256
    } else {
        65536
    }
}

/// The keys of the occupied cells of `[lo, hi)`, in cell order.
pub(crate) open spec fn key_seq_of<V>(cs: Seq<Cell<V>>, lo: int, hi: int) -> Seq<u64>
    decreases hi - lo,
{
    if lo >= hi {
        Seq::empty()
    } else {
        (if occ(cs[lo]) {
            seq![ckey(cs[lo])]
        } else {
            Seq::empty()
        }) + key_seq_of(cs, lo + 1, hi)
    }
}

/// A sequence is strictly increasing.
pub open spec fn strictly_increasing(s: Seq<u64>) -> bool {
    forall|i: int, j: int| 0 <= i < j < s.len() ==> s[i] < s[j]
}

/// The number of occupied cells among `[lo, hi)`.
pub(crate) open spec fn occ_count<V>(cs: Seq<Cell<V>>, lo: int, hi: int) -> int
    decreases hi - lo,
{
    if lo >= hi {
        0
    } else {
        occ_count(cs, lo, hi - 1) + if occ(cs[hi - 1]) {
            1int
        } else {
            0int
        }
    }
}

/// A version counter advanced by one, wrapping at the counter's width.
pub(crate) fn bump1_exec(v: u16) -> (r: u16)
    ensures
        r == bump1(v),
{
    if v >= 65535 {
        v - 65535
    } else {
        v + 1
    }
}

impl<V: Copy> StaticSearchTree<V> {
    /// Publishes an occupant into one cell through the marker protocol:
    /// claim the cell with an `InsertCell` marker carrying the next
    /// version, write the occupant, then swap the marker back to `Empty`
    /// and publish the version two steps on.
    fn publish_insert(&mut self, at: usize, key: u64, value: V)
        requires
            at < old(self).cells@.len(),
            quiescent(old(self).cells@[at as int]),
        ensures
            final(self).cells@ =~= old(self).cells@.update(
                at as int,
                Cell {
                    version: bump2(old(self).cells@[at as int].version),
                    marker: Marker::Empty(bump2(old(self).cells@[at as int].version)),
                    key: Some(key),
                    value: Some(value),
                },
            ),
            final(self).nodes == old(self).nodes,
            final(self).active_start == old(self).active_start,
            final(self).active_end == old(self).active_end,
            final(self).density_scale == old(self).density_scale,
    {
        let version = self.cells[at].version;
        let marker_version = self.cells[at].marker.version();
        // The read is valid exactly when the versions agree; with no
        // writer in flight the quiescence invariant settles it.
        proof {
            assert(marker_version == version);
        }
        let claim_version = bump1_exec(version);
        let old_key = self.cells[at].key;
        let old_value = self.cells[at].value;
        // Claim: the marker alone changes; the cell version still trails.
        self.cells[at] = Cell {
            version,
            marker: Marker::InsertCell(claim_version, key, value),
            key: old_key,
            value: old_value,
        };
        // Exclusive ownership: write the occupant.
        self.cells[at] = Cell {
            version,
            marker: Marker::InsertCell(claim_version, key, value),
            key: Some(key),
            value: Some(value),
        };
        // Publish: restore an Empty marker and advance the version.
        let next_version = bump1_exec(claim_version);
        self.cells[at] = Cell {
            version: next_version,
            marker: Marker::Empty(next_version),
            key: Some(key),
            value: Some(value),
        };
    }

    /// Relocates one occupant through the marker protocol: claim the
    /// source with a `Move` marker naming the destination slot, write the
    /// occupant into the destination, clear the source, then publish the
    /// source's `Empty` marker two versions on. The destination's own
    /// version and marker are untouched — only its occupant changes.
    fn move_cell(&mut self, src: usize, dest: usize)
        requires
            src < old(self).cells@.len(),
            dest < old(self).cells@.len(),
            src != dest,
            quiescent(old(self).cells@[src as int]),
            quiescent(old(self).cells@[dest as int]),
        ensures
            final(self).cells@ =~= old(self).cells@.update(
                dest as int,
                Cell {
                    version: old(self).cells@[dest as int].version,
                    marker: old(self).cells@[dest as int].marker,
                    key: old(self).cells@[src as int].key,
                    value: old(self).cells@[src as int].value,
                },
            ).update(
                src as int,
                Cell {
                    version: bump2(old(self).cells@[src as int].version),
                    marker: Marker::Empty(bump2(old(self).cells@[src as int].version)),
                    key: None,
                    value: None,
                },
            ),
            final(self).nodes == old(self).nodes,
            final(self).active_start == old(self).active_start,
            final(self).active_end == old(self).active_end,
            final(self).density_scale == old(self).density_scale,
    {
        let version = self.cells[src].version;
        let marker_version = self.cells[src].marker.version();
        // A stale read would force a restart; quiescence rules it out.
        proof {
            assert(marker_version == version);
        }
        let claim_version = bump1_exec(version);
        let key = self.cells[src].key;
        let value = self.cells[src].value;
        // Claim the source for the move.
        self.cells[src] = Cell {
            version,
            marker: Marker::Move(claim_version, dest),
            key,
            value,
        };
        // Write the occupant into the destination slot.
        let dest_version = self.cells[dest].version;
        let dest_marker = self.cells[dest].marker;
        self.cells[dest] = Cell { version: dest_version, marker: dest_marker, key, value };
        // Clear the source and publish its new version.
        let next_version = bump1_exec(claim_version);
        self.cells[src] = Cell {
            version: next_version,
            marker: Marker::Empty(next_version),
            key: None,
            value: None,
        };
    }
}


impl<V: Copy> StaticSearchTree<V> {
    /// Looks a key up: routes through the index tree to the block that
    /// starts the active range, then scans cells left to right, stopping
    /// early at the first occupant whose key is past the one sought —
    /// the sorted-order invariant makes that a proof of absence.
    pub fn find(&self, search_key: u64) -> (result: Option<V>)
        requires
            self.wf(),
        ensures
            result == (if self@.contains_key(search_key) {
                Some(self@[search_key])
            } else {
                None::<V>
            }),
    {
        let block = search_to_block(&self.nodes, Key::Value(search_key));
        let mut i = block.start;
        proof {
            assert(i == self.active_start);
        }
        let ghost lo = self.active_start as int;
        let ghost hi = self.active_end as int;
        while i < self.active_end
            invariant
                self.wf(),
                lo == self.active_start as int,
                hi == self.active_end as int,
                self.active_start <= i <= self.active_end,
                forall|j: int| lo <= j < i ==> occ(#[trigger] self.cells@[j]) ==> ckey(self.cells@[j]) < search_key,
            decreases self.active_end - i,
        {
            let cell = &self.cells[i];
            let version = cell.version;
            let marker_version = cell.marker.version();
            // A reader accepts the cell only when the versions agree; a
            // mismatch would mean a mutation in flight and a re-read, a
            // case the quiescence invariant rules out here.
            proof {
                assert(marker_version == version);
            }
            match cell.key {
                Some(k) => {
                    if k == search_key {
                        proof {
                            lemma_key_unique(self.cells@, lo, hi, i as int, k);
                        }
                        return cell.value;
                    } else if k > search_key {
                        proof {
                            assert forall|j: int| lo <= j < hi && occ(#[trigger] self.cells@[j])
                                implies ckey(self.cells@[j]) != search_key by {
                                if j > i {
                                    assert(ckey(self.cells@[i as int]) < ckey(self.cells@[j]));
                                }
                            }
                        }
                        return None;
                    }
                },
                None => {},
            }
            i = i + 1;
        }
        proof {
            assert(!has_key(self.cells@, lo, hi, search_key));
        }
        None
    }
}


impl<V: Copy> StaticSearchTree<V> {
    /// The size of the backing cell array for an expected key count: the
    /// packed array provisions cells at the ideal density midway between
    /// the sparsest upper and densest lower global thresholds — one
    /// eighth — and rounds the result up to the nearest
    /// double-exponential size, which keeps the index tree balanced.
    fn values_mem_size(num_keys: u32) -> (size: usize)
        requires
            2 <= num_keys < 8192,
        ensures
            size == 16 || size == 256 || size == 65536,
            8 * num_keys <= size,
            size == 16 ==> num_keys == 2,
            size == 256 ==> 2 < num_keys <= 32,
            size == 65536 ==> 32 < num_keys,
            ({
                let q = if size == 16 { 4int } else if size == 256 { 8int } else { 16int };
                size == two_to(q)
            }),
    {
        let length: usize = 8 * (num_keys as usize);
        let cp = crate::math::ceil_pow2(length);
        let e = cp.0;
        proof {
            lemma_two_to_16();
            reveal_with_fuel(two_to, 6);
            if e as int > 16 {
                crate::math::lemma_two_to_mono(16, e as int - 1);
                assert(false);
            }
            if e < 4 {
                crate::math::lemma_two_to_mono(e as int, 3);
                assert(two_to(3) == 8);
                assert(false);
            }
        }
        let np = crate::math::ceil_pow2(e);
        let p = np.1;
        proof {
            let pe = np.0;
            lemma_two_to_pos(pe as int);
            if pe as int >= 5 {
                crate::math::lemma_two_to_mono(4, pe as int - 1);
                assert(two_to(4) == 16);
                assert(false);
            }
            if pe as int <= 1 {
                crate::math::lemma_two_to_mono(pe as int, 1);
                assert(two_to(1) == 2);
                assert(false);
            }
            assert(pe == 2 || pe == 3 || pe == 4);
            assert(two_to(2) == 4 && two_to(3) == 8 && two_to(4) == 16);
            assert(p == 4 || p == 8 || p == 16);
        }
        let size = crate::math::pow2(p);
        proof {
            reveal_with_fuel(two_to, 17);
            assert(two_to(4) == 16 && two_to(8) == 256 && two_to(16) == 65536);
            crate::math::lemma_two_to_mono(e as int, p as int);
            if size == 16 {
                if e > 4 {
                    assert(false);
                }
                assert(length <= 16);
                assert(num_keys == 2);
            }
            if size == 256 {
                if e > 8 {
                    assert(false);
                }
                crate::math::lemma_two_to_mono(e as int, 8);
                assert(length <= 256);
                assert(num_keys <= 32);
                // minimality: the exponent only rounds up to eight when it
                // was past four, so the store only grows past sixteen cells
                // for more than two keys
                assert(two_to(np.0 as int - 1) < e);
                if e <= 4 {
                    crate::math::lemma_two_to_mono(2, np.0 as int - 1);
                    assert(false);
                }
                if length <= 16 {
                    crate::math::lemma_two_to_mono(4, e as int - 1);
                    assert(false);
                }
                assert(num_keys > 2);
            }
            if size == 65536 {
                // minimality: the exponent only rounds up to sixteen when
                // it was past eight, which takes more than thirty-two keys
                assert(two_to(np.0 as int - 1) < e);
                if e <= 8 {
                    crate::math::lemma_two_to_mono(3, np.0 as int - 1);
                    assert(false);
                }
                if length <= 256 {
                    crate::math::lemma_two_to_mono(8, e as int - 1);
                    assert(false);
                }
                assert(num_keys > 32);
            }
        }
        size
    }

    /// Allocates the backing cell array, every cell initialized with
    /// version one, an `Empty` marker at that version, and no occupant.
    fn allocate_leaf_cells(num_keys: u32) -> (cells: Vec<Cell<V>>)
        requires
            2 <= num_keys < 8192,
        ensures
            cells@.len() == 16 || cells@.len() == 256 || cells@.len() == 65536,
            8 * num_keys <= cells@.len(),
            cells@.len() == 16 ==> num_keys == 2,
            cells@.len() == 256 ==> 2 < num_keys <= 32,
            cells@.len() == 65536 ==> 32 < num_keys,
            ({
                let q = if cells@.len() == 16 { 4int } else if cells@.len() == 256 { 8int } else { 16int };
                cells@.len() == two_to(q)
            }),
            forall|i: int|
                0 <= i < cells@.len() ==> #[trigger] cells@[i] == (Cell::<V> {
                    version: 1u16,
                    marker: Marker::Empty(1u16),
                    key: None,
                    value: None,
                }),
    {
        let size = Self::values_mem_size(num_keys);
        let mut cells: Vec<Cell<V>> = Vec::new();
        let mut i: usize = 0;
        while i < size
            invariant
                i <= size,
                cells@.len() == i,
                forall|j: int|
                    0 <= j < i ==> #[trigger] cells@[j] == (Cell::<V> {
                        version: 1u16,
                        marker: Marker::Empty(1u16),
                        key: None,
                        value: None,
                    }),
            decreases size - i,
        {
            cells.push(Cell { version: 1, marker: Marker::Empty(1), key: None, value: None });
            i = i + 1;
        }
        cells
    }

    /// Allocates the node arena for the index tree, filled with
    /// self-linked placeholders for the layout pass to overwrite.
    fn allocate_nodes(node_count: usize) -> (nodes: Vec<Node>)
        ensures
            nodes@.len() == node_count,
    {
        let mut nodes: Vec<Node> = Vec::new();
        let mut i: usize = 0;
        while i < node_count
            invariant
                i <= node_count,
                nodes@.len() == i,
            decreases node_count - i,
        {
            nodes.push(Node::Branch { min_rhs: Key::Supremum, left: i, right: i });
            i = i + 1;
        }
        nodes
    }

    /// Builds an index sized for the expected key count: allocates and
    /// initializes the cell store, lays the index tree out, attaches a
    /// window of cells to every leaf with a quarter of the store held
    /// back as buffer space on either side, and precomputes the density
    /// table. The expected count must be at least two — smaller counts
    /// have no well-defined layout logarithm — and below eight thousand
    /// one hundred ninety-two, past which the leaf windows would outgrow
    /// the space set aside for them.
    pub fn new(num_keys: u32) -> (t: Self)
        requires
            2 <= num_keys < 8192,
        ensures
            t.wf(),
            t@ == Map::<u64, V>::empty(),
            t.key_seq() == Seq::<u64>::empty(),
            t.spec_cell_count() == store_size(num_keys),
            t.spec_active_range().1 == store_size(num_keys) - store_size(num_keys) / 4,
            1 <= t.spec_window_len(),
            two_to(t.spec_window_len()) <= num_keys < two_to(t.spec_window_len() + 1),
            t.spec_active_range().0 == ((store_size(num_keys) / 4) / t.spec_window_len())
                * t.spec_window_len(),
            t.spec_active_range().0 < t.spec_active_range().1,
            forall|i: int|
                0 <= i < t.spec_cell_count() ==> #[trigger] t.spec_cell_state(i) == (
                    1u16,
                    1u16,
                    None::<u64>,
                    None::<V>,
                ),
            forall|k: u64| t.can_add(k),
    {
        let mut cells = Self::allocate_leaf_cells(num_keys);
        let size = cells.len();
        let q = crate::math::floor_log2(size);
        proof {
            reveal_with_fuel(two_to, 17);
            assert(two_to(4) == 16 && two_to(8) == 256 && two_to(16) == 65536);
            assert(two_to(5) == 32 && two_to(9) == 512 && two_to(17) == 2 * 65536);
            if size == 16 {
                assert(q == 4);
            } else if size == 256 {
                assert(q == 8);
            } else {
                assert(q == 16);
            }
        }
        let leaf_count = size / q;
        let node_count = 2 * leaf_count - 1;
        proof {
            assert(leaf_count == 4 || leaf_count == 32 || leaf_count == 4096);
        }
        let mut nodes = Self::allocate_nodes(node_count);
        let h = crate::math::floor_log2(leaf_count) + 1;
        proof {
            assert(two_to(2) == 4 && two_to(3) == 8 && two_to(5) == 32 && two_to(6) == 64);
            assert(two_to(12) == 4096 && two_to(13) == 8192);
            assert(h == 3 || h == 6 || h == 13);
            assert(node_count == two_to(h as int) - 1);
        }
        let bottoms = initialize_nodes(&mut nodes, 0, node_count, h);
        let slot_size = crate::math::floor_log2(num_keys as usize);
        let left_buffer_space = size / 4;
        let left_buffer_slots = left_buffer_space / slot_size;
        proof {
            // the leaf windows fit beside the reserved buffer space
            lemma_div_mul_le(left_buffer_space as int, slot_size as int);
            if size == 16 {
                assert(num_keys == 2);
                assert(slot_size == 1);
            } else if size == 256 {
                assert(num_keys <= 32);
                if slot_size as int > 5 {
                    crate::math::lemma_two_to_mono(6, slot_size as int);
                    assert(false);
                }
                assert(leaf_count * slot_size <= 160) by (nonlinear_arith)
                    requires
                        leaf_count == 32,
                        slot_size <= 5,
                ;
            } else {
                assert(num_keys < 8192);
                if slot_size as int > 12 {
                    crate::math::lemma_two_to_mono(13, slot_size as int);
                    assert(false);
                }
                assert(leaf_count * slot_size <= 49152) by (nonlinear_arith)
                    requires
                        leaf_count == 4096,
                        slot_size <= 12,
                ;
            }
            assert((left_buffer_slots + leaf_count) * slot_size == left_buffer_slots * slot_size
                + leaf_count * slot_size) by (nonlinear_arith);
            assert((left_buffer_slots + leaf_count) * slot_size <= size);
            assert(bottoms@.len() == leaf_count);
        }
        // attach a window of cells to each bottom branch, left to right,
        // skipping the slots that cover the left buffer space
        let ghost built = nodes@;
        let mut j: usize = 0;
        while j < leaf_count
            invariant
                j <= leaf_count,
                bottoms@.len() == leaf_count,
                nodes@.len() == built.len(),
                1 <= slot_size,
                (left_buffer_slots + leaf_count) * slot_size <= size,
                forall|t: int| 0 <= t < leaf_count ==> 0 <= #[trigger] bottoms@[t] < built.len(),
                forall|t1: int, t2: int|
                    0 <= t1 < t2 < leaf_count ==> #[trigger] bottoms@[t1] < #[trigger] bottoms@[t2],
                forall|i: int|
                    0 <= i < built.len() ==> (crate::tree::is_bottom(built, i)
                        <==> bottoms@.contains(i as usize)),
                crate::tree::region_built(built, 0, built.len() as int),
                // finalized leaves so far
                forall|t: int|
                    0 <= t < j ==> nodes@[#[trigger] bottoms@[t] as int] == Node::Leaf(
                        Key::Supremum,
                        Block {
                            start: ((left_buffer_slots + t) * slot_size) as usize,
                            length: slot_size,
                        },
                    ),
                // everything else untouched
                forall|i: int|
                    0 <= i < built.len() && !(exists|t: int|
                        0 <= t < j && #[trigger] bottoms@[t] == i as usize) ==> nodes@[i] == built[i],
            decreases leaf_count - j,
        {
            proof {
                vstd::arithmetic::mul::lemma_mul_inequality(
                    left_buffer_slots + j as int + 1,
                    left_buffer_slots + leaf_count as int,
                    slot_size as int,
                );
                assert((left_buffer_slots + j as int) * slot_size + slot_size == (left_buffer_slots
                    + j as int + 1) * slot_size) by (nonlinear_arith);
                assert((left_buffer_slots + j as int) * slot_size >= 0) by (nonlinear_arith)
                    requires
                        left_buffer_slots + j as int >= 0,
                        slot_size >= 1,
                ;
                assert(left_buffer_slots + j as int + 1 <= (left_buffer_slots + j as int + 1)
                    * slot_size) by (nonlinear_arith)
                    requires
                        left_buffer_slots + j as int + 1 >= 0,
                        slot_size >= 1,
                ;
            }
            let start = (left_buffer_slots + j) * slot_size;
            let at = bottoms[j];
            proof {
                assert(bottoms@.contains(bottoms@[j as int]));
                assert(crate::tree::is_bottom(built, at as int));
                assert(crate::tree::built_at(built, at as int, built.len() as int));
                assert(crate::tree::node_min_rhs(nodes@[at as int]) == Key::Supremum);
            }
            finalize_leaf_node(&mut nodes, at, start, slot_size);
            j = j + 1;
            proof {
                assert forall|t: int|
                    0 <= t < j implies nodes@[#[trigger] bottoms@[t] as int] == Node::Leaf(
                    Key::Supremum,
                    Block {
                        start: ((left_buffer_slots + t) * slot_size) as usize,
                        length: slot_size,
                    },
                ) by {
                    if t < j - 1 {
                        assert(bottoms@[t] != bottoms@[j - 1]);
                    }
                }
            }
        }
        proof {
            // every bottom became a leaf and every branch kept its proper
            // children, so the finished tree is well formed
            assert forall|i: int| 0 <= i < nodes@.len() implies match #[trigger] nodes@[i] {
                Node::Branch { min_rhs, left, right } => min_rhs == Key::Supremum && i < left
                    < nodes@.len() && i < right < nodes@.len(),
                Node::Leaf(_, _) => true,
            } by {
                if !(exists|t: int| 0 <= t < leaf_count && #[trigger] bottoms@[t] == i as usize) {
                    assert(nodes@[i] == built[i]);
                    assert(!bottoms@.contains(i as usize));
                    assert(!crate::tree::is_bottom(built, i));
                    assert(crate::tree::built_at(built, i, built.len() as int));
                }
            }
            assert(tree_wf(nodes@));
        }
        // route once to find the leaf the descent reaches, and hand it
        // the window that begins the active range
        let lix = routed_leaf_index(&nodes);
        let first = bottoms[0];
        let active_start = left_buffer_slots * slot_size;
        let ghost before_swap = nodes@;
        if lix != first {
            let swapped = match &nodes[lix] {
                Node::Leaf(_, b) => *b,
                Node::Branch { .. } => Block { start: 0, length: 0 },
            };
            finalize_leaf_node(&mut nodes, first, swapped.start, swapped.length);
            finalize_leaf_node(&mut nodes, lix, active_start, slot_size);
            proof {
                assert(nodes@[first as int] is Leaf && nodes@[lix as int] is Leaf);
                assert(nodes@[lix as int]->Leaf_1 == Block {
                    start: active_start,
                    length: slot_size,
                });
                assert forall|k: int| 0 <= k < before_swap.len() implies match #[trigger] before_swap[k] {
                    Node::Branch { .. } => nodes@[k] == before_swap[k],
                    Node::Leaf(_, _) => nodes@[k] is Leaf,
                } by {}
                lemma_routed_leaf_updates(before_swap, nodes@, 0, before_swap.len() as nat);
                assert(tree_wf(nodes@));
            }
        } else {
            proof {
                assert(nodes@[lix as int] == Node::Leaf(
                    Key::Supremum,
                    Block { start: active_start, length: slot_size },
                ));
            }
        }
        let active_end = size - left_buffer_space;
        let density_scale = crate::density::build_density_scale(q);
        proof {
            lemma_div_mul_le(left_buffer_space as int, slot_size as int);
            assert(active_start <= left_buffer_space);
            assert(left_buffer_space <= size - left_buffer_space);
        }
        let t = StaticSearchTree { nodes, cells, active_start, active_end, density_scale };
        proof {
            assert(t.wf());
            assert forall|k: u64| !has_key(t.cells@, t.active_start as int, t.active_end as int, k)
                by {}
            assert(t@ =~= Map::<u64, V>::empty());
            lemma_key_seq_empty(t.cells@, t.active_start as int, t.active_end as int);
            assert(size == store_size(num_keys));
            assert(routed_ix(t.nodes@, 0, t.nodes@.len() as nat) == Some(lix as int));
            assert(t.spec_window_len() == slot_size as int);
            assert(slot_size >= 1) by {
                if slot_size == 0 {
                    assert(two_to(1) == 2);
                    assert(false);
                }
            }
            assert(active_start < active_end);
            assert forall|k: u64| t.can_add(k) by {
                let lo = t.active_start as int;
                let hi = t.active_end as int;
                lemma_first_geq_is(t.cells@, lo, hi, k, hi);
                assert(!occ(t.cells@[hi - 1]));
            }
        }
        t
    }
}

/// A range without occupants yields no keys.
proof fn lemma_key_seq_empty<V>(cs: Seq<Cell<V>>, lo: int, hi: int)
    requires
        forall|i: int| lo <= i < hi ==> !occ(#[trigger] cs[i]),
    ensures
        key_seq_of(cs, lo, hi) == Seq::<u64>::empty(),
    decreases hi - lo,
{
    if lo < hi {
        lemma_key_seq_empty(cs, lo + 1, hi);
        assert(key_seq_of(cs, lo, hi) =~= Seq::<u64>::empty());
    } else {
        assert(key_seq_of(cs, lo, hi) =~= Seq::<u64>::empty());
    }
}


/// The count of occupants never exceeds the window, and never drops
/// below zero.
pub(crate) proof fn lemma_occ_count_bounds<V>(cs: Seq<Cell<V>>, lo: int, hi: int)
    ensures
        0 <= occ_count(cs, lo, hi),
        occ_count(cs, lo, hi) <= if hi >= lo {
            hi - lo
        } else {
            0int
        },
    decreases hi - lo,
{
    if lo < hi {
        lemma_occ_count_bounds(cs, lo, hi - 1);
    }
}

/// In a strictly increasing sequence, entries grow at least as fast as
/// their positions.
pub(crate) proof fn lemma_increasing_gap(s: Seq<usize>, a: int, b: int)
    requires
        forall|t1: int, t2: int| 0 <= t1 < t2 < s.len() ==> #[trigger] s[t1] < #[trigger] s[t2],
        0 <= a <= b < s.len(),
    ensures
        s[a] + (b - a) <= s[b],
    decreases b - a,
{
    if a < b {
        lemma_increasing_gap(s, a, b - 1);
        assert(s[b - 1] < s[b]);
    }
}

/// The cells of a packed window after a rebalance: the occupants the
/// window held before, shifted as far right as the window allows, in the
/// same order, with the freed cells on the left; the chosen window is the
/// smallest one whose occupancy — counting the impending insertion —
/// lies within its size class's density bounds.
pub(crate) open spec fn window_packed<V>(
    pre: Seq<Cell<V>>,
    post: Seq<Cell<V>>,
    anchor: int,
    c: int,
    extra: int,
    nd: int,
) -> bool {
    let m = occ_count(pre, anchor, anchor + c);
    &&& 1 <= c
    &&& anchor + c <= post.len()
    &&& post.len() == pre.len()
    &&& density_ok(nd, c, m + extra)
    &&& (forall|c2: int|
        1 <= c2 < c ==> !density_ok(nd, c2, #[trigger] occ_count(pre, anchor, anchor + c2)
            + extra))
    &&& 0 <= m <= c
    &&& (forall|i: int| 0 <= i < post.len() && !(anchor <= i < anchor + c) ==> post[i] == pre[i])
    &&& (forall|i: int| anchor <= i < anchor + c - m ==> !occ(#[trigger] post[i]))
    &&& (forall|i: int| anchor + c - m <= i < anchor + c ==> occ(#[trigger] post[i]))
    &&& (forall|i: int|
        anchor <= i < anchor + c && occ(#[trigger] post[i]) ==> exists|jj: int|
            anchor <= jj < anchor + c && occ(#[trigger] pre[jj]) && pre[jj].key == post[i].key
                && pre[jj].value == post[i].value)
}

impl<V: Copy> StaticSearchTree<V> {
    /// Grows a window rightward from the anchor, one cell at a time,
    /// collecting the occupied slots it passes, until the occupancy —
    /// plus one for an impending insertion — falls within the density
    /// bounds of the window's size class. Returns the window size and
    /// the collected slots, or nothing if the window would have to grow
    /// past the active range.
    fn find_window(&self, anchor: usize, extra: usize) -> (r: Option<(usize, Vec<usize>)>)
        requires
            self.wf(),
            self.active_start <= anchor < self.active_end,
            extra <= 1,
        ensures
            match r {
                Some(ci) => {
                    let c = ci.0 as int;
                    let cs = self.cells@;
                    &&& 1 <= c <= self.active_end - anchor
                    &&& density_ok(self.nd(), c, occ_count(cs, anchor as int, anchor + c) + extra)
                    &&& (forall|c2: int|
                        1 <= c2 < c ==> !density_ok(
                            self.nd(),
                            c2,
                            #[trigger] occ_count(cs, anchor as int, anchor + c2) + extra,
                        ))
                    &&& ci.1@.len() == occ_count(cs, anchor as int, anchor + c)
                    &&& (forall|t: int|
                        0 <= t < ci.1@.len() ==> anchor <= #[trigger] ci.1@[t] < anchor + c)
                    &&& (forall|t1: int, t2: int|
                        0 <= t1 < t2 < ci.1@.len() ==> #[trigger] ci.1@[t1]
                            < #[trigger] ci.1@[t2])
                    &&& (forall|i: int|
                        anchor <= i < anchor + c ==> (occ(#[trigger] self.cells@[i])
                            <==> ci.1@.contains(i as usize)))
                },
                None => forall|c: int|
                    1 <= c <= self.active_end - anchor ==> !density_ok(
                        self.nd(),
                        c,
                        #[trigger] occ_count(self.cells@, anchor as int, anchor + c) + extra,
                    ),
            },
    {
        let mut count: usize = 1;
        let mut idxs: Vec<usize> = Vec::new();
        loop
            invariant
                self.wf(),
                self.active_start <= anchor < self.active_end,
                extra <= 1,
                1 <= count,
                anchor + count <= self.active_end,
                idxs@.len() == occ_count(self.cells@, anchor as int, anchor as int + count - 1),
                forall|t: int| 0 <= t < idxs@.len() ==> anchor <= #[trigger] idxs@[t] < anchor
                    + count - 1,
                forall|t1: int, t2: int|
                    0 <= t1 < t2 < idxs@.len() ==> #[trigger] idxs@[t1] < #[trigger] idxs@[t2],
                forall|i: int|
                    anchor <= i < anchor + count - 1 ==> (occ(#[trigger] self.cells@[i])
                        <==> idxs@.contains(i as usize)),
                forall|c2: int|
                    1 <= c2 < count ==> !density_ok(
                        self.nd(),
                        c2,
                        #[trigger] occ_count(self.cells@, anchor as int, anchor as int + c2)
                            + extra,
                    ),
            decreases self.active_end - count,
        {
            let pos = anchor + count - 1;
            let cell = &self.cells[pos];
            let version = cell.version;
            let marker_version = cell.marker.version();
            // A stale read would restart the growth scan; quiescence
            // rules it out here.
            proof {
                assert(marker_version == version);
            }
            let ghost old_idxs = idxs@;
            if cell.key.is_some() {
                idxs.push(pos);
            }
            proof {
                assert forall|i: int|
                    anchor <= i < anchor + count implies (occ(#[trigger] self.cells@[i])
                        <==> idxs@.contains(i as usize)) by {
                    if i < anchor + count - 1 {
                        if occ(self.cells@[i]) {
                            let t = choose|t: int|
                                0 <= t < old_idxs.len() && old_idxs[t] == i as usize;
                            assert(idxs@[t] == i as usize);
                        }
                        if idxs@.contains(i as usize) {
                            let t = choose|t: int|
                                0 <= t < idxs@.len() && idxs@[t] == i as usize;
                            assert(t < old_idxs.len());
                            assert(old_idxs.contains(i as usize));
                        }
                    } else {
                        if occ(self.cells@[i]) {
                            assert(idxs@[idxs@.len() - 1] == i as usize);
                        }
                        if idxs@.contains(i as usize) {
                            let t = choose|t: int|
                                0 <= t < idxs@.len() && idxs@[t] == i as usize;
                            if t < old_idxs.len() {
                                assert(old_idxs[t] < anchor + count - 1);
                                assert(false);
                            }
                        }
                    }
                }
                lemma_occ_count_bounds(self.cells@, anchor as int, anchor as int + count as int);
            }
            let numer = idxs.len() + extra;
            let ok = within_density_threshold(
                &self.density_scale,
                count,
                numer,
                Ghost(self.nd()),
            );
            if ok {
                return Some((count, idxs));
            }
            if anchor + count >= self.active_end {
                // The window cannot grow past the active range: the
                // reserved buffer is exhausted, a capacity condition the
                // caller must surface.
                return None;
            }
            count = count + 1;
        }
    }
}


impl<V: Copy> StaticSearchTree<V> {
    /// Walks the collected occupants of the window, rightmost first, and
    /// relocates each to the window's right edge through the move
    /// protocol, leaving the freed cells at the window's left. Keeps the
    /// active range sorted and the held map unchanged.
    #[verifier::rlimit(100)]
    fn pack_window(&mut self, anchor: usize, count: usize, idxs: &Vec<usize>)
        requires
            old(self).wf(),
            old(self).active_start <= anchor,
            anchor + count <= old(self).active_end,
            1 <= count,
            idxs@.len() == occ_count(old(self).cells@, anchor as int, anchor as int + count),
            forall|t: int| 0 <= t < idxs@.len() ==> anchor <= #[trigger] idxs@[t] < anchor + count,
            forall|t1: int, t2: int|
                0 <= t1 < t2 < idxs@.len() ==> #[trigger] idxs@[t1] < #[trigger] idxs@[t2],
            forall|i: int|
                anchor <= i < anchor + count ==> (occ(#[trigger] old(self).cells@[i])
                    <==> idxs@.contains(i as usize)),
        ensures
            final(self).wf(),
            final(self)@ == old(self)@,
            final(self).nodes == old(self).nodes,
            final(self).active_start == old(self).active_start,
            final(self).active_end == old(self).active_end,
            final(self).density_scale == old(self).density_scale,
            final(self).cells@.len() == old(self).cells@.len(),
            forall|i: int|
                0 <= i < final(self).cells@.len() && !(anchor <= i < anchor + count)
                    ==> final(self).cells@[i] == old(self).cells@[i],
            forall|i: int|
                anchor <= i < anchor + count - idxs@.len() ==> !occ(
                    #[trigger] final(self).cells@[i],
                ),
            forall|i: int|
                anchor + count - idxs@.len() <= i < anchor + count ==> occ(
                    #[trigger] final(self).cells@[i],
                ),
            forall|i: int|
                anchor <= i < anchor + count && occ(#[trigger] final(self).cells@[i])
                    ==> exists|jj: int|
                    anchor <= jj < anchor + count && occ(#[trigger] old(self).cells@[jj]) && old(
                        self,
                    ).cells@[jj].key == final(self).cells@[i].key && old(self).cells@[jj].value
                        == final(self).cells@[i].value,
    {
        let ghost pre = old(self).cells@;
        let ghost lo = self.active_start as int;
        let ghost hi = self.active_end as int;
        let m = idxs.len();
        proof {
            lemma_occ_count_bounds(pre, anchor as int, anchor as int + count);
        }
        let mut j: usize = 0;
        while j < m
            invariant
                j <= m,
                m == idxs@.len(),
                m <= count,
                1 <= count,
                lo <= anchor,
                anchor + count <= hi,
                lo == self.active_start as int,
                hi == self.active_end as int,
                hi <= self.cells@.len() <= 0x10000,
                self.cells@.len() == pre.len(),
                self.nodes == old(self).nodes,
                self.active_start == old(self).active_start,
                self.active_end == old(self).active_end,
                self.density_scale == old(self).density_scale,
                pre == old(self).cells@,
                cells_quiescent(pre),
                cells_sorted(pre, lo, hi),
                vacant_outside(pre, lo, hi),
                cells_quiescent(self.cells@),
                forall|t: int| 0 <= t < m ==> anchor <= #[trigger] idxs@[t] < anchor + count,
                forall|t1: int, t2: int|
                    0 <= t1 < t2 < m ==> #[trigger] idxs@[t1] < #[trigger] idxs@[t2],
                forall|i: int|
                    anchor <= i < anchor + count ==> (occ(#[trigger] pre[i])
                        <==> idxs@.contains(i as usize)),
                // cells outside the window are untouched
                forall|i: int|
                    0 <= i < self.cells@.len() && !(anchor <= i < anchor + count)
                        ==> self.cells@[i] == pre[i],
                // the top j occupants are packed at the right edge
                forall|jp: int|
                    0 <= jp < j ==> (#[trigger] self.cells@[anchor + count - 1 - jp]).key
                        == pre[idxs@[m - 1 - jp] as int].key && self.cells@[anchor + count - 1
                        - jp].value == pre[idxs@[m - 1 - jp] as int].value,
                // sources not yet moved are untouched
                forall|t: int|
                    0 <= t < m - j ==> (#[trigger] self.cells@[idxs@[t] as int]).key
                        == pre[idxs@[t] as int].key && self.cells@[idxs@[t] as int].value
                        == pre[idxs@[t] as int].value,
                // below the packed zone, only unmoved sources are occupied
                forall|i: int|
                    anchor <= i < anchor + count - j && occ(#[trigger] self.cells@[i])
                        ==> exists|t: int| 0 <= t < m - j && #[trigger] idxs@[t] == i as usize,
            decreases m - j,
        {
            let src = idxs[m - 1 - j];
            let dest = anchor + count - 1 - j;
            proof {
                lemma_increasing_gap(idxs@, m as int - 1 - j, m as int - 1);
                assert(idxs@[m - 1] < anchor + count);
                assert(src + j <= idxs@[m as int - 1]);
                assert(src <= dest);
                if src != dest {
                    if occ(self.cells@[dest as int]) {
                        let t = choose|t: int|
                            0 <= t < m - j && #[trigger] idxs@[t] == dest as usize;
                        assert(idxs@[t] > idxs@[m - 1 - j]);
                        assert(t > m - 1 - j);
                        assert(false);
                    }
                }
                assert(occ(pre[src as int]));
                assert(idxs@.contains(idxs@[m - 1 - j]));
            }
            if src != dest {
                self.move_cell(src, dest);
            }
            j = j + 1;
            proof {
                assert forall|i: int|
                    anchor <= i < anchor + count - j && occ(#[trigger] self.cells@[i])
                        implies exists|t: int| 0 <= t < m - j && #[trigger] idxs@[t]
                        == i as usize by {
                    assert(i != dest);
                    if src != dest {
                        assert(i != src || !occ(self.cells@[i]));
                    }
                    let t = choose|t: int|
                        0 <= t < m - (j - 1) && #[trigger] idxs@[t] == i as usize;
                    if t == m - j {
                        assert(idxs@[t] == src);
                        assert(false);
                    }
                }
            }
        }
        proof {
            let ncs = self.cells@;
            // each packed slot holds an occupant drawn from the window
            assert forall|i: int|
                anchor + count - m <= i < anchor + count implies occ(#[trigger] ncs[i]) by {
                let jp = anchor + count - 1 - i;
                let t = m - 1 - jp;
                assert(self.cells@[anchor + count - 1 - jp].key == pre[idxs@[m - 1 - jp] as int].key);
                assert(anchor + count - 1 - jp == i);
                assert(ncs[i].key == pre[idxs@[t] as int].key);
                assert(idxs@.contains(idxs@[t]));
                assert(occ(pre[idxs@[t] as int]));
            }
            assert forall|i: int|
                anchor <= i < anchor + count - m implies !occ(#[trigger] ncs[i]) by {
                if occ(ncs[i]) {
                    let t = choose|t: int| 0 <= t < m - m && #[trigger] idxs@[t] == i as usize;
                    assert(false);
                }
            }
            assert forall|i: int|
                anchor <= i < anchor + count && occ(#[trigger] ncs[i]) implies exists|jj: int|
                anchor <= jj < anchor + count && occ(#[trigger] pre[jj]) && pre[jj].key
                    == ncs[i].key && pre[jj].value == ncs[i].value by {
                let jp = anchor + count - 1 - i;
                let t = m - 1 - jp;
                assert(anchor + count - m <= i);
                assert(self.cells@[anchor + count - 1 - jp].key == pre[idxs@[m - 1 - jp] as int].key
                    && self.cells@[anchor + count - 1 - jp].value == pre[idxs@[m - 1
                    - jp] as int].value);
                assert(anchor + count - 1 - jp == i);
                assert(idxs@.contains(idxs@[t]));
                assert(occ(pre[idxs@[t] as int]) && pre[idxs@[t] as int].key == ncs[i].key
                    && pre[idxs@[t] as int].value == ncs[i].value);
            }
            // the active range stays sorted: packed occupants keep their
            // original order and sit right of everything below the window
            assert forall|a: int, b: int|
                lo <= a < b < hi && occ(#[trigger] ncs[a]) && occ(#[trigger] ncs[b]) implies ckey(
                ncs[a],
            ) < ckey(ncs[b]) by {
                let sa = if anchor <= a < anchor + count {
                    idxs@[m - 1 - (anchor + count - 1 - a)] as int
                } else {
                    a
                };
                let sb = if anchor <= b < anchor + count {
                    idxs@[m - 1 - (anchor + count - 1 - b)] as int
                } else {
                    b
                };
                if anchor <= a < anchor + count {
                    let jpa = anchor + count - 1 - a;
                    assert(anchor + count - m <= a);
                    assert(self.cells@[anchor + count - 1 - jpa].key == pre[idxs@[m - 1
                        - jpa] as int].key);
                    assert(anchor + count - 1 - jpa == a);
                    assert(ncs[a].key == pre[sa].key);
                    assert(idxs@.contains(idxs@[m - 1 - (anchor + count - 1 - a)]));
                    assert(anchor <= sa < anchor + count && occ(pre[sa]));
                } else {
                    assert(ncs[a] == pre[a]);
                }
                if anchor <= b < anchor + count {
                    let jpb = anchor + count - 1 - b;
                    assert(anchor + count - m <= b);
                    assert(self.cells@[anchor + count - 1 - jpb].key == pre[idxs@[m - 1
                        - jpb] as int].key);
                    assert(anchor + count - 1 - jpb == b);
                    assert(ncs[b].key == pre[sb].key);
                    assert(idxs@.contains(idxs@[m - 1 - (anchor + count - 1 - b)]));
                    assert(anchor <= sb < anchor + count && occ(pre[sb]));
                } else {
                    assert(ncs[b] == pre[b]);
                }
                assert(sa <= anchor + count - 1 || sa == a);
                if anchor <= a < anchor + count && anchor <= b < anchor + count {
                    assert(sa < sb);
                } else if anchor <= a < anchor + count {
                    assert(b >= anchor + count);
                    assert(sa < b);
                } else if anchor <= b < anchor + count {
                    assert(a < anchor || a >= anchor + count);
                    if a >= anchor + count {
                        assert(occ(pre[a]));
                        assert(false);
                    }
                    assert(a < sb);
                }
                assert(ckey(pre[sa]) < ckey(pre[sb]));
            }
            assert(cells_sorted(ncs, lo, hi));
            assert forall|i: int| 0 <= i < ncs.len() && !(lo <= i < hi) implies !occ(
                #[trigger] ncs[i],
            ) by {
                assert(ncs[i] == pre[i]);
            }
            assert(vacant_outside(ncs, lo, hi));
            // the held map is unchanged: every occupant kept its key and
            // value, only its slot moved within the window
            assert forall|k: u64| has_key(ncs, lo, hi, k) implies has_key(pre, lo, hi, k)
                && kv_map(ncs, lo, hi)[k] == kv_map(pre, lo, hi)[k] by {
                let i = idx_of(ncs, lo, hi, k);
                assert(lo <= i < hi && occ(ncs[i]) && ckey(ncs[i]) == k);
                lemma_key_unique(ncs, lo, hi, i, k);
                if anchor <= i < anchor + count {
                    let jp = anchor + count - 1 - i;
                    let t = m - 1 - jp;
                    let s0 = idxs@[t] as int;
                    assert(anchor + count - m <= i);
                    assert(self.cells@[anchor + count - 1 - jp].key == pre[idxs@[m - 1
                        - jp] as int].key && self.cells@[anchor + count - 1 - jp].value
                        == pre[idxs@[m - 1 - jp] as int].value);
                    assert(anchor + count - 1 - jp == i);
                    assert(ncs[i].key == pre[s0].key && ncs[i].value == pre[s0].value);
                    assert(idxs@.contains(idxs@[t]));
                    assert(occ(pre[s0]));
                    lemma_key_unique(pre, lo, hi, s0, k);
                } else {
                    assert(ncs[i] == pre[i]);
                    lemma_key_unique(pre, lo, hi, i, k);
                }
            }
            assert forall|k: u64| has_key(pre, lo, hi, k) implies has_key(ncs, lo, hi, k) by {
                let i = idx_of(pre, lo, hi, k);
                assert(lo <= i < hi && occ(pre[i]) && ckey(pre[i]) == k);
                if anchor <= i < anchor + count {
                    let t = choose|t: int| 0 <= t < idxs@.len() && idxs@[t] == i as usize;
                    let jp = m - 1 - t;
                    let d = anchor + count - 1 - jp;
                    assert(self.cells@[anchor + count - 1 - jp].key == pre[idxs@[m - 1
                        - jp] as int].key);
                    assert(m - 1 - jp == t);
                    assert(idxs@[t] == i as usize);
                    assert(occ(ncs[d]) && ckey(ncs[d]) == k);
                    assert(anchor <= d < anchor + count);
                } else {
                    assert(ncs[i] == pre[i]);
                    assert(occ(ncs[i]) && ckey(ncs[i]) == k);
                }
            }
            assert(kv_map(ncs, lo, hi) =~= kv_map(pre, lo, hi));
        }
    }
}


/// One extra occupant counted when a rebalance runs ahead of an
/// insertion.
pub(crate) open spec fn ins_extra(for_insertion: bool) -> int {
    if for_insertion {
        1
    } else {
        0
    }
}

/// The first active slot holding an occupant whose key is at or past the
/// one given, or the end of the range if every occupant falls short.
pub(crate) open spec fn first_geq<V>(cs: Seq<Cell<V>>, i: int, hi: int, k: u64) -> int
    decreases hi - i,
{
    if i >= hi {
        hi
    } else if occ(cs[i]) && ckey(cs[i]) >= k {
        i
    } else {
        first_geq(cs, i + 1, hi, k)
    }
}

/// A position with nothing but smaller occupants on its left, and either
/// at the range's end or on an occupant at or past the key, is exactly
/// where the scan stops.
pub(crate) proof fn lemma_first_geq_is<V>(cs: Seq<Cell<V>>, lo: int, hi: int, k: u64, p: int)
    requires
        lo <= p <= hi,
        forall|j: int| lo <= j < p ==> occ(#[trigger] cs[j]) ==> ckey(cs[j]) < k,
        p < hi ==> occ(cs[p]) && ckey(cs[p]) >= k,
    ensures
        p == first_geq(cs, lo, hi, k),
    decreases p - lo,
{
    if lo >= hi {
    } else if occ(cs[lo]) && ckey(cs[lo]) >= k {
        if p > lo {
            assert(occ(cs[lo]) ==> ckey(cs[lo]) < k);
            assert(false);
        }
    } else {
        if p == lo {
            assert(false);
        }
        lemma_first_geq_is(cs, lo + 1, hi, k, p);
    }
}

/// Inside its density bounds, a window's counted occupancy never exceeds
/// the window: the upper density never tops one.
pub(crate) proof fn lemma_density_numer_le_count(nd: int, c: int, numer: int)
    requires
        density_ok(nd, c, numer),
        2 <= nd,
        1 <= c,
        0 <= numer,
    ensures
        numer <= c,
{
    let i = choose|i: int|
        crate::density::valid_class(i, c, nd) && crate::density::bounds_ok(i, nd, c, numer);
    assert(crate::density::bounds_ok(i, nd, c, numer));
    assert(numer * (2 * (nd - 1)) <= (2 * (nd - 1) - (i - 1)) * c);
    vstd::arithmetic::mul::lemma_mul_inequality(2 * (nd - 1) - (i - 1), 2 * (nd - 1), c);
    assert(numer * (2 * (nd - 1)) <= (2 * (nd - 1)) * c);
    assert(numer <= c) by (nonlinear_arith)
        requires
            numer * (2 * (nd - 1)) <= (2 * (nd - 1)) * c,
            nd >= 2,
            numer >= 0,
    ;
}

/// Publishing `(key, value)` into a slot whose neighbours route around
/// it — every other occupant below it carries a smaller key, every one
/// above a larger, and the slot itself was free or already carried the
/// key — keeps the range sorted and rewrites the held map by exactly one
/// binding.
pub(crate) proof fn lemma_publish_at<V>(
    pre: Seq<Cell<V>>,
    post: Seq<Cell<V>>,
    lo: int,
    hi: int,
    q: int,
    key: u64,
    value: V,
)
    requires
        pre.len() == post.len(),
        hi <= pre.len(),
        0 <= lo <= q < hi,
        forall|j: int|
            0 <= j < post.len() && j != q ==> (#[trigger] post[j]).key == pre[j].key
                && post[j].value == pre[j].value,
        post[q].key == Some(key),
        post[q].value == Some(value),
        cells_sorted(pre, lo, hi),
        !occ(pre[q]) || ckey(pre[q]) == key,
        forall|j: int|
            lo <= j < hi && j != q && occ(#[trigger] pre[j]) ==> (j < q ==> ckey(pre[j]) < key)
                && (j > q ==> ckey(pre[j]) > key),
    ensures
        cells_sorted(post, lo, hi),
        kv_map(post, lo, hi) =~= kv_map(pre, lo, hi).insert(key, value),
{
    assert forall|a: int, b: int|
        lo <= a < b < hi && occ(#[trigger] post[a]) && occ(#[trigger] post[b]) implies ckey(
        post[a],
    ) < ckey(post[b]) by {
        if a == q {
            if b != q {
                assert(occ(pre[b]));
            }
        } else if b == q {
            assert(occ(pre[a]));
        } else {
            assert(occ(pre[a]) && occ(pre[b]));
        }
    }
    assert(cells_sorted(post, lo, hi));
    assert forall|k2: u64| #[trigger] kv_map(post, lo, hi).contains_key(k2) implies kv_map(
        pre,
        lo,
        hi,
    ).insert(key, value).contains_key(k2) && kv_map(post, lo, hi)[k2] == kv_map(pre, lo, hi).insert(
        key,
        value,
    )[k2] by {
        let i = idx_of(post, lo, hi, k2);
        assert(lo <= i < hi && occ(post[i]) && ckey(post[i]) == k2);
        lemma_key_unique(post, lo, hi, i, k2);
        if i == q {
            assert(k2 == key);
            assert(kv_map(post, lo, hi)[k2] == value);
        } else {
            assert(occ(pre[i]) && ckey(pre[i]) == k2);
            assert(k2 != key) by {
                if k2 == key {
                    if i < q {
                        assert(ckey(pre[i]) < key);
                    } else {
                        assert(ckey(pre[i]) > key);
                    }
                }
            }
            lemma_key_unique(pre, lo, hi, i, k2);
        }
    }
    assert forall|k2: u64|
        kv_map(pre, lo, hi).insert(key, value).contains_key(k2) implies #[trigger] kv_map(
        post,
        lo,
        hi,
    ).contains_key(k2) by {
        if k2 == key {
            assert(occ(post[q]) && ckey(post[q]) == k2);
            assert(has_key(post, lo, hi, k2));
        } else {
            let i = idx_of(pre, lo, hi, k2);
            assert(lo <= i < hi && occ(pre[i]) && ckey(pre[i]) == k2);
            assert(i != q);
            assert(occ(post[i]) && ckey(post[i]) == k2);
            assert(has_key(post, lo, hi, k2));
        }
    }
}

impl<V: Copy> StaticSearchTree<V> {
    /// Finds the minimal window at the anchor that meets its density
    /// bound and redistributes its occupants to the window's right edge,
    /// every relocation going through the move protocol. Fails — with
    /// nothing moved — only when no window inside the active range can
    /// meet its bound: the capacity condition the caller surfaces.
    fn rebalance(&mut self, anchor: usize, for_insertion: bool) -> (ok: bool)
        requires
            old(self).wf(),
            old(self).active_start <= anchor < old(self).active_end,
        ensures
            final(self).wf(),
            final(self)@ == old(self)@,
            final(self).nodes == old(self).nodes,
            final(self).active_start == old(self).active_start,
            final(self).active_end == old(self).active_end,
            final(self).density_scale == old(self).density_scale,
            final(self).cells@.len() == old(self).cells@.len(),
            !ok ==> *final(self) == *old(self) && (forall|c: int|
                1 <= c <= old(self).active_end - anchor ==> !density_ok(
                    old(self).nd(),
                    c,
                    #[trigger] occ_count(old(self).cells@, anchor as int, anchor + c) + ins_extra(
                        for_insertion,
                    ),
                )),
            ok ==> exists|c: int|
                anchor + c <= old(self).active_end && #[trigger] window_packed(
                    old(self).cells@,
                    final(self).cells@,
                    anchor as int,
                    c,
                    ins_extra(for_insertion),
                    old(self).nd(),
                ),
    {
        let extra: usize = if for_insertion {
            1
        } else {
            0
        };
        match self.find_window(anchor, extra) {
            None => {
                proof {
                    assert(self@ =~= old(self)@);
                }
                false
            },
            Some((c, idxs)) => {
                proof {
                    lemma_occ_count_bounds(self.cells@, anchor as int, anchor as int + c);
                }
                self.pack_window(anchor, c, &idxs);
                proof {
                    assert(anchor + c as int <= old(self).active_end && window_packed(
                        old(self).cells@,
                        self.cells@,
                        anchor as int,
                        c as int,
                        ins_extra(for_insertion),
                        old(self).nd(),
                    ));
                }
                true
            },
        }
    }
}


impl<V> StaticSearchTree<V> {
    /// Whether an insertion of the key can succeed: the key is already
    /// present and will be overwritten in place, a free cell sits where
    /// the key belongs, or a rebalance window anchored at the key's
    /// insertion point can meet its density bound within the active
    /// range. Anything else is capacity exhaustion.
    pub closed spec fn can_add(self, key: u64) -> bool {
        let lo = self.active_start as int;
        let hi = self.active_end as int;
        let p = first_geq(self.cells@, lo, hi, key);
        ||| has_key(self.cells@, lo, hi, key)
        ||| (p > lo && !occ(self.cells@[p - 1]))
        ||| (p < hi && exists|c: int|
            1 <= c <= hi - p && density_ok(
                self.nd(),
                c,
                #[trigger] occ_count(self.cells@, p, p + c) + 1,
            ))
    }
}

impl<V: Copy> StaticSearchTree<V> {
    /// Inserts a key-value pair. Routes to the block that starts the
    /// active range and scans for the insertion point. A key already in
    /// place is overwritten through the cell's marker protocol — the
    /// second value wins. Otherwise the pair lands in the free cell just
    /// left of its successor; if the cells there are packed tight, the
    /// rebalance engine first spreads them right to open a gap. Returns
    /// false, with the index unchanged, exactly when neither is possible
    /// within the active range: the capacity is exhausted.
    #[verifier::rlimit(100)]
    pub fn add(&mut self, key: u64, value: V) -> (ok: bool)
        requires
            old(self).wf(),
        ensures
            final(self).wf(),
            ok == old(self).can_add(key),
            ok ==> final(self)@ == old(self)@.insert(key, value),
            !ok ==> *final(self) == *old(self),
            final(self).spec_cell_count() == old(self).spec_cell_count(),
            final(self).spec_active_range() == old(self).spec_active_range(),
            final(self).spec_window_len() == old(self).spec_window_len(),
            final(self).nd() == old(self).nd(),
    {
        let ghost lo = self.active_start as int;
        let ghost hi = self.active_end as int;
        let ghost pre = self.cells@;
        let block = search_to_block(&self.nodes, Key::Value(key));
        let mut i = block.start;
        proof {
            assert(i == self.active_start);
        }
        // Scan for the first occupant at or past the key, overwriting in
        // place if the key itself turns up. `slot` trails the scan as the
        // cell right after the last occupant whose key fell short: the
        // insertion point in sorted order.
        let mut p: usize = self.active_end;
        let mut slot = self.active_start;
        while i < self.active_end
            invariant_except_break
                self.wf(),
                *self == *old(self),
                lo == self.active_start as int,
                hi == self.active_end as int,
                pre == self.cells@,
                self.active_start <= i <= self.active_end,
                p == self.active_end,
                self.active_start <= slot <= i,
                slot as int > lo ==> occ(pre[slot as int - 1]) && ckey(pre[slot as int - 1]) < key,
                forall|j: int| slot <= j < i ==> !occ(#[trigger] pre[j]),
                forall|j: int|
                    lo <= j < i ==> occ(#[trigger] self.cells@[j]) ==> ckey(self.cells@[j]) < key,
            ensures
                self.wf(),
                *self == *old(self),
                lo == self.active_start as int,
                hi == self.active_end as int,
                pre == self.cells@,
                lo <= p <= hi,
                lo <= slot <= p,
                slot as int > lo ==> occ(pre[slot as int - 1]) && ckey(pre[slot as int - 1]) < key,
                forall|j: int| slot <= j < p ==> !occ(#[trigger] pre[j]),
                forall|j: int| lo <= j < p ==> occ(#[trigger] pre[j]) ==> ckey(pre[j]) < key,
                (p as int) < hi ==> occ(pre[p as int]) && ckey(pre[p as int]) > key,
            decreases self.active_end - i,
        {
            let cell = &self.cells[i];
            let version = cell.version;
            let marker_version = cell.marker.version();
            // Validate the read as the protocol asks; quiescence makes
            // the retry path vacuous.
            proof {
                assert(marker_version == version);
            }
            match cell.key {
                Some(k) => {
                    if k == key {
                        // Update in place: the prior occupant's slot is
                        // the authoritative home of the key.
                        proof {
                            lemma_key_unique(self.cells@, lo, hi, i as int, key);
                        }
                        self.publish_insert(i, key, value);
                        proof {
                            assert forall|j: int|
                                lo <= j < hi && j != i && occ(#[trigger] pre[j]) implies (j
                                < i ==> ckey(pre[j]) < key) && (j > i ==> ckey(pre[j]) > key) by {}
                            lemma_publish_at(
                                pre,
                                self.cells@,
                                lo,
                                hi,
                                i as int,
                                key,
                                value,
                            );
                            assert forall|j: int|
                                0 <= j < self.cells@.len() && !(lo <= j < hi) implies !occ(
                                #[trigger] self.cells@[j],
                            ) by {
                                assert(self.cells@[j] == pre[j]);
                            }
                            assert(self.wf());
                            assert(self@ =~= old(self)@.insert(key, value));
                            assert(has_key(pre, lo, hi, key));
                        }
                        return true;
                    } else if k > key {
                        p = i;
                        break;
                    } else {
                        slot = i + 1;
                    }
                },
                None => {},
            }
            i = i + 1;
        }
        proof {
            if (p as int) < hi {
                assert(occ(pre[p as int]) && ckey(pre[p as int]) > key);
            }
            lemma_first_geq_is(pre, lo, hi, key, p as int);
            assert forall|j: int| lo <= j < hi && occ(#[trigger] pre[j]) implies ckey(pre[j])
                != key by {
                if j >= p {
                    assert(p < hi);
                    if j > p {
                        assert(ckey(pre[p as int]) < ckey(pre[j]));
                    }
                }
            }
            assert(!has_key(pre, lo, hi, key));
        }
        // The pair belongs in the slot right after its predecessor;
        // publish it there when the slot is free.
        if slot < p {
            let q = slot;
            proof {
                assert(!occ(pre[q as int]));
                assert forall|j: int|
                    lo <= j < hi && j != q as int && occ(#[trigger] pre[j]) implies (j < q as int
                    ==> ckey(pre[j]) < key) && (j > q as int ==> ckey(pre[j]) > key) by {
                    if j > q as int {
                        assert(!(slot <= j < p));
                        assert(j >= p);
                        assert(p < hi);
                        if j > p {
                            assert(ckey(pre[p as int]) < ckey(pre[j]));
                        }
                    }
                }
            }
            self.publish_insert(q, key, value);
            proof {
                lemma_publish_at(pre, self.cells@, lo, hi, q as int, key, value);
                assert forall|j: int|
                    0 <= j < self.cells@.len() && !(lo <= j < hi) implies !occ(
                    #[trigger] self.cells@[j],
                ) by {
                    assert(self.cells@[j] == pre[j]);
                }
                assert(self.wf());
                assert(self@ =~= old(self)@.insert(key, value));
                assert(p as int > lo && !occ(pre[p as int - 1]));
                assert(old(self).can_add(key));
            }
            return true;
        }
        proof {
            assert(slot == p);
            if p as int > lo {
                assert(occ(pre[p as int - 1]));
            }
        }
        if p >= self.active_end {
            // The key sorts past every occupant and the cell before its
            // slot is taken: capacity exhausted.
            proof {
                assert(!old(self).can_add(key));
            }
            return false;
        }
        // No gap at the insertion point: open one by rebalancing the
        // window anchored there.
        let ok = self.rebalance(p, true);
        if !ok {
            proof {
                assert(self.cells@ == pre);
                assert(*self == *old(self));
                assert(!old(self).can_add(key)) by {
                    if old(self).can_add(key) {
                        assert(p as int > lo ==> occ(pre[p as int - 1]));
                        let c = choose|c: int|
                            1 <= c <= hi - p && density_ok(
                                old(self).nd(),
                                c,
                                #[trigger] occ_count(pre, p as int, p as int + c) + 1,
                            );
                        assert(false);
                    }
                }
            }
            return false;
        }
        proof {
            let c = choose|c: int|
                p as int + c <= old(self).active_end && #[trigger] window_packed(
                    pre,
                    self.cells@,
                    p as int,
                    c,
                    1,
                    old(self).nd(),
                );
            let m = occ_count(pre, p as int, p as int + c);
            lemma_density_numer_le_count(old(self).nd(), c, m + 1);
            assert(m + 1 <= c);
            assert(!occ(self.cells@[p as int]));
            assert(old(self).can_add(key)) by {
                assert(1 <= c <= hi - p && density_ok(
                    old(self).nd(),
                    c,
                    occ_count(pre, p as int, p as int + c) + 1,
                ));
            }
        }
        let ghost mid = self.cells@;
        proof {
            // After the rebalance every occupant right of the anchor
            // still carries a key past the one inserted.
            assert forall|j: int|
                lo <= j < hi && j != p as int && occ(#[trigger] mid[j]) implies (j < p as int
                ==> ckey(mid[j]) < key) && (j > p as int ==> ckey(mid[j]) > key) by {
                let c = choose|c: int|
                    p as int + c <= old(self).active_end && #[trigger] window_packed(
                        pre,
                        mid,
                        p as int,
                        c,
                        1,
                        old(self).nd(),
                    );
                if !(p as int <= j < p as int + c) {
                    assert(mid[j] == pre[j]);
                    if j > p as int {
                        assert(j > p);
                        assert(ckey(pre[p as int]) < ckey(pre[j]));
                    }
                } else {
                    if occ(mid[j]) {
                        let jj = choose|jj: int|
                            p as int <= jj < p as int + c && occ(#[trigger] pre[jj]) && pre[jj].key
                                == mid[j].key && pre[jj].value == mid[j].value;
                        if jj > p as int {
                            assert(ckey(pre[p as int]) < ckey(pre[jj]));
                        }
                        assert(ckey(mid[j]) > key);
                    }
                }
            }
        }
        self.publish_insert(p, key, value);
        proof {
            lemma_publish_at(mid, self.cells@, lo, hi, p as int, key, value);
            assert forall|j: int|
                0 <= j < self.cells@.len() && !(lo <= j < hi) implies !occ(
                #[trigger] self.cells@[j],
            ) by {
                assert(self.cells@[j] == mid[j]);
                assert(mid[j] == pre[j]);
            }
            assert(self.wf());
            assert(kv_map(mid, lo, hi) == old(self)@);
            assert(self@ =~= old(self)@.insert(key, value));
        }
        true
    }
}


/// Some occupied cell of `[lo, hi)` carries the key.
spec fn key_witnessed<V>(cs: Seq<Cell<V>>, lo: int, hi: int, x: u64) -> bool {
    exists|i: int| lo <= i < hi && occ(#[trigger] cs[i]) && ckey(cs[i]) == x
}

/// Occupied keys of a sorted range, read in cell order, form a strictly
/// increasing sequence, and each of them belongs to some occupied cell
/// of the range.
proof fn lemma_key_seq_aux<V>(cs: Seq<Cell<V>>, lo: int, hi: int)
    requires
        cells_sorted(cs, lo, hi),
    ensures
        strictly_increasing(key_seq_of(cs, lo, hi)),
        forall|t: int|
            0 <= t < key_seq_of(cs, lo, hi).len() ==> key_witnessed(
                cs,
                lo,
                hi,
                #[trigger] key_seq_of(cs, lo, hi)[t],
            ),
    decreases hi - lo,
{
    if lo < hi {
        lemma_key_seq_aux(cs, lo + 1, hi);
        let ks = key_seq_of(cs, lo, hi);
        let tail = key_seq_of(cs, lo + 1, hi);
        assert forall|t: int| 0 <= t < key_seq_of(cs, lo, hi).len() implies key_witnessed(
            cs,
            lo,
            hi,
            #[trigger] key_seq_of(cs, lo, hi)[t],
        ) by {
            if occ(cs[lo]) {
                if t == 0 {
                    assert(ks[0] == ckey(cs[lo]));
                    assert(key_witnessed(cs, lo, hi, ks[0]));
                } else {
                    assert(ks[t] == tail[t - 1]);
                    assert(key_witnessed(cs, lo + 1, hi, tail[t - 1]));
                    let i = choose|i: int|
                        lo + 1 <= i < hi && occ(#[trigger] cs[i]) && ckey(cs[i]) == tail[t - 1];
                    assert(key_witnessed(cs, lo, hi, ks[t]));
                }
            } else {
                assert(ks[t] == tail[t]);
                assert(key_witnessed(cs, lo + 1, hi, tail[t]));
                let i = choose|i: int|
                    lo + 1 <= i < hi && occ(#[trigger] cs[i]) && ckey(cs[i]) == tail[t];
                assert(key_witnessed(cs, lo, hi, ks[t]));
            }
        }
        assert forall|a: int, b: int| 0 <= a < b < ks.len() implies ks[a] < ks[b] by {
            if occ(cs[lo]) {
                if a == 0 {
                    assert(ks[b] == tail[b - 1]);
                    assert(key_witnessed(cs, lo + 1, hi, tail[b - 1]));
                    let i = choose|i: int|
                        lo + 1 <= i < hi && occ(#[trigger] cs[i]) && ckey(cs[i]) == tail[b - 1];
                    assert(ckey(cs[lo]) < ckey(cs[i]));
                } else {
                    assert(ks[a] == tail[a - 1] && ks[b] == tail[b - 1]);
                    assert(tail[a - 1] < tail[b - 1]);
                }
            } else {
                assert(ks[a] == tail[a] && ks[b] == tail[b]);
                assert(tail[a] < tail[b]);
            }
        }
    } else {
        assert(key_seq_of(cs, lo, hi).len() == 0);
    }
}

/// A key the range holds appears among its keys read in order.
proof fn lemma_key_seq_has<V>(cs: Seq<Cell<V>>, lo: int, hi: int, i: int)
    requires
        lo <= i < hi,
        occ(cs[i]),
    ensures
        key_seq_of(cs, lo, hi).contains(ckey(cs[i])),
    decreases i - lo,
{
    let ks = key_seq_of(cs, lo, hi);
    if i == lo {
        assert(ks[0] == ckey(cs[i]));
    } else {
        lemma_key_seq_has(cs, lo + 1, hi, i);
        let tail = key_seq_of(cs, lo + 1, hi);
        let j = choose|j: int| 0 <= j < tail.len() && tail[j] == ckey(cs[i]);
        if occ(cs[lo]) {
            assert(ks[j + 1] == ckey(cs[i]));
        } else {
            assert(ks[j] == ckey(cs[i]));
        }
    }
}

/// An insertion can always land on a key the index already holds: the
/// occupant is overwritten in place, so `add` succeeds on present keys.
pub proof fn lemma_can_add_present<V>(t: StaticSearchTree<V>, key: u64)
    requires
        t.wf(),
        t@.contains_key(key),
    ensures
        t.can_add(key),
{
    assert(has_key(t.cells@, t.active_start as int, t.active_end as int, key));
}

/// The diagnostic scan agrees with the held map: every cell's version
/// matches its marker's, occupants appear only inside the active range
/// and each one is a binding of the map, every binding has its occupant,
/// and keys read out in strictly ascending cell order.
pub proof fn lemma_cell_scan_matches_map<V>(t: StaticSearchTree<V>)
    requires
        t.wf(),
    ensures
        forall|i: int|
            0 <= i < t.spec_cell_count() ==> (#[trigger] t.spec_cell_state(i)).0
                == t.spec_cell_state(i).1,
        forall|i: int|
            0 <= i < t.spec_cell_count() && (#[trigger] t.spec_cell_state(i)).2 is Some ==> {
                &&& t.spec_active_range().0 <= i < t.spec_active_range().1
                &&& t@.contains_key(t.spec_cell_state(i).2->0)
                &&& t.spec_cell_state(i).3 == Some(t@[t.spec_cell_state(i).2->0])
            },
        forall|k: u64|
            t@.contains_key(k) ==> exists|i: int|
                0 <= i < t.spec_cell_count() && (#[trigger] t.spec_cell_state(i)).2 == Some(k),
        forall|i: int, j: int|
            0 <= i < j < t.spec_cell_count() && t.spec_cell_state(i).2 is Some
                && t.spec_cell_state(j).2 is Some ==> (#[trigger] t.spec_cell_state(i)).2->0
                < (#[trigger] t.spec_cell_state(j)).2->0,
{
    let lo = t.active_start as int;
    let hi = t.active_end as int;
    assert forall|i: int|
        0 <= i < t.spec_cell_count() && (#[trigger] t.spec_cell_state(i)).2 is Some implies {
        &&& lo <= i < hi
        &&& t@.contains_key(t.spec_cell_state(i).2->0)
        &&& t.spec_cell_state(i).3 == Some(t@[t.spec_cell_state(i).2->0])
    } by {
        assert(occ(t.cells@[i]));
        assert(lo <= i < hi);
        lemma_key_unique(t.cells@, lo, hi, i, ckey(t.cells@[i]));
    }
    assert forall|k: u64| t@.contains_key(k) implies exists|i: int|
        0 <= i < t.spec_cell_count() && (#[trigger] t.spec_cell_state(i)).2 == Some(k) by {
        assert(has_key(t.cells@, lo, hi, k));
        let i = choose|i: int| lo <= i < hi && occ(#[trigger] t.cells@[i]) && ckey(t.cells@[i])
            == k;
        assert(t.spec_cell_state(i).2 == Some(k));
    }
}

/// Sorted-order invariant: whenever no mutation is in flight, the
/// occupied cells of the active range, read left to right, carry
/// strictly increasing keys — and those keys are exactly the keys the
/// index holds.
pub proof fn lemma_sorted_order<V>(t: StaticSearchTree<V>)
    requires
        t.wf(),
    ensures
        strictly_increasing(t.key_seq()),
        forall|j: int| 0 <= j < t.key_seq().len() ==> t@.contains_key(#[trigger] t.key_seq()[j]),
        forall|k: u64| t@.contains_key(k) ==> t.key_seq().contains(k),
{
    let lo = t.active_start as int;
    let hi = t.active_end as int;
    lemma_key_seq_aux(t.cells@, lo, hi);
    assert forall|j: int| 0 <= j < t.key_seq().len() implies t@.contains_key(
        #[trigger] t.key_seq()[j],
    ) by {
        assert(key_witnessed(t.cells@, lo, hi, key_seq_of(t.cells@, lo, hi)[j]));
        let i = choose|i: int|
            lo <= i < hi && occ(#[trigger] t.cells@[i]) && ckey(t.cells@[i]) == key_seq_of(
                t.cells@,
                lo,
                hi,
            )[j];
        assert(has_key(t.cells@, lo, hi, t.key_seq()[j]));
    }
    assert forall|k: u64| t@.contains_key(k) implies t.key_seq().contains(k) by {
        assert(has_key(t.cells@, lo, hi, k));
        let i = choose|i: int| lo <= i < hi && occ(#[trigger] t.cells@[i]) && ckey(t.cells@[i])
            == k;
        lemma_key_seq_has(t.cells@, lo, hi, i);
    }
}

/// Read-your-writes: after a successful `add` of `(k, v)` the held map
/// binds `k` to `v`, and later writes to other keys leave that binding
/// alone — so a `find` of `k` yields `v` until some later `add` of `k`
/// succeeds.
pub proof fn lemma_read_your_writes<V>(m: Map<u64, V>, k: u64, v: V)
    ensures
        m.insert(k, v).contains_key(k),
        m.insert(k, v)[k] == v,
        forall|k2: u64, v2: V|
            k2 != k ==> (#[trigger] m.insert(k, v).insert(k2, v2)).contains_key(k) && m.insert(
                k,
                v,
            ).insert(k2, v2)[k] == v,
{
}

/// Absence: a fresh index holds no key, and an `add` introduces no
/// binding besides its own — so a key never inserted is never found.
pub proof fn lemma_absence<V>(m: Map<u64, V>, k: u64, k2: u64, v2: V)
    requires
        !m.contains_key(k),
        k2 != k,
    ensures
        !Map::<u64, V>::empty().contains_key(k),
        !m.insert(k2, v2).contains_key(k),
{
}

/// Idempotent overwrite: inserting the same key twice leaves the second
/// value bound — the documented update-in-place resolution.
pub proof fn lemma_idempotent_overwrite<V>(m: Map<u64, V>, k: u64, v1: V, v2: V)
    ensures
        m.insert(k, v1).insert(k, v2).contains_key(k),
        m.insert(k, v1).insert(k, v2)[k] == v2,
{
}

impl<V> StaticSearchTree<V> {
    /// The state of one cell, as a diagnostic dump reads it: the cell
    /// version, the marker's version, and the occupant.
    pub closed spec fn spec_cell_state(self, i: int) -> (u16, u16, Option<u64>, Option<V>) {
        let c = self.cells@[i];
        (c.version, c.marker.spec_version(), c.key, c.value)
    }

    /// The number of cells in the backing store.
    pub closed spec fn spec_cell_count(self) -> int {
        self.cells@.len() as int
    }

    /// The bounds of the active range.
    pub closed spec fn spec_active_range(self) -> (int, int) {
        (self.active_start as int, self.active_end as int)
    }

    /// The length of the leaf window that routing reaches: the number of
    /// cells in one block.
    pub closed spec fn spec_window_len(self) -> int {
        let ix = routed_ix(self.nodes@, 0, self.nodes@.len() as nat);
        (self.nodes@[ix->0]->Leaf_1).length as int
    }
}

impl<V: Copy> StaticSearchTree<V> {
    /// The number of cells in the backing store.
    pub fn cell_count(&self) -> (n: usize)
        ensures
            n == self.spec_cell_count(),
    {
        self.cells.len()
    }

    /// The bounds of the active range, for diagnostics.
    pub fn active_range(&self) -> (r: (usize, usize))
        ensures
            r.0 == self.spec_active_range().0,
            r.1 == self.spec_active_range().1,
    {
        (self.active_start, self.active_end)
    }

    /// One cell's state — version, marker version, occupant key and
    /// value — for the diagnostic dump that enumerates the store.
    pub fn cell_state(&self, i: usize) -> (s: (u16, u16, Option<u64>, Option<V>))
        requires
            i < self.spec_cell_count(),
        ensures
            s == self.spec_cell_state(i as int),
    {
        let c = &self.cells[i];
        (c.version, c.marker.version(), c.key, c.value)
    }
}

} // verus!
