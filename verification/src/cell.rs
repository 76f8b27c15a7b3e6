//! The cell store: fixed slots holding versioned, markered optional
//! (key, value) occupants. A cell's marker is the sole mutation guard: a
//! writer claims the cell by installing a marker carrying the next version,
//! mutates the occupant, and publishes by restoring an `Empty` marker with
//! the version advanced by two. A reader accepts a cell only when the cell
//! version and the marker version agree; in this single-threaded engine
//! that agreement is an invariant, so the re-read path of the protocol is
//! vacuous and every read validates on the first attempt.

use vstd::prelude::*;

verus! {

/// The tagged descriptor of the mutation currently claiming a cell.
#[derive(Clone, Copy)]
pub(crate) enum Marker<V> {
    /// No mutation pending; the cell's content is valid.
    Empty(u16),
    /// The cell's occupant is being relocated to the given slot.
    Move(u16, usize),
    /// An insertion is being published into this cell.
    InsertCell(u16, u64, V),
    /// A deletion is in progress.
    DeleteCell(u16, u64),
}

impl<V> Marker<V> {
    /// The version this marker was written with.
    pub(crate) open spec fn spec_version(self) -> u16 {
        match self {
            Marker::Empty(v) => v,
            Marker::Move(v, _) => v,
            Marker::InsertCell(v, _, _) => v,
            Marker::DeleteCell(v, _) => v,
        }
    }

    /// The version this marker was written with.
    pub(crate) fn version(&self) -> (v: u16)
        ensures
            v == self.spec_version(),
    {
        match self {
            Marker::Empty(v) => *v,
            Marker::Move(v, _) => *v,
            Marker::InsertCell(v, _, _) => *v,
            Marker::DeleteCell(v, _) => *v,
        }
    }
}

/// One slot of the backing array.
pub(crate) struct Cell<V> {
    pub version: u16,
    pub marker: Marker<V>,
    pub key: Option<u64>,
    pub value: Option<V>,
}

/// A version counter advanced by one, wrapping at the counter's bit width.
pub(crate) open spec fn bump1(v: u16) -> u16 {
    if v >= 65535 {
        (v - 65535) as u16
    } else {
        (v + 1) as u16
    }
}

/// A version counter advanced by two, wrapping at the counter's bit width.
pub(crate) open spec fn bump2(v: u16) -> u16 {
    bump1(bump1(v))
}

/// A cell is quiescent when no mutation is in flight: its marker is
/// `Empty` and carries exactly the cell's version.
pub(crate) open spec fn quiescent<V>(c: Cell<V>) -> bool {
    c.marker == Marker::<V>::Empty(c.version)
}

/// Whether the cell holds an occupant.
pub(crate) open spec fn occ<V>(c: Cell<V>) -> bool {
    c.key is Some
}

/// The occupant's key; meaningful only for occupied cells.
pub(crate) open spec fn ckey<V>(c: Cell<V>) -> u64 {
    c.key->0
}

/// A cell that holds an occupant also holds a value for it.
pub(crate) open spec fn cell_complete<V>(c: Cell<V>) -> bool {
    occ(c) ==> c.value is Some
}

/// Every cell of the store is quiescent and complete.
pub(crate) open spec fn cells_quiescent<V>(cs: Seq<Cell<V>>) -> bool {
    forall|i: int| 0 <= i < cs.len() ==> quiescent(#[trigger] cs[i]) && cell_complete(cs[i])
}

/// Occupied cells of `[lo, hi)`, read left to right, carry strictly
/// increasing keys.
pub(crate) open spec fn cells_sorted<V>(cs: Seq<Cell<V>>, lo: int, hi: int) -> bool {
    forall|i: int, j: int|
        lo <= i < j < hi && occ(#[trigger] cs[i]) && occ(#[trigger] cs[j]) ==> ckey(cs[i]) < ckey(
            cs[j],
        )
}

/// No cell outside `[lo, hi)` holds an occupant.
pub(crate) open spec fn vacant_outside<V>(cs: Seq<Cell<V>>, lo: int, hi: int) -> bool {
    forall|i: int| 0 <= i < cs.len() && !(lo <= i < hi) ==> !occ(#[trigger] cs[i])
}

/// Some cell of `[lo, hi)` holds the key.
pub(crate) open spec fn has_key<V>(cs: Seq<Cell<V>>, lo: int, hi: int, k: u64) -> bool {
    exists|i: int| lo <= i < hi && occ(#[trigger] cs[i]) && ckey(cs[i]) == k
}

/// The slot of `[lo, hi)` that holds the key; meaningful only under
/// `has_key`, and unique whenever the cells are sorted.
pub(crate) open spec fn idx_of<V>(cs: Seq<Cell<V>>, lo: int, hi: int, k: u64) -> int {
    choose|i: int| lo <= i < hi && occ(#[trigger] cs[i]) && ckey(cs[i]) == k
}

/// The key-to-value map held by the occupied cells of `[lo, hi)`.
pub(crate) open spec fn kv_map<V>(cs: Seq<Cell<V>>, lo: int, hi: int) -> Map<u64, V> {
    Map::new(
        |k: u64| has_key(cs, lo, hi, k),
        |k: u64| cs[idx_of(cs, lo, hi, k)].value->0,
    )
}

/// In a sorted range a key determines its slot: any two occupied slots
/// carrying the same key coincide.
pub(crate) proof fn lemma_key_unique<V>(cs: Seq<Cell<V>>, lo: int, hi: int, i: int, k: u64)
    requires
        cells_sorted(cs, lo, hi),
        lo <= i < hi <= cs.len(),
        occ(cs[i]),
        ckey(cs[i]) == k,
    ensures
        has_key(cs, lo, hi, k),
        idx_of(cs, lo, hi, k) == i,
        kv_map(cs, lo, hi)[k] == cs[i].value->0,
{
    assert(has_key(cs, lo, hi, k));
    let j = idx_of(cs, lo, hi, k);
    assert(lo <= j < hi && occ(cs[j]) && ckey(cs[j]) == k);
    if i < j {
        assert(ckey(cs[i]) < ckey(cs[j]));
    } else if j < i {
        assert(ckey(cs[j]) < ckey(cs[i]));
    }
}

} // verus!
