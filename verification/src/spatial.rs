//! Uniform-grid spatial index of ships at sea.
//!
//! Entries are filed under integer grid cells. After all inserts,
//! `finalize` orders them by `(cell, id)` so each cell's entries form one
//! contiguous run, found by binary search. Ship handles are `u64` keys
//! whose order is the order of the handles; `P` is the position, carried
//! along for the distance test done by the caller.

use vstd::prelude::*;

verus! {

broadcast use vstd::seq_lib::group_to_multiset_ensures;

/// One indexed ship: its grid cell, its handle and its position.
#[derive(Debug, Clone, Copy)]
pub struct Entry<P> {
    pub cell_x: i32,
    pub cell_y: i32,
    pub id: u64,
    pub pos: P,
}

/// Cell `(x1, y1)` comes strictly before cell `(x2, y2)`.
pub open spec fn cell_lt(x1: int, y1: int, x2: int, y2: int) -> bool {
    x1 < x2 || (x1 == x2 && y1 < y2)
}

/// `a` is not after `b` in `(cell, id)` order.
pub open spec fn entry_le<P>(a: Entry<P>, b: Entry<P>) -> bool {
    cell_lt(a.cell_x as int, a.cell_y as int, b.cell_x as int, b.cell_y as int)
        || (a.cell_x == b.cell_x && a.cell_y == b.cell_y && a.id <= b.id)
}

/// Entries in `(cell, id)` order.
pub open spec fn sorted_entries<P>(s: Seq<Entry<P>>) -> bool {
    forall|i: int, j: int| 0 <= i < j < s.len() ==> entry_le(#[trigger] s[i], #[trigger] s[j])
}

/// A rebuildable grid index.
#[derive(Debug, Clone)]
pub struct SpatialHash<P> {
    entries: Vec<Entry<P>>,
    /// Set when the entries are known to be in `(cell, id)` order.
    sorted: bool,
}

impl<P: Copy> SpatialHash<P> {
    /// The entries, in storage order.
    pub closed spec fn view(&self) -> Seq<Entry<P>> {
        self.entries@
    }

    /// Whether the index has been finalized since the last insert.
    pub closed spec fn is_finalized(&self) -> bool {
        self.sorted
    }

    /// A finalized index has its entries in order.
    pub closed spec fn wf(&self) -> bool {
        self.sorted ==> sorted_entries(self.entries@)
    }

    /// An empty index, not yet finalized.
    pub fn new() -> (h: Self)
        ensures
            h.wf(),
            h@.len() == 0,
            !h.is_finalized(),
    {
        SpatialHash { entries: Vec::new(), sorted: false }
    }

    /// Drop every entry; an empty index counts as finalized.
    pub fn clear(&mut self)
        ensures
            final(self).wf(),
            final(self)@.len() == 0,
            final(self).is_finalized(),
    {
        self.entries.clear();
        self.sorted = true;
    }

    /// File ship `id` at `pos` under cell `(cell_x, cell_y)`.
    pub fn insert(&mut self, id: u64, cell_x: i32, cell_y: i32, pos: P)
        ensures
            final(self).wf(),
            final(self)@ == old(self)@.push(Entry { cell_x, cell_y, id, pos }),
            !final(self).is_finalized(),
    {
        self.entries.push(Entry { cell_x, cell_y, id, pos });
        self.sorted = false;
    }

    /// Number of entries.
    pub fn len(&self) -> (n: usize)
        ensures
            n == self@.len(),
    {
        self.entries.len()
    }

    /// Whether there are no entries.
    pub fn is_empty(&self) -> (b: bool)
        ensures
            b == (self@.len() == 0),
    {
        self.entries.len() == 0
    }

    /// Put the entries in `(cell, id)` order, keeping every entry (as a
    /// multiset). Does nothing on a finalized index.
    pub fn finalize(&mut self)
        requires
            old(self).wf(),
        ensures
            final(self).wf(),
            final(self).is_finalized(),
            sorted_entries(final(self)@),
            final(self)@.to_multiset() == old(self)@.to_multiset(),
            old(self).is_finalized() ==> final(self)@ == old(self)@,
    {
        if self.sorted {
            return;
        }
        let mut out: Vec<Entry<P>> = Vec::new();
        let n = self.entries.len();
        let mut i: usize = 0;
        while i < n
            invariant
                n == self.entries@.len(),
                i <= n,
                sorted_entries(out@),
                out@.to_multiset() == self.entries@.subrange(0, i as int).to_multiset(),
            decreases n - i,
        {
            let e = self.entries[i];
            let mut j: usize = 0;
            while j < out.len() && entry_le_exec(&out[j], &e)
                invariant
                    j <= out@.len(),
                    sorted_entries(out@),
                    forall|k: int| 0 <= k < j ==> entry_le(#[trigger] out@[k], e),
                decreases out@.len() - j,
            {
                j = j + 1;
            }
            let ghost before = out@;
            proof {
                assert forall|k: int| j <= k < before.len() implies !entry_le(#[trigger] before[k], e) by {
                    if entry_le(before[k], e) {
                        assert(entry_le(before[j as int], before[k]));
                    }
                }
            }
            out.insert(j, e);
            proof {
                assert(self.entries@.subrange(0, i + 1) =~= self.entries@.subrange(0, i as int).push(e));
                assert forall|a: int, b: int| 0 <= a < b < out@.len() implies entry_le(#[trigger] out@[a], #[trigger] out@[b]) by {
                    if a < j && b == j {
                    } else if a < j && b > j {
                        assert(out@[b] == before[b - 1]);
                    } else if a == j {
                        assert(out@[b] == before[b - 1]);
                        assert(!entry_le(before[b - 1], e));
                    } else if a < j {
                    } else {
                        assert(out@[a] == before[a - 1]);
                        assert(out@[b] == before[b - 1]);
                    }
                }
            }
            i = i + 1;
        }
        assert(self.entries@.subrange(0, n as int) =~= self.entries@);
        self.entries = out;
        self.sorted = true;
    }

    /// Bounds `(start, end)` of the run of entries filed under cell
    /// `(cx, cy)` in a finalized index: entries before `start` are in
    /// earlier cells, entries from `end` on in later cells, and those
    /// between are exactly that cell's (`start == end` when it has none).
    pub fn cell_range(&self, cx: i32, cy: i32) -> (r: (usize, usize))
        requires
            self.wf(),
            self.is_finalized(),
        ensures
            r.0 <= r.1 <= self@.len(),
            forall|k: int| 0 <= k < r.0 ==> cell_lt(
                #[trigger] self@[k].cell_x as int,
                self@[k].cell_y as int,
                cx as int,
                cy as int,
            ),
            forall|k: int| r.0 <= k < r.1 ==> #[trigger] self@[k].cell_x == cx && self@[k].cell_y == cy,
            forall|k: int| r.1 <= k < self@.len() ==> cell_lt(
                cx as int,
                cy as int,
                #[trigger] self@[k].cell_x as int,
                self@[k].cell_y as int,
            ),
    {
        let n = self.entries.len();
        let mut lo: usize = 0;
        let mut hi: usize = n;
        while lo < hi
            invariant
                lo <= hi <= n,
                n == self.entries@.len(),
                sorted_entries(self.entries@),
                forall|k: int| 0 <= k < lo ==> cell_lt(
                    #[trigger] self.entries@[k].cell_x as int,
                    self.entries@[k].cell_y as int,
                    cx as int,
                    cy as int,
                ),
                forall|k: int| hi <= k < n ==> !cell_lt(
                    #[trigger] self.entries@[k].cell_x as int,
                    self.entries@[k].cell_y as int,
                    cx as int,
                    cy as int,
                ),
            decreases hi - lo,
        {
            let mid = lo + (hi - lo) / 2;
            let e = &self.entries[mid];
            if e.cell_x < cx || (e.cell_x == cx && e.cell_y < cy) {
                proof {
                    assert forall|k: int| 0 <= k < mid + 1 implies cell_lt(
                        #[trigger] self.entries@[k].cell_x as int,
                        self.entries@[k].cell_y as int,
                        cx as int,
                        cy as int,
                    ) by {
                        if k < mid {
                            assert(entry_le(self.entries@[k], self.entries@[mid as int]));
                        }
                    }
                }
                lo = mid + 1;
            } else {
                proof {
                    assert forall|k: int| mid <= k < n implies !cell_lt(
                        #[trigger] self.entries@[k].cell_x as int,
                        self.entries@[k].cell_y as int,
                        cx as int,
                        cy as int,
                    ) by {
                        if k > mid {
                            assert(entry_le(self.entries@[mid as int], self.entries@[k]));
                        }
                    }
                }
                hi = mid;
            }
        }
        let start = lo;
        let mut end = start;
        while end < n && self.entries[end].cell_x == cx && self.entries[end].cell_y == cy
            invariant
                start <= end <= n,
                n == self.entries@.len(),
                sorted_entries(self.entries@),
                forall|k: int| start <= k < end ==> #[trigger] self.entries@[k].cell_x == cx
                    && self.entries@[k].cell_y == cy,
                forall|k: int| start <= k < n ==> !cell_lt(
                    #[trigger] self.entries@[k].cell_x as int,
                    self.entries@[k].cell_y as int,
                    cx as int,
                    cy as int,
                ),
            decreases n - end,
        {
            end = end + 1;
        }
        proof {
            assert forall|k: int| end <= k < n implies cell_lt(
                cx as int,
                cy as int,
                #[trigger] self.entries@[k].cell_x as int,
                self.entries@[k].cell_y as int,
            ) by {
                assert(!cell_lt(self.entries@[k].cell_x as int, self.entries@[k].cell_y as int, cx as int, cy as int));
                if end < n {
                    assert(!(self.entries@[end as int].cell_x == cx && self.entries@[end as int].cell_y == cy));
                    assert(!cell_lt(self.entries@[end as int].cell_x as int, self.entries@[end as int].cell_y as int, cx as int, cy as int));
                    if k > end {
                        assert(entry_le(self.entries@[end as int], self.entries@[k]));
                    }
                }
            }
        }
        (start, end)
    }

    /// The entries filed under cell `(cx, cy)` in a finalized index, in
    /// id order: a run of the index with only earlier cells before it and
    /// only later cells after it.
    pub fn cell_slice(&self, cx: i32, cy: i32) -> (s: &[Entry<P>])
        requires
            self.wf(),
            self.is_finalized(),
        ensures
            exists|a: int|
                {
                    &&& 0 <= a
                    &&& a + s@.len() <= self@.len()
                    &&& #[trigger] self@.subrange(a, a + s@.len()) == s@
                    &&& forall|k: int| 0 <= k < a ==> cell_lt(
                        #[trigger] self@[k].cell_x as int,
                        self@[k].cell_y as int,
                        cx as int,
                        cy as int,
                    )
                    &&& forall|k: int| a <= k < a + s@.len() ==> #[trigger] self@[k].cell_x == cx && self@[k].cell_y == cy
                    &&& forall|k: int| a + s@.len() <= k < self@.len() ==> cell_lt(
                        cx as int,
                        cy as int,
                        #[trigger] self@[k].cell_x as int,
                        self@[k].cell_y as int,
                    )
                },
    {
        let (a, b) = self.cell_range(cx, cy);
        let s = vstd::slice::slice_subrange(self.entries.as_slice(), a, b);
        assert(self@.subrange(a as int, a + s@.len()) == s@);
        s
    }

    /// The entry at position `i`.
    pub fn entry(&self, i: usize) -> (e: Entry<P>)
        requires
            i < self@.len(),
        ensures
            e == self@[i as int],
    {
        self.entries[i]
    }
}

/// `a` is not after `b` in `(cell, id)` order.
fn entry_le_exec<P>(a: &Entry<P>, b: &Entry<P>) -> (r: bool)
    ensures
        r == entry_le(*a, *b),
{
    a.cell_x < b.cell_x || (a.cell_x == b.cell_x && (a.cell_y < b.cell_y || (a.cell_y == b.cell_y && a.id <= b.id)))
}

impl<P: Copy> Default for SpatialHash<P> {
    fn default() -> (h: Self)
        ensures
            h.wf(),
            h@.len() == 0,
            !h.is_finalized(),
    {
        SpatialHash::new()
    }
}

/// Finalizing fixes the order: two runs in `(cell, id)` order holding the
/// same entries, no ship id twice, are the same sequence, whatever order
/// the ships were inserted in.
pub proof fn lemma_finalized_order_is_unique<P>(a: Seq<Entry<P>>, b: Seq<Entry<P>>)
    requires
        sorted_entries(a),
        sorted_entries(b),
        a.to_multiset() == b.to_multiset(),
        forall|i: int, j: int| 0 <= i < j < a.len() ==> (#[trigger] a[i]).id != (#[trigger] a[j]).id,
    ensures
        a == b,
    decreases a.len(),
{
    broadcast use vstd::seq_lib::to_multiset_contains, vstd::seq_lib::to_multiset_len, vstd::seq_lib::to_multiset_remove;

    assert(a.len() == a.to_multiset().len());
    assert(b.len() == b.to_multiset().len());
    if a.len() == 0 {
        assert(a =~= b);
    } else {
        let x = a[0];
        let y = b[0];
        assert(a.contains(x));
        assert(a.to_multiset().count(x) > 0);
        assert(b.contains(x));
        let j = choose|j: int| 0 <= j < b.len() && b[j] == x;
        assert(b.contains(y));
        assert(b.to_multiset().count(y) > 0);
        assert(a.contains(y));
        let i = choose|i: int| 0 <= i < a.len() && a[i] == y;
        if j > 0 {
            assert(entry_le(b[0], b[j]));
        }
        if i > 0 {
            assert(entry_le(a[0], a[i]));
            assert(a[0].id != a[i].id);
        }
        assert(x == y);
        let a1 = a.drop_first();
        let b1 = b.drop_first();
        assert(a1 =~= a.remove(0));
        assert(b1 =~= b.remove(0));
        assert(a1.to_multiset() =~= b1.to_multiset());
        assert forall|p: int, q: int| 0 <= p < q < a1.len() implies (#[trigger] a1[p]).id != (#[trigger] a1[q]).id by {
            assert(a1[p] == a[p + 1] && a1[q] == a[q + 1]);
        }
        assert forall|p: int, q: int| 0 <= p < q < a1.len() implies entry_le(#[trigger] a1[p], #[trigger] a1[q]) by {
            assert(a1[p] == a[p + 1] && a1[q] == a[q + 1]);
        }
        assert forall|p: int, q: int| 0 <= p < q < b1.len() implies entry_le(#[trigger] b1[p], #[trigger] b1[q]) by {
            assert(b1[p] == b[p + 1] && b1[q] == b[q + 1]);
        }
        lemma_finalized_order_is_unique(a1, b1);
        assert forall|k: int| 0 <= k < a.len() implies a[k] == b[k] by {
            if k > 0 {
                assert(a[k] == a1[k - 1]);
                assert(b[k] == b1[k - 1]);
            }
        }
        assert(a =~= b);
    }
}

/// No ship id occurs twice among `s`'s entries.
pub open spec fn distinct_ids<P>(s: Seq<Entry<P>>) -> bool {
    forall|i: int, j: int| 0 <= i < j < s.len() ==> (#[trigger] s[i]).id != (#[trigger] s[j]).id
}

proof fn lemma_distinct_ids_carry<P>(ins: Seq<Entry<P>>, a: Seq<Entry<P>>)
    requires
        distinct_ids(ins),
        a.to_multiset() == ins.to_multiset(),
    ensures
        distinct_ids(a),
{
    broadcast use vstd::seq_lib::to_multiset_contains;

    assert(ins.no_duplicates()) by {
        assert forall|i: int, j: int| 0 <= i < ins.len() && 0 <= j < ins.len() && i != j implies ins[i] != ins[j] by {
            if i < j {
                assert(ins[i].id != ins[j].id);
            } else {
                assert(ins[j].id != ins[i].id);
            }
        }
    }
    ins.lemma_multiset_has_no_duplicates();
    a.lemma_multiset_has_no_duplicates_conv();
    assert forall|i: int, j: int| 0 <= i < j < a.len() implies (#[trigger] a[i]).id != (#[trigger] a[j]).id by {
        assert(a[i] != a[j]);
        assert(a.contains(a[i]));
        assert(a.to_multiset().count(a[i]) > 0);
        assert(ins.contains(a[i]));
        assert(a.contains(a[j]));
        assert(a.to_multiset().count(a[j]) > 0);
        assert(ins.contains(a[j]));
        let p = choose|p: int| 0 <= p < ins.len() && ins[p] == a[i];
        let q = choose|q: int| 0 <= q < ins.len() && ins[q] == a[j];
        if p < q {
            assert(ins[p].id != ins[q].id);
        } else if q < p {
            assert(ins[q].id != ins[p].id);
        }
    }
}

/// Rebuilding is deterministic: two indices whose inserted entries are the
/// same, in any order, with no ship id inserted twice, finalize to the
/// same sequence.
pub proof fn lemma_same_entries_same_order<P>(ins1: Seq<Entry<P>>, ins2: Seq<Entry<P>>, a: Seq<Entry<P>>, b: Seq<Entry<P>>)
    requires
        ins1.to_multiset() == ins2.to_multiset(),
        distinct_ids(ins1),
        sorted_entries(a),
        sorted_entries(b),
        a.to_multiset() == ins1.to_multiset(),
        b.to_multiset() == ins2.to_multiset(),
    ensures
        a == b,
{
    lemma_distinct_ids_carry(ins1, a);
    lemma_finalized_order_is_unique(a, b);
}

} // verus!
