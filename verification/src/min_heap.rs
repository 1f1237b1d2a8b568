//! A binary min-heap whose entries are reachable through stable handles.
//!
//! Unlike an ordinary priority queue, an entry can be removed or re-keyed out
//! of order: `insert` hands back a [`NodeHandle`] that stays valid until the
//! entry is popped or removed.  Duplicate keys are allowed.
//!
//! The storage is two parallel arrays: `tree_index` maps a position in the
//! binary tree to a node slot, and each node slot records its key, payload and
//! position in the tree.  Released slots are threaded into a free list through
//! the position field, so the numeric value of a handle never changes.

use vstd::prelude::*;

verus! {

/// Marks "no slot": the end of the free list and the absent handle.
const INVALID: usize = usize::MAX;

/// Names one entry of a heap.  Opaque, but comparable.
#[derive(PartialEq, Eq, Structural, Debug, Copy, Clone)]
pub struct NodeHandle(usize);

impl NodeHandle {
    /// The handle that names no entry.
    pub closed spec fn spec_invalid() -> NodeHandle {
        NodeHandle(INVALID)
    }

    /// The handle that names no entry.  No heap ever hands it out.
    #[verifier::when_used_as_spec(spec_invalid)]
    pub fn invalid() -> (h: NodeHandle)
        ensures
            h == Self::spec_invalid(),
    {
        NodeHandle(INVALID)
    }

    /// Whether this is the handle that names no entry.
    pub fn is_invalid(&self) -> (b: bool)
        ensures
            b == (*self == Self::spec_invalid()),
    {
        self.0 == INVALID
    }
}

/// A key the heap can order.  `rank` places every key on the integer line;
/// keys of equal rank are interchangeable as far as the heap is concerned.
pub trait HeapValue: Copy {
    /// Position of the key in the total order.
    spec fn rank(&self) -> int;

    /// Strict "comes before".
    fn less(&self, other: &Self) -> (b: bool)
        ensures
            b == (self.rank() < other.rank()),
    ;
}

impl HeapValue for u8 {
    open spec fn rank(&self) -> int {
        *self as int
    }

    fn less(&self, other: &Self) -> (b: bool) {
        *self < *other
    }
}

impl HeapValue for u16 {
    open spec fn rank(&self) -> int {
        *self as int
    }

    fn less(&self, other: &Self) -> (b: bool) {
        *self < *other
    }
}

impl HeapValue for u32 {
    open spec fn rank(&self) -> int {
        *self as int
    }

    fn less(&self, other: &Self) -> (b: bool) {
        *self < *other
    }
}

impl HeapValue for u64 {
    open spec fn rank(&self) -> int {
        *self as int
    }

    fn less(&self, other: &Self) -> (b: bool) {
        *self < *other
    }
}

impl HeapValue for usize {
    open spec fn rank(&self) -> int {
        *self as int
    }

    fn less(&self, other: &Self) -> (b: bool) {
        *self < *other
    }
}

impl HeapValue for i8 {
    open spec fn rank(&self) -> int {
        *self as int
    }

    fn less(&self, other: &Self) -> (b: bool) {
        *self < *other
    }
}

impl HeapValue for i16 {
    open spec fn rank(&self) -> int {
        *self as int
    }

    fn less(&self, other: &Self) -> (b: bool) {
        *self < *other
    }
}

impl HeapValue for i32 {
    open spec fn rank(&self) -> int {
        *self as int
    }

    fn less(&self, other: &Self) -> (b: bool) {
        *self < *other
    }
}

impl HeapValue for i64 {
    open spec fn rank(&self) -> int {
        *self as int
    }

    fn less(&self, other: &Self) -> (b: bool) {
        *self < *other
    }
}

impl HeapValue for isize {
    open spec fn rank(&self) -> int {
        *self as int
    }

    fn less(&self, other: &Self) -> (b: bool) {
        *self < *other
    }
}

/// A payload the heap can carry: anything copyable.
pub trait HeapData: Copy {

}

impl<TData: Copy> HeapData for TData {

}

/// One slot of node storage.
pub struct Node<TOrd: HeapValue, TData: HeapData> {
    /// Key to order by.
    value: TOrd,
    /// Payload supplied by the caller.
    user_data: TData,
    /// Position in `MinHeap::tree_index` while the slot is in use; the next
    /// free slot (or `INVALID`) while it is released.
    index: usize,
}

/// The heap.  Its view is the map from live handles to `(key, payload)`.
pub struct MinHeap<TOrd: HeapValue, TData: HeapData> {
    /// Tree position -> node slot.
    tree_index: Vec<usize>,
    /// Node storage; released slots are chained from `free`.
    node: Vec<Node<TOrd, TData>>,
    /// Head of the free list, `INVALID` when it is empty.
    free: usize,
    /// The free list, head first.
    free_list: Ghost<Seq<usize>>,
}

// ---------------------------------------------------------------------------
// Heap order on a plain sequence of ranks

/// Tree position of the parent of position `j`.
pub open spec fn parent_index(j: int) -> int {
    (j - 1) / 2
}

spec fn le_parent(k: Seq<int>, j: int) -> bool {
    k[parent_index(j)] <= k[j]
}

spec fn le_grand(k: Seq<int>, j: int) -> bool {
    k[parent_index(parent_index(j))] <= k[j]
}

/// Every position holds a rank no smaller than its parent's.
spec fn ordered(k: Seq<int>) -> bool {
    forall|j: int| 0 < j < k.len() ==> #[trigger] le_parent(k, j)
}

/// Heap order everywhere but around position `i`, whose rank is arbitrary:
/// what is above `i` is no larger than what is below it.
spec fn ordered_hole(k: Seq<int>, i: int) -> bool {
    &&& forall|j: int|
        0 < j < k.len() && j != i && parent_index(j) != i ==> #[trigger] le_parent(k, j)
    &&& forall|j: int|
        0 < j < k.len() && parent_index(j) == i && i > 0 ==> #[trigger] le_grand(k, j)
}

/// Position `i` may be smaller than its parent, nothing else is out of order.
spec fn ordered_up(k: Seq<int>, i: int) -> bool {
    &&& ordered_hole(k, i)
    &&& forall|j: int| 0 < j < k.len() && parent_index(j) == i ==> #[trigger] le_parent(k, j)
}

/// Position `i` may be larger than its children, nothing else is out of order.
spec fn ordered_down(k: Seq<int>, i: int) -> bool {
    &&& ordered_hole(k, i)
    &&& (0 < i < k.len() ==> le_parent(k, i))
}

spec fn seq_swap(k: Seq<int>, i: int, j: int) -> Seq<int> {
    k.update(i, k[j]).update(j, k[i])
}

proof fn lemma_root_is_least(k: Seq<int>, j: int)
    requires
        ordered(k),
        0 <= j < k.len(),
    ensures
        k[0] <= k[j],
    decreases j,
{
    if j > 0 {
        assert(le_parent(k, j));
        lemma_root_is_least(k, parent_index(j));
    }
}

proof fn lemma_hole_step(k: Seq<int>, i: int)
    requires
        ordered_hole(k, i),
        0 < i < k.len(),
    ensures
        ordered_hole(seq_swap(k, parent_index(i), i), parent_index(i)),
{
    let p = parent_index(i);
    let k2 = seq_swap(k, p, i);
    assert forall|j: int| 0 < j < k2.len() && j != p && parent_index(j) != p implies #[trigger]
    le_parent(k2, j) by {
        if parent_index(j) == i {
            assert(le_grand(k, j));
        } else {
            assert(le_parent(k, j));
        }
    }
    assert forall|j: int| 0 < j < k2.len() && parent_index(j) == p && p > 0 implies #[trigger]
    le_grand(k2, j) by {
        assert(le_parent(k, p));
        if j != i {
            assert(le_parent(k, j));
        }
    }
}

proof fn lemma_up_step(k: Seq<int>, i: int)
    requires
        ordered_up(k, i),
        0 < i < k.len(),
        k[i] <= k[parent_index(i)],
    ensures
        ordered_up(seq_swap(k, parent_index(i), i), parent_index(i)),
{
    let p = parent_index(i);
    let k2 = seq_swap(k, p, i);
    lemma_hole_step(k, i);
    assert forall|j: int| 0 < j < k2.len() && parent_index(j) == p implies #[trigger] le_parent(
        k2,
        j,
    ) by {
        if j != i {
            assert(le_parent(k, j));
        }
    }
}

proof fn lemma_up_done(k: Seq<int>, i: int)
    requires
        ordered_up(k, i),
        0 <= i < k.len(),
        i == 0 || k[parent_index(i)] <= k[i],
    ensures
        ordered(k),
{
    assert forall|j: int| 0 < j < k.len() implies #[trigger] le_parent(k, j) by {
        if j == i {
        } else if parent_index(j) == i {
        } else {
        }
    }
}

proof fn lemma_down_step(k: Seq<int>, i: int, s: int)
    requires
        ordered_down(k, i),
        0 <= i < k.len(),
        0 < s < k.len(),
        parent_index(s) == i,
        k[s] <= k[i],
        forall|j: int| 0 < j < k.len() && parent_index(j) == i ==> k[s] <= #[trigger] k[j],
    ensures
        ordered_down(seq_swap(k, i, s), s),
{
    let k2 = seq_swap(k, i, s);
    assert forall|j: int| 0 < j < k2.len() && j != s && parent_index(j) != s implies #[trigger]
    le_parent(k2, j) by {
        if j == i {
            assert(le_grand(k, s));
        } else if parent_index(j) == i {
            assert(k[s] <= k[j]);
        } else {
            assert(le_parent(k, j));
        }
    }
    assert forall|j: int| 0 < j < k2.len() && parent_index(j) == s && s > 0 implies #[trigger]
    le_grand(k2, j) by {
        assert(le_parent(k, j));
    }
}

proof fn lemma_down_done(k: Seq<int>, i: int)
    requires
        ordered_down(k, i),
        0 <= i < k.len(),
        forall|j: int| 0 < j < k.len() && parent_index(j) == i ==> k[i] <= #[trigger] k[j],
    ensures
        ordered(k),
{
    assert forall|j: int| 0 < j < k.len() implies #[trigger] le_parent(k, j) by {
        if j == i {
        } else if parent_index(j) == i {
            assert(k[i] <= k[j]);
        } else {
        }
    }
}

proof fn lemma_ordered_is_hole(k: Seq<int>, i: int)
    requires
        ordered(k),
        0 <= i < k.len(),
    ensures
        ordered_up(k, i),
        ordered_down(k, i),
{
    assert forall|j: int| 0 < j < k.len() && parent_index(j) == i && i > 0 implies #[trigger]
    le_grand(k, j) by {
        assert(le_parent(k, j));
        assert(le_parent(k, i));
    }
}

/// Moving the last rank into the root and dropping the last position keeps
/// the order everywhere but at the root.
proof fn lemma_pop_root(k: Seq<int>)
    requires
        ordered_hole(k, 0),
        k.len() >= 2,
    ensures
        ordered_down(seq_swap(k, 0, k.len() - 1).drop_last(), 0),
{
    let k2 = seq_swap(k, 0, k.len() - 1).drop_last();
    assert forall|j: int| 0 < j < k2.len() && j != 0 && parent_index(j) != 0 implies #[trigger]
    le_parent(k2, j) by {
        assert(le_parent(k, j));
    }
}

/// Lowering the rank at `i` leaves at most `i` below its parent.
proof fn lemma_lowered(k: Seq<int>, i: int, v: int)
    requires
        ordered(k),
        0 <= i < k.len(),
        v <= k[i],
    ensures
        ordered_up(k.update(i, v), i),
{
    let k2 = k.update(i, v);
    assert forall|j: int| 0 < j < k2.len() && j != i && parent_index(j) != i implies #[trigger]
    le_parent(k2, j) by {
        assert(le_parent(k, j));
    }
    assert forall|j: int| 0 < j < k2.len() && parent_index(j) == i && i > 0 implies #[trigger]
    le_grand(k2, j) by {
        assert(le_parent(k, j));
        assert(le_parent(k, i));
    }
    assert forall|j: int| 0 < j < k2.len() && parent_index(j) == i implies #[trigger] le_parent(
        k2,
        j,
    ) by {
        assert(le_parent(k, j));
    }
}

/// Raising the rank at `i` leaves at most `i` above its children.
proof fn lemma_raised(k: Seq<int>, i: int, v: int)
    requires
        ordered(k),
        0 <= i < k.len(),
        k[i] <= v,
    ensures
        ordered_down(k.update(i, v), i),
{
    let k2 = k.update(i, v);
    assert forall|j: int| 0 < j < k2.len() && j != i && parent_index(j) != i implies #[trigger]
    le_parent(k2, j) by {
        assert(le_parent(k, j));
    }
    assert forall|j: int| 0 < j < k2.len() && parent_index(j) == i && i > 0 implies #[trigger]
    le_grand(k2, j) by {
        assert(le_parent(k, j));
        assert(le_parent(k, i));
    }
    if 0 < i {
        assert(le_parent(k, i));
    }
}

/// Appending a rank leaves at most the new last position below its parent.
proof fn lemma_pushed(k: Seq<int>, v: int)
    requires
        ordered(k),
    ensures
        ordered_up(k.push(v), k.len() as int),
{
    let k2 = k.push(v);
    let i = k.len() as int;
    assert forall|j: int| 0 < j < k2.len() && j != i && parent_index(j) != i implies #[trigger]
    le_parent(k2, j) by {
        assert(le_parent(k, j));
    }
}

// ---------------------------------------------------------------------------
// Tree position arithmetic

fn bin_parent(i: usize) -> (p: usize)
    requires
        i > 0,
    ensures
        p == parent_index(i as int),
        p < i,
{
    (i - 1) / 2
}

fn bin_left(i: usize) -> (l: usize)
    requires
        2 * i + 1 <= usize::MAX,
    ensures
        l == 2 * i + 1,
        parent_index(l as int) == i,
{
    i * 2 + 1
}

fn bin_right(i: usize) -> (r: usize)
    requires
        2 * i + 2 <= usize::MAX,
    ensures
        r == 2 * i + 2,
        parent_index(r as int) == i,
{
    i * 2 + 2
}

/// Whether `h` names an entry of `m` whose key no entry of `m` comes before.
pub open spec fn is_min_entry<TOrd: HeapValue, TData: HeapData>(
    m: Map<NodeHandle, (TOrd, TData)>,
    h: NodeHandle,
) -> bool {
    &&& m.dom().contains(h)
    &&& forall|o: NodeHandle| #[trigger] m.dom().contains(o) ==> m[h].0.rank() <= m[o].0.rank()
}

impl<TOrd: HeapValue, TData: HeapData> View for MinHeap<TOrd, TData> {
    type V = Map<NodeHandle, (TOrd, TData)>;

    /// Live handles, each with its key and payload.
    closed spec fn view(&self) -> Map<NodeHandle, (TOrd, TData)> {
        Map::new(
            |h: NodeHandle| self.slot_live(h.0 as int),
            |h: NodeHandle| (self.node@[h.0 as int].value, self.node@[h.0 as int].user_data),
        )
    }
}

impl<TOrd: HeapValue, TData: HeapData> MinHeap<TOrd, TData> {
    // -------------------------------------------------------------------
    // Model

    /// Slot `s` holds an entry of the heap.
    spec fn slot_live(&self, s: int) -> bool {
        &&& 0 <= s < self.node@.len()
        &&& self.node@[s].index < self.tree_index@.len()
        &&& self.tree_index@[self.node@[s].index as int] == s
    }

    /// Tree positions and node slots point at each other.
    spec fn links_ok(&self) -> bool {
        forall|i: int|
            0 <= i < self.tree_index@.len() ==> (#[trigger] self.tree_index@[i])
                < self.node@.len() && self.node@[self.tree_index@[i] as int].index == i
    }

    /// The free list is a chain of distinct released slots.
    spec fn free_ok(&self) -> bool {
        let fl = self.free_list@;
        &&& self.free == (if fl.len() == 0 {
            INVALID
        } else {
            fl[0]
        })
        &&& fl.no_duplicates()
        &&& forall|k: int|
            0 <= k < fl.len() ==> {
                &&& (#[trigger] fl[k]) < self.node@.len()
                &&& !self.slot_live(fl[k] as int)
                &&& self.node@[fl[k] as int].index == (if k + 1 < fl.len() {
                    fl[k + 1]
                } else {
                    INVALID
                })
            }
    }

    spec fn structure_ok(&self) -> bool {
        self.links_ok() && self.free_ok()
    }

    /// Same slots with the same keys and payloads as `other`.
    spec fn same_payloads(&self, other: Self) -> bool {
        &&& self.node@.len() == other.node@.len()
        &&& forall|s: int|
            0 <= s < self.node@.len() ==> (#[trigger] self.node@[s]).value == other.node@[s].value
                && self.node@[s].user_data == other.node@[s].user_data
    }

    /// Ranks of the keys in tree order.
    spec fn keys(&self) -> Seq<int> {
        Seq::new(
            self.tree_index@.len(),
            |i: int| self.node@[self.tree_index@[i] as int].value.rank(),
        )
    }

    /// The heap's invariant: storage is consistent and keys are in heap order.
    pub closed spec fn wf(&self) -> bool {
        self.structure_ok() && ordered(self.keys())
    }

    /// Number of entries.
    pub closed spec fn spec_len(&self) -> nat {
        self.tree_index@.len()
    }

    /// The entry that the next `pop_min` takes.  Among entries of least key
    /// the choice depends on the shape of the tree.
    pub closed spec fn min_handle(&self) -> NodeHandle {
        NodeHandle(self.tree_index@[0])
    }

    /// A heap has no entry exactly when its length is zero.
    pub proof fn lemma_len_zero(&self)
        requires
            self.wf(),
        ensures
            self.spec_len() == 0 <==> self@ == Map::<NodeHandle, (TOrd, TData)>::empty(),
    {
        if self.tree_index@.len() == 0 {
            assert(self@ =~= Map::<NodeHandle, (TOrd, TData)>::empty());
        } else {
            let s = self.tree_index@[0];
            assert(self.slot_live(s as int));
            assert(self@.dom().contains(NodeHandle(s)));
        }
    }

    /// In a non-empty heap `min_handle` names an entry of least key.
    pub proof fn lemma_min_handle(&self)
        requires
            self.wf(),
            self.spec_len() > 0,
        ensures
            is_min_entry(self@, self.min_handle()),
    {
        let root = self.tree_index@[0];
        assert(self.slot_live(root as int));
        assert forall|o: NodeHandle| #[trigger]
            self@.dom().contains(o) implies self@[self.min_handle()].0.rank()
            <= self@[o].0.rank() by {
            let j = self.node@[o.0 as int].index as int;
            lemma_root_is_least(self.keys(), j);
        }
    }

    /// No heap holds the invalid handle.
    pub proof fn lemma_invalid_not_live(&self)
        ensures
            !self@.dom().contains(NodeHandle::spec_invalid()),
    {
        assert(self.node.len() == self.node@.len());
    }

    // -------------------------------------------------------------------
    // Private operations

    /// Strict order of two nodes by key.
    fn node_compare(a: &Node<TOrd, TData>, b: &Node<TOrd, TData>) -> (r: bool)
        ensures
            r == (a.value.rank() < b.value.rank()),
    {
        a.value.less(&b.value)
    }

    /// Whether `nhandle` names an entry of the heap.  Looks through the
    /// whole heap.
    #[verifier::rlimit(50)]
    pub fn contains_node_handle(&self, nhandle: &NodeHandle) -> (r: bool)
        requires
            self.wf(),
        ensures
            r == self@.dom().contains(*nhandle),
    {
        let mut i: usize = 0;
        while i < self.tree_index.len()
            invariant
                self.structure_ok(),
                i <= self.tree_index@.len(),
                forall|j: int| 0 <= j < i ==> self.tree_index@[j] != nhandle.0,
            decreases self.tree_index@.len() - i,
        {
            if self.tree_index[i] == nhandle.0 {
                assert(self.slot_live(nhandle.0 as int));
                return true;
            }
            i += 1;
        }
        false
    }

    /// Exchange two tree positions.
    #[verifier::rlimit(50)]
    fn heap_swap(&mut self, i: usize, j: usize)
        requires
            old(self).structure_ok(),
            i < old(self).tree_index@.len(),
            j < old(self).tree_index@.len(),
        ensures
            final(self).structure_ok(),
            final(self)@ == old(self)@,
            final(self).keys() == seq_swap(old(self).keys(), i as int, j as int),
            final(self).tree_index@ == old(self).tree_index@.update(
                i as int,
                old(self).tree_index@[j as int],
            ).update(j as int, old(self).tree_index@[i as int]),
            final(self).same_payloads(*old(self)),
            final(self).free_list@ == old(self).free_list@,
    {
        let i_node = self.tree_index[i];
        let j_node = self.tree_index[j];
        self.tree_index[i] = j_node;
        self.tree_index[j] = i_node;
        let t = self.node[j_node].index;
        let u = self.node[i_node].index;
        self.node[j_node].index = u;
        self.node[i_node].index = t;
        proof {
            let before = *old(self);
            assert(before.tree_index@[i as int] == i_node);
            assert(before.tree_index@[j as int] == j_node);
            assert(t == j && u == i);
            assert forall|s: int| self.slot_live(s) == before.slot_live(s) by {
                if before.slot_live(s) {
                    let q = before.node@[s].index as int;
                    assert(before.tree_index@[q] == s);
                    if q == i {
                    } else if q == j {
                    } else {
                        assert(self.tree_index@[q] == s);
                    }
                }
                if self.slot_live(s) {
                    let q = self.node@[s].index as int;
                    assert(self.tree_index@[q] == s);
                    if q == i {
                        assert(before.tree_index@[j as int] == s);
                    } else if q == j {
                        assert(before.tree_index@[i as int] == s);
                    } else {
                        assert(before.tree_index@[q] == s);
                    }
                }
            }
            assert(self@ =~= before@);
            assert(self.keys() =~= seq_swap(before.keys(), i as int, j as int));
            assert(self.links_ok());
            let fl = self.free_list@;
            assert forall|k: int| 0 <= k < fl.len() implies {
                &&& (#[trigger] fl[k]) < self.node@.len()
                &&& !self.slot_live(fl[k] as int)
                &&& self.node@[fl[k] as int].index == (if k + 1 < fl.len() {
                    fl[k + 1]
                } else {
                    INVALID
                })
            } by {
                assert(!before.slot_live(fl[k] as int));
            }
        }
    }
    /// The node at tree position `i`.
    fn tree(&self, i: usize) -> (n: &Node<TOrd, TData>)
        requires
            self.links_ok(),
            i < self.tree_index@.len(),
        ensures
            *n == self.node@[self.tree_index@[i as int] as int],
    {
        &self.node[self.tree_index[i]]
    }

    /// Strict order of the keys at two tree positions.
    fn heap_compare(&self, i: usize, j: usize) -> (r: bool)
        requires
            self.links_ok(),
            i < self.tree_index@.len(),
            j < self.tree_index@.len(),
        ensures
            r == (self.keys()[i as int] < self.keys()[j as int]),
    {
        Self::node_compare(self.tree(i), self.tree(j))
    }

    /// One step of sinking the entry at position `i`: exchange it with its
    /// smaller child if that is smaller than it.  Hands back the position
    /// the entry is at afterwards.
    #[verifier::rlimit(50)]
    fn heap_down_step(&mut self, i: usize) -> (smallest: usize)
        requires
            old(self).structure_ok(),
            i < old(self).tree_index@.len(),
            ordered_down(old(self).keys(), i as int),
        ensures
            final(self).structure_ok(),
            final(self)@ == old(self)@,
            final(self).same_payloads(*old(self)),
            final(self).tree_index@.len() == old(self).tree_index@.len(),
            final(self).free_list@ == old(self).free_list@,
            i <= smallest < final(self).tree_index@.len(),
            smallest == i ==> ordered(final(self).keys()),
            smallest != i ==> ordered_down(final(self).keys(), smallest as int),
    {
        let size = self.tree_index.len();
        if i >= size / 2 {
            // no child inside the tree
            proof {
                lemma_down_done(self.keys(), i as int);
            }
            return i;
        }
        let l = bin_left(i);
        let r = bin_right(i);

        let mut smallest = if (l < size) && self.heap_compare(l, i) {
            l
        } else {
            i
        };

        if (r < size) && self.heap_compare(r, smallest) {
            smallest = r;
        }
        if smallest == i {
            proof {
                lemma_down_done(self.keys(), i as int);
            }
            return i;
        }
        proof {
            lemma_down_step(self.keys(), i as int, smallest as int);
        }
        self.heap_swap(i, smallest);
        smallest
    }

    /// Sink the entry at position `i` until its children are no smaller.
    #[verifier::rlimit(50)]
    fn heap_down(&mut self, i: usize)
        requires
            old(self).structure_ok(),
            i < old(self).tree_index@.len(),
            ordered_down(old(self).keys(), i as int),
        ensures
            final(self).wf(),
            final(self)@ == old(self)@,
            final(self).same_payloads(*old(self)),
            final(self).tree_index@.len() == old(self).tree_index@.len(),
            final(self).free_list@ == old(self).free_list@,
    {
        // size won't change in the loop
        let size = self.tree_index.len();
        let mut i = i;
        loop
            invariant_except_break
                ordered_down(self.keys(), i as int),
            invariant
                self.structure_ok(),
                i < size,
                size == self.tree_index@.len(),
                self@ == old(self)@,
                self.same_payloads(*old(self)),
                self.free_list@ == old(self).free_list@,
            ensures
                ordered(self.keys()),
            decreases size - i,
        {
            let smallest = self.heap_down_step(i);
            if smallest == i {
                break ;
            }
            i = smallest;
        }
    }

    /// Raise the entry at position `i` until its parent is smaller.
    #[verifier::rlimit(50)]
    fn heap_up(&mut self, i: usize)
        requires
            old(self).structure_ok(),
            i < old(self).tree_index@.len(),
            ordered_up(old(self).keys(), i as int),
        ensures
            final(self).wf(),
            final(self)@ == old(self)@,
            final(self).same_payloads(*old(self)),
            final(self).tree_index@.len() == old(self).tree_index@.len(),
            final(self).free_list@ == old(self).free_list@,
    {
        let mut i = i;
        proof {
            if i == 0 {
                lemma_up_done(self.keys(), 0);
            }
        }
        while i > 0
            invariant_except_break
                ordered_up(self.keys(), i as int),
                i == 0 ==> ordered(self.keys()),
            invariant
                self.structure_ok(),
                i < self.tree_index@.len(),
                self.tree_index@.len() == old(self).tree_index@.len(),
                self@ == old(self)@,
                self.same_payloads(*old(self)),
                self.free_list@ == old(self).free_list@,
            ensures
                ordered(self.keys()),
            decreases i,
        {
            let p = bin_parent(i);
            if self.heap_compare(p, i) {
                proof {
                    lemma_up_done(self.keys(), i as int);
                }
                break ;
            }
            proof {
                lemma_up_step(self.keys(), i as int);
            }
            self.heap_swap(p, i);
            i = p;
            proof {
                if i == 0 {
                    lemma_up_done(self.keys(), 0);
                }
            }
        }
    }

    /// Claim a slot for `node_data`: the head of the free list if there is
    /// one, a new slot otherwise.
    #[verifier::rlimit(50)]
    fn node_take(&mut self, node_data: Node<TOrd, TData>) -> (h: NodeHandle)
        requires
            old(self).structure_ok(),
            node_data.index == old(self).tree_index@.len(),
        ensures
            final(self).structure_ok(),
            final(self)@ == old(self)@,
            final(self).tree_index@ == old(self).tree_index@,
            h.0 < final(self).node@.len(),
            h != NodeHandle::spec_invalid(),
            !old(self)@.dom().contains(h),
            !final(self).free_list@.contains(h.0),
            final(self).node@[h.0 as int] == node_data,
            forall|i: int|
                0 <= i < final(self).tree_index@.len() ==> final(self).node@[final(
                    self
                ).tree_index@[i] as int] == old(self).node@[old(self).tree_index@[i] as int],
    {
        let nhandle;
        if self.free == INVALID {
            nhandle = self.node.len();
            self.node.push(node_data);
            proof {
                assert(self.node.len() == self.node@.len());
                assert(!self.free_list@.contains(nhandle)) by {
                    if self.free_list@.contains(nhandle) {
                        let k = choose|k: int|
                            0 <= k < self.free_list@.len() && self.free_list@[k] == nhandle;
                        assert(old(self).free_list@[k] < old(self).node@.len());
                    }
                }
            }
        } else {
            nhandle = self.free;
            proof {
                assert(self.free_list@[0] == nhandle);
                assert(self.node.len() == self.node@.len());
            }
            let next = self.node[nhandle].index;
            self.free = next;
            self.node[nhandle] = node_data;
            proof {
                let fl = old(self).free_list@;
                self.free_list@ = fl.skip(1);
                assert(!self.free_list@.contains(nhandle)) by {
                    if self.free_list@.contains(nhandle) {
                        let k = choose|k: int|
                            0 <= k < self.free_list@.len() && self.free_list@[k] == nhandle;
                        assert(fl[k + 1] == nhandle);
                    }
                }
                assert forall|k: int| 0 <= k < self.free_list@.len() implies {
                    &&& (#[trigger] self.free_list@[k]) < self.node@.len()
                    &&& !self.slot_live(self.free_list@[k] as int)
                    &&& self.node@[self.free_list@[k] as int].index == (if k + 1
                        < self.free_list@.len() {
                        self.free_list@[k + 1]
                    } else {
                        INVALID
                    })
                } by {
                    assert(fl[k + 1] == self.free_list@[k]);
                    assert(fl[k + 1] != fl[0]);
                    assert(!old(self).slot_live(fl[k + 1] as int));
                }
            }
        }
        proof {
            let before = *old(self);
            assert forall|i: int| 0 <= i < self.tree_index@.len() implies (
            #[trigger] self.tree_index@[i]) < self.node@.len() && self.node@[self.tree_index@[i] as int]
                == before.node@[before.tree_index@[i] as int] by {
                assert(before.slot_live(before.tree_index@[i] as int));
            }
            assert forall|s: int| self.slot_live(s) == before.slot_live(s) by {
                if s == nhandle {
                } else if 0 <= s < before.node@.len() {
                    assert(self.node@[s] == before.node@[s]);
                }
            }
            assert forall|k: int| 0 <= k < self.free_list@.len() implies {
                &&& (#[trigger] self.free_list@[k]) < self.node@.len()
                &&& !self.slot_live(self.free_list@[k] as int)
                &&& self.node@[self.free_list@[k] as int].index == (if k + 1
                    < self.free_list@.len() {
                    self.free_list@[k + 1]
                } else {
                    INVALID
                })
            } by {
                if before.free == INVALID {
                    assert(!before.slot_live(before.free_list@[k] as int));
                }
            }
            assert(self@ =~= before@);
        }
        NodeHandle(nhandle)
    }

    /// Release slot `free_node` to the free list and hand back its payload.
    #[verifier::rlimit(50)]
    fn node_drop(&mut self, free_node: usize) -> (user_data: TData)
        requires
            old(self).structure_ok(),
            free_node < old(self).node@.len(),
            !old(self).slot_live(free_node as int),
            !old(self).free_list@.contains(free_node),
        ensures
            final(self).structure_ok(),
            final(self)@ == old(self)@,
            final(self).keys() == old(self).keys(),
            final(self).tree_index@ == old(self).tree_index@,
            user_data == old(self).node@[free_node as int].user_data,
    {
        let user_data = self.node[free_node].user_data;
        let head = self.free;
        self.node[free_node].index = head;
        self.free = free_node;
        proof {
            let before = *old(self);
            let fl = before.free_list@;
            self.free_list@ = seq![free_node].add(fl);
            let fl2 = self.free_list@;
            assert forall|i: int| 0 <= i < self.tree_index@.len() implies (
            #[trigger] self.tree_index@[i]) != free_node by {
                assert(before.slot_live(before.tree_index@[i] as int));
            }
            assert forall|s: int| self.slot_live(s) == before.slot_live(s) by {
                if s != free_node && 0 <= s < before.node@.len() {
                    assert(self.node@[s] == before.node@[s]);
                }
            }
            assert(self@ =~= before@);
            assert(self.keys() =~= before.keys());
            assert forall|k: int| 0 <= k < fl2.len() implies {
                &&& (#[trigger] fl2[k]) < self.node@.len()
                &&& !self.slot_live(fl2[k] as int)
                &&& self.node@[fl2[k] as int].index == (if k + 1 < fl2.len() {
                    fl2[k + 1]
                } else {
                    INVALID
                })
            } by {
                if k > 0 {
                    assert(fl2[k] == fl[k - 1]);
                    assert(fl.contains(fl[k - 1]));
                    assert(!before.slot_live(fl[k - 1] as int));
                    if k + 1 < fl2.len() {
                        assert(fl2[k + 1] == fl[k]);
                    }
                } else {
                    if fl.len() > 0 {
                        assert(fl2[1] == fl[0]);
                    }
                }
            }
            assert(fl2.no_duplicates()) by {
                assert forall|a: int, b: int|
                    0 <= a < fl2.len() && 0 <= b < fl2.len() && a != b implies fl2[a] != fl2[b] by {
                    if a > 0 {
                        assert(fl.contains(fl[a - 1]));
                    }
                    if b > 0 {
                        assert(fl.contains(fl[b - 1]));
                    }
                }
            }
        }
        user_data
    }

    /// Take the root out of the tree and restore heap order.  The slot of the
    /// old root is left for the caller to release.
    #[verifier::rlimit(50)]
    fn pop_root(&mut self) -> (free_node: usize)
        requires
            old(self).structure_ok(),
            old(self).tree_index@.len() > 0,
            ordered_hole(old(self).keys(), 0),
        ensures
            final(self).wf(),
            free_node == old(self).tree_index@[0],
            free_node < final(self).node@.len(),
            !final(self).slot_live(free_node as int),
            !final(self).free_list@.contains(free_node),
            final(self)@ == old(self)@.remove(NodeHandle(free_node)),
            old(self)@.dom().contains(NodeHandle(free_node)),
            final(self).same_payloads(*old(self)),
            final(self).tree_index@.len() == old(self).tree_index@.len() - 1,
    {
        let free_node = self.tree_index[0];
        proof {
            assert(self.slot_live(free_node as int));
            assert(!self.free_list@.contains(free_node)) by {
                if self.free_list@.contains(free_node) {
                    let k = choose|k: int|
                        0 <= k < self.free_list@.len() && self.free_list@[k] == free_node;
                    assert(!self.slot_live(self.free_list@[k] as int));
                }
            }
        }
        let tree_index_len = self.tree_index.len() - 1;
        if tree_index_len != 0 {
            self.heap_swap(0, tree_index_len);
            let ghost mid = *self;
            self.tree_index.pop();
            proof {
                lemma_pop_root(old(self).keys());
                assert(self.keys() =~= seq_swap(
                    old(self).keys(),
                    0,
                    tree_index_len as int,
                ).drop_last());
                self.lemma_truncated(mid, free_node);
            }
            let ghost cut = *self;
            self.heap_down(0);
            proof {
                assert(!cut@.dom().contains(NodeHandle(free_node)));
                assert(!self@.dom().contains(NodeHandle(free_node)));
            }
        } else {
            let ghost mid = *self;
            self.tree_index.pop();
            proof {
                self.lemma_truncated(mid, free_node);
                assert(self.keys() =~= Seq::<int>::empty());
            }
        }
        free_node
    }

    /// Dropping the last tree position of `mid` unlinks the slot it held and
    /// nothing else.
    #[verifier::rlimit(50)]
    proof fn lemma_truncated(&self, mid: Self, last_node: usize)
        requires
            mid.structure_ok(),
            mid.tree_index@.len() > 0,
            last_node == mid.tree_index@[mid.tree_index@.len() - 1],
            self.tree_index@ == mid.tree_index@.drop_last(),
            self.node@ == mid.node@,
            self.free == mid.free,
            self.free_list@ == mid.free_list@,
        ensures
            self.structure_ok(),
            !self.slot_live(last_node as int),
            self@ == mid@.remove(NodeHandle(last_node)),
            mid@.dom().contains(NodeHandle(last_node)),
    {
        let n = self.tree_index@.len() as int;
        assert(mid.slot_live(last_node as int));
        assert forall|s: int| self.slot_live(s) == (mid.slot_live(s) && s != last_node) by {
            if mid.slot_live(s) && s != last_node {
                let q = mid.node@[s].index as int;
                if q == n {
                    assert(mid.tree_index@[n] == last_node);
                }
            }
        }
        assert(self@ =~= mid@.remove(NodeHandle(last_node)));
        assert forall|k: int| 0 <= k < self.free_list@.len() implies {
            &&& (#[trigger] self.free_list@[k]) < self.node@.len()
            &&& !self.slot_live(self.free_list@[k] as int)
            &&& self.node@[self.free_list@[k] as int].index == (if k + 1 < self.free_list@.len() {
                self.free_list@[k + 1]
            } else {
                INVALID
            })
        } by {
            assert(!mid.slot_live(mid.free_list@[k] as int));
        }
    }

    // -------------------------------------------------------------------
    // Public operations

    /// Add an entry.  The handle it returns names the entry until it is
    /// popped or removed; it is never the invalid handle.
    #[verifier::rlimit(50)]
    pub fn insert(&mut self, value: TOrd, user_data: TData) -> (h: NodeHandle)
        requires
            old(self).wf(),
        ensures
            final(self).wf(),
            h != NodeHandle::spec_invalid(),
            !old(self)@.dom().contains(h),
            final(self)@ == old(self)@.insert(h, (value, user_data)),
            final(self).spec_len() == old(self).spec_len() + 1,
    {
        let tree_index = self.tree_index.len();

        let nhandle = self.node_take(Node { user_data: user_data, value: value, index: tree_index });
        let ghost mid = *self;

        let index = self.tree_index.len();
        self.tree_index.push(nhandle.0);
        proof {
            let before = *old(self);
            assert(mid.keys() =~= before.keys());
            lemma_pushed(before.keys(), value.rank());
            assert(self.keys() =~= before.keys().push(value.rank()));
            assert forall|s: int| self.slot_live(s) == (mid.slot_live(s) || s == nhandle.0) by {
                if mid.slot_live(s) {
                    assert(mid@.dom().contains(NodeHandle(s as usize)));
                }
            }
            assert(self@ =~= before@.insert(nhandle, (value, user_data)));
            assert forall|k: int| 0 <= k < self.free_list@.len() implies {
                &&& (#[trigger] self.free_list@[k]) < self.node@.len()
                &&& !self.slot_live(self.free_list@[k] as int)
                &&& self.node@[self.free_list@[k] as int].index == (if k + 1
                    < self.free_list@.len() {
                    self.free_list@[k + 1]
                } else {
                    INVALID
                })
            } by {
                assert(!mid.slot_live(mid.free_list@[k] as int));
                assert(mid.free_list@.contains(mid.free_list@[k]));
            }
            assert forall|i: int| 0 <= i < self.tree_index@.len() implies (
            #[trigger] self.tree_index@[i]) < self.node@.len()
                && self.node@[self.tree_index@[i] as int].index == i by {
                if i < index {
                    assert(mid.tree_index@[i] == self.tree_index@[i]);
                }
            }
        }

        self.heap_up(index);

        // index in the node storage
        nhandle
    }

    /// Take out an entry of least key and hand back its payload; `None` when
    /// the heap is empty.
    pub fn pop_min(&mut self) -> (r: Option<TData>)
        requires
            old(self).wf(),
        ensures
            final(self).wf(),
            old(self).spec_len() == 0 ==> r.is_none() && final(self)@ == old(self)@,
            old(self).spec_len() > 0 ==> {
                &&& is_min_entry(old(self)@, old(self).min_handle())
                &&& r == Some(old(self)@[old(self).min_handle()].1)
                &&& final(self)@ == old(self)@.remove(old(self).min_handle())
                &&& final(self).spec_len() == old(self).spec_len() - 1
            },
    {
        if self.tree_index.len() == 0 {
            return None;
        }
        proof {
            self.lemma_min_handle();
            lemma_ordered_is_hole(self.keys(), 0);
        }
        let free_node = self.pop_root();
        Some(self.node_drop(free_node))
    }

    /// Like `pop_min`, and hands back the key as well.
    pub fn pop_min_with_value(&mut self) -> (r: Option<(TOrd, TData)>)
        requires
            old(self).wf(),
        ensures
            final(self).wf(),
            old(self).spec_len() == 0 ==> r.is_none() && final(self)@ == old(self)@,
            old(self).spec_len() > 0 ==> {
                &&& is_min_entry(old(self)@, old(self).min_handle())
                &&& r == Some(old(self)@[old(self).min_handle()])
                &&& final(self)@ == old(self)@.remove(old(self).min_handle())
                &&& final(self).spec_len() == old(self).spec_len() - 1
            },
    {
        if self.tree_index.len() == 0 {
            return None;
        }
        proof {
            self.lemma_min_handle();
            lemma_ordered_is_hole(self.keys(), 0);
        }
        let free_node = self.pop_root();
        let value = self.node[free_node].value;
        Some((value, self.node_drop(free_node)))
    }

    /// Insert when `nhandle_p` is the invalid handle, storing the new handle
    /// in it; otherwise give the entry it names a new key and payload.
    pub fn insert_or_update(&mut self, nhandle_p: &mut NodeHandle, value: TOrd, user_data: TData)
        requires
            old(self).wf(),
            *old(nhandle_p) != NodeHandle::spec_invalid() ==> old(self)@.dom().contains(
                *old(nhandle_p),
            ),
        ensures
            final(self).wf(),
            *old(nhandle_p) == NodeHandle::spec_invalid() ==> {
                &&& !old(self)@.dom().contains(*final(nhandle_p))
                &&& *final(nhandle_p) != NodeHandle::spec_invalid()
                &&& final(self)@ == old(self)@.insert(*final(nhandle_p), (value, user_data))
            },
            *old(nhandle_p) != NodeHandle::spec_invalid() ==> {
                &&& *final(nhandle_p) == *old(nhandle_p)
                &&& final(self)@ == old(self)@.insert(
                    *old(nhandle_p),
                    (rekeyed(old(self)@[*old(nhandle_p)].0, value), user_data),
                )
            },
    {
        if nhandle_p.0 == INVALID {
            *nhandle_p = self.insert(value, user_data)
        } else {
            self.node_value_update_with_data(*nhandle_p, value, user_data);
        }
    }

    /// Take out the entry that `nhandle` names, wherever it is in the tree.
    #[verifier::rlimit(50)]
    pub fn remove(&mut self, nhandle: NodeHandle)
        requires
            old(self).wf(),
            old(self)@.dom().contains(nhandle),
        ensures
            final(self).wf(),
            final(self)@ == old(self)@.remove(nhandle),
            final(self).spec_len() == old(self).spec_len() - 1,
    {
        let mut i = self.node[nhandle.0].index;
        proof {
            lemma_ordered_is_hole(self.keys(), i as int);
        }
        while i > 0
            invariant
                self.structure_ok(),
                i < self.tree_index@.len(),
                self.tree_index@[i as int] == nhandle.0,
                self.tree_index@.len() == old(self).tree_index@.len(),
                ordered_hole(self.keys(), i as int),
                self@ == old(self)@,
            decreases i,
        {
            let p = bin_parent(i);
            proof {
                lemma_hole_step(self.keys(), i as int);
            }
            self.heap_swap(p, i);
            i = p;
        }
        let free_node = self.pop_root();
        self.node_drop(free_node);
    }

    /// Whether the heap has no entry.
    pub fn is_empty(&self) -> (b: bool)
        requires
            self.wf(),
        ensures
            b == (self.spec_len() == 0),
            b == (self@ == Map::<NodeHandle, (TOrd, TData)>::empty()),
    {
        proof {
            self.lemma_len_zero();
        }
        self.tree_index.len() == 0
    }

    /// Give the entry that `nhandle` names the key `value` and move it to
    /// its place.  A key of the same rank as the present one is left as it is.
    #[verifier::rlimit(50)]
    pub fn node_value_update(&mut self, nhandle: NodeHandle, value: TOrd)
        requires
            old(self).wf(),
            old(self)@.dom().contains(nhandle),
        ensures
            final(self).wf(),
            final(self)@ == old(self)@.insert(
                nhandle,
                (rekeyed(old(self)@[nhandle].0, value), old(self)@[nhandle].1),
            ),
            final(self).spec_len() == old(self).spec_len(),
    {
        let index = self.node[nhandle.0].index;
        let value_curr = self.node[nhandle.0].value;
        if value.less(&value_curr) {
            self.node[nhandle.0].value = value;
            proof {
                self.lemma_rekeyed(*old(self), nhandle, value);
                lemma_lowered(old(self).keys(), index as int, value.rank());
            }
            self.heap_up(index);
        } else if value_curr.less(&value) {
            self.node[nhandle.0].value = value;
            proof {
                self.lemma_rekeyed(*old(self), nhandle, value);
                lemma_raised(old(self).keys(), index as int, value.rank());
            }
            self.heap_down(index);
        } else {
            proof {
                assert(self@ =~= old(self)@.insert(
                    nhandle,
                    (rekeyed(old(self)@[nhandle].0, value), old(self)@[nhandle].1),
                ));
            }
        }
    }

    /// Writing a key into a live slot changes that entry's key and nothing
    /// else.
    #[verifier::rlimit(50)]
    proof fn lemma_rekeyed(&self, before: Self, nhandle: NodeHandle, value: TOrd)
        requires
            before.structure_ok(),
            before.slot_live(nhandle.0 as int),
            self.tree_index@ == before.tree_index@,
            self.free == before.free,
            self.free_list@ == before.free_list@,
            self.node@ == before.node@.update(
                nhandle.0 as int,
                Node {
                    value: value,
                    user_data: before.node@[nhandle.0 as int].user_data,
                    index: before.node@[nhandle.0 as int].index,
                },
            ),
        ensures
            self.structure_ok(),
            self@ == before@.insert(nhandle, (value, before@[nhandle].1)),
            self.keys() == before.keys().update(
                before.node@[nhandle.0 as int].index as int,
                value.rank(),
            ),
    {
        assert forall|s: int| self.slot_live(s) == before.slot_live(s) by {}
        assert(self@ =~= before@.insert(nhandle, (value, before@[nhandle].1)));
        assert(self.keys() =~= before.keys().update(
            before.node@[nhandle.0 as int].index as int,
            value.rank(),
        )) by {
            assert forall|i: int| 0 <= i < self.tree_index@.len() implies self.keys()[i]
                == before.keys().update(
                before.node@[nhandle.0 as int].index as int,
                value.rank(),
            )[i] by {
                assert(before.slot_live(before.tree_index@[i] as int));
            }
        }
        assert forall|k: int| 0 <= k < self.free_list@.len() implies {
            &&& (#[trigger] self.free_list@[k]) < self.node@.len()
            &&& !self.slot_live(self.free_list@[k] as int)
            &&& self.node@[self.free_list@[k] as int].index == (if k + 1 < self.free_list@.len() {
                self.free_list@[k + 1]
            } else {
                INVALID
            })
        } by {
            assert(!before.slot_live(before.free_list@[k] as int));
        }
    }

    /// Give the entry that `nhandle` names a new payload, then the key
    /// `value` as `node_value_update` does.
    #[verifier::rlimit(50)]
    pub fn node_value_update_with_data(
        &mut self,
        nhandle: NodeHandle,
        value: TOrd,
        user_data: TData,
    )
        requires
            old(self).wf(),
            old(self)@.dom().contains(nhandle),
        ensures
            final(self).wf(),
            final(self)@ == old(self)@.insert(
                nhandle,
                (rekeyed(old(self)@[nhandle].0, value), user_data),
            ),
            final(self).spec_len() == old(self).spec_len(),
    {
        self.node[nhandle.0].user_data = user_data;
        proof {
            let before = *old(self);
            assert forall|s: int| self.slot_live(s) == before.slot_live(s) by {}
            assert(self.keys() =~= before.keys()) by {
                assert forall|i: int| 0 <= i < self.tree_index@.len() implies self.keys()[i]
                    == before.keys()[i] by {
                    assert(before.slot_live(before.tree_index@[i] as int));
                }
            }
            assert forall|k: int| 0 <= k < self.free_list@.len() implies {
                &&& (#[trigger] self.free_list@[k]) < self.node@.len()
                &&& !self.slot_live(self.free_list@[k] as int)
                &&& self.node@[self.free_list@[k] as int].index == (if k + 1
                    < self.free_list@.len() {
                    self.free_list@[k + 1]
                } else {
                    INVALID
                })
            } by {
                assert(!before.slot_live(before.free_list@[k] as int));
            }
            assert(self@ =~= before@.insert(nhandle, (before@[nhandle].0, user_data)));
        }
        let ghost mid = *self;
        self.node_value_update(nhandle, value);
        proof {
            assert(self@ =~= old(self)@.insert(
                nhandle,
                (rekeyed(old(self)@[nhandle].0, value), user_data),
            ));
        }
    }

    /// The key of the entry that `nhandle` names.
    pub fn node_value(&self, nhandle: NodeHandle) -> (value: TOrd)
        requires
            self@.dom().contains(nhandle),
        ensures
            value == self@[nhandle].0,
    {
        self.node[nhandle.0].value
    }

    /// The payload of the entry that `nhandle` names.
    pub fn node_data(&self, nhandle: NodeHandle) -> (user_data: TData)
        requires
            self@.dom().contains(nhandle),
        ensures
            user_data == self@[nhandle].1,
    {
        self.node[nhandle.0].user_data
    }

    /// An empty heap.
    pub fn new() -> (heap: MinHeap<TOrd, TData>)
        ensures
            heap.wf(),
            heap@ == Map::<NodeHandle, (TOrd, TData)>::empty(),
            heap.spec_len() == 0,
    {
        let heap = MinHeap {
            tree_index: Vec::new(),
            node: Vec::new(),
            free: INVALID,
            free_list: Ghost(Seq::empty()),
        };
        proof {
            assert(heap@ =~= Map::<NodeHandle, (TOrd, TData)>::empty());
        }
        heap
    }

    /// An empty heap with room for `capacity` entries.
    pub fn with_capacity(capacity: usize) -> (heap: MinHeap<TOrd, TData>)
        ensures
            heap.wf(),
            heap@ == Map::<NodeHandle, (TOrd, TData)>::empty(),
            heap.spec_len() == 0,
    {
        let heap = MinHeap {
            tree_index: Vec::with_capacity(capacity),
            node: Vec::with_capacity(capacity),
            free: INVALID,
            free_list: Ghost(Seq::empty()),
        };
        proof {
            assert(heap@ =~= Map::<NodeHandle, (TOrd, TData)>::empty());
        }
        heap
    }
}

/// The key an entry holds after it was asked to take `wanted`: the heap
/// leaves a key in place when the new one has the same rank.
pub open spec fn rekeyed<TOrd: HeapValue>(current: TOrd, wanted: TOrd) -> TOrd {
    if wanted.rank() == current.rank() {
        current
    } else {
        wanted
    }
}

/// Two pops in a row come out in non-decreasing key order: an entry of least
/// key in what is left after taking an entry of least key is no smaller.
pub proof fn law_pop_order<TOrd: HeapValue, TData: HeapData>(
    m: Map<NodeHandle, (TOrd, TData)>,
    first: NodeHandle,
    second: NodeHandle,
)
    requires
        is_min_entry(m, first),
        is_min_entry(m.remove(first), second),
    ensures
        m[first].0.rank() <= m[second].0.rank(),
{
    assert(m.dom().contains(second));
}

/// After an entry is removed, a pop takes some other entry; where the removed
/// payload belonged to no other entry, the pop does not hand it back.
pub proof fn law_removed_not_popped<TOrd: HeapValue, TData: HeapData>(
    m: Map<NodeHandle, (TOrd, TData)>,
    removed: NodeHandle,
    popped: NodeHandle,
)
    requires
        m.dom().contains(removed),
        is_min_entry(m.remove(removed), popped),
    ensures
        popped != removed,
        m.remove(removed)[popped] == m[popped],
        (forall|o: NodeHandle| #[trigger] m.dom().contains(o) && o != removed ==> m[o].1 != m[removed].1)
            ==> m[popped].1 != m[removed].1,
{
    assert(m.dom().contains(popped));
}

} // verus!
