//! The edge list of the polygon simplifier.
//!
//! A polygon is simplified by collapsing edges: an edge goes, its two
//! neighbours are joined at one of its ends, which moves to the best place,
//! and its other end is dropped.  This module holds the edges and their
//! links; the positions, the error quadrics and the cost of a collapse are
//! the caller's, indexed by vertex and by edge.
//!
//! Edge `e` of a closed polygon ends at vertex `e`; edge `e` of an open
//! one ends at vertex `e + 1`.  The two end edges of an open polygon are
//! never collapsed, so its first and last vertex stay.

use vstd::prelude::*;
use crate::keyed_heap::{is_min_slot, keys_below, law_popped_below, KeyedHeap};
use crate::min_heap::{HeapData, HeapValue};

verus! {

/// Marks "no edge" and "no vertex".
pub const INVALID: usize = usize::MAX;

/// One edge: the vertices it joins and the edges before and after it.
#[derive(Copy, Clone, Debug)]
pub struct Edge {
    pub v1: usize,
    pub v2: usize,
    pub index_prev: usize,
    pub index_next: usize,
}

/// Least number of vertices a simplified polygon keeps: four for a closed
/// polygon, two for an open one.
pub open spec fn spec_poly_minimum_len(is_cyclic: bool) -> usize {
    if is_cyclic {
        4
    } else {
        2
    }
}

/// Least number of vertices a simplified polygon keeps.
#[verifier::when_used_as_spec(spec_poly_minimum_len)]
pub fn poly_minimum_len(is_cyclic: bool) -> (n: usize)
    ensures
        n == spec_poly_minimum_len(is_cyclic),
{
    if is_cyclic {
        4
    } else {
        2
    }
}

// ---------------------------------------------------------------------------
// Model

/// Difference between the index of a vertex and that of the edge that ends
/// at it.
pub open spec fn vert_offset(is_cyclic: bool) -> int {
    if is_cyclic {
        0
    } else {
        1
    }
}

/// Whether edge `e` has been collapsed.
pub open spec fn is_collapsed(edges: Seq<Edge>, e: int) -> bool {
    edges[e].v2 == INVALID
}

/// Whether edge `e` exists, is not collapsed and has an edge on either
/// side: the edges that may collapse.
pub open spec fn is_inner(edges: Seq<Edge>, e: int) -> bool {
    &&& 0 <= e < edges.len()
    &&& !is_collapsed(edges, e)
    &&& edges[e].index_prev != INVALID
    &&& edges[e].index_next != INVALID
}

/// The edge as it is once collapsed.
pub open spec fn edge_collapsed() -> Edge {
    Edge { v1: INVALID, v2: INVALID, index_prev: INVALID, index_next: INVALID }
}

/// What holds of edge `e` in a well-formed edge list.
pub open spec fn edge_ok(edges: Seq<Edge>, is_cyclic: bool, e: int) -> bool {
    let edge = edges[e];
    let px = edge.index_prev as int;
    let nx = edge.index_next as int;
    if is_collapsed(edges, e) {
        edge == edge_collapsed()
    } else {
        &&& edge.v2 == e + vert_offset(is_cyclic)
        &&& edge.v1 < edges.len() + vert_offset(is_cyclic)
        &&& if edge.index_prev != INVALID {
            &&& 0 <= px < edges.len()
            &&& !is_collapsed(edges, px)
            &&& edges[px].v2 == edge.v1
            &&& (edges[px].index_next == e || (!is_cyclic && px == 0 && e == 1
                && edges[px].index_next == INVALID))
        } else {
            !is_cyclic && e == 0 && edge.v1 == 0
        }
        &&& if edge.index_next != INVALID {
            &&& 0 <= nx < edges.len()
            &&& !is_collapsed(edges, nx)
            &&& edges[nx].index_prev == e
        } else {
            !is_cyclic && (e == 0 || e == edges.len() - 1)
        }
    }
}

/// The edges form a well-formed list for a polygon.  The first and the
/// last edge of an open polygon are there and have no edge beyond them.
pub open spec fn edges_wf(edges: Seq<Edge>, is_cyclic: bool) -> bool {
    &&& 1 <= edges.len() < INVALID - 1
    &&& forall|e: int| 0 <= e < edges.len() ==> #[trigger] edge_ok(edges, is_cyclic, e)
    &&& !is_cyclic ==> {
        &&& !is_collapsed(edges, 0)
        &&& edges[0].index_prev == INVALID
        &&& !is_collapsed(edges, edges.len() - 1)
        &&& edges[edges.len() - 1].index_next == INVALID
    }
}

/// Number of collapsed edges among the first `m`.
pub open spec fn collapsed_count(edges: Seq<Edge>, m: nat) -> nat
    decreases m,
{
    if m == 0 {
        0
    } else {
        collapsed_count(edges, (m - 1) as nat) + (if m <= edges.len() && is_collapsed(
            edges,
            m - 1,
        ) {
            1nat
        } else {
            0nat
        })
    }
}

/// Whether vertex `v` has been dropped: the edge that ended at it was
/// collapsed.
pub open spec fn is_dropped(edges: Seq<Edge>, is_cyclic: bool, v: int) -> bool {
    let e = v - vert_offset(is_cyclic);
    0 <= e < edges.len() && is_collapsed(edges, e)
}

/// The vertices that are left among the first `m`, in order.
pub open spec fn surviving_prefix(edges: Seq<Edge>, is_cyclic: bool, m: nat) -> Seq<int>
    decreases m,
{
    if m == 0 {
        Seq::empty()
    } else if is_dropped(edges, is_cyclic, m - 1) {
        surviving_prefix(edges, is_cyclic, (m - 1) as nat)
    } else {
        surviving_prefix(edges, is_cyclic, (m - 1) as nat).push(m - 1)
    }
}

/// Whether edge `i` can be collapsed: it has an edge on either side, other
/// than itself.
pub open spec fn can_collapse(edges: Seq<Edge>, i: int) -> bool {
    &&& is_inner(edges, i)
    &&& edges[i].index_prev != i
    &&& edges[i].index_next != i
}

/// The edges after edge `i` is collapsed: its neighbours are joined at the
/// vertex its predecessor ends at.
pub open spec fn edges_collapsed(edges: Seq<Edge>, i: int) -> Seq<Edge> {
    let p = edges[i].index_prev as int;
    let n = edges[i].index_next as int;
    let s1 = edges.update(i, edge_collapsed());
    let s2 = s1.update(p, Edge { index_next: n as usize, ..s1[p] });
    s2.update(n, Edge { index_prev: p as usize, v1: s2[p].v2, ..s2[n] })
}

/// The edges of a polygon of `poly_len` vertices before any collapse.
pub open spec fn edges_initial(poly_len: int, is_cyclic: bool) -> Seq<Edge> {
    if is_cyclic {
        Seq::new(
            poly_len as nat,
            |i: int|
                Edge {
                    v1: (if i == 0 {
                        poly_len - 1
                    } else {
                        i - 1
                    }) as usize,
                    v2: i as usize,
                    index_prev: (if i == 0 {
                        poly_len - 1
                    } else {
                        i - 1
                    }) as usize,
                    index_next: (if i == poly_len - 1 {
                        0
                    } else {
                        i + 1
                    }) as usize,
                },
        )
    } else {
        Seq::new(
            (poly_len - 1) as nat,
            |i: int|
                Edge {
                    v1: i as usize,
                    v2: (i + 1) as usize,
                    index_prev: if i == 0 {
                        INVALID
                    } else {
                        (i - 1) as usize
                    },
                    index_next: if i == 0 || i == poly_len - 2 {
                        INVALID
                    } else {
                        (i + 1) as usize
                    },
                },
        )
    }
}

pub proof fn lemma_collapsed_count_bound(edges: Seq<Edge>, m: nat)
    ensures
        collapsed_count(edges, m) <= m,
        collapsed_count(edges, m) <= edges.len(),
    decreases m,
{
    if m > 0 {
        lemma_collapsed_count_bound(edges, (m - 1) as nat);
    }
}

/// Where an edge is not collapsed, fewer edges are collapsed than there are.
pub proof fn lemma_collapsed_count_less(edges: Seq<Edge>, i: int, m: nat)
    requires
        0 <= i < m <= edges.len(),
        !is_collapsed(edges, i),
    ensures
        collapsed_count(edges, m) < m,
    decreases m,
{
    lemma_collapsed_count_bound(edges, (m - 1) as nat);
    if i < m - 1 {
        lemma_collapsed_count_less(edges, i, (m - 1) as nat);
    }
}

/// Collapsing one more edge adds one to the count.
pub proof fn lemma_collapsed_count_step(a: Seq<Edge>, b: Seq<Edge>, i: int, m: nat)
    requires
        a.len() == b.len(),
        0 <= i < a.len(),
        !is_collapsed(a, i),
        is_collapsed(b, i),
        forall|j: int| 0 <= j < a.len() && j != i ==> is_collapsed(a, j) == #[trigger] is_collapsed(
            b,
            j,
        ),
    ensures
        collapsed_count(b, m) == collapsed_count(a, m) + (if i < m {
            1int
        } else {
            0int
        }),
    decreases m,
{
    if m > 0 {
        lemma_collapsed_count_step(a, b, i, (m - 1) as nat);
        if m <= a.len() && m - 1 != i {
            assert(is_collapsed(a, m - 1) == is_collapsed(b, m - 1));
        }
    }
}

/// As many vertices are left as edges are not collapsed, and one more in
/// an open polygon.
pub proof fn lemma_surviving_count(edges: Seq<Edge>, is_cyclic: bool, m: nat)
    requires
        m <= edges.len() + vert_offset(is_cyclic),
    ensures
        surviving_prefix(edges, is_cyclic, m).len() + collapsed_count(
            edges,
            (if m >= vert_offset(is_cyclic) {
                m - vert_offset(is_cyclic)
            } else {
                0
            }) as nat,
        ) == m,
    decreases m,
{
    if m > 0 {
        lemma_surviving_count(edges, is_cyclic, (m - 1) as nat);
    }
}

// ---------------------------------------------------------------------------
// The list

/// The edges of one polygon with their links.
pub struct EdgeList {
    edges: Vec<Edge>,
    is_cyclic: bool,
    len_remaining: usize,
}

impl View for EdgeList {
    type V = Seq<Edge>;

    /// The edges, by index.
    closed spec fn view(&self) -> Seq<Edge> {
        self.edges@
    }
}

impl EdgeList {
    /// Whether the polygon is closed.
    pub closed spec fn spec_is_cyclic(&self) -> bool {
        self.is_cyclic
    }

    /// Number of vertices that are left, as counted.
    pub closed spec fn spec_len_remaining(&self) -> usize {
        self.len_remaining
    }

    /// Number of vertices of the polygon.
    pub open spec fn spec_verts_len(&self) -> int {
        self@.len() + vert_offset(self.spec_is_cyclic())
    }

    /// The vertices that are left, in order.
    pub open spec fn spec_surviving(&self) -> Seq<int> {
        surviving_prefix(self@, self.spec_is_cyclic(), self.spec_verts_len() as nat)
    }

    /// The list's invariant: the edges are well formed and the count of
    /// vertices is right.
    pub open spec fn wf(&self) -> bool {
        &&& edges_wf(self@, self.spec_is_cyclic())
        &&& self.spec_len_remaining() + collapsed_count(self@, self@.len()) == self.spec_verts_len()
    }

    /// The edges of a polygon of `poly_len` vertices, each linked to the
    /// next.  The end edges of an open polygon have no link on both sides
    /// and never collapse.
    #[verifier::rlimit(50)]
    pub fn new(poly_len: usize, is_cyclic: bool) -> (list: EdgeList)
        requires
            poly_len < INVALID - 1,
            if is_cyclic {
                poly_len >= 1
            } else {
                poly_len >= 2
            },
        ensures
            list.wf(),
            list.spec_is_cyclic() == is_cyclic,
            list.spec_verts_len() == poly_len,
            list.spec_len_remaining() == poly_len,
            list@ == edges_initial(poly_len as int, is_cyclic),
    {
        let mut edges: Vec<Edge> = Vec::with_capacity(poly_len);
        if is_cyclic {
            let mut j = poly_len - 1;
            let mut i: usize = 0;
            while i < poly_len
                invariant
                    i <= poly_len,
                    1 <= poly_len < INVALID - 1,
                    edges@.len() == i,
                    j == (if i == 0 {
                        poly_len - 1
                    } else {
                        i - 1
                    }),
                    forall|e: int|
                        0 <= e < i ==> (#[trigger] edges@[e]) == (Edge {
                            v1: (if e == 0 {
                                poly_len - 1
                            } else {
                                e - 1
                            }) as usize,
                            v2: e as usize,
                            index_prev: (if e == 0 {
                                poly_len - 1
                            } else {
                                e - 1
                            }) as usize,
                            index_next: (e + 1) as usize,
                        }),
                decreases poly_len - i,
            {
                edges.push(Edge { v1: j, v2: i, index_prev: j, index_next: i.wrapping_add(1) });
                j = i;
                i += 1;
            }
            let last = edges.len() - 1;
            edges[last].index_next = 0;
        } else {
            let mut j: usize = 0;
            let mut i: usize = 1;
            while i < poly_len
                invariant
                    1 <= i <= poly_len,
                    2 <= poly_len < INVALID - 1,
                    edges@.len() == i - 1,
                    j == i - 1,
                    forall|e: int|
                        0 <= e < i - 1 ==> (#[trigger] edges@[e]) == (Edge {
                            v1: e as usize,
                            v2: (e + 1) as usize,
                            index_prev: if e == 0 {
                                INVALID
                            } else {
                                (e - 1) as usize
                            },
                            index_next: (e + 1) as usize,
                        }),
                decreases poly_len - i,
            {
                edges.push(Edge { v1: j, v2: i, index_prev: j.wrapping_sub(1), index_next: i });
                j = i;
                i += 1;
            }

            edges[0].index_next = INVALID;
            let last = edges.len() - 1;
            edges[last].index_next = INVALID;
        }
        let list = EdgeList { edges: edges, is_cyclic: is_cyclic, len_remaining: poly_len };
        proof {
            assert(list@ =~= edges_initial(poly_len as int, is_cyclic));
            assert forall|e: int| 0 <= e < list@.len() implies #[trigger] edge_ok(
                list@,
                is_cyclic,
                e,
            ) by {
                let px = list@[e].index_prev as int;
                let nx = list@[e].index_next as int;
                if 0 <= px < list@.len() {
                    let ep = list@[px];
                }
                if 0 <= nx < list@.len() {
                    let en = list@[nx];
                }
            }
            Self::lemma_none_collapsed(list@, list@.len());
        }
        list
    }

    proof fn lemma_none_collapsed(edges: Seq<Edge>, m: nat)
        requires
            m <= edges.len(),
            forall|e: int| 0 <= e < edges.len() ==> !#[trigger] is_collapsed(edges, e),
        ensures
            collapsed_count(edges, m) == 0,
        decreases m,
    {
        if m > 0 {
            Self::lemma_none_collapsed(edges, (m - 1) as nat);
            assert(!is_collapsed(edges, m - 1));
        }
    }

    /// The edges.
    pub fn edges(&self) -> (edges: &Vec<Edge>)
        ensures
            edges@ == self@,
    {
        &self.edges
    }

    /// Whether the polygon is closed.
    #[verifier::when_used_as_spec(spec_is_cyclic)]
    pub fn is_cyclic(&self) -> (r: bool)
        ensures
            r == self.spec_is_cyclic(),
    {
        self.is_cyclic
    }

    /// Number of vertices that are left.
    #[verifier::when_used_as_spec(spec_len_remaining)]
    pub fn len_remaining(&self) -> (r: usize)
        ensures
            r == self.spec_len_remaining(),
    {
        self.len_remaining
    }

    /// Whether edge `i` may collapse: it is there and has an edge on either
    /// side.
    pub fn edge_is_inner(&self, i: usize) -> (r: bool)
        requires
            self.wf(),
        ensures
            r == is_inner(self@, i as int),
    {
        if i >= self.edges.len() {
            return false;
        }
        proof {
            assert(edge_ok(self@, self.spec_is_cyclic(), i as int));
        }
        let e = &self.edges[i];
        e.index_prev != INVALID && e.index_next != INVALID
    }

    /// Collapse edge `i`, unless it cannot collapse.  Hands back the vertex
    /// that is kept and the vertex that is dropped when it did.
    #[verifier::rlimit(50)]
    pub fn collapse(&mut self, i: usize) -> (r: Option<(usize, usize)>)
        requires
            old(self).wf(),
        ensures
            final(self).wf(),
            final(self).spec_is_cyclic() == old(self).spec_is_cyclic(),
            final(self)@.len() == old(self)@.len(),
            r.is_some() == can_collapse(old(self)@, i as int),
            r matches Some((i_vert_keep, i_vert_drop)) ==> {
                &&& i_vert_keep == old(self)@[i as int].v1
                &&& i_vert_drop == old(self)@[i as int].v2
                &&& i_vert_keep != i_vert_drop
                &&& !is_dropped(old(self)@, old(self).spec_is_cyclic(), i_vert_keep as int)
                &&& !is_dropped(final(self)@, old(self).spec_is_cyclic(), i_vert_keep as int)
                &&& is_dropped(final(self)@, old(self).spec_is_cyclic(), i_vert_drop as int)
                &&& final(self)@ == edges_collapsed(old(self)@, i as int)
                &&& final(self).spec_len_remaining() == old(self).spec_len_remaining() - 1
            },
            r is None ==> {
                &&& final(self)@ == old(self)@
                &&& final(self).spec_len_remaining() == old(self).spec_len_remaining()
            },
    {
        if !self.edge_is_inner(i) {
            return None;
        }
        let i_prev = self.edges[i].index_prev;
        let i_next = self.edges[i].index_next;
        if i_prev == i || i_next == i {
            return None;
        }
        proof {
            lemma_collapse_wf(self@, self.is_cyclic, i as int);
            lemma_collapsed_count_less(self@, i as int, self@.len());
        }
        {
            // not needed, just expose invalid reuse
            self.edges[i].index_prev = INVALID;
            self.edges[i].index_next = INVALID;
            self.edges[i].v1 = INVALID;
            self.edges[i].v2 = INVALID;
        }
        self.edges[i_prev].index_next = i_next;
        self.edges[i_next].index_prev = i_prev;

        // drop edges[i].v2 (could drop v1 too, doesn't matter which)
        let i_vert_keep = self.edges[i_prev].v2;
        let i_vert_drop = self.edges[i_next].v1;

        self.edges[i_next].v1 = i_vert_keep;
        self.len_remaining -= 1;
        proof {
            assert(self@ =~= edges_collapsed(old(self)@, i as int));
        }
        Some((i_vert_keep, i_vert_drop))
    }

    /// The edges whose cost is to be worked out anew after edge `i` was
    /// collapsed between `i_prev` and `i_next`: the two, the one before the
    /// first and the one after the second, as far as they may collapse.  A
    /// place that is not to be worked out holds `INVALID`.
    #[verifier::rlimit(50)]
    pub fn collapse_affected(&self, i_prev: usize, i_next: usize) -> (r: [usize; 4])
        requires
            self.wf(),
            i_prev < self@.len(),
            i_next < self@.len(),
        ensures
            r[0] == (if is_inner(self@, i_prev as int) {
                i_prev
            } else {
                INVALID
            }),
            r[1] == (if is_inner(self@, self@[i_prev as int].index_prev as int) {
                self@[i_prev as int].index_prev
            } else {
                INVALID
            }),
            r[2] == (if is_inner(self@, i_next as int) {
                i_next
            } else {
                INVALID
            }),
            r[3] == (if is_inner(self@, self@[i_next as int].index_next as int) {
                self@[i_next as int].index_next
            } else {
                INVALID
            }),
    {
        let others: [usize; 4] = [
            i_prev,
            self.edges[i_prev].index_prev,
            i_next,
            self.edges[i_next].index_next,
        ];
        let mut r: [usize; 4] = [INVALID, INVALID, INVALID, INVALID];
        let mut k: usize = 0;
        while k < 4
            invariant
                k <= 4,
                self.wf(),
                others[0] == i_prev,
                others[1] == self@[i_prev as int].index_prev,
                others[2] == i_next,
                others[3] == self@[i_next as int].index_next,
                forall|j: int|
                    0 <= j < 4 ==> (#[trigger] r[j]) == (if j < k && is_inner(
                        self@,
                        others[j] as int,
                    ) {
                        others[j]
                    } else {
                        INVALID
                    }),
            decreases 4 - k,
        {
            let i_other = others[k];
            // INVALID checks are needed for non-cyclic polygons.
            if i_other != INVALID {
                if self.edge_is_inner(i_other) {
                    r[k] = i_other;
                }
            }
            k += 1;
        }
        r
    }

    /// The vertices that are left, in order.
    #[verifier::rlimit(50)]
    pub fn surviving(&self) -> (r: Vec<usize>)
        requires
            self.wf(),
        ensures
            r@.map_values(|v: usize| v as int) == self.spec_surviving(),
            r@.len() == self.spec_len_remaining(),
    {
        let n = self.edges.len() + (if self.is_cyclic {
            0
        } else {
            1
        });
        let mut r: Vec<usize> = Vec::new();
        let mut i_src: usize = 0;
        while i_src < n
            invariant
                self.wf(),
                n == self.spec_verts_len(),
                i_src <= n,
                r@.map_values(|v: usize| v as int) == surviving_prefix(
                    self@,
                    self.spec_is_cyclic(),
                    i_src as nat,
                ),
            decreases n - i_src,
        {
            let dropped = if self.is_cyclic {
                self.edges[i_src].v2 == INVALID
            } else {
                i_src >= 1 && self.edges[i_src - 1].v2 == INVALID
            };
            if !dropped {
                let ghost before = r@;
                r.push(i_src);
                proof {
                    assert(r@.map_values(|v: usize| v as int) =~= before.map_values(
                        |v: usize| v as int,
                    ).push(i_src as int));
                }
            }
            i_src += 1;
        }
        proof {
            lemma_surviving_count(self@, self.spec_is_cyclic(), n as nat);
        }
        r
    }
}

/// Collapsing an edge that can collapse leaves a well-formed list with one
/// collapsed edge more.
#[verifier::rlimit(50)]
pub proof fn lemma_collapse_wf(edges: Seq<Edge>, is_cyclic: bool, i: int)
    requires
        edges_wf(edges, is_cyclic),
        can_collapse(edges, i),
    ensures
        0 <= edges[i].index_prev < edges.len(),
        0 <= edges[i].index_next < edges.len(),
        edges[edges[i].index_prev as int].v2 == edges[i].v1,
        edges[edges[i].index_next as int].v1 == edges[i].v2,
        edges[i].v1 != edges[i].v2,
        edges[i].v2 == i + vert_offset(is_cyclic),
        edges[i].v1 == edges[i].index_prev + vert_offset(is_cyclic),
        !is_dropped(edges, is_cyclic, edges[i].v1 as int),
        !is_dropped(edges_collapsed(edges, i), is_cyclic, edges[i].v1 as int),
        is_dropped(edges_collapsed(edges, i), is_cyclic, edges[i].v2 as int),
        edges_wf(edges_collapsed(edges, i), is_cyclic),
        collapsed_count(edges_collapsed(edges, i), edges.len()) == collapsed_count(
            edges,
            edges.len(),
        ) + 1,
{
    let p = edges[i].index_prev as int;
    let n = edges[i].index_next as int;
    let e2 = edges_collapsed(edges, i);
    assert(edge_ok(edges, is_cyclic, i));
    assert(edge_ok(edges, is_cyclic, p));
    assert(edge_ok(edges, is_cyclic, n));
    assert forall|e: int| 0 <= e < e2.len() implies #[trigger] edge_ok(e2, is_cyclic, e) by {
        assert(edge_ok(edges, is_cyclic, e));
        if e != i && !is_collapsed(edges, e) {
            let px = edges[e].index_prev as int;
            let nx = edges[e].index_next as int;
            if edges[e].index_prev != INVALID {
                assert(edge_ok(edges, is_cyclic, px));
            }
            if edges[e].index_next != INVALID {
                assert(edge_ok(edges, is_cyclic, nx));
            }
        }
    }
    lemma_collapsed_count_step(edges, e2, i, edges.len());
}

// ---------------------------------------------------------------------------
// The pass

/// What a step of the simplifier did.
pub enum CollapseStep<TOrd, TData> {
    /// The heap was empty, or the polygon is down to its least size: the
    /// pass is over.
    Finished,
    /// The candidate was dropped: its edge could not collapse.
    Skipped { edge_index: usize },
    /// Edge `edge_index` of cost `value` was collapsed between `i_prev` and
    /// `i_next`: vertex `i_vert_keep` stays and moves, vertex `i_vert_drop`
    /// goes.  `affected` holds the edges whose cost is to be worked out
    /// anew, and `INVALID` in the places that need none.
    Collapsed {
        edge_index: usize,
        i_prev: usize,
        i_next: usize,
        i_vert_keep: usize,
        i_vert_drop: usize,
        value: TOrd,
        data: TData,
        affected: [usize; 4],
    },
}

/// One step of the simplifier: pop the candidate of least cost and collapse
/// its edge.  The pass ends where the heap is empty or the polygon is down
/// to its least number of vertices.  Where every candidate costs less than
/// some limit, so does the edge that is collapsed.
#[verifier::rlimit(50)]
pub fn simplify_pass_step<TOrd: HeapValue, TData: HeapData>(
    list: &mut EdgeList,
    heap: &mut KeyedHeap<TOrd, TData>,
) -> (step: CollapseStep<TOrd, TData>)
    requires
        old(list).wf(),
        old(heap).wf(),
    ensures
        final(list).wf(),
        final(heap).wf(),
        final(heap).spec_slots() == old(heap).spec_slots(),
        final(list).spec_is_cyclic() == old(list).spec_is_cyclic(),
        final(list)@.len() == old(list)@.len(),
        step is Finished <==> {
            ||| old(heap)@ == Map::<usize, (TOrd, TData)>::empty()
            ||| old(list).spec_len_remaining() <= spec_poly_minimum_len(old(list).spec_is_cyclic())
        },
        !(step is Collapsed) ==> final(list)@ == old(list)@ && final(list).spec_len_remaining()
            == old(list).spec_len_remaining(),
        old(heap)@ == Map::<usize, (TOrd, TData)>::empty() ==> final(heap)@ == old(heap)@,
        old(heap)@ != Map::<usize, (TOrd, TData)>::empty() ==> exists|slot: usize|
            is_min_slot(old(heap)@, slot) && final(heap)@ == old(heap)@.remove(slot),
        forall|limit: TOrd| #[trigger]
            keys_below(old(heap)@, limit) ==> {
                &&& keys_below(final(heap)@, limit)
                &&& step matches CollapseStep::Collapsed { value, .. } ==> value.rank() < limit.rank()
            },
        step matches CollapseStep::Skipped { edge_index } ==> {
            &&& is_min_slot(old(heap)@, edge_index)
            &&& final(heap)@ == old(heap)@.remove(edge_index)
            &&& !can_collapse(old(list)@, edge_index as int)
        },
        step matches CollapseStep::Collapsed {
            edge_index,
            i_prev,
            i_next,
            i_vert_keep,
            i_vert_drop,
            value,
            data,
            affected,
        } ==> {
            &&& is_min_slot(old(heap)@, edge_index)
            &&& old(heap)@[edge_index] == (value, data)
            &&& final(heap)@ == old(heap)@.remove(edge_index)
            &&& old(list).spec_len_remaining() > spec_poly_minimum_len(old(list).spec_is_cyclic())
            &&& can_collapse(old(list)@, edge_index as int)
            &&& i_prev == old(list)@[edge_index as int].index_prev
            &&& i_next == old(list)@[edge_index as int].index_next
            &&& i_vert_keep == old(list)@[edge_index as int].v1
            &&& i_vert_drop == old(list)@[edge_index as int].v2
            &&& final(list)@ == edges_collapsed(old(list)@, edge_index as int)
            &&& final(list).spec_len_remaining() == old(list).spec_len_remaining() - 1
        },
{
    match heap.pop_min() {
        None => CollapseStep::Finished,
        Some((value, edge_index, data)) => {
            proof {
                assert forall|limit: TOrd| #[trigger] keys_below(old(heap)@, limit) implies keys_below(
                    heap@,
                    limit,
                ) && value.rank() < limit.rank() by {
                    law_popped_below(old(heap)@, limit, edge_index);
                }
            }
            if list.len_remaining() <= poly_minimum_len(list.is_cyclic()) {
                return CollapseStep::Finished;
            }
            let ghost before = list@;
            let (i_prev, i_next) = if edge_index < list.edges().len() {
                let e = &list.edges()[edge_index];
                (e.index_prev, e.index_next)
            } else {
                (INVALID, INVALID)
            };
            match list.collapse(edge_index) {
                None => CollapseStep::Skipped { edge_index: edge_index },
                Some((i_vert_keep, i_vert_drop)) => {
                    proof {
                        lemma_collapse_wf(before, list.spec_is_cyclic(), edge_index as int);
                    }
                    let affected = list.collapse_affected(i_prev, i_next);
                    CollapseStep::Collapsed {
                        edge_index: edge_index,
                        i_prev: i_prev,
                        i_next: i_next,
                        i_vert_keep: i_vert_keep,
                        i_vert_drop: i_vert_drop,
                        value: value,
                        data: data,
                        affected: affected,
                    }
                },
            }
        },
    }
}

/// An open polygon keeps its ends: its first and its last vertex are left,
/// first and last among the vertices that are left.
pub proof fn law_open_keeps_ends(edges: Seq<Edge>)
    requires
        edges_wf(edges, false),
    ensures
        !is_dropped(edges, false, 0),
        !is_dropped(edges, false, edges.len() as int),
        surviving_prefix(edges, false, (edges.len() + 1) as nat).len() >= 2,
        surviving_prefix(edges, false, (edges.len() + 1) as nat).first() == 0,
        surviving_prefix(edges, false, (edges.len() + 1) as nat).last() == edges.len(),
{
    let n = (edges.len() + 1) as nat;
    lemma_surviving_first(edges, n);
}

/// What is left of an open polygon among its first vertices starts with
/// the first vertex.
proof fn lemma_surviving_first(edges: Seq<Edge>, m: nat)
    requires
        1 <= m,
    ensures
        surviving_prefix(edges, false, m).len() >= 1,
        surviving_prefix(edges, false, m).first() == 0,
    decreases m,
{
    if m > 1 {
        lemma_surviving_first(edges, (m - 1) as nat);
    } else {
        assert(surviving_prefix(edges, false, 0) =~= Seq::<int>::empty());
    }
}

} // verus!
