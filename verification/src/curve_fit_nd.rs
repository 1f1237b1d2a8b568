//! The knot ring of the curve fitter.
//!
//! A curve is fitted to a polygon by starting with one knot per vertex and
//! taking knots out, moving them, or putting one back as a corner, for as
//! long as the curve stays within the error bound.  This module holds the
//! part of that which is about which knots are in the curve and how they are
//! linked; the numbers (handle lengths, errors, tangents) are kept by the
//! caller, indexed by knot.
//!
//! Knots live in one array and are linked by index into a ring (closed
//! curve) or a chain (open curve, whose two ends are never removed).  A knot
//! that is taken out is flagged, not moved, so knot indices are stable.

use vstd::prelude::*;

verus! {

/// Marks "no knot".
pub const INVALID: usize = usize::MAX;

/// What is traced: the boundary of filled regions or the medial line of
/// strokes.
#[derive(Copy, Clone, PartialEq, Eq, Structural, Debug)]
pub enum TraceMode {
    Outline,
    Centerline,
}

/// One knot: its links, its flags and its two tangent slots.
#[derive(Copy, Clone, Debug)]
pub struct Knot {
    pub next: usize,
    pub prev: usize,
    /// The index of this knot in the point array.
    pub index: usize,
    /// Set for the two ends of an open curve.
    pub no_remove: bool,
    /// Set while the knot is out of the curve.
    pub is_remove: bool,
    /// Set once the knot was put back as a corner.
    pub is_corner: bool,
    /// Indices into the tangent table: incoming and outgoing tangent.
    pub tan: [usize; 2],
}

// ---------------------------------------------------------------------------
// Model

/// Whether `i` lies strictly between `a` and `b` going round the ring from
/// `a` upwards.  With `a == b` that is every index but `a`.
pub open spec fn between(a: int, b: int, i: int) -> bool {
    if a < b {
        a < i < b
    } else {
        i > a || i < b
    }
}

/// Whether knot `i` exists and is in the curve.
pub open spec fn is_live(knots: Seq<Knot>, i: int) -> bool {
    0 <= i < knots.len() && !knots[i].is_remove
}

/// No knot strictly between `a` and `b` is in the curve.
pub open spec fn arc_clear(knots: Seq<Knot>, a: int, b: int) -> bool {
    forall|j: int| 0 <= j < knots.len() && between(a, b, j) ==> (#[trigger] knots[j]).is_remove
}

/// Knot `i` of a ring is linked to the nearest knots in the curve on either
/// side, and they are linked back.
pub open spec fn ring_linked(knots: Seq<Knot>, i: int) -> bool {
    let nx = knots[i].next as int;
    let px = knots[i].prev as int;
    &&& is_live(knots, nx)
    &&& knots[nx].prev == i
    &&& arc_clear(knots, i, nx)
    &&& is_live(knots, px)
    &&& knots[px].next == i
}

/// Knot `i` of a chain is linked to the nearest knots in the curve on either
/// side, and they are linked back; the first knot has nothing before it and
/// the last nothing after it.
pub open spec fn chain_linked(knots: Seq<Knot>, i: int) -> bool {
    let nx = knots[i].next as int;
    let px = knots[i].prev as int;
    &&& if i == knots.len() - 1 {
        nx == INVALID
    } else {
        &&& i < nx
        &&& is_live(knots, nx)
        &&& knots[nx].prev == i
        &&& arc_clear(knots, i, nx)
    }
    &&& if i == 0 {
        px == INVALID
    } else {
        &&& px < i
        &&& is_live(knots, px)
        &&& knots[px].next == i
    }
}

/// What holds of knot `i` in a well-formed curve.  A knot that is no corner
/// has the two tangent slots it was made with.
pub open spec fn knot_ok(knots: Seq<Knot>, is_cyclic: bool, i: int) -> bool {
    let k = knots[i];
    &&& k.index == i
    &&& k.tan[0] < 2 * knots.len()
    &&& k.tan[1] < 2 * knots.len()
    &&& !k.is_corner ==> k.tan[0] == 2 * i && k.tan[1] == 2 * i + 1
    &&& k.no_remove == (!is_cyclic && (i == 0 || i == knots.len() - 1))
    &&& k.is_remove ==> !k.is_corner && !k.no_remove && k.next == INVALID && k.prev == INVALID
    &&& !k.is_remove ==> if is_cyclic {
        ring_linked(knots, i)
    } else {
        chain_linked(knots, i)
    }
}

/// The knots form a well-formed curve: a ring when `is_cyclic`, a chain with
/// both ends kept otherwise.
pub open spec fn ring_wf(knots: Seq<Knot>, is_cyclic: bool) -> bool {
    &&& 1 <= knots.len()
    &&& 2 * knots.len() <= usize::MAX
    &&& forall|i: int| 0 <= i < knots.len() ==> #[trigger] knot_ok(knots, is_cyclic, i)
}

/// The knots in the curve among the first `m`, in index order.
pub open spec fn live_prefix(knots: Seq<Knot>, m: nat) -> Seq<int>
    decreases m,
{
    if m == 0 {
        Seq::empty()
    } else if m <= knots.len() && !knots[m - 1].is_remove {
        live_prefix(knots, (m - 1) as nat).push(m - 1)
    } else {
        live_prefix(knots, (m - 1) as nat)
    }
}

/// The knots in the curve, in index order.  For a ring that is the order
/// round the curve from its first knot; for a chain it is the order along
/// the curve.
pub open spec fn live_indices(knots: Seq<Knot>) -> Seq<int> {
    live_prefix(knots, knots.len())
}

/// Whether a knot may be taken out or moved: it is in the curve, no end of
/// an open curve and no corner.
pub open spec fn is_candidate(knots: Seq<Knot>, i: int) -> bool {
    &&& 0 <= i < knots.len()
    &&& !knots[i].no_remove
    &&& !knots[i].is_remove
    &&& !knots[i].is_corner
}

/// The knot as it is while out of the curve.
pub open spec fn knot_removed(k: Knot) -> Knot {
    Knot { next: INVALID, prev: INVALID, is_remove: true, ..k }
}

/// The knots after knot `k` is taken out and its neighbours are joined.
pub open spec fn knots_unlinked(knots: Seq<Knot>, k: int) -> Seq<Knot> {
    let p = knots[k].prev as int;
    let n = knots[k].next as int;
    let s1 = knots.update(k, knot_removed(knots[k]));
    let s2 = s1.update(n, Knot { prev: p as usize, ..s1[n] });
    s2.update(p, Knot { next: n as usize, ..s2[p] })
}

/// The knots after knot `k` gives its place in the curve to knot `r`.
pub open spec fn knots_refitted(knots: Seq<Knot>, k: int, r: int) -> Seq<Knot> {
    let p = knots[k].prev as int;
    let n = knots[k].next as int;
    let s1 = knots.update(k, knot_removed(knots[k]));
    let s2 = s1.update(n, Knot { prev: r as usize, ..s1[n] });
    let s3 = s2.update(p, Knot { next: r as usize, ..s2[p] });
    s3.update(r, Knot { prev: p as usize, next: n as usize, is_remove: false, ..s3[r] })
}

/// The knots after knot `s` is put into the curve between `p` and `n` as
/// a corner: it takes the outgoing tangent of `p` as its incoming one and
/// the incoming tangent of `n` as its outgoing one.
pub open spec fn knots_cornered(knots: Seq<Knot>, s: int, p: int, n: int) -> Seq<Knot> {
    let s1 = knots.update(p, Knot { next: s as usize, ..knots[p] });
    let s2 = s1.update(n, Knot { prev: s as usize, ..s1[n] });
    s2.update(
        s,
        Knot {
            is_remove: false,
            is_corner: true,
            prev: p as usize,
            next: n as usize,
            tan: [knots[p].tan[1], knots[n].tan[0]],
            ..s2[s]
        },
    )
}

/// Whether knot `k` can be taken out: it is a candidate and more than two
/// knots are in the curve.
pub open spec fn can_unlink(knots: Seq<Knot>, remaining: int, k: int) -> bool {
    is_candidate(knots, k) && remaining > 2
}

/// Whether knot `k` can give its place to knot `r`: `k` can be taken out,
/// and `r` is `k` itself or a knot out of the curve between the neighbours
/// of `k`.
pub open spec fn can_refit(knots: Seq<Knot>, remaining: int, k: int, r: int) -> bool {
    &&& can_unlink(knots, remaining, k)
    &&& 0 <= r < knots.len()
    &&& r == k || (knots[r].is_remove && between(knots[k].prev as int, knots[k].next as int, r))
}

/// Whether knot `s` can be put between `p` and `n` as a corner: they are
/// neighbours in the curve and `s` is out of the curve between them.
pub open spec fn can_corner(knots: Seq<Knot>, s: int, p: int, n: int) -> bool {
    &&& is_live(knots, p)
    &&& is_live(knots, n)
    &&& knots[p].next == n
    &&& 0 <= s < knots.len()
    &&& knots[s].is_remove
    &&& between(p, n, s)
}

/// The knot of vertex `i` of a polygon of `n` vertices before any knot is
/// touched: in the curve, linked to the vertices beside it.
pub open spec fn knot_initial(n: int, is_cyclic: bool, i: int) -> Knot {
    Knot {
        next: if i + 1 < n {
            (i + 1) as usize
        } else if is_cyclic {
            0
        } else {
            INVALID
        },
        prev: if i > 0 {
            (i - 1) as usize
        } else if is_cyclic {
            (n - 1) as usize
        } else {
            INVALID
        },
        index: i as usize,
        no_remove: !is_cyclic && (i == 0 || i == n - 1),
        is_remove: false,
        is_corner: false,
        tan: [(2 * i) as usize, (2 * i + 1) as usize],
    }
}

/// The knots of a polygon of `n` vertices before any knot is touched.
pub open spec fn knots_initial(n: int, is_cyclic: bool) -> Seq<Knot> {
    Seq::new(n as nat, |i: int| knot_initial(n, is_cyclic, i))
}

// ---------------------------------------------------------------------------
// Counting

/// A prefix holds at most as many knots as it is long, all below its end.
pub proof fn lemma_live_prefix_bounds(knots: Seq<Knot>, m: nat)
    ensures
        live_prefix(knots, m).len() <= m,
        forall|j: int|
            0 <= j < live_prefix(knots, m).len() ==> 0 <= (#[trigger] live_prefix(knots, m)[j]) < m
                && is_live(knots, live_prefix(knots, m)[j]),
        forall|j: int, l: int|
            0 <= j < l < live_prefix(knots, m).len() ==> live_prefix(knots, m)[j] < live_prefix(
                knots,
                m,
            )[l],
    decreases m,
{
    if m > 0 {
        lemma_live_prefix_bounds(knots, (m - 1) as nat);
    }
}

/// The knots in the curve below a knot in the curve number as many as its
/// place in the order.
pub proof fn lemma_live_prefix_index(knots: Seq<Knot>, m: nat, i: int)
    requires
        is_live(knots, i),
        i < m <= knots.len(),
    ensures
        live_prefix(knots, i as nat).len() < live_prefix(knots, m).len(),
        live_prefix(knots, m)[live_prefix(knots, i as nat).len() as int] == i,
    decreases m,
{
    if m - 1 > i {
        lemma_live_prefix_index(knots, (m - 1) as nat, i);
    }
}

/// Where nothing between two indices is in the curve, the prefixes up to
/// them hold the same knots but for the lower index itself.
pub proof fn lemma_live_prefix_gap(knots: Seq<Knot>, a: int, b: int)
    requires
        0 <= a < b <= knots.len(),
        forall|j: int| a < j < b ==> (#[trigger] knots[j]).is_remove,
    ensures
        live_prefix(knots, b as nat) == live_prefix(knots, (a + 1) as nat),
    decreases b - a,
{
    if b > a + 1 {
        lemma_live_prefix_gap(knots, a, b - 1);
    }
}

/// A prefix of knots that are all out of the curve holds none.
pub proof fn lemma_live_prefix_none(knots: Seq<Knot>, m: nat)
    requires
        m <= knots.len(),
        forall|j: int| 0 <= j < m ==> (#[trigger] knots[j]).is_remove,
    ensures
        live_prefix(knots, m) == Seq::<int>::empty(),
    decreases m,
{
    if m > 0 {
        lemma_live_prefix_none(knots, (m - 1) as nat);
        assert(knots[m - 1].is_remove);
    }
}

/// Prefixes of two knot arrays with the same flags hold the same knots.
pub proof fn lemma_live_prefix_same(a: Seq<Knot>, b: Seq<Knot>, m: nat)
    requires
        a.len() == b.len(),
        forall|j: int| 0 <= j < a.len() ==> (#[trigger] a[j]).is_remove == b[j].is_remove,
    ensures
        live_prefix(a, m) == live_prefix(b, m),
    decreases m,
{
    if m > 0 {
        lemma_live_prefix_same(a, b, (m - 1) as nat);
        if m <= a.len() {
            assert(a[m - 1].is_remove == b[m - 1].is_remove);
        }
    }
}

/// Flipping the flag of one knot changes the number of knots in the curve
/// by one.
pub proof fn lemma_live_count_flip(a: Seq<Knot>, b: Seq<Knot>, k: int, m: nat)
    requires
        a.len() == b.len(),
        0 <= k < a.len(),
        a[k].is_remove,
        !b[k].is_remove,
        forall|j: int| 0 <= j < a.len() && j != k ==> (#[trigger] a[j]).is_remove == b[j].is_remove,
    ensures
        live_prefix(b, m).len() == live_prefix(a, m).len() + (if k < m {
            1int
        } else {
            0int
        }),
    decreases m,
{
    if m > 0 {
        lemma_live_count_flip(a, b, k, (m - 1) as nat);
        if m <= a.len() && m - 1 != k {
            assert(a[m - 1].is_remove == b[m - 1].is_remove);
        }
    }
}

/// A curve in which only knot `k` is left holds one knot.
pub proof fn lemma_live_count_single(knots: Seq<Knot>, k: int, m: nat)
    requires
        forall|j: int| 0 <= j < knots.len() && j != k ==> (#[trigger] knots[j]).is_remove,
    ensures
        live_prefix(knots, m).len() <= 1,
    decreases m,
{
    if m > 0 {
        lemma_live_count_single(knots, k, (m - 1) as nat);
        lemma_live_prefix_bounds(knots, (m - 1) as nat);
        if m <= knots.len() && !knots[m - 1].is_remove {
            let s = live_prefix(knots, (m - 1) as nat);
            if s.len() > 0 {
                assert(is_live(knots, s[0]));
                assert(s[0] < m - 1);
            }
        }
    }
}

/// A curve in which only knots `k` and `l` are left holds at most two.
pub proof fn lemma_live_count_pair(knots: Seq<Knot>, k: int, l: int, m: nat)
    requires
        forall|j: int| 0 <= j < knots.len() && j != k && j != l ==> (#[trigger] knots[j]).is_remove,
    ensures
        live_prefix(knots, m).len() <= 2,
    decreases m,
{
    if m > 0 {
        lemma_live_count_pair(knots, k, l, (m - 1) as nat);
        lemma_live_prefix_bounds(knots, (m - 1) as nat);
        if m <= knots.len() && !knots[m - 1].is_remove {
            let s = live_prefix(knots, (m - 1) as nat);
            if s.len() > 1 {
                assert(is_live(knots, s[0]));
                assert(is_live(knots, s[1]));
                assert(s[0] < s[1] < m - 1);
            }
        }
    }
}

// ---------------------------------------------------------------------------
// The ring

/// The knots of one curve with their links.
pub struct KnotRing {
    knots: Vec<Knot>,
    is_cyclic: bool,
    len_remaining: usize,
}

impl View for KnotRing {
    type V = Seq<Knot>;

    /// The knots, by index.
    closed spec fn view(&self) -> Seq<Knot> {
        self.knots@
    }
}

impl KnotRing {
    /// Whether the curve is closed.
    pub closed spec fn spec_is_cyclic(&self) -> bool {
        self.is_cyclic
    }

    /// Number of knots in the curve, as counted.
    pub closed spec fn spec_len_remaining(&self) -> usize {
        self.len_remaining
    }

    /// The ring's invariant: the knots form a well-formed curve and the
    /// count of knots in it is right.
    pub open spec fn wf(&self) -> bool {
        &&& ring_wf(self@, self.spec_is_cyclic())
        &&& self.spec_len_remaining() == live_indices(self@).len()
        &&& self@.len() >= 2 ==> self.spec_len_remaining() >= 2
    }

    /// One knot per vertex of a polygon of `knots_len` vertices, each linked
    /// to the next; a closed polygon gives a ring, an open one a chain whose
    /// ends are never removed.  Knot `i` gets the tangent slots `2 * i` and
    /// `2 * i + 1`.
    #[verifier::rlimit(50)]
    pub fn new(knots_len: usize, is_cyclic: bool) -> (ring: KnotRing)
        requires
            1 <= knots_len,
            2 * knots_len <= usize::MAX,
        ensures
            ring.wf(),
            ring.spec_is_cyclic() == is_cyclic,
            ring@.len() == knots_len,
            ring.spec_len_remaining() == knots_len,
            ring@ == knots_initial(knots_len as int, is_cyclic),
            live_indices(ring@) == Seq::new(knots_len as nat, |i: int| i),
    {
        let mut knots: Vec<Knot> = Vec::with_capacity(knots_len);
        let mut i: usize = 0;
        while i < knots_len
            invariant
                i <= knots_len,
                2 * knots_len <= usize::MAX,
                knots@.len() == i,
                forall|j: int|
                    0 <= j < i ==> {
                        let k = #[trigger] knots@[j];
                        &&& k.index == j
                        &&& k.next == j + 1
                        &&& (j > 0 ==> k.prev == j - 1)
                        &&& (j == 0 ==> k.prev == INVALID)
                        &&& !k.no_remove
                        &&& !k.is_remove
                        &&& !k.is_corner
                        &&& k.tan[0] == 2 * j
                        &&& k.tan[1] == 2 * j + 1
                    },
            decreases knots_len - i,
        {
            knots.push(
                Knot {
                    next: i.wrapping_add(1),
                    prev: i.wrapping_sub(1),
                    index: i,
                    no_remove: false,
                    is_remove: false,
                    is_corner: false,
                    tan: [i * 2, i * 2 + 1],
                },
            );
            i += 1;
        }
        let ghost linked = knots@;

        if is_cyclic {
            let i_last = knots.len() - 1;
            knots[0].prev = i_last;
            knots[i_last].next = 0;
        } else {
            let i_last = knots.len() - 1;
            knots[0].prev = INVALID;
            knots[i_last].next = INVALID;

            knots[0].no_remove = true;
            knots[i_last].no_remove = true;
        }
        let ring = KnotRing { knots: knots, is_cyclic: is_cyclic, len_remaining: knots_len };
        proof {
            let ks = ring@;
            assert forall|j: int| 0 <= j < ks.len() implies #[trigger] knot_ok(ks, is_cyclic, j) by {
                let k = linked[j];
                assert(ks[j].index == j);
                if j + 1 < ks.len() {
                    let kn = linked[j + 1];
                }
                if j > 0 {
                    let kp = linked[j - 1];
                }
                let k0 = linked[0];
                let kl = linked[ks.len() - 1];
            }
            Self::lemma_all_live(ks, ks.len());
            assert(live_indices(ks) =~= Seq::new(knots_len as nat, |i: int| i));
            assert forall|j: int| 0 <= j < ks.len() implies ks[j] == knot_initial(
                knots_len as int,
                is_cyclic,
                j,
            ) by {
                let k = linked[j];
                let a = ks[j].tan;
                let b = knot_initial(knots_len as int, is_cyclic, j).tan;
                assert(a[0] == 2 * j && a[1] == 2 * j + 1);
                assert(b[0] == 2 * j && b[1] == 2 * j + 1);
                assert(a =~= b);
                assert(ks[j].next == knot_initial(knots_len as int, is_cyclic, j).next);
                assert(ks[j].prev == knot_initial(knots_len as int, is_cyclic, j).prev);
            }
            assert(ks =~= knots_initial(knots_len as int, is_cyclic));
        }
        ring
    }

    /// Where every knot is in the curve, the order is the index order.
    proof fn lemma_all_live(knots: Seq<Knot>, m: nat)
        requires
            m <= knots.len(),
            forall|j: int| 0 <= j < knots.len() ==> !(#[trigger] knots[j]).is_remove,
        ensures
            live_prefix(knots, m) == Seq::new(m, |i: int| i),
        decreases m,
    {
        if m > 0 {
            Self::lemma_all_live(knots, (m - 1) as nat);
            assert(!knots[m - 1].is_remove);
            assert(live_prefix(knots, m) =~= Seq::new(m, |i: int| i));
        } else {
            assert(live_prefix(knots, m) =~= Seq::new(m, |i: int| i));
        }
    }

    /// The knots.
    pub fn knots(&self) -> (knots: &Vec<Knot>)
        ensures
            knots@ == self@,
    {
        &self.knots
    }

    /// Whether the curve is closed.
    #[verifier::when_used_as_spec(spec_is_cyclic)]
    pub fn is_cyclic(&self) -> (r: bool)
        ensures
            r == self.spec_is_cyclic(),
    {
        self.is_cyclic
    }

    /// Number of knots in the curve.
    #[verifier::when_used_as_spec(spec_len_remaining)]
    pub fn len_remaining(&self) -> (r: usize)
        ensures
            r == self.spec_len_remaining(),
    {
        self.len_remaining
    }

    /// Whether knot `k` may be taken out or moved.
    pub fn knot_is_candidate(&self, k: usize) -> (r: bool)
        ensures
            r == is_candidate(self@, k as int),
    {
        if k >= self.knots.len() {
            return false;
        }
        let k_curr = &self.knots[k];
        (k_curr.no_remove == false) && (k_curr.is_remove == false) && (k_curr.is_corner == false)
    }

    /// Whether the error of knot `k` is to be worked out anew after one of
    /// its neighbours changed: it is linked on both sides, no end of an open
    /// curve and no corner.
    pub fn knot_is_rescored(&self, k: usize) -> (r: bool)
        requires
            self.wf(),
        ensures
            r == is_candidate(self@, k as int),
    {
        if k >= self.knots.len() {
            return false;
        }
        proof {
            assert(knot_ok(self@, self.spec_is_cyclic(), k as int));
            if !self@[k as int].is_remove && !self@[k as int].no_remove {
                let nx = self@[k as int].next as int;
                let px = self@[k as int].prev as int;
                assert(is_live(self@, nx));
                assert(is_live(self@, px));
            }
        }
        let k_iter = &self.knots[k];
        (k_iter.no_remove == false) && (k_iter.is_corner == false) && (k_iter.prev != INVALID) && (
        k_iter.next != INVALID)
    }

    /// Take knot `k` out of the curve and join its neighbours, unless it is
    /// no candidate or only two knots are left.  Hands back the two
    /// neighbours when the knot was taken out.
    #[verifier::rlimit(50)]
    pub fn remove(&mut self, k: usize) -> (r: Option<(usize, usize)>)
        requires
            old(self).wf(),
        ensures
            final(self).wf(),
            final(self).spec_is_cyclic() == old(self).spec_is_cyclic(),
            r.is_some() == can_unlink(old(self)@, old(self).spec_len_remaining() as int, k as int),
            r matches Some((p, n)) ==> {
                &&& p == old(self)@[k as int].prev
                &&& n == old(self)@[k as int].next
                &&& final(self)@ == knots_unlinked(old(self)@, k as int)
                &&& final(self).spec_len_remaining() == old(self).spec_len_remaining() - 1
            },
            r is None ==> {
                &&& final(self)@ == old(self)@
                &&& final(self).spec_len_remaining() == old(self).spec_len_remaining()
            },
    {
        if !self.knot_is_candidate(k) || self.len_remaining <= 2 {
            return None;
        }
        proof {
            lemma_unlink_wf(self@, self.is_cyclic, k as int);
        }
        let k_next_index = self.knots[k].next;
        let k_prev_index = self.knots[k].prev;

        self.knots[k].is_remove = true;
        self.knots[k].next = INVALID;
        self.knots[k].prev = INVALID;

        // Remove ourselves
        self.knots[k_next_index].prev = k_prev_index;
        self.knots[k_prev_index].next = k_next_index;

        self.len_remaining -= 1;
        proof {
            assert(self@ =~= knots_unlinked(old(self)@, k as int));
        }
        Some((k_prev_index, k_next_index))
    }

    /// Let knot `k` give its place in the curve to knot `k_refit`, unless
    /// `k` is no candidate, only two knots are left, or `k_refit` is neither
    /// `k` nor a knot out of the curve between the neighbours of `k`.  Hands
    /// back the two neighbours when the place was given.
    #[verifier::rlimit(50)]
    pub fn refit(&mut self, k: usize, k_refit: usize) -> (r: Option<(usize, usize)>)
        requires
            old(self).wf(),
        ensures
            final(self).wf(),
            final(self).spec_is_cyclic() == old(self).spec_is_cyclic(),
            final(self).spec_len_remaining() == old(self).spec_len_remaining(),
            r.is_some() == can_refit(
                old(self)@,
                old(self).spec_len_remaining() as int,
                k as int,
                k_refit as int,
            ),
            r matches Some((p, n)) ==> {
                &&& p == old(self)@[k as int].prev
                &&& n == old(self)@[k as int].next
                &&& final(self)@ == knots_refitted(old(self)@, k as int, k_refit as int)
            },
            r is None ==> final(self)@ == old(self)@,
    {
        if !self.knot_is_candidate(k) || self.len_remaining <= 2 || k_refit >= self.knots.len() {
            return None;
        }
        let k_prev_index = self.knots[k].prev;
        let k_next_index = self.knots[k].next;
        if k_refit != k {
            if !self.knots[k_refit].is_remove {
                return None;
            }
            let inside = if k_prev_index < k_next_index {
                k_prev_index < k_refit && k_refit < k_next_index
            } else {
                k_refit > k_prev_index || k_refit < k_next_index
            };
            if !inside {
                return None;
            }
        }
        proof {
            lemma_refit_wf(self@, self.is_cyclic, k as int, k_refit as int);
        }
        {
            self.knots[k].next = INVALID;
            self.knots[k].prev = INVALID;
            self.knots[k].is_remove = true;
        }
        // Remove ourselves
        self.knots[k_next_index].prev = k_refit;
        self.knots[k_prev_index].next = k_refit;

        self.knots[k_refit].prev = k_prev_index;
        self.knots[k_refit].next = k_next_index;
        self.knots[k_refit].is_remove = false;
        proof {
            assert(self@ =~= knots_refitted(old(self)@, k as int, k_refit as int));
        }
        Some((k_prev_index, k_next_index))
    }

    /// Put knot `k_split` into the curve between `k_prev` and `k_next` as a
    /// corner, unless the two are no neighbours in the curve or `k_split` is
    /// not a knot out of the curve between them.  Tells whether it did.
    #[verifier::rlimit(50)]
    pub fn corner_insert(&mut self, k_split: usize, k_prev: usize, k_next: usize) -> (r: bool)
        requires
            old(self).wf(),
        ensures
            final(self).wf(),
            final(self).spec_is_cyclic() == old(self).spec_is_cyclic(),
            r == can_corner(old(self)@, k_split as int, k_prev as int, k_next as int),
            r ==> final(self)@ == knots_cornered(
                old(self)@,
                k_split as int,
                k_prev as int,
                k_next as int,
            ) && final(self).spec_len_remaining() == old(self).spec_len_remaining() + 1,
            !r ==> {
                &&& final(self)@ == old(self)@
                &&& final(self).spec_len_remaining() == old(self).spec_len_remaining()
            },
    {
        let n = self.knots.len();
        if k_split >= n || k_prev >= n || k_next >= n {
            return false;
        }
        if self.knots[k_prev].is_remove || self.knots[k_next].is_remove
            || !self.knots[k_split].is_remove || self.knots[k_prev].next != k_next {
            return false;
        }
        let inside = if k_prev < k_next {
            k_prev < k_split && k_split < k_next
        } else {
            k_split > k_prev || k_split < k_next
        };
        if !inside {
            return false;
        }
        proof {
            lemma_corner_wf(self@, self.is_cyclic, k_split as int, k_prev as int, k_next as int);
            lemma_live_prefix_bounds(self@, self@.len());
        }
        let tan_prev;
        let tan_next;
        {
            self.knots[k_prev].next = k_split;
            tan_prev = self.knots[k_prev].tan[1];
        }
        {
            self.knots[k_next].prev = k_split;
            tan_next = self.knots[k_next].tan[0];
        }
        // Remove while collapsing
        {
            // Insert
            self.knots[k_split].is_remove = false;
            self.knots[k_split].is_corner = true;

            self.knots[k_split].prev = k_prev;
            self.knots[k_split].next = k_next;

            // Update tangents
            self.knots[k_split].tan = [tan_prev, tan_next];
        }
        self.len_remaining += 1;
        proof {
            assert(self@ =~= knots_cornered(
                old(self)@,
                k_split as int,
                k_prev as int,
                k_next as int,
            ));
        }
        true
    }

    /// The knots in the curve in the order of the curve: from the first knot
    /// in the array, following the links.
    #[verifier::rlimit(50)]
    pub fn live_order(&self) -> (order: Vec<usize>)
        requires
            self.wf(),
        ensures
            order@.len() == self.spec_len_remaining(),
            order@.map_values(|k: usize| k as int) == live_indices(self@),
    {
        let ghost ks = self@;
        let ghost live = live_indices(ks);
        proof {
            lemma_live_prefix_bounds(ks, ks.len());
        }
        let k_first_index: usize = {
            let mut i_search = INVALID;
            let mut i: usize = 0;
            while i < self.knots.len()
                invariant_except_break
                    i_search == INVALID,
                    forall|j: int| 0 <= j < i ==> (#[trigger] ks[j]).is_remove,
                invariant
                    ks == self.knots@,
                    i <= ks.len(),
                    2 * ks.len() <= usize::MAX,
                ensures
                    i_search == INVALID ==> forall|j: int|
                        0 <= j < ks.len() ==> (#[trigger] ks[j]).is_remove,
                    i_search != INVALID ==> is_live(ks, i_search as int) && forall|j: int|
                        0 <= j < i_search ==> (#[trigger] ks[j]).is_remove,
                decreases ks.len() - i,
            {
                if self.knots[i].is_remove == false {
                    i_search = i;
                    break ;
                }
                i += 1;
            }
            i_search
        };
        proof {
            if self.len_remaining > 0 {
                if k_first_index == INVALID {
                    lemma_live_prefix_none(ks, ks.len());
                } else {
                    lemma_live_prefix_none(ks, k_first_index as nat);
                    lemma_live_prefix_index(ks, ks.len(), k_first_index as int);
                }
            }
        }

        let mut cubic_order: Vec<usize> = Vec::with_capacity(self.len_remaining);
        let mut k_index = k_first_index;
        let mut step: usize = 0;
        while step < self.len_remaining
            invariant
                ks == self.knots@,
                ks == self@,
                live == live_indices(ks),
                self.wf(),
                step <= self.len_remaining,
                cubic_order@.len() == step,
                step < self.len_remaining ==> k_index == live[step as int],
                forall|j: int| 0 <= j < step ==> (#[trigger] cubic_order@[j]) == live[j],
            decreases self.len_remaining - step,
        {
            proof {
                lemma_live_prefix_bounds(ks, ks.len());
                assert(is_live(ks, live[step as int]));
                if step + 1 < self.len_remaining {
                    lemma_next_in_order(ks, self.is_cyclic, step as int);
                }
            }
            cubic_order.push(k_index);
            k_index = self.knots[k_index].next;
            step += 1;
        }
        proof {
            assert(cubic_order@.map_values(|k: usize| k as int) =~= live);
        }
        cubic_order
    }
}

/// In a well-formed curve the link of a knot that is not the last in the
/// order leads to the next knot in the order.
#[verifier::rlimit(50)]
pub proof fn lemma_next_in_order(knots: Seq<Knot>, is_cyclic: bool, j: int)
    requires
        ring_wf(knots, is_cyclic),
        0 <= j,
        j + 1 < live_indices(knots).len(),
    ensures
        knots[live_indices(knots)[j]].next == live_indices(knots)[j + 1],
{
    let live = live_indices(knots);
    lemma_live_prefix_bounds(knots, knots.len());
    let a = live[j];
    let b = live[j + 1];
    assert(is_live(knots, a));
    assert(is_live(knots, b));
    assert(a < b);
    assert(knot_ok(knots, is_cyclic, a));
    let nx = knots[a].next as int;
    // b is in the curve above a, so the link does not wrap and does not
    // pass b; and it cannot stop short of b, or there were a knot in the
    // curve between two neighbours in the order.
    lemma_live_prefix_index(knots, knots.len(), a);
    lemma_live_prefix_index(knots, knots.len(), b);
    let ra = live_prefix(knots, a as nat).len() as int;
    let rb = live_prefix(knots, b as nat).len() as int;
    assert(live[ra] == a);
    assert(live[rb] == b);
    assert(ra == j) by {
        if ra < j {
            assert(live[ra] < live[j]);
        } else if ra > j {
            assert(live[j] < live[ra]);
        }
    }
    assert(rb == j + 1) by {
        if rb < j + 1 {
            assert(live[rb] < live[j + 1]);
        } else if rb > j + 1 {
            assert(live[j + 1] < live[rb]);
        }
    }
    if is_cyclic {
        assert(arc_clear(knots, a, nx));
        if nx <= a {
            assert(between(a, nx, b));
            assert(knots[b].is_remove);
        }
    }
    assert(a < nx);
    assert(is_live(knots, nx));
    if nx > b {
        assert(between(a, nx, b));
        assert(knots[b].is_remove);
    }
    if nx < b {
        lemma_live_prefix_index(knots, knots.len(), nx);
        let rn = live_prefix(knots, nx as nat).len() as int;
        lemma_live_prefix_mono(knots, (a + 1) as nat, nx as nat);
        lemma_live_prefix_mono(knots, (nx + 1) as nat, b as nat);
        assert(live_prefix(knots, (a + 1) as nat).len() == ra + 1);
        assert(live_prefix(knots, (nx + 1) as nat).len() == rn + 1);
    }
}

/// A longer prefix holds at least as many knots.
pub proof fn lemma_live_prefix_mono(knots: Seq<Knot>, a: nat, b: nat)
    requires
        a <= b,
    ensures
        live_prefix(knots, a).len() <= live_prefix(knots, b).len(),
    decreases b - a,
{
    if a < b {
        lemma_live_prefix_mono(knots, a, (b - 1) as nat);
    }
}

/// The arcs from `p` to `k` and from `k` to `n` make up the arc from `p`
/// to `n`, where the three follow each other round the ring.
proof fn lemma_arc_join(p: int, k: int, n: int, j: int)
    requires
        p != k,
        n != k,
        !between(p, k, n),
        !between(k, n, p),
        between(p, n, j),
        j != k,
    ensures
        between(p, k, j) || between(k, n, j),
{
}

/// Taking a candidate out of a curve of more than two knots leaves a
/// well-formed curve with one knot less.
#[verifier::rlimit(50)]
pub proof fn lemma_unlink_wf(knots: Seq<Knot>, is_cyclic: bool, k: int)
    requires
        ring_wf(knots, is_cyclic),
        is_candidate(knots, k),
        live_indices(knots).len() > 2,
    ensures
        is_live(knots, knots[k].prev as int),
        is_live(knots, knots[k].next as int),
        knots[k].prev != k,
        knots[k].next != k,
        knots[k].prev != knots[k].next,
        ring_wf(knots_unlinked(knots, k), is_cyclic),
        live_indices(knots_unlinked(knots, k)).len() == live_indices(knots).len() - 1,
{
    let p = knots[k].prev as int;
    let n = knots[k].next as int;
    let k2 = knots_unlinked(knots, k);
    assert(knot_ok(knots, is_cyclic, k));
    lemma_neighbours_apart(knots, is_cyclic, k);
    assert(knot_ok(knots, is_cyclic, p));
    assert(knot_ok(knots, is_cyclic, n));
    assert forall|i: int| 0 <= i < k2.len() implies #[trigger] knot_ok(k2, is_cyclic, i) by {
        assert(knot_ok(knots, is_cyclic, i));
        if i != k && !knots[i].is_remove {
            let nx = knots[i].next as int;
            let px = knots[i].prev as int;
            let nx2 = k2[i].next as int;
            let px2 = k2[i].prev as int;
            if is_cyclic || i != knots.len() - 1 {
                assert(knot_ok(knots, is_cyclic, nx));
                assert forall|j: int| 0 <= j < k2.len() && between(i, nx2, j) implies (
                #[trigger] k2[j]).is_remove by {
                    if i == p {
                        if j != k {
                            lemma_arc_join(p, k, n, j);
                            assert(knots[j].is_remove);
                        }
                    } else {
                        assert(knots[j].is_remove);
                    }
                }
            }
            if is_cyclic || i != 0 {
                assert(knot_ok(knots, is_cyclic, px));
            }
        }
    }
    lemma_live_count_flip(k2, knots, k, knots.len());
}

/// In a curve of more than two knots, a knot and its two neighbours are
/// three knots, in this order round the ring.
#[verifier::rlimit(50)]
proof fn lemma_neighbours_apart(knots: Seq<Knot>, is_cyclic: bool, k: int)
    requires
        ring_wf(knots, is_cyclic),
        is_candidate(knots, k),
        live_indices(knots).len() > 2,
    ensures
        is_live(knots, knots[k].prev as int),
        is_live(knots, knots[k].next as int),
        knots[k].prev != k,
        knots[k].next != k,
        knots[k].prev != knots[k].next,
        !between(knots[k].prev as int, k, knots[k].next as int),
        !between(k, knots[k].next as int, knots[k].prev as int),
        arc_clear(knots, knots[k].prev as int, k),
        arc_clear(knots, k, knots[k].next as int),
{
    let p = knots[k].prev as int;
    let n = knots[k].next as int;
    assert(knot_ok(knots, is_cyclic, k));
    if is_cyclic {
        assert(knot_ok(knots, is_cyclic, p));
        assert(knot_ok(knots, is_cyclic, n));
        if n == k || p == k {
            assert(arc_clear(knots, k, k));
            lemma_live_count_single(knots, k, knots.len());
        }
        if p == n {
            assert forall|j: int| 0 <= j < knots.len() && j != k && j != n implies (
            #[trigger] knots[j]).is_remove by {
                if between(k, n, j) {
                } else {
                    assert(between(n, k, j));
                }
            }
            lemma_live_count_pair(knots, k, n, knots.len());
        }
        if between(p, k, n) {
            assert(knots[n].is_remove);
        }
        if between(k, n, p) {
            assert(knots[p].is_remove);
        }
    } else {
        assert(knot_ok(knots, is_cyclic, p));
    }
}

/// Letting a candidate give its place to a knot between its neighbours
/// leaves a well-formed curve with as many knots.
#[verifier::rlimit(50)]
pub proof fn lemma_refit_wf(knots: Seq<Knot>, is_cyclic: bool, k: int, r: int)
    requires
        ring_wf(knots, is_cyclic),
        can_refit(knots, live_indices(knots).len() as int, k, r),
    ensures
        is_live(knots, knots[k].prev as int),
        is_live(knots, knots[k].next as int),
        knots[k].prev != k,
        knots[k].next != k,
        knots[k].prev != r,
        knots[k].next != r,
        ring_wf(knots_refitted(knots, k, r), is_cyclic),
        live_indices(knots_refitted(knots, k, r)).len() == live_indices(knots).len(),
{
    let p = knots[k].prev as int;
    let n = knots[k].next as int;
    let k2 = knots_refitted(knots, k, r);
    assert(knot_ok(knots, is_cyclic, k));
    assert(knot_ok(knots, is_cyclic, r));
    lemma_neighbours_apart(knots, is_cyclic, k);
    assert(knot_ok(knots, is_cyclic, p));
    assert(knot_ok(knots, is_cyclic, n));
    assert forall|i: int| 0 <= i < k2.len() implies #[trigger] knot_ok(k2, is_cyclic, i) by {
        assert(knot_ok(knots, is_cyclic, i));
        if !k2[i].is_remove {
            let nx2 = k2[i].next as int;
            if i != r {
                let nx = knots[i].next as int;
                let px = knots[i].prev as int;
                if is_cyclic || i != knots.len() - 1 {
                    assert(knot_ok(knots, is_cyclic, nx));
                }
                if is_cyclic || i != 0 {
                    assert(knot_ok(knots, is_cyclic, px));
                }
            }
            if is_cyclic || i != knots.len() - 1 {
                assert forall|j: int| 0 <= j < k2.len() && between(i, nx2, j) implies (
                #[trigger] k2[j]).is_remove by {
                    if i == p || i == r {
                        if j != k && j != r {
                            if between(p, n, j) {
                                lemma_arc_join(p, k, n, j);
                            }
                            assert(knots[j].is_remove);
                        }
                    } else {
                        assert(knots[j].is_remove);
                    }
                }
            }
        }
    }
    if r != k {
        let mid = knots.update(k, knot_removed(knots[k]));
        lemma_live_count_flip(mid, knots, k, knots.len());
        lemma_live_count_flip(mid, k2, r, knots.len());
    } else {
        lemma_live_prefix_same(knots, k2, knots.len());
    }
}

/// Putting a knot between two neighbours as a corner leaves a well-formed
/// curve with one knot more.
#[verifier::rlimit(50)]
pub proof fn lemma_corner_wf(knots: Seq<Knot>, is_cyclic: bool, s: int, p: int, n: int)
    requires
        ring_wf(knots, is_cyclic),
        can_corner(knots, s, p, n),
    ensures
        s != p,
        s != n,
        ring_wf(knots_cornered(knots, s, p, n), is_cyclic),
        live_indices(knots_cornered(knots, s, p, n)).len() == live_indices(knots).len() + 1,
{
    let k2 = knots_cornered(knots, s, p, n);
    assert(knot_ok(knots, is_cyclic, s));
    assert(knot_ok(knots, is_cyclic, p));
    assert(knot_ok(knots, is_cyclic, n));
    assert forall|i: int| 0 <= i < k2.len() implies #[trigger] knot_ok(k2, is_cyclic, i) by {
        assert(knot_ok(knots, is_cyclic, i));
        if !k2[i].is_remove {
            let nx2 = k2[i].next as int;
            if i != s {
                let nx = knots[i].next as int;
                let px = knots[i].prev as int;
                if is_cyclic || i != knots.len() - 1 {
                    assert(knot_ok(knots, is_cyclic, nx));
                }
                if is_cyclic || i != 0 {
                    assert(knot_ok(knots, is_cyclic, px));
                }
            }
            if is_cyclic || i != knots.len() - 1 {
                assert forall|j: int| 0 <= j < k2.len() && between(i, nx2, j) implies (
                #[trigger] k2[j]).is_remove by {
                    if i == p || i == s {
                        assert(arc_clear(knots, p, n));
                        if j != s {
                            assert(between(p, n, j));
                            assert(knots[j].is_remove);
                        }
                    } else {
                        let nx = knots[i].next as int;
                        assert(arc_clear(knots, i, nx));
                        assert(knots[j].is_remove);
                        if j == s {
                            // the corner lies between p and n, not between
                            // two other neighbours
                            assert(between(i, nx, s));
                            assert(knots[s].is_remove);
                            lemma_arcs_apart(knots, is_cyclic, p, i, s);
                        }
                    }
                }
            }
        }
    }
    lemma_live_count_flip(knots, k2, s, knots.len());
}

/// Two knots of a curve whose arcs to their next knots share an index are
/// the same knot.
proof fn lemma_arcs_apart(knots: Seq<Knot>, is_cyclic: bool, a: int, b: int, j: int)
    requires
        ring_wf(knots, is_cyclic),
        is_live(knots, a),
        is_live(knots, b),
        is_cyclic || a != knots.len() - 1,
        is_cyclic || b != knots.len() - 1,
        0 <= j < knots.len(),
        between(a, knots[a].next as int, j),
        between(b, knots[b].next as int, j),
    ensures
        a == b,
{
    assert(knot_ok(knots, is_cyclic, a));
    assert(knot_ok(knots, is_cyclic, b));
    let na = knots[a].next as int;
    let nb = knots[b].next as int;
    assert(arc_clear(knots, a, na));
    assert(arc_clear(knots, b, nb));
    // b is in the curve, so it is not inside the arc of a, and the other
    // way round; two arcs that share an index then hold each other's start.
    if between(a, na, b) {
        assert(knots[b].is_remove);
    }
    if between(b, nb, a) {
        assert(knots[a].is_remove);
    }
}

/// An open curve keeps its ends: its first and its last knot are in the
/// curve, first and last in its order.
pub proof fn law_open_keeps_ends(knots: Seq<Knot>)
    requires
        ring_wf(knots, false),
    ensures
        live_indices(knots).len() >= 1,
        live_indices(knots).first() == 0,
        live_indices(knots).last() == knots.len() - 1,
        knots.len() >= 2 ==> live_indices(knots).len() >= 2,
{
    let n = knots.len() as int;
    assert(knot_ok(knots, false, 0));
    assert(knot_ok(knots, false, n - 1));
    lemma_live_prefix_bounds(knots, knots.len());
    lemma_live_prefix_none(knots, 0);
    lemma_live_prefix_index(knots, knots.len(), 0);
    lemma_live_prefix_index(knots, knots.len(), n - 1);
    let live = live_indices(knots);
    let r = live_prefix(knots, (n - 1) as nat).len() as int;
    assert(live[r] == n - 1);
    if r < live.len() - 1 {
        assert(live[r] < live[live.len() - 1]);
    }
}

/// A curve of two knots or more never gets down to fewer than two: as many
/// knots are in the curve as the ring counts, and no operation takes one
/// out unless more than two are left.
pub proof fn law_two_knots_left(ring: KnotRing)
    requires
        ring.wf(),
        ring@.len() >= 2,
    ensures
        live_indices(ring@).len() >= 2,
        live_indices(ring@).len() == ring.spec_len_remaining(),
{
}

/// Taking a knot out or moving it leaves a closed curve closed and an open
/// curve open, and leaves at least two knots where there were two.
pub proof fn law_unlink_keeps_two(knots: Seq<Knot>, is_cyclic: bool, k: int)
    requires
        ring_wf(knots, is_cyclic),
        can_unlink(knots, live_indices(knots).len() as int, k),
    ensures
        ring_wf(knots_unlinked(knots, k), is_cyclic),
        live_indices(knots_unlinked(knots, k)).len() == live_indices(knots).len() - 1,
        live_indices(knots_unlinked(knots, k)).len() >= 2,
{
    lemma_unlink_wf(knots, is_cyclic, k);
}

} // verus!
