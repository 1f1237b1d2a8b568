//! The steps of the three passes of the curve fitter, and the index
//! arithmetic they share.
//!
//! Each pass keeps one candidate operation per knot in a heap, ordered by
//! what the operation costs or gains.  A step pops the best candidate and
//! carries it out on the knot ring if it still can be; the caller works out
//! the numbers, applies them, and offers new candidates for the knots whose
//! neighbourhood changed.

use vstd::prelude::*;
use crate::curve_fit_nd::{
    between, can_corner, can_refit, can_unlink, is_live, knot_ok, knots_cornered, knots_refitted,
    knots_unlinked, KnotRing, INVALID,
};
use crate::keyed_heap::{is_min_slot, keys_below, law_popped_below, KeyedHeap};
use crate::min_heap::{HeapData, HeapValue};

verus! {

// ---------------------------------------------------------------------------
// Spans of points

/// Number of points on the span from point `l` to point `r` of a polygon of
/// `points_len` points, both ends counted; the span runs round the polygon
/// where `r` is not above `l`.
pub open spec fn span_len(l: int, r: int, points_len: int) -> int {
    (if l < r {
        r - l
    } else {
        (r + points_len) - l
    }) + 1
}

/// Number of points on the span between two knots, both counted.
pub fn points_offset_len(knot_l_index: usize, knot_r_index: usize, points_len: usize) -> (len: usize)
    requires
        knot_l_index < points_len,
        knot_r_index < points_len,
        2 * points_len <= usize::MAX,
    ensures
        len == span_len(knot_l_index as int, knot_r_index as int, points_len as int),
        2 <= len <= points_len + 1,
{
    (if knot_l_index < knot_r_index {
        knot_r_index - knot_l_index
    } else {
        (knot_r_index + points_len) - knot_l_index
    }) + 1
}

/// The index of a point of the polygon from its index in the doubled point
/// array: adjust the offset index to the global index and wrap if needed.
pub fn point_index_wrap(index: usize, points_len: usize) -> (r: usize)
    requires
        index < 2 * points_len,
    ensures
        r == index % points_len,
        r < points_len,
{
    let mut result = index;
    if result >= points_len {
        result -= points_len;
    }
    proof {
        if index >= points_len {
            vstd::arithmetic::div_mod::lemma_fundamental_div_mod_converse(
                index as int,
                points_len as int,
                1,
                index - points_len,
            );
        } else {
            vstd::arithmetic::div_mod::lemma_small_mod(index as nat, points_len as nat);
        }
    }
    result
}

/// The index that follows `k` round a ring of `knots_len` knots.
pub open spec fn ring_succ(k: int, knots_len: int) -> int {
    if k != knots_len - 1 {
        k + 1
    } else {
        0
    }
}

/// The `t`-th index after `k` round a ring of `knots_len` knots.
pub open spec fn ring_advance(k: int, knots_len: int, t: nat) -> int
    decreases t,
{
    if t == 0 {
        k
    } else {
        ring_succ(ring_advance(k, knots_len, (t - 1) as nat), knots_len)
    }
}

/// Number of indices strictly between `a` and `b` round a ring of
/// `knots_len` knots.
pub open spec fn interior_len(a: int, b: int, knots_len: int) -> int {
    if a < b {
        b - a - 1
    } else {
        b + knots_len - a - 1
    }
}

proof fn lemma_ring_advance(k: int, knots_len: int, t: nat)
    requires
        0 <= k < knots_len,
        t <= knots_len,
    ensures
        ring_advance(k, knots_len, t) == (if k + t < knots_len {
            k + t
        } else {
            k + t - knots_len
        }),
    decreases t,
{
    if t > 0 {
        lemma_ring_advance(k, knots_len, (t - 1) as nat);
    }
}

/// The indices strictly between two knots, in the order of the ring: the
/// points among which a knot between the two is looked for.
#[verifier::rlimit(50)]
pub fn span_interior(k_prev_index: usize, k_next_index: usize, knots_len: usize) -> (r: Vec<usize>)
    requires
        k_prev_index < knots_len,
        k_next_index < knots_len,
    ensures
        r@.len() == interior_len(k_prev_index as int, k_next_index as int, knots_len as int),
        forall|t: int|
            0 <= t < r@.len() ==> (#[trigger] r@[t]) == ring_advance(
                k_prev_index as int,
                knots_len as int,
                (t + 1) as nat,
            ),
        forall|t: int|
            0 <= t < r@.len() ==> (#[trigger] r@[t]) < knots_len && between(
                k_prev_index as int,
                k_next_index as int,
                r@[t] as int,
            ),
        forall|j: int|
            0 <= j < knots_len && between(k_prev_index as int, k_next_index as int, j)
                ==> exists|t: int| 0 <= t < r@.len() && #[trigger] r@[t] == j,
{
    let mut r: Vec<usize> = Vec::new();
    let knots_end = knots_len - 1;
    let mut k_step = k_prev_index;
    let ghost p = k_prev_index as int;
    let ghost q = k_next_index as int;
    let ghost n = knots_len as int;
    loop
        invariant_except_break
            r@.len() < n,
            r@.len() <= interior_len(p, q, n),
            k_step == ring_advance(p, n, r@.len()),
        invariant
            p == k_prev_index,
            q == k_next_index,
            n == knots_len,
            knots_end == n - 1,
            0 <= p < n,
            0 <= q < n,
            0 <= k_step < n,
            forall|t: int|
                0 <= t < r@.len() ==> (#[trigger] r@[t]) == ring_advance(p, n, (t + 1) as nat),
        ensures
            r@.len() == interior_len(p, q, n),
        decreases n - r@.len(),
    {
        proof {
            lemma_ring_advance(p, n, r@.len());
            lemma_ring_advance(p, n, (r@.len() + 1) as nat);
        }
        if k_step != knots_end {
            k_step += 1;
        } else {
            // wrap around
            k_step = 0;
        }

        if k_step != k_next_index {
            r.push(k_step);
        } else {
            break ;
        }
    }
    proof {
        assert forall|t: int| 0 <= t < r@.len() implies (#[trigger] r@[t]) < knots_len && between(
            p,
            q,
            r@[t] as int,
        ) by {
            lemma_ring_advance(p, n, (t + 1) as nat);
        }
        assert forall|j: int| 0 <= j < n && between(p, q, j) implies exists|t: int|
            0 <= t < r@.len() && #[trigger] r@[t] == j by {
            let t = if j > p {
                j - p - 1
            } else {
                j + n - p - 1
            };
            lemma_ring_advance(p, n, (t + 1) as nat);
            assert(r@[t] == j);
        }
    }
    r
}

// ---------------------------------------------------------------------------
// Pairs for corners

impl KnotRing {
    /// The knot after `k_prev` when the two may get a corner between them:
    /// both are in the curve and neither is an end of an open curve.
    pub fn corner_pair(&self, k_prev: usize) -> (r: Option<usize>)
        requires
            self.wf(),
        ensures
            r.is_some() == (is_live(self@, k_prev as int) && !self@[k_prev as int].no_remove
                && self@[k_prev as int].next != INVALID
                && !self@[self@[k_prev as int].next as int].no_remove),
            r matches Some(k_next) ==> k_next == self@[k_prev as int].next && is_live(
                self@,
                k_next as int,
            ),
    {
        let knots = self.knots();
        if k_prev >= knots.len() {
            return None;
        }
        proof {
            assert(knot_ok(self@, self.spec_is_cyclic(), k_prev as int));
        }
        let k = &knots[k_prev];
        if (k.is_remove == false) && (k.no_remove == false) && (k.next != INVALID) && (
        knots[k.next].no_remove == false) {
            Some(k.next)
        } else {
            None
        }
    }
}

// ---------------------------------------------------------------------------
// Removal pass

/// What a step of the removal pass did.
pub enum RemoveStep<TOrd, TData> {
    /// The heap was empty: the pass is over.
    Finished,
    /// The candidate was dropped: its knot could not be taken out.
    Skipped { index: usize },
    /// Knot `index` was taken out from between `prev` and `next`; `value`
    /// is the error of the curve that now joins the two and `data` what the
    /// candidate carried.
    Removed { index: usize, prev: usize, next: usize, value: TOrd, data: TData },
}

/// One step of the removal pass: pop the candidate of least error and take
/// its knot out of the curve, unless only two knots are left.  Where the
/// error of every candidate is below some bound, so is the error of the
/// curve that takes the place of the knot.
#[verifier::rlimit(50)]
pub fn remove_pass_step<TOrd: HeapValue, TData: HeapData>(
    ring: &mut KnotRing,
    heap: &mut KeyedHeap<TOrd, TData>,
) -> (step: RemoveStep<TOrd, TData>)
    requires
        old(ring).wf(),
        old(heap).wf(),
    ensures
        final(ring).wf(),
        final(heap).wf(),
        final(heap).spec_slots() == old(heap).spec_slots(),
        final(ring).spec_is_cyclic() == old(ring).spec_is_cyclic(),
        step is Finished <==> old(heap)@ == Map::<usize, (TOrd, TData)>::empty(),
        step is Finished ==> final(heap)@ == old(heap)@,
        !(step is Removed) ==> final(ring)@ == old(ring)@ && final(ring).spec_len_remaining()
            == old(ring).spec_len_remaining(),
        forall|limit: TOrd| #[trigger]
            keys_below(old(heap)@, limit) ==> {
                &&& keys_below(final(heap)@, limit)
                &&& step matches RemoveStep::Removed { value, .. } ==> value.rank() < limit.rank()
            },
        step matches RemoveStep::Skipped { index } ==> {
            &&& is_min_slot(old(heap)@, index)
            &&& final(heap)@ == old(heap)@.remove(index)
            &&& !can_unlink(old(ring)@, old(ring).spec_len_remaining() as int, index as int)
        },
        step matches RemoveStep::Removed { index, prev, next, value, data } ==> {
            &&& is_min_slot(old(heap)@, index)
            &&& old(heap)@[index] == (value, data)
            &&& final(heap)@ == old(heap)@.remove(index)
            &&& can_unlink(old(ring)@, old(ring).spec_len_remaining() as int, index as int)
            &&& prev == old(ring)@[index as int].prev
            &&& next == old(ring)@[index as int].next
            &&& final(ring)@ == knots_unlinked(old(ring)@, index as int)
            &&& final(ring).spec_len_remaining() == old(ring).spec_len_remaining() - 1
        },
{
    match heap.pop_min() {
        None => RemoveStep::Finished,
        Some((value, index, data)) => {
            proof {
                assert forall|limit: TOrd| #[trigger] keys_below(old(heap)@, limit) implies keys_below(
                    heap@,
                    limit,
                ) && value.rank() < limit.rank() by {
                    law_popped_below(old(heap)@, limit, index);
                }
            }
            match ring.remove(index) {
                None => RemoveStep::Skipped { index: index },
                Some((prev, next)) => RemoveStep::Removed {
                    index: index,
                    prev: prev,
                    next: next,
                    value: value,
                    data: data,
                },
            }
        },
    }
}

// ---------------------------------------------------------------------------
// Refit pass

/// What a step of the refit pass did.
pub enum RefitStep<TData> {
    /// The heap was empty: the pass is over.
    Finished,
    /// The candidate was dropped: its knot could neither go nor move.
    /// `prev` and `next` are the links of the knot.
    Skipped { index: usize, index_refit: usize, prev: usize, next: usize, data: TData },
    /// Knot `index` was taken out from between `prev` and `next`.
    Removed { index: usize, prev: usize, next: usize, data: TData },
    /// Knot `index` gave its place between `prev` and `next` to knot
    /// `index_refit`.
    Moved { index: usize, index_refit: usize, prev: usize, next: usize, data: TData },
}

/// One step of the refit pass: pop the best candidate and carry it out.  A
/// candidate whose target is `INVALID` takes its knot out of the curve; any
/// other moves the knot to the target.  Nothing is done unless more than two
/// knots are left.
#[verifier::rlimit(50)]
pub fn refit_pass_step<TOrd: HeapValue, TData: HeapData>(
    ring: &mut KnotRing,
    heap: &mut KeyedHeap<TOrd, (usize, TData)>,
) -> (step: RefitStep<TData>)
    requires
        old(ring).wf(),
        old(heap).wf(),
        old(heap).spec_slots() == old(ring)@.len(),
    ensures
        final(ring).wf(),
        final(heap).wf(),
        final(heap).spec_slots() == old(heap).spec_slots(),
        final(ring).spec_is_cyclic() == old(ring).spec_is_cyclic(),
        step is Finished <==> old(heap)@ == Map::<usize, (TOrd, (usize, TData))>::empty(),
        step is Finished ==> final(heap)@ == old(heap)@,
        (step is Finished || step is Skipped) ==> {
            &&& final(ring)@ == old(ring)@
            &&& final(ring).spec_len_remaining() == old(ring).spec_len_remaining()
        },
        step matches RefitStep::Skipped { index, index_refit, prev, next, data } ==> {
            &&& is_min_slot(old(heap)@, index)
            &&& old(heap)@[index].1 == (index_refit, data)
            &&& final(heap)@ == old(heap)@.remove(index)
            &&& prev == old(ring)@[index as int].prev
            &&& next == old(ring)@[index as int].next
            &&& if index_refit == INVALID {
                !can_unlink(old(ring)@, old(ring).spec_len_remaining() as int, index as int)
            } else {
                !can_refit(
                    old(ring)@,
                    old(ring).spec_len_remaining() as int,
                    index as int,
                    index_refit as int,
                )
            }
        },
        step matches RefitStep::Removed { index, prev, next, data } ==> {
            &&& is_min_slot(old(heap)@, index)
            &&& old(heap)@[index].1 == (INVALID, data)
            &&& final(heap)@ == old(heap)@.remove(index)
            &&& can_unlink(old(ring)@, old(ring).spec_len_remaining() as int, index as int)
            &&& prev == old(ring)@[index as int].prev
            &&& next == old(ring)@[index as int].next
            &&& final(ring)@ == knots_unlinked(old(ring)@, index as int)
            &&& final(ring).spec_len_remaining() == old(ring).spec_len_remaining() - 1
        },
        step matches RefitStep::Moved { index, index_refit, prev, next, data } ==> {
            &&& is_min_slot(old(heap)@, index)
            &&& old(heap)@[index].1 == (index_refit, data)
            &&& index_refit != INVALID
            &&& final(heap)@ == old(heap)@.remove(index)
            &&& can_refit(
                old(ring)@,
                old(ring).spec_len_remaining() as int,
                index as int,
                index_refit as int,
            )
            &&& prev == old(ring)@[index as int].prev
            &&& next == old(ring)@[index as int].next
            &&& final(ring)@ == knots_refitted(old(ring)@, index as int, index_refit as int)
            &&& final(ring).spec_len_remaining() == old(ring).spec_len_remaining()
        },
{
    match heap.pop_min() {
        None => RefitStep::Finished,
        Some((_value, index, (index_refit, data))) => {
            let k_prev_index;
            let k_next_index;
            {
                let k_old = &ring.knots()[index];
                k_prev_index = k_old.prev;
                k_next_index = k_old.next;
            }
            if index_refit == INVALID {
                match ring.remove(index) {
                    None => RefitStep::Skipped {
                        index: index,
                        index_refit: index_refit,
                        prev: k_prev_index,
                        next: k_next_index,
                        data: data,
                    },
                    Some((prev, next)) => RefitStep::Removed {
                        index: index,
                        prev: prev,
                        next: next,
                        data: data,
                    },
                }
            } else {
                match ring.refit(index, index_refit) {
                    None => RefitStep::Skipped {
                        index: index,
                        index_refit: index_refit,
                        prev: k_prev_index,
                        next: k_next_index,
                        data: data,
                    },
                    Some((prev, next)) => RefitStep::Moved {
                        index: index,
                        index_refit: index_refit,
                        prev: prev,
                        next: next,
                        data: data,
                    },
                }
            }
        },
    }
}

// ---------------------------------------------------------------------------
// Corner pass

/// What a step of the corner pass did.
pub enum CornerStep<TData> {
    /// The heap was empty: the pass is over.
    Finished,
    /// The candidate was dropped: its knot could not be put back.
    Skipped { index: usize },
    /// Knot `index` was put between `prev` and `next` as a corner, with
    /// tangent slots `tan`.
    Inserted { index: usize, prev: usize, next: usize, tan: [usize; 2], data: TData },
}

/// One step of the corner pass: pop the best candidate and put its knot
/// back into the curve as a corner between the two knots the candidate
/// names.
#[verifier::rlimit(50)]
pub fn corner_pass_step<TOrd: HeapValue, TData: HeapData>(
    ring: &mut KnotRing,
    heap: &mut KeyedHeap<TOrd, (usize, usize, TData)>,
) -> (step: CornerStep<TData>)
    requires
        old(ring).wf(),
        old(heap).wf(),
    ensures
        final(ring).wf(),
        final(heap).wf(),
        final(heap).spec_slots() == old(heap).spec_slots(),
        final(ring).spec_is_cyclic() == old(ring).spec_is_cyclic(),
        step is Finished <==> old(heap)@ == Map::<usize, (TOrd, (usize, usize, TData))>::empty(),
        step is Finished ==> final(heap)@ == old(heap)@,
        !(step is Inserted) ==> final(ring)@ == old(ring)@ && final(ring).spec_len_remaining()
            == old(ring).spec_len_remaining(),
        step matches CornerStep::Skipped { index } ==> {
            &&& is_min_slot(old(heap)@, index)
            &&& final(heap)@ == old(heap)@.remove(index)
            &&& !can_corner(
                old(ring)@,
                index as int,
                old(heap)@[index].1.0 as int,
                old(heap)@[index].1.1 as int,
            )
        },
        step matches CornerStep::Inserted { index, prev, next, tan, data } ==> {
            &&& is_min_slot(old(heap)@, index)
            &&& old(heap)@[index].1 == (prev, next, data)
            &&& final(heap)@ == old(heap)@.remove(index)
            &&& can_corner(old(ring)@, index as int, prev as int, next as int)
            &&& final(ring)@ == knots_cornered(old(ring)@, index as int, prev as int, next as int)
            &&& final(ring).spec_len_remaining() == old(ring).spec_len_remaining() + 1
            &&& tan == final(ring)@[index as int].tan
        },
{
    match heap.pop_min() {
        None => CornerStep::Finished,
        Some((_value, k_split_index, (k_prev_index, k_next_index, data))) => {
            if ring.corner_insert(k_split_index, k_prev_index, k_next_index) {
                let tan = ring.knots()[k_split_index].tan;
                CornerStep::Inserted {
                    index: k_split_index,
                    prev: k_prev_index,
                    next: k_next_index,
                    tan: tan,
                    data: data,
                }
            } else {
                CornerStep::Skipped { index: k_split_index }
            }
        },
    }
}

// ---------------------------------------------------------------------------
// Order of work

/// Whether polygon `a` is fitted before polygon `b`: the longer one first,
/// and of two equally long ones the later one.
pub open spec fn fitted_before(lens: Seq<usize>, a: int, b: int) -> bool {
    lens[a] > lens[b] || (lens[a] == lens[b] && a > b)
}

/// The order in which the polygons of a list are fitted, and in which
/// their curves are handed back: longest first.
#[verifier::rlimit(50)]
pub fn fit_order(lens: &Vec<usize>) -> (order: Vec<usize>)
    ensures
        order@.len() == lens@.len(),
        forall|i: int| 0 <= i < order@.len() ==> (#[trigger] order@[i]) < lens@.len(),
        forall|i: int, j: int|
            0 <= i < j < order@.len() ==> fitted_before(lens@, order@[i] as int, order@[j] as int),
        forall|k: usize| k < lens@.len() ==> #[trigger] order@.contains(k),
{
    let mut order: Vec<usize> = Vec::new();
    let n = lens.len();
    let mut k: usize = 0;
    while k < n
        invariant
            n == lens@.len(),
            k <= n,
            order@.len() == k,
            forall|i: int| 0 <= i < order@.len() ==> (#[trigger] order@[i]) < k,
            forall|i: int, j: int|
                0 <= i < j < order@.len() ==> fitted_before(
                    lens@,
                    order@[i] as int,
                    order@[j] as int,
                ),
            forall|m: usize| m < k ==> #[trigger] order@.contains(m),
        decreases n - k,
    {
        // knot k goes before every polygon that is no longer than it
        let mut at: usize = 0;
        while at < order.len() && lens[order[at]] > lens[k]
            invariant
                n == lens@.len(),
                k < n,
                at <= order@.len(),
                order@.len() == k,
                forall|i: int| 0 <= i < order@.len() ==> (#[trigger] order@[i]) < k,
                forall|i: int| 0 <= i < at ==> lens@[(#[trigger] order@[i]) as int] > lens@[k as int],
            decreases order@.len() - at,
        {
            at += 1;
        }
        let ghost before = order@;
        order.insert(at, k);
        proof {
            assert forall|i: int, j: int| 0 <= i < j < order@.len() implies fitted_before(
                lens@,
                order@[i] as int,
                order@[j] as int,
            ) by {
                if i < at && j > at {
                    assert(fitted_before(lens@, before[i] as int, before[j - 1] as int));
                } else if i < at && j < at {
                    assert(fitted_before(lens@, before[i] as int, before[j] as int));
                } else if i > at {
                    assert(fitted_before(lens@, before[i - 1] as int, before[j - 1] as int));
                } else if i == at {
                    assert(before[j - 1] < k);
                    if at < before.len() {
                        if j - 1 > at {
                            assert(fitted_before(lens@, before[at as int] as int, before[j - 1] as int));
                        }
                    }
                }
            }
            assert forall|m: usize| m < k + 1 implies #[trigger] order@.contains(m) by {
                if m == k {
                    assert(order@[at as int] == k);
                } else {
                    assert(before.contains(m));
                    let i0 = choose|i: int| 0 <= i < before.len() && before[i] == m;
                    if i0 < at {
                        assert(order@[i0] == m);
                    } else {
                        assert(order@[i0 + 1] == m);
                    }
                }
            }
        }
        k += 1;
    }
    order
}

} // verus!
