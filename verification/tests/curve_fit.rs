use raster_retrace::curve_fit_nd::{Knot, KnotRing, TraceMode, INVALID};
use raster_retrace::curve_fit_passes::{
    corner_pass_step, fit_order, point_index_wrap, points_offset_len, refit_pass_step,
    remove_pass_step, span_interior, CornerStep, RefitStep, RemoveStep,
};
use raster_retrace::keyed_heap::KeyedHeap;
use raster_retrace::polys_simplify_collapse::{poly_minimum_len, simplify_pass_step, CollapseStep, EdgeList};

fn links(ring: &KnotRing) -> Vec<(usize, usize)> {
    ring.knots().iter().map(|k: &Knot| (k.prev, k.next)).collect()
}

#[test]
fn trace_modes_differ() {
    assert!(TraceMode::Outline != TraceMode::Centerline);
    assert_eq!(TraceMode::Outline, TraceMode::Outline);
}

#[test]
fn ring_new_cyclic() {
    let ring = KnotRing::new(4, true);
    assert!(ring.is_cyclic());
    assert_eq!(ring.len_remaining(), 4);
    assert_eq!(links(&ring), vec![(3, 1), (0, 2), (1, 3), (2, 0)]);
    for (i, k) in ring.knots().iter().enumerate() {
        assert_eq!(k.index, i);
        assert_eq!(k.tan, [2 * i, 2 * i + 1]);
        assert!(!k.no_remove && !k.is_remove && !k.is_corner);
        assert!(ring.knot_is_candidate(i));
        assert!(ring.knot_is_rescored(i));
    }
    assert!(!ring.knot_is_candidate(4));
    assert_eq!(ring.live_order(), vec![0, 1, 2, 3]);
}

#[test]
fn ring_new_open_keeps_ends() {
    let ring = KnotRing::new(4, false);
    assert!(!ring.is_cyclic());
    assert_eq!(links(&ring), vec![(INVALID, 1), (0, 2), (1, 3), (2, INVALID)]);
    let flags: Vec<bool> = ring.knots().iter().map(|k| k.no_remove).collect();
    assert_eq!(flags, vec![true, false, false, true]);
    assert!(!ring.knot_is_candidate(0));
    assert!(ring.knot_is_candidate(1));
    assert!(!ring.knot_is_candidate(3));
    assert!(!ring.knot_is_rescored(0));
    assert_eq!(ring.live_order(), vec![0, 1, 2, 3]);
}

#[test]
fn ring_of_one_knot() {
    let ring = KnotRing::new(1, true);
    assert_eq!(links(&ring), vec![(0, 0)]);
    assert_eq!(ring.live_order(), vec![0]);
    let mut ring = KnotRing::new(1, false);
    assert_eq!(links(&ring), vec![(INVALID, INVALID)]);
    assert_eq!(ring.remove(0), None);
    assert_eq!(ring.live_order(), vec![0]);
}

#[test]
fn ring_remove_joins_neighbours() {
    let mut ring = KnotRing::new(5, true);
    assert_eq!(ring.remove(2), Some((1, 3)));
    assert_eq!(ring.len_remaining(), 4);
    assert!(ring.knots()[2].is_remove);
    assert_eq!(ring.knots()[1].next, 3);
    assert_eq!(ring.knots()[3].prev, 1);
    assert_eq!(ring.live_order(), vec![0, 1, 3, 4]);
    // a knot that is out cannot go again
    assert_eq!(ring.remove(2), None);
    assert_eq!(ring.remove(7), None);
    assert_eq!(ring.remove(0), Some((4, 1)));
    assert_eq!(ring.live_order(), vec![1, 3, 4]);
    assert_eq!(ring.remove(4), Some((3, 1)));
    assert_eq!(ring.live_order(), vec![1, 3]);
    // two knots are always left
    assert_eq!(ring.remove(1), None);
    assert_eq!(ring.remove(3), None);
    assert_eq!(ring.len_remaining(), 2);
    assert_eq!(ring.knots()[1].next, 3);
    assert_eq!(ring.knots()[3].next, 1);
}

#[test]
fn ring_open_never_loses_its_ends() {
    let mut ring = KnotRing::new(5, false);
    assert_eq!(ring.remove(0), None);
    assert_eq!(ring.remove(4), None);
    assert_eq!(ring.remove(1), Some((0, 2)));
    assert_eq!(ring.remove(3), Some((2, 4)));
    assert_eq!(ring.remove(2), Some((0, 4)));
    assert_eq!(ring.live_order(), vec![0, 4]);
    assert_eq!(ring.len_remaining(), 2);
    assert_eq!(ring.knots()[0].next, 4);
    assert_eq!(ring.knots()[4].prev, 0);
}

#[test]
fn ring_refit_moves_a_knot() {
    let mut ring = KnotRing::new(8, true);
    assert_eq!(ring.remove(3), Some((2, 4)));
    assert_eq!(ring.remove(5), Some((4, 6)));
    // knot 4 stands between 2 and 6; 3 and 5 are out
    assert_eq!(ring.refit(4, 5), Some((2, 6)));
    assert_eq!(ring.live_order(), vec![0, 1, 2, 5, 6, 7]);
    assert_eq!(ring.len_remaining(), 6);
    assert!(ring.knots()[4].is_remove);
    assert!(!ring.knots()[5].is_remove);
    assert_eq!((ring.knots()[5].prev, ring.knots()[5].next), (2, 6));
    assert_eq!(ring.knots()[2].next, 5);
    assert_eq!(ring.knots()[6].prev, 5);
    // to itself: nothing changes
    assert_eq!(ring.refit(5, 5), Some((2, 6)));
    assert_eq!(ring.live_order(), vec![0, 1, 2, 5, 6, 7]);
    // not to a knot in the curve, nor to one outside its span
    assert_eq!(ring.refit(5, 6), None);
    assert_eq!(ring.refit(1, 3), None);
    assert_eq!(ring.refit(5, 8), None);
    assert_eq!(ring.refit(3, 4), None);
    assert_eq!(ring.live_order(), vec![0, 1, 2, 5, 6, 7]);
}

#[test]
fn ring_refit_across_the_wrap() {
    let mut ring = KnotRing::new(6, true);
    assert_eq!(ring.remove(5), Some((4, 0)));
    assert_eq!(ring.remove(1), Some((0, 2)));
    // knot 0 stands between 4 and 2, round the end of the array
    assert_eq!(ring.refit(0, 5), Some((4, 2)));
    assert_eq!(ring.live_order(), vec![2, 3, 4, 5]);
    assert_eq!(ring.refit(5, 1), Some((4, 2)));
    assert_eq!(ring.live_order(), vec![1, 2, 3, 4]);
}

#[test]
fn ring_corner_insert() {
    let mut ring = KnotRing::new(6, true);
    assert_eq!(ring.remove(2), Some((1, 3)));
    assert_eq!(ring.remove(3), Some((1, 4)));
    // not between knots that are no neighbours, nor a knot in the curve
    assert!(!ring.corner_insert(2, 1, 5));
    assert!(!ring.corner_insert(0, 1, 4));
    assert!(!ring.corner_insert(2, 4, 1));
    assert!(!ring.corner_insert(9, 1, 4));
    assert!(ring.corner_insert(3, 1, 4));
    assert_eq!(ring.len_remaining(), 5);
    let k = &ring.knots()[3];
    assert!(k.is_corner && !k.is_remove);
    assert_eq!((k.prev, k.next), (1, 4));
    // the corner takes the tangents of its neighbours
    assert_eq!(k.tan, [3, 8]);
    assert_eq!(ring.live_order(), vec![0, 1, 3, 4, 5]);
    // a corner stays where it is
    assert!(!ring.knot_is_candidate(3));
    assert_eq!(ring.remove(3), None);
    assert_eq!(ring.corner_pair(1), Some(3));
    assert_eq!(ring.corner_pair(2), None);
}

#[test]
fn ring_corner_pair_skips_ends() {
    let ring = KnotRing::new(4, false);
    assert_eq!(ring.corner_pair(0), None);
    assert_eq!(ring.corner_pair(1), Some(2));
    assert_eq!(ring.corner_pair(2), None);
    assert_eq!(ring.corner_pair(3), None);
    assert_eq!(ring.corner_pair(4), None);
    let ring = KnotRing::new(3, true);
    assert_eq!(ring.corner_pair(2), Some(0));
}

#[test]
fn span_lengths() {
    assert_eq!(points_offset_len(2, 5, 10), 4);
    assert_eq!(points_offset_len(8, 1, 10), 4);
    assert_eq!(points_offset_len(3, 4, 10), 2);
    assert_eq!(points_offset_len(4, 4, 10), 11);
    assert_eq!(points_offset_len(0, 0, 1), 2);
    assert_eq!(point_index_wrap(3, 10), 3);
    assert_eq!(point_index_wrap(10, 10), 0);
    assert_eq!(point_index_wrap(19, 10), 9);
}

#[test]
fn span_interior_indices() {
    assert_eq!(span_interior(2, 6, 10), vec![3, 4, 5]);
    assert_eq!(span_interior(8, 2, 10), vec![9, 0, 1]);
    assert_eq!(span_interior(3, 4, 10), Vec::<usize>::new());
    assert_eq!(span_interior(9, 0, 10), Vec::<usize>::new());
    assert_eq!(span_interior(1, 1, 4), vec![2, 3, 0]);
    assert_eq!(span_interior(0, 0, 1), Vec::<usize>::new());
}

#[test]
fn remove_pass_takes_cheapest_first() {
    let mut ring = KnotRing::new(5, true);
    let mut heap: KeyedHeap<u32, char> = KeyedHeap::new(5);
    heap.update(1, 30, 'b');
    heap.update(2, 10, 'c');
    heap.update(3, 20, 'd');
    heap.update(4, 40, 'e');
    match remove_pass_step(&mut ring, &mut heap) {
        RemoveStep::Removed { index, prev, next, value, data } => {
            assert_eq!((index, prev, next, value, data), (2, 1, 3, 10, 'c'));
        }
        _ => panic!("expected a removal"),
    }
    match remove_pass_step(&mut ring, &mut heap) {
        RemoveStep::Removed { index, prev, next, value, data } => {
            assert_eq!((index, prev, next, value, data), (3, 1, 4, 20, 'd'));
        }
        _ => panic!("expected a removal"),
    }
    match remove_pass_step(&mut ring, &mut heap) {
        RemoveStep::Removed { index, prev, next, .. } => {
            assert_eq!((index, prev, next), (1, 0, 4));
        }
        _ => panic!("expected a removal"),
    }
    // two knots are left: the last candidate is dropped
    match remove_pass_step(&mut ring, &mut heap) {
        RemoveStep::Skipped { index } => assert_eq!(index, 4),
        _ => panic!("expected a skip"),
    }
    assert!(matches!(remove_pass_step(&mut ring, &mut heap), RemoveStep::Finished));
    assert_eq!(ring.live_order(), vec![0, 4]);
}

#[test]
fn refit_pass_removes_and_moves() {
    let mut ring = KnotRing::new(7, true);
    assert_eq!(ring.remove(3), Some((2, 4)));
    let mut heap: KeyedHeap<i64, (usize, u8)> = KeyedHeap::new(7);
    heap.update(4, 5, (3, 1));
    heap.update(1, -2, (INVALID, 2));
    heap.update(6, 9, (6, 3));
    heap.update(5, 12, (0, 4));
    match refit_pass_step(&mut ring, &mut heap) {
        RefitStep::Removed { index, prev, next, data } => assert_eq!((index, prev, next, data), (1, 0, 2, 2)),
        _ => panic!("expected a removal"),
    }
    match refit_pass_step(&mut ring, &mut heap) {
        RefitStep::Moved { index, index_refit, prev, next, data } => {
            assert_eq!((index, index_refit, prev, next, data), (4, 3, 2, 5, 1));
        }
        _ => panic!("expected a move"),
    }
    match refit_pass_step(&mut ring, &mut heap) {
        RefitStep::Moved { index, index_refit, prev, next, .. } => {
            assert_eq!((index, index_refit, prev, next), (6, 6, 5, 0));
        }
        _ => panic!("expected a move"),
    }
    // knot 0 is in the curve: knot 5 cannot move there
    match refit_pass_step(&mut ring, &mut heap) {
        RefitStep::Skipped { index, index_refit, prev, next, data } => {
            assert_eq!((index, index_refit, prev, next, data), (5, 0, 3, 6, 4));
        }
        _ => panic!("expected a skip"),
    }
    assert!(matches!(refit_pass_step(&mut ring, &mut heap), RefitStep::Finished));
    assert_eq!(ring.live_order(), vec![0, 2, 3, 5, 6]);
}

#[test]
fn corner_pass_puts_knots_back() {
    let mut ring = KnotRing::new(6, true);
    assert_eq!(ring.remove(1), Some((0, 2)));
    assert_eq!(ring.remove(4), Some((3, 5)));
    let mut heap: KeyedHeap<u32, (usize, usize, char)> = KeyedHeap::new(6);
    heap.update(4, 7, (3, 5, 'x'));
    heap.update(1, 3, (0, 2, 'y'));
    match corner_pass_step(&mut ring, &mut heap) {
        CornerStep::Inserted { index, prev, next, tan, data } => {
            assert_eq!((index, prev, next, tan, data), (1, 0, 2, [1, 4], 'y'));
        }
        _ => panic!("expected a corner"),
    }
    match corner_pass_step(&mut ring, &mut heap) {
        CornerStep::Inserted { index, prev, next, tan, data } => {
            assert_eq!((index, prev, next, tan, data), (4, 3, 5, [7, 10], 'x'));
        }
        _ => panic!("expected a corner"),
    }
    assert!(matches!(corner_pass_step(&mut ring, &mut heap), CornerStep::Finished));
    assert_eq!(ring.live_order(), vec![0, 1, 2, 3, 4, 5]);
    heap.update(2, 1, (1, 3, 'z'));
    match corner_pass_step(&mut ring, &mut heap) {
        CornerStep::Skipped { index } => assert_eq!(index, 2),
        _ => panic!("expected a skip"),
    }
}

#[test]
fn fit_order_is_longest_first() {
    assert_eq!(fit_order(&vec![]), Vec::<usize>::new());
    assert_eq!(fit_order(&vec![7]), vec![0]);
    assert_eq!(fit_order(&vec![3, 9, 5]), vec![1, 2, 0]);
    // of equally long polygons the later one comes first
    assert_eq!(fit_order(&vec![4, 8, 4, 8, 1]), vec![3, 1, 2, 0, 4]);
}

#[test]
fn edge_list_new() {
    let list = EdgeList::new(4, true);
    let e: Vec<(usize, usize, usize, usize)> =
        list.edges().iter().map(|e| (e.v1, e.v2, e.index_prev, e.index_next)).collect();
    assert_eq!(e, vec![(3, 0, 3, 1), (0, 1, 0, 2), (1, 2, 1, 3), (2, 3, 2, 0)]);
    assert!(list.is_cyclic());
    assert_eq!(list.len_remaining(), 4);
    assert_eq!(list.surviving(), vec![0, 1, 2, 3]);
    let list = EdgeList::new(5, false);
    let e: Vec<(usize, usize, usize, usize)> =
        list.edges().iter().map(|e| (e.v1, e.v2, e.index_prev, e.index_next)).collect();
    assert_eq!(
        e,
        vec![(0, 1, INVALID, INVALID), (1, 2, 0, 2), (2, 3, 1, 3), (3, 4, 2, INVALID)]
    );
    assert!(!list.edge_is_inner(0));
    assert!(list.edge_is_inner(1));
    assert!(list.edge_is_inner(2));
    assert!(!list.edge_is_inner(3));
    assert!(!list.edge_is_inner(4));
    assert_eq!(list.surviving(), vec![0, 1, 2, 3, 4]);
    assert_eq!(poly_minimum_len(true), 4);
    assert_eq!(poly_minimum_len(false), 2);
}

#[test]
fn edge_list_collapse() {
    let mut list = EdgeList::new(6, true);
    assert_eq!(list.collapse(2), Some((1, 2)));
    assert_eq!(list.len_remaining(), 5);
    assert_eq!(list.surviving(), vec![0, 1, 3, 4, 5]);
    let e = &list.edges()[3];
    assert_eq!((e.v1, e.v2, e.index_prev, e.index_next), (1, 3, 1, 4));
    assert_eq!(list.edges()[1].index_next, 3);
    assert_eq!(list.edges()[2].v2, INVALID);
    // an edge goes once
    assert_eq!(list.collapse(2), None);
    assert_eq!(list.collapse(6), None);
    assert_eq!(list.collapse(0), Some((5, 0)));
    assert_eq!(list.surviving(), vec![1, 3, 4, 5]);
    assert_eq!(list.collapse_affected(5, 1), [5, 4, 1, 3]);
}

#[test]
fn edge_list_open_keeps_ends() {
    let mut list = EdgeList::new(5, false);
    assert_eq!(list.collapse(0), None);
    assert_eq!(list.collapse(3), None);
    assert_eq!(list.collapse(1), Some((1, 2)));
    assert_eq!(list.surviving(), vec![0, 1, 3, 4]);
    assert_eq!(list.collapse_affected(0, 2), [INVALID, INVALID, 2, INVALID]);
    assert_eq!(list.collapse(2), Some((1, 3)));
    assert_eq!(list.surviving(), vec![0, 1, 4]);
    assert_eq!(list.collapse(3), None);
    assert_eq!(list.len_remaining(), 3);
}

#[test]
fn simplify_pass_stops_at_least_size() {
    let mut list = EdgeList::new(6, true);
    let mut heap: KeyedHeap<u32, char> = KeyedHeap::new(6);
    for i in 0..6usize {
        heap.update_below(i, (10 * i) as u32, 'q', 45);
    }
    assert!(!heap.contains(5));
    match simplify_pass_step(&mut list, &mut heap) {
        CollapseStep::Collapsed { edge_index, i_prev, i_next, i_vert_keep, i_vert_drop, value, affected, .. } => {
            assert_eq!((edge_index, i_prev, i_next, i_vert_keep, i_vert_drop, value), (0, 5, 1, 5, 0, 0));
            assert_eq!(affected, [5, 4, 1, 2]);
        }
        _ => panic!("expected a collapse"),
    }
    match simplify_pass_step(&mut list, &mut heap) {
        CollapseStep::Collapsed { edge_index, i_vert_keep, i_vert_drop, value, .. } => {
            assert_eq!((edge_index, i_vert_keep, i_vert_drop, value), (1, 5, 1, 10));
            // what collapses costs less than the limit
            assert!(value < 45);
        }
        _ => panic!("expected a collapse"),
    }
    // four vertices are left: the pass is over though candidates remain
    assert!(matches!(simplify_pass_step(&mut list, &mut heap), CollapseStep::Finished));
    assert_eq!(list.surviving(), vec![2, 3, 4, 5]);
    assert_eq!(list.len_remaining(), 4);
}
