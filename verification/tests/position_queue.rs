use grid_forge::gen::collapse::queue::position::{
    compare_downleft_columnwise, compare_downleft_rowwise, compare_downright_columnwise,
    compare_downright_rowwise, compare_upleft_columnwise, compare_upleft_rowwise,
    compare_upright_columnwise, compare_upright_rowwise,
};
use std::cmp::Ordering;
use grid_forge::gen::collapse::{PositionQueue, PositionQueueDirection, PositionQueueStartingPoint};
use grid_forge::gen::collapse::{PropagateItem, Propagator};
use grid_forge::tile::GridPosition;

#[test]
fn check_sort_default() {
    let mut tiles = GridPosition::generate_rect_area(&GridPosition::new_xy(0, 0), &GridPosition::new_xy(5, 5));

    tiles.sort_by(compare_downleft_columnwise);
}

#[test]
fn rect_area_covers_every_position_once() {
    let tiles = GridPosition::generate_rect_area(&GridPosition::new_xy(1, 2), &GridPosition::new_xy(3, 3));
    assert_eq!(tiles.len(), 6);
    for x in 1..=3u32 {
        for y in 2..=3u32 {
            assert_eq!(tiles.iter().filter(|p| **p == GridPosition::new_xy(x, y)).count(), 1);
        }
    }
}

#[test]
fn upleft_orders_put_origin_first() {
    let mut tiles = GridPosition::generate_rect_area(&GridPosition::new_xy(0, 0), &GridPosition::new_xy(2, 2));
    tiles.sort_by(compare_upleft_rowwise);
    assert_eq!(tiles[0], GridPosition::new_xy(0, 0));
    assert_eq!(tiles[1], GridPosition::new_xy(1, 0));
    assert_eq!(tiles[8], GridPosition::new_xy(2, 2));
    tiles.sort_by(compare_upleft_columnwise);
    assert_eq!(tiles[0], GridPosition::new_xy(0, 0));
    assert_eq!(tiles[1], GridPosition::new_xy(0, 1));
}

#[test]
fn queue_hands_out_positions_in_order_once() {
    let mut queue = PositionQueue::new(PositionQueueStartingPoint::UpLeft, PositionQueueDirection::Rowwise);
    assert!(queue.is_empty());
    queue.initialize_queue(&[
        GridPosition::new_xy(1, 1),
        GridPosition::new_xy(0, 1),
        GridPosition::new_xy(1, 0),
        GridPosition::new_xy(0, 0),
    ]);
    assert_eq!(queue.len(), 4);
    assert_eq!(queue.get_next_position(), Some(GridPosition::new_xy(0, 0)));
    assert_eq!(queue.get_next_position(), Some(GridPosition::new_xy(1, 0)));
    assert_eq!(queue.get_next_position(), Some(GridPosition::new_xy(0, 1)));
    assert_eq!(queue.get_next_position(), Some(GridPosition::new_xy(1, 1)));
    assert_eq!(queue.get_next_position(), None);
    assert!(queue.is_empty());
}

#[test]
fn queue_starting_down_right_takes_lower_rows_first() {
    let mut queue = PositionQueue::new(PositionQueueStartingPoint::DownRight, PositionQueueDirection::Rowwise);
    queue.initialize_queue(&[GridPosition::new_xy(0, 0), GridPosition::new_xy(1, 0), GridPosition::new_xy(0, 1)]);
    assert_eq!(queue.get_next_position(), Some(GridPosition::new_xy(0, 1)));
    assert_eq!(queue.get_next_position(), Some(GridPosition::new_xy(1, 0)));
    assert_eq!(queue.get_next_position(), Some(GridPosition::new_xy(0, 0)));
}

#[test]
fn queue_starting_up_right_takes_rows_right_to_left() {
    let mut queue = PositionQueue::new(PositionQueueStartingPoint::UpRight, PositionQueueDirection::Rowwise);
    queue.initialize_queue(&[
        GridPosition::new_xy(0, 0),
        GridPosition::new_xy(1, 0),
        GridPosition::new_xy(0, 1),
        GridPosition::new_xy(1, 1),
    ]);
    assert_eq!(queue.get_next_position(), Some(GridPosition::new_xy(1, 0)));
    assert_eq!(queue.get_next_position(), Some(GridPosition::new_xy(0, 0)));
    assert_eq!(queue.get_next_position(), Some(GridPosition::new_xy(1, 1)));
    assert_eq!(queue.get_next_position(), Some(GridPosition::new_xy(0, 1)));
}

#[test]
fn propagator_prefers_retained_removals() {
    let mut propagator = Propagator::new();
    assert_eq!(propagator.pop_to_resolve(None), None);
    propagator.push_propagate(PropagateItem::new(GridPosition::new_xy(0, 0), 1));
    propagator.push_propagate(PropagateItem::new(GridPosition::new_xy(1, 0), 2));
    propagator.retain_removal(GridPosition::new_xy(5, 5), 7);
    propagator.retain_removal(GridPosition::new_xy(5, 5), 8);
    let here = GridPosition::new_xy(5, 5);
    assert_eq!(propagator.pop_to_resolve(Some(&here)), Some((here, 8)));
    assert_eq!(propagator.pop_to_resolve(Some(&here)), Some((here, 7)));
    assert_eq!(propagator.pop_to_resolve(Some(&here)), Some((GridPosition::new_xy(1, 0), 2)));
    assert_eq!(propagator.pop_to_resolve(None), Some((GridPosition::new_xy(0, 0), 1)));
    assert_eq!(propagator.pop_to_resolve(Some(&here)), None);
    assert_eq!(propagator.get_from_retained(&here), None);
}

#[test]
fn propagate_item_keeps_its_fields() {
    let item = PropagateItem::new(GridPosition::new_xy(3, 4), 9);
    assert_eq!(*item.position(), GridPosition::new_xy(3, 4));
    assert_eq!(item.to_remove(), 9);
}

#[test]
fn every_comparator_orders_its_corner_first() {
    let mut tiles = GridPosition::generate_rect_area(&GridPosition::new_xy(0, 0), &GridPosition::new_xy(2, 2));
    tiles.sort_by(compare_upright_columnwise);
    assert_eq!(tiles[0], GridPosition::new_xy(2, 0));
    assert_eq!(tiles[1], GridPosition::new_xy(2, 1));
    tiles.sort_by(compare_upright_rowwise);
    assert_eq!(tiles[0], GridPosition::new_xy(2, 0));
    assert_eq!(tiles[1], GridPosition::new_xy(1, 0));
    tiles.sort_by(compare_downleft_columnwise);
    assert_eq!(tiles[0], GridPosition::new_xy(0, 2));
    assert_eq!(tiles[1], GridPosition::new_xy(0, 1));
    tiles.sort_by(compare_downleft_rowwise);
    assert_eq!(tiles[0], GridPosition::new_xy(0, 2));
    assert_eq!(tiles[1], GridPosition::new_xy(1, 2));
    tiles.sort_by(compare_downright_columnwise);
    assert_eq!(tiles[0], GridPosition::new_xy(2, 2));
    assert_eq!(tiles[1], GridPosition::new_xy(2, 1));
    tiles.sort_by(compare_downright_rowwise);
    assert_eq!(tiles[0], GridPosition::new_xy(2, 2));
    assert_eq!(tiles[1], GridPosition::new_xy(1, 2));
}

#[test]
fn comparators_break_ties_by_layer() {
    let low = GridPosition::new_xyz(3, 3, 0);
    let high = GridPosition::new_xyz(0, 0, 1);
    assert_eq!(compare_downright_rowwise(&low, &high), Ordering::Less);
    assert_eq!(compare_upleft_columnwise(&high, &low), Ordering::Greater);
    assert_eq!(compare_downleft_rowwise(&low, &low), Ordering::Equal);
}
