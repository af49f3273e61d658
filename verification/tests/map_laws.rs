use grid_forge::gen::collapse::overlap::{OverlappingPattern2D, OverlappingPatternGrid, PatternCollection};
use grid_forge::map::{GridMap2D, GridSize};
use grid_forge::tile::identifiable::builders::ConstructableViaIdentifierTile;
use grid_forge::tile::identifiable::{BasicIdentTileData, IdentifiableTileData};
use grid_forge::tile::{GridPosition, GridTile, TileContainer};

fn partial_map() -> GridMap2D<BasicIdentTileData> {
    let mut map = GridMap2D::new(GridSize::new_xy(3, 2));
    for (x, y, id) in [(0u32, 0u32, 4u64), (2, 0, 5), (1, 1, 6)] {
        map.insert_tile(GridTile::new(GridPosition::new_xy(x, y), BasicIdentTileData::tile_new(id)));
    }
    map
}

#[test]
fn empty_and_occupied_positions_partition_the_grid() {
    let map = partial_map();
    let empty = map.get_all_empty_positions();
    let taken = map.get_all_positions();
    assert_eq!(taken, vec![GridPosition::new_xy(0, 0), GridPosition::new_xy(1, 1), GridPosition::new_xy(2, 0)]);
    assert_eq!(empty, vec![GridPosition::new_xy(0, 1), GridPosition::new_xy(1, 0), GridPosition::new_xy(2, 1)]);
    let mut all: Vec<GridPosition> = empty.iter().chain(taken.iter()).copied().collect();
    all.sort_by_key(|p| (*p.x(), *p.y()));
    assert_eq!(all, map.size().get_all_possible_positions());
    for p in &empty {
        assert!(map.get_tile_at_position(p).is_none());
        assert!(!taken.contains(p));
    }
}

#[test]
fn draining_agrees_with_remapping_without_layer() {
    let map = partial_map();
    let anchor = GridPosition::new_xy(10, 20);
    let copies = map.get_remapped(anchor);
    let drained = map.drain_remapped(anchor);
    assert_eq!(drained.len(), copies.len());
    for (d, c) in drained.iter().zip(copies.iter()) {
        assert_eq!(d.grid_position(), c.grid_position());
        assert_eq!(d.inner().tile_type_id(), c.inner().tile_type_id());
    }
    assert_eq!(drained[0].grid_position(), GridPosition::new_xy(10, 20));
    assert_eq!(drained[1].grid_position(), GridPosition::new_xy(11, 21));
}

#[test]
fn pattern_grid_lists_the_positions_of_its_map() {
    let map = partial_map();
    let mut collection = PatternCollection::new();
    let grid = OverlappingPatternGrid::<OverlappingPattern2D<2, 2>>::from_map(&map, &mut collection);
    assert_eq!(grid.inner().size().x(), map.size().x());
    assert_eq!(grid.inner().size().y(), map.size().y());
    assert_eq!(grid.inner().get_all_positions(), map.get_all_positions());
}
