use grid_forge::gen::collapse::singular::{
    Analyzer, CollapseHistorySubscriber, CollapsibleTileGrid, FrequencyHints, IdentityAnalyzer, Resolver,
};
use grid_forge::gen::collapse::{CollapsedGrid, CollapsedTileData, PropagateItem, Propagator};
use grid_forge::map::{GridMap2D, GridSize};
use grid_forge::tile::identifiable::builders::ConstructableViaIdentifierTile;
use grid_forge::tile::identifiable::BasicIdentTileData;
use grid_forge::tile::{GridPosition, GridTile};

fn sample_map(rows: &[&[u64]]) -> GridMap2D<BasicIdentTileData> {
    let size = GridSize::new_xy(rows[0].len() as u32, rows.len() as u32);
    let mut map = GridMap2D::new(size);
    for (y, row) in rows.iter().enumerate() {
        for (x, id) in row.iter().enumerate() {
            map.insert_tile(GridTile::new(GridPosition::new_xy(x as u32, y as u32), BasicIdentTileData::tile_new(*id)));
        }
    }
    map
}

fn started_grid(sample_rows: &[&[u64]]) -> CollapsibleTileGrid<BasicIdentTileData> {
    let sample = sample_map(sample_rows);
    let mut analyzer = IdentityAnalyzer::<BasicIdentTileData>::new();
    analyzer.analyze(&sample);
    let mut hints = FrequencyHints::<BasicIdentTileData>::new();
    hints.analyze_grid_map(&sample);
    let mut collapsed = CollapsedGrid::new(GridSize::new_xy(3, 1));
    collapsed.insert_data(&GridPosition::new_xy(0, 0), CollapsedTileData::new(0));
    let mut grid = CollapsibleTileGrid::new_from_collapsed(&collapsed, &hints, analyzer.adjacency()).unwrap();
    let mut resolver = Resolver::<BasicIdentTileData, CollapseHistorySubscriber>::new();
    let positions = vec![GridPosition::new_xy(1, 0), GridPosition::new_xy(2, 0)];
    assert!(resolver.start_generation(&mut grid, &positions).is_ok());
    grid
}

#[test]
fn propagation_reaches_beyond_the_first_neighbour() {
    let mut grid = started_grid(&[&[0, 1, 0], &[1, 0, 1], &[0, 1, 0]]);
    // Only the collapsed tile constrained the options so far.
    assert_eq!(grid.option_weights_at(&GridPosition::new_xy(1, 0)), Some(vec![4]));
    assert_eq!(grid.option_weights_at(&GridPosition::new_xy(2, 0)), Some(vec![5, 4]));
    let mut propagator = Propagator::new();
    propagator.push_propagate(PropagateItem::new(GridPosition::new_xy(1, 0), 0));
    assert!(propagator.propagate(&mut grid).is_ok());
    assert!(propagator.is_empty());
    assert_eq!(grid.option_weights_at(&GridPosition::new_xy(2, 0)), Some(vec![5]));
    assert_eq!(grid.option_weights_at(&GridPosition::new_xy(1, 0)), Some(vec![4]));
}

#[test]
fn propagation_reports_a_tile_left_without_options() {
    let mut grid = started_grid(&[&[0, 1]]);
    let mut propagator = Propagator::new();
    propagator.push_propagate(PropagateItem::new(GridPosition::new_xy(1, 0), 0));
    assert_eq!(propagator.propagate(&mut grid), Err(GridPosition::new_xy(2, 0)));
}

#[test]
fn propagation_through_a_consistent_grid_changes_nothing() {
    let mut grid = started_grid(&[&[0, 1, 0], &[1, 0, 1], &[0, 1, 0]]);
    let mut propagator = Propagator::new();
    propagator.push_propagate(PropagateItem::new(GridPosition::new_xy(1, 0), 0));
    assert!(propagator.propagate(&mut grid).is_ok());
    // Every arc is consistent now: propagating from each tile again succeeds and keeps every option.
    for x in 0..3 {
        propagator.push_propagate(PropagateItem::new(GridPosition::new_xy(x, 0), 0));
    }
    assert!(propagator.propagate(&mut grid).is_ok());
    assert!(propagator.is_empty());
    assert_eq!(grid.option_weights_at(&GridPosition::new_xy(1, 0)), Some(vec![4]));
    assert_eq!(grid.option_weights_at(&GridPosition::new_xy(2, 0)), Some(vec![5]));
}
