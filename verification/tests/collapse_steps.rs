use grid_forge::gen::collapse::singular::{
    Analyzer, CollapseHistorySubscriber, CollapsibleTileGrid, FrequencyHints, IdentityAnalyzer, Resolver,
};
use grid_forge::gen::collapse::{CollapsedGrid, CollapsedTileData};
use grid_forge::map::{GridDir, GridMap2D, GridSize};
use grid_forge::tile::identifiable::builders::ConstructableViaIdentifierTile;
use grid_forge::tile::identifiable::{BasicIdentTileData, IdentifiableTileData};
use grid_forge::tile::{GridPosition, GridTile};
use rand::rngs::StdRng;
use rand::SeedableRng;

fn sample_map(rows: &[&[u64]]) -> GridMap2D<BasicIdentTileData> {
    let size = GridSize::new_xy(rows[0].len() as u32, rows.len() as u32);
    let mut map = GridMap2D::new(size);
    for (y, row) in rows.iter().enumerate() {
        for (x, id) in row.iter().enumerate() {
            map.insert_tile(GridTile::new(GridPosition::new_xy(x as u32, y as u32), BasicIdentTileData::tile_new(*id)));
        }
    }
    map
}

fn checkerboard_grid(size: GridSize) -> (CollapsibleTileGrid<BasicIdentTileData>, IdentityAnalyzer<BasicIdentTileData>) {
    let sample = sample_map(&[&[0, 1, 0], &[1, 0, 1], &[0, 1, 0]]);
    let mut analyzer = IdentityAnalyzer::<BasicIdentTileData>::new();
    analyzer.analyze(&sample);
    let mut hints = FrequencyHints::<BasicIdentTileData>::new();
    hints.analyze_grid_map(&sample);
    (CollapsibleTileGrid::new_empty(size, &hints, analyzer.adjacency()), analyzer)
}

#[test]
fn collapsing_a_tile_narrows_its_neighbours() {
    let size = GridSize::new_xy(3, 1);
    let (mut grid, _) = checkerboard_grid(size);
    let mut resolver = Resolver::<BasicIdentTileData, CollapseHistorySubscriber>::new()
        .with_subscriber(CollapseHistorySubscriber::new());
    let positions = size.get_all_possible_positions();
    assert!(resolver.start_generation(&mut grid, &positions).is_ok());
    assert_eq!(grid.option_weights_at(&GridPosition::new_xy(1, 0)), Some(vec![5, 4]));
    let mut rng = StdRng::seed_from_u64(3);
    let changed = resolver.collapse_at(&mut grid, &mut rng, GridPosition::new_xy(1, 0)).unwrap();
    assert_eq!(changed, vec![GridPosition::new_xy(0, 0), GridPosition::new_xy(2, 0)]);
    assert_eq!(grid.option_weights_at(&GridPosition::new_xy(1, 0)), None);
    assert_eq!(grid.option_weights_at(&GridPosition::new_xy(0, 0)).unwrap().len(), 1);
    // A tile collapsed already is left as it is.
    let again = resolver.collapse_at(&mut grid, &mut rng, GridPosition::new_xy(1, 0)).unwrap();
    assert!(again.is_empty());
    for x in [0u32, 2] {
        let next = resolver.collapse_at(&mut grid, &mut rng, GridPosition::new_xy(x, 0)).unwrap();
        assert!(next.is_empty());
    }
    let out = grid.retrieve_collapsed();
    let ids: Vec<u64> = (0..3u32)
        .map(|x| out.as_ref().get_tile_at_position(&GridPosition::new_xy(x, 0)).unwrap().inner().tile_type_id())
        .collect();
    assert_ne!(ids[0], ids[1]);
    assert_eq!(ids[0], ids[2]);
    let history = resolver.retrieve_subscriber().unwrap();
    assert_eq!(history.history().len(), 3);
    assert_eq!(history.history()[0].position, GridPosition::new_xy(1, 0));
}

#[test]
fn steps_in_any_order_give_a_valid_grid() {
    let size = GridSize::new_xy(3, 3);
    let (mut grid, analyzer) = checkerboard_grid(size);
    let mut resolver = Resolver::<BasicIdentTileData, CollapseHistorySubscriber>::new();
    let positions = size.get_all_possible_positions();
    assert!(resolver.start_generation(&mut grid, &positions).is_ok());
    let mut rng = StdRng::seed_from_u64(9);
    for p in positions.iter().rev() {
        assert!(resolver.collapse_at(&mut grid, &mut rng, *p).is_ok());
    }
    let out = grid.retrieve_collapsed();
    for x in 0..3u32 {
        for y in 0..2u32 {
            let a = out.as_ref().get_tile_at_position(&GridPosition::new_xy(x, y)).unwrap().inner().tile_type_id();
            let b = out.as_ref().get_tile_at_position(&GridPosition::new_xy(x, y + 1)).unwrap().inner().tile_type_id();
            assert!(analyzer.adjacency().is_valid_raw(a, b, GridDir::DOWN));
        }
    }
}

#[test]
fn starting_a_generation_reports_a_blocked_position() {
    let size = GridSize::new_xy(3, 1);
    let sample = sample_map(&[&[0, 1]]);
    let mut analyzer = IdentityAnalyzer::<BasicIdentTileData>::new();
    analyzer.analyze(&sample);
    let mut hints = FrequencyHints::<BasicIdentTileData>::new();
    hints.analyze_grid_map(&sample);
    let mut collapsed = CollapsedGrid::new(size);
    // 1 is never seen left of anything, so nothing can lie right of it.
    collapsed.insert_data(&GridPosition::new_xy(0, 0), CollapsedTileData::new(1));
    let mut grid = CollapsibleTileGrid::new_from_collapsed(&collapsed, &hints, analyzer.adjacency()).unwrap();
    let mut resolver = Resolver::<BasicIdentTileData, CollapseHistorySubscriber>::new();
    let positions = vec![GridPosition::new_xy(1, 0), GridPosition::new_xy(2, 0)];
    let err = resolver.start_generation(&mut grid, &positions).unwrap_err();
    assert!(!err.is_probabilistic());
    assert_eq!(err.failed_pos(), GridPosition::new_xy(1, 0));
}
