use grid_forge::gen::collapse::singular::{
    Analyzer, CollapseHistorySubscriber, CollapsibleTileGrid, FrequencyHints, IdentityAnalyzer, Resolver, Subscriber,
};
use grid_forge::gen::collapse::{CollapsedGrid, CollapsedTileData, PositionQueue};
use grid_forge::gen::collapse::{PositionQueueDirection, PositionQueueStartingPoint};
use grid_forge::map::{GridDir, GridMap2D, GridSize};
use grid_forge::tile::identifiable::builders::{ConstructableViaIdentifierTile, IdentTileTraitBuilder};
use grid_forge::tile::identifiable::{BasicIdentTileData, IdentifiableTileData};
use grid_forge::tile::{GridPosition, GridTile};
use rand::rngs::StdRng;
use rand::SeedableRng;

fn sample_map(rows: &[&[u64]]) -> GridMap2D<BasicIdentTileData> {
    let size = GridSize::new_xy(rows[0].len() as u32, rows.len() as u32);
    let mut map = GridMap2D::new(size);
    for (y, row) in rows.iter().enumerate() {
        for (x, id) in row.iter().enumerate() {
            map.insert_tile(GridTile::new(GridPosition::new_xy(x as u32, y as u32), BasicIdentTileData::tile_new(*id)));
        }
    }
    map
}

fn rules_for(rows: &[&[u64]]) -> (IdentityAnalyzer<BasicIdentTileData>, FrequencyHints<BasicIdentTileData>) {
    let sample = sample_map(rows);
    let mut analyzer = IdentityAnalyzer::<BasicIdentTileData>::new();
    analyzer.analyze(&sample);
    let mut hints = FrequencyHints::<BasicIdentTileData>::new();
    hints.analyze_grid_map(&sample);
    (analyzer, hints)
}

fn queue() -> PositionQueue {
    PositionQueue::new(PositionQueueStartingPoint::UpLeft, PositionQueueDirection::Rowwise)
}

#[test]
fn history_subscriber_records_and_clears() {
    let mut subscriber = CollapseHistorySubscriber::new();
    subscriber.on_collapse(&GridPosition::new_xy(1, 2), 5);
    subscriber.on_collapse(&GridPosition::new_xy(0, 0), 7);
    assert_eq!(subscriber.history().len(), 2);
    assert_eq!(subscriber.history()[0].position, GridPosition::new_xy(1, 2));
    assert_eq!(subscriber.history()[1].tile_type_id, 7);
    subscriber.on_generation_start();
    assert!(subscriber.history().is_empty());
}

#[test]
fn resolver_tells_subscriber_of_each_collapse() {
    let (analyzer, hints) = rules_for(&[&[0, 0, 1], &[0, 1, 1], &[1, 1, 0]]);
    let size = GridSize::new_xy(3, 3);
    let mut grid = CollapsibleTileGrid::new_empty(size, &hints, analyzer.adjacency());
    let mut resolver = Resolver::<BasicIdentTileData, CollapseHistorySubscriber>::new()
        .with_subscriber(CollapseHistorySubscriber::new());
    let mut rng = StdRng::seed_from_u64(13);
    let positions = size.get_all_possible_positions();
    assert!(resolver.generate_position(&mut grid, &mut rng, &positions, queue()).is_ok());

    let subscriber = resolver.retrieve_subscriber().unwrap();
    assert!(resolver.retrieve_subscriber().is_none());
    let history = subscriber.history();
    assert_eq!(history.len(), 9);
    assert_eq!(history[0].position, GridPosition::new_xy(0, 0));
    assert_eq!(history[1].position, GridPosition::new_xy(1, 0));
    assert_eq!(history[3].position, GridPosition::new_xy(0, 1));

    let collapsed = grid.retrieve_collapsed();
    for item in history {
        let tile = collapsed.as_ref().get_tile_at_position(&item.position).unwrap();
        assert_eq!(tile.inner().tile_type_id(), item.tile_type_id);
    }
    let built = grid.retrieve_ident(&IdentTileTraitBuilder::<BasicIdentTileData>::new()).unwrap();
    for x in 0..3u32 {
        for y in 0..2u32 {
            let a = built.get_tile_at_position(&GridPosition::new_xy(x, y)).unwrap().inner().tile_type_id();
            let b = built.get_tile_at_position(&GridPosition::new_xy(x, y + 1)).unwrap().inner().tile_type_id();
            assert!(analyzer.adjacency().is_valid_raw(a, b, GridDir::DOWN));
        }
    }
}

#[test]
fn grid_keeps_precollapsed_tiles() {
    let (analyzer, hints) = rules_for(&[&[3, 4], &[4, 3]]);
    let size = GridSize::new_xy(3, 1);
    let mut collapsed = CollapsedGrid::new(size);
    collapsed.insert_data(&GridPosition::new_xy(0, 0), CollapsedTileData::new(4));
    let mut grid = CollapsibleTileGrid::new_from_collapsed(&collapsed, &hints, analyzer.adjacency()).unwrap();
    let mut resolver = Resolver::<BasicIdentTileData, CollapseHistorySubscriber>::new();
    let mut rng = StdRng::seed_from_u64(2);
    let positions = vec![GridPosition::new_xy(1, 0), GridPosition::new_xy(2, 0)];
    assert!(resolver.generate_position(&mut grid, &mut rng, &positions, queue()).is_ok());
    let out = grid.retrieve_collapsed();
    let ids: Vec<u64> = (0..3u32)
        .map(|x| out.as_ref().get_tile_at_position(&GridPosition::new_xy(x, 0)).unwrap().inner().tile_type_id())
        .collect();
    assert_eq!(ids, vec![4, 3, 4]);
}

#[test]
fn unknown_tile_types_are_refused() {
    let (analyzer, hints) = rules_for(&[&[3, 4]]);
    let mut collapsed = CollapsedGrid::new(GridSize::new_xy(2, 2));
    collapsed.insert_data(&GridPosition::new_xy(0, 0), CollapsedTileData::new(9));
    collapsed.insert_data(&GridPosition::new_xy(1, 1), CollapsedTileData::new(3));
    let err = match CollapsibleTileGrid::new_from_collapsed(&collapsed, &hints, analyzer.adjacency()) {
        Err(e) => e,
        Ok(_) => panic!("tile type 9 has no weight"),
    };
    assert_eq!(err.missing_type_ids(), &Some(vec![9]));
    assert!(err.sizes().is_none());
}

#[test]
fn populating_needs_a_fitting_grid() {
    let (analyzer, hints) = rules_for(&[&[3, 4]]);
    let mut grid = CollapsibleTileGrid::new_empty(GridSize::new_xy(2, 2), &hints, analyzer.adjacency());
    let too_wide = CollapsedGrid::new(GridSize::new_xy(3, 1));
    let err = grid.populate_from_collapsed(&too_wide).unwrap_err();
    assert_eq!(err.sizes().unwrap().0.x(), 3);
    assert_eq!(err.sizes().unwrap().1.x(), 2);

    let mut fitting = CollapsedGrid::new(GridSize::new_xy(1, 2));
    fitting.insert_data(&GridPosition::new_xy(0, 1), CollapsedTileData::new(3));
    assert!(grid.populate_from_collapsed(&fitting).is_ok());
    assert_eq!(grid.empty_positions().len(), 3);
    let changed = grid.change(&hints, analyzer.adjacency()).ok().unwrap();
    assert_eq!(changed.retrieve_collapsed().tile_type_ids(), vec![3]);
}
