use grid_forge::gen::collapse::overlap::{
    collapsed_into_collapsible_pattern, CollapsiblePatternGrid, OverlappingAnalyzer, OverlappingPattern3D,
    PatternCollection, Resolver, Subscriber,
};
use grid_forge::gen::collapse::{CollapsedGrid, CollapsedTileData, PositionQueue};
use grid_forge::gen::collapse::{PositionQueueDirection, PositionQueueStartingPoint};
use grid_forge::id_map::IdMap;
use grid_forge::map::{GridMap2D, GridSize};
use grid_forge::tile::identifiable::builders::ConstructableViaIdentifierTile;
use grid_forge::tile::identifiable::collection::IdentTileCollection;
use grid_forge::tile::identifiable::{BasicIdentTileData, IdentifiableTileData};
use grid_forge::tile::{GridPosition, GridTile, TileContainer};
use rand::rngs::StdRng;
use rand::SeedableRng;

fn sample_map(rows: &[&[u64]]) -> GridMap2D<BasicIdentTileData> {
    let size = GridSize::new_xy(rows[0].len() as u32, rows.len() as u32);
    let mut map = GridMap2D::new(size);
    for (y, row) in rows.iter().enumerate() {
        for (x, id) in row.iter().enumerate() {
            map.insert_tile(GridTile::new(GridPosition::new_xy(x as u32, y as u32), BasicIdentTileData::tile_new(*id)));
        }
    }
    map
}

fn queue() -> PositionQueue {
    PositionQueue::new(PositionQueueStartingPoint::UpLeft, PositionQueueDirection::Rowwise)
}

struct Recorder {
    seen: Vec<(GridPosition, u64, u64)>,
}

impl Subscriber for Recorder {
    fn on_collapse(&mut self, position: &GridPosition, tile_type_id: u64, pattern_id: u64) {
        self.seen.push((*position, tile_type_id, pattern_id));
    }
}

#[test]
fn overlap_generation_fills_the_grid_with_patterns() {
    let map = sample_map(&[&[0, 1, 0, 1], &[1, 0, 1, 0], &[0, 1, 0, 1], &[1, 0, 1, 0]]);
    let mut analyzer = OverlappingAnalyzer::<2, 2, 1, BasicIdentTileData>::new();
    analyzer.analyze_map(&map);
    let size = GridSize::new_xy(4, 4);
    let grid = CollapsiblePatternGrid::<OverlappingPattern3D<2, 2, 1>, BasicIdentTileData>::new_empty(
        size,
        analyzer.get_collection().clone(),
        analyzer.get_frequency(),
        analyzer.get_adjacency(),
    )
    .unwrap();
    let mut resolver = Resolver::<OverlappingPattern3D<2, 2, 1>, BasicIdentTileData, Recorder>::new()
        .with_subscriber(Recorder { seen: Vec::new() });
    let mut rng = StdRng::seed_from_u64(5);
    let positions = size.get_all_possible_positions();
    let grid = match resolver.generate(grid, &mut rng, &positions, queue()) {
        Ok(g) => g,
        Err(_) => panic!("a checkerboard can always be continued"),
    };
    let collapsed = grid.retrieve_collapsed();
    for p in &positions {
        let here = collapsed.as_ref().get_tile_at_position(p).unwrap().inner().tile_type_id();
        if *p.x() + 1 < 4 {
            let right = collapsed.as_ref().get_tile_at_position(&GridPosition::new_xy(*p.x() + 1, *p.y())).unwrap();
            assert_ne!(here, right.inner().tile_type_id());
        }
    }
    let recorder = resolver.retrieve_subscriber().unwrap();
    assert_eq!(recorder.seen.len(), 16);
    for (p, tile_type_id, _) in &recorder.seen {
        let here = collapsed.as_ref().get_tile_at_position(p).unwrap().inner().tile_type_id();
        assert_eq!(here, *tile_type_id);
    }
}

#[test]
fn pattern_grid_needs_a_weight_for_each_pattern() {
    let mut collection = PatternCollection::<OverlappingPattern3D<1, 1, 1>>::new();
    collection.add_tile_data(4, OverlappingPattern3D::<1, 1, 1>::from_tile_type_ids(4, 9, [[[9]]]));
    let analyzer = OverlappingAnalyzer::<1, 1, 1, BasicIdentTileData>::new();
    let err = match CollapsiblePatternGrid::<OverlappingPattern3D<1, 1, 1>, BasicIdentTileData>::new_empty(
        GridSize::new_xy(2, 2),
        collection,
        analyzer.get_frequency(),
        analyzer.get_adjacency(),
    ) {
        Err(e) => e,
        Ok(_) => panic!("pattern 4 has no weight"),
    };
    assert_eq!(err.missing_type_ids(), &Some(vec![4]));
}

#[test]
fn collapsed_tiles_become_their_fitting_patterns() {
    let mut collection = PatternCollection::<OverlappingPattern3D<2, 1, 1>>::new();
    // Tile type 1 followed by 2, by 3, and by anything (a pattern ending the row).
    collection.add_tile_data(10, OverlappingPattern3D::<2, 1, 1>::from_tile_type_ids(10, 1, [[[1, 2]]]));
    collection.add_tile_data(11, OverlappingPattern3D::<2, 1, 1>::from_tile_type_ids(11, 1, [[[1, 3]]]));
    collection.add_tile_data(12, OverlappingPattern3D::<2, 1, 1>::from_tile_type_ids(12, 2, [[[2, 1]]]));
    let mut weights = IdMap::new();
    weights.insert(10, 5);
    weights.insert(11, 6);
    weights.insert(12, 7);
    let mut collapsed = CollapsedGrid::new(GridSize::new_xy(3, 1));
    collapsed.insert_data(&GridPosition::new_xy(0, 0), CollapsedTileData::new(1));
    collapsed.insert_data(&GridPosition::new_xy(1, 0), CollapsedTileData::new(2));
    let tiles = collapsed_into_collapsible_pattern(&collapsed, &collection, &weights).unwrap();
    assert_eq!(tiles.len(), 2);
    assert_eq!(tiles[0].grid_position(), GridPosition::new_xy(0, 0));
    // Only the pattern of 1 followed by 2 fits at (0, 0).
    assert_eq!(tiles[0].inner().option_id_list(), vec![10]);
    assert_eq!(tiles[0].inner().option_weight_list(), vec![5]);
    // At (1, 0) nothing lies to the right, so the pattern of 2 fits.
    assert_eq!(tiles[1].inner().option_id_list(), vec![12]);

    collapsed.insert_data(&GridPosition::new_xy(2, 0), CollapsedTileData::new(2));
    let err = match collapsed_into_collapsible_pattern(&collapsed, &collection, &weights) {
        Err(e) => e,
        Ok(_) => panic!("no pattern has 2 followed by 2"),
    };
    assert_eq!(err.missing_type_ids(), &Some(vec![2]));
}
