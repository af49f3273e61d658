use grid_forge::gen::collapse::overlap::{
    OverlappingAnalyzer, OverlappingPattern, OverlappingPattern2D, OverlappingPattern3D, OverlappingPatternGrid,
    PatternAdjacencyRules, PatternCollection, PatternFrequencyHints, PatternTileData,
};
use grid_forge::map::{GridDir, GridMap2D, GridSize};
use grid_forge::tile::identifiable::builders::ConstructableViaIdentifierTile;
use grid_forge::tile::identifiable::collection::IdentTileCollection;
use grid_forge::tile::identifiable::BasicIdentTileData;
use grid_forge::tile::{GridPosition, GridTile};

const TEST_4X4: [[u64; 4]; 4] = [[0, 1, 1, 0], [1, 1, 1, 0], [0, 1, 1, 1], [0, 1, 1, 0]];

fn generate_test_map<const WIDTH: usize, const HEIGHT: usize>(
    tile_ids: &[[u64; WIDTH]; HEIGHT],
) -> GridMap2D<BasicIdentTileData> {
    let size = GridSize::new_xy(WIDTH as u32, HEIGHT as u32);
    let mut map = GridMap2D::new(size);
    for (y, row) in tile_ids.iter().enumerate() {
        for (x, tile_type_id) in row.iter().enumerate() {
            map.insert_tile(GridTile::new(
                GridPosition::new_xy(x as u32, y as u32),
                BasicIdentTileData::tile_new(*tile_type_id),
            ));
        }
    }
    map
}

fn pattern_at(grid: &OverlappingPatternGrid<OverlappingPattern2D<2, 2>>, x: u32, y: u32) -> PatternTileData {
    *grid.inner().get_tile_at_position(&GridPosition::new_xy(x, y)).unwrap().inner()
}

fn pattern_id_at(grid: &OverlappingPatternGrid<OverlappingPattern2D<2, 2>>, x: u32, y: u32) -> u64 {
    match pattern_at(grid, x, y) {
        PatternTileData::WithPattern { pattern_id, .. } => pattern_id,
        PatternTileData::OnlyId { .. } => panic!("no pattern starts at ({x}, {y})"),
    }
}

#[test]
fn overlap_compatibility_in_each_direction() {
    let a = OverlappingPattern3D::<2, 2, 1>::from_tile_type_ids(1, 1, [[[1, 2], [3, 4]]]);
    let b = OverlappingPattern3D::<2, 2, 1>::from_tile_type_ids(2, 3, [[[3, 4], [5, 6]]]);

    assert!(a.is_compatible_with(&b, GridDir::DOWN));
    assert!(!a.is_compatible_with(&b, GridDir::UP));
    assert!(!a.is_compatible_with(&b, GridDir::LEFT));
    assert!(!a.is_compatible_with(&b, GridDir::RIGHT));
    // mirrored: `a` sits above `b`
    assert!(b.is_compatible_with(&a, GridDir::UP));
    assert!(!b.is_compatible_with(&a, GridDir::DOWN));
}

#[test]
fn overlap_pattern_getters() {
    let a = OverlappingPattern3D::<2, 2, 1>::from_tile_type_ids(10, 7, [[[7, 8], [9, 4]]]);
    assert_eq!(a.pattern_id(), 10);
    assert_eq!(a.tile_type_id(), 7);
    let anchor = GridPosition::new_xy(5, 5);
    assert_eq!(a.get_id_for_pos(&anchor, &GridPosition::new_xy(5, 5)), 7);
    assert_eq!(a.get_id_for_pos(&anchor, &GridPosition::new_xy(4, 5)), 8);
    assert_eq!(a.get_id_for_pos(&anchor, &GridPosition::new_xy(5, 4)), 9);
    assert_eq!(a.get_id_for_pos(&anchor, &GridPosition::new_xy(4, 4)), 4);
}

#[test]
fn overlap_secondary_positions() {
    let anchor = GridPosition::new_xy(1, 1);
    let positions = OverlappingPattern3D::<2, 2, 1>::secondary_tile_positions(&anchor);
    assert_eq!(
        positions,
        vec![GridPosition::new_xy(1, 2), GridPosition::new_xy(2, 1), GridPosition::new_xy(2, 2)]
    );

    let layered = GridPosition::new_xyz(0, 0, 3);
    let positions = OverlappingPattern3D::<1, 1, 3>::secondary_tile_positions(&layered);
    assert_eq!(positions, vec![GridPosition::new_xyz(0, 0, 4), GridPosition::new_xyz(0, 0, 5)]);

    let single = OverlappingPattern3D::<1, 1, 1>::secondary_tile_positions(&anchor);
    assert!(single.is_empty());
}

#[test]
fn overlap_grid_from_map() {
    let map = generate_test_map(&TEST_4X4);
    let mut collection = PatternCollection::<OverlappingPattern2D<2, 2>>::default();
    let grid = OverlappingPatternGrid::from_map(&map, &mut collection);

    assert_eq!(grid.inner().size().x(), 4);
    assert_eq!(grid.inner().size().y(), 4);
    assert!(matches!(pattern_at(&grid, 0, 0), PatternTileData::WithPattern { tile_type_id: 0, .. }));
    assert!(matches!(pattern_at(&grid, 1, 0), PatternTileData::WithPattern { tile_type_id: 1, .. }));
    assert_eq!(pattern_at(&grid, 3, 0), PatternTileData::OnlyId { tile_type_id: 0 });
    assert_eq!(pattern_at(&grid, 0, 3), PatternTileData::OnlyId { tile_type_id: 0 });
    assert_eq!(pattern_at(&grid, 3, 2), PatternTileData::OnlyId { tile_type_id: 1 });

    // blocks of ones at (1, 0), (1, 1) and (1, 2) share one pattern
    assert_eq!(pattern_id_at(&grid, 1, 0), pattern_id_at(&grid, 1, 1));
    assert_eq!(pattern_id_at(&grid, 1, 0), pattern_id_at(&grid, 1, 2));
    assert_ne!(pattern_id_at(&grid, 0, 0), pattern_id_at(&grid, 1, 0));

    // seven distinct blocks fit within the map
    assert_eq!(collection.inner().len(), 7);
    assert_eq!(collection.rev().len(), 7);
    assert_eq!(collection.get_patterns_for_tile(0).len(), 2);
    assert_eq!(collection.get_patterns_for_tile(1).len(), 5);
    assert!(collection.get_patterns_for_tile(2).is_empty());

    let ones = pattern_id_at(&grid, 1, 0);
    let stored = collection.get_tile_data(ones).unwrap();
    assert_eq!(stored.pattern_id(), ones);
    assert_eq!(stored.tile_type_id(), 1);
    assert_eq!(collection.get_tile_type_id(stored), Some(ones));
    assert!(collection.get_patterns_for_tile(1).iter().any(|p| p.pattern_id() == ones));

    // analysing the same map again finds nothing new
    let again = OverlappingPatternGrid::from_map(&map, &mut collection);
    assert_eq!(collection.inner().len(), 7);
    assert_eq!(pattern_id_at(&again, 1, 0), ones);
}

#[test]
fn overlap_frequency_hints() {
    let map = generate_test_map(&TEST_4X4);
    let mut collection = PatternCollection::<OverlappingPattern2D<2, 2>>::default();
    let grid = OverlappingPatternGrid::from_map(&map, &mut collection);

    let mut hints = PatternFrequencyHints::<2, 2, 1, BasicIdentTileData>::default();
    hints.analyze_pattern_grid(&grid);
    assert_eq!(hints.get_weight_for_pattern(pattern_id_at(&grid, 1, 0)), 3);
    assert_eq!(hints.get_weight_for_pattern(pattern_id_at(&grid, 0, 0)), 1);
    assert_eq!(hints.get_weight_for_pattern(pattern_id_at(&grid, 2, 0)), 1);

    let ones = collection.get_tile_data(pattern_id_at(&grid, 1, 0)).unwrap();
    hints.set_weight_for_pattern(ones, 42);
    assert_eq!(hints.get_weight_for_pattern(ones.pattern_id()), 42);
    assert_eq!(hints.get_weight_for_pattern(12345), 0);
}

#[test]
fn overlap_adjacency_rules() {
    let map = generate_test_map(&TEST_4X4);
    let mut collection = PatternCollection::<OverlappingPattern2D<2, 2>>::default();
    let grid = OverlappingPatternGrid::from_map(&map, &mut collection);

    let mut rules = PatternAdjacencyRules::<2, 2, 1, BasicIdentTileData>::default();
    rules.analyze_collection(&collection);
    let ones = pattern_id_at(&grid, 1, 0);
    let corner = pattern_id_at(&grid, 0, 0);
    let below_corner = pattern_id_at(&grid, 0, 1);

    for dir in GridDir::ALL_2D {
        assert!(rules.as_ref().check_adjacency(ones, dir, ones));
    }
    assert!(rules.as_ref().check_adjacency(corner, GridDir::DOWN, below_corner));
    assert!(rules.as_ref().check_adjacency(below_corner, GridDir::UP, corner));
    assert!(!rules.as_ref().check_adjacency(corner, GridDir::LEFT, below_corner));
}

#[test]
fn overlap_analyzer_gathers_everything() {
    let map = generate_test_map(&TEST_4X4);
    let mut analyzer = OverlappingAnalyzer::<2, 2, 1, BasicIdentTileData>::default();
    let grid = analyzer.analyze_map(&map);

    assert_eq!(analyzer.get_collection().inner().len(), 7);
    let ones = pattern_id_at(&grid, 1, 0);
    assert_eq!(analyzer.get_frequency().get_weight_for_pattern(ones), 3);
    assert!(analyzer.get_adjacency().as_ref().check_adjacency(ones, GridDir::RIGHT, ones));

    analyzer.analyze_map(&map);
    assert_eq!(analyzer.get_collection().inner().len(), 7);
    assert_eq!(analyzer.get_frequency().get_weight_for_pattern(ones), 6);
}

#[test]
fn ident_collection_binds_both_ways() {
    let mut collection = PatternCollection::<OverlappingPattern2D<2, 2>>::default();
    let p = OverlappingPattern3D::<2, 2, 1>::from_tile_type_ids(5, 1, [[[1, 2], [3, 4]]]);
    let hash = PatternCollection::<OverlappingPattern2D<2, 2>>::generate_type_id(&p);

    assert!(collection.add_tile(p));
    assert_eq!(collection.get_tile_type_id(&OverlappingPattern3D::from_tile_type_ids(9, 9, [[[1, 2], [3, 4]]])), Some(hash));
    assert_eq!(collection.get_tile_data(hash).unwrap().pattern_id(), 5);
    // the index holds the pattern's own identifier
    assert_eq!(collection.get_patterns_for_tile(1).len(), 0);

    let same = OverlappingPattern3D::<2, 2, 1>::from_tile_type_ids(6, 1, [[[1, 2], [3, 4]]]);
    assert!(!collection.add_tile(same));

    // binding under a chosen identifier
    let other = OverlappingPattern3D::<2, 2, 1>::from_tile_type_ids(77, 2, [[[2, 2], [2, 2]]]);
    assert!(collection.add_tile_data(77, other));
    assert_eq!(collection.get_patterns_for_tile(2).len(), 1);
    let again = OverlappingPattern3D::<2, 2, 1>::from_tile_type_ids(78, 2, [[[2, 2], [2, 2]]]);
    assert!(!collection.add_tile_data(77, again));

    let replacing = OverlappingPattern3D::<2, 2, 1>::from_tile_type_ids(77, 2, [[[2, 2], [2, 3]]]);
    let replaced = collection.set_tile_data(77, replacing).unwrap();
    assert_eq!(replaced.pattern_id(), 77);
    assert_eq!(collection.get_patterns_for_tile(2).len(), 1);
}

#[test]
fn ident_collection_removal_keeps_reverse_binding() {
    let mut collection = PatternCollection::<OverlappingPattern2D<2, 2>>::default();
    let p = OverlappingPattern3D::<2, 2, 1>::from_tile_type_ids(5, 1, [[[1, 2], [3, 4]]]);
    let hash = PatternCollection::<OverlappingPattern2D<2, 2>>::generate_type_id(&p);
    assert!(collection.add_tile(p));

    let removed = collection.remove_tile_data(hash).unwrap();
    assert_eq!(removed.pattern_id(), 5);
    assert!(collection.get_tile_data(hash).is_none());
    // the reverse binding stays, so the same data cannot be added again
    assert_eq!(collection.get_tile_type_id(&removed), Some(hash));
    assert!(!collection.add_tile(removed));

    // setting the data clears the stale binding and binds it anew
    let fresh = OverlappingPattern3D::<2, 2, 1>::from_tile_type_ids(5, 1, [[[1, 2], [3, 4]]]);
    assert!(!collection.set_tile(fresh));
    assert!(collection.get_tile_data(hash).is_some());

    let gone = OverlappingPattern3D::<2, 2, 1>::from_tile_type_ids(5, 1, [[[1, 2], [3, 4]]]);
    assert!(collection.remove_tile(gone));
    assert!(collection.get_tile_data(hash).is_none());
    assert_eq!(collection.rev().len(), 0);
}
