use grid_forge::gen::collapse::resolver::CollapsibleResolver;
use grid_forge::gen::collapse::singular::{Analyzer, BorderAnalyzer, FrequencyHints, IdentityAnalyzer};
use grid_forge::gen::collapse::{CollapseError, CollapseErrorKind, CollapsibleTileData, PositionQueue};
use grid_forge::gen::collapse::{CollapsedGrid, CollapsedTileData};
use grid_forge::gen::collapse::{PositionQueueDirection, PositionQueueStartingPoint};
use grid_forge::id_map::IdMap;
use grid_forge::map::{GridDir, GridMap2D, GridSize};
use grid_forge::tile::identifiable::builders::{ConstructableViaIdentifierTile, IdentTileTraitBuilder};
use grid_forge::tile::identifiable::{BasicIdentTileData, IdentifiableTileData};
use grid_forge::tile::{GridPosition, GridTile};
use rand::rngs::StdRng;
use rand::SeedableRng;

fn sample_map(rows: &[&[u64]]) -> GridMap2D<BasicIdentTileData> {
    let size = GridSize::new_xy(rows[0].len() as u32, rows.len() as u32);
    let mut map = GridMap2D::new(size);
    for (y, row) in rows.iter().enumerate() {
        for (x, id) in row.iter().enumerate() {
            map.insert_tile(GridTile::new(GridPosition::new_xy(x as u32, y as u32), BasicIdentTileData::tile_new(*id)));
        }
    }
    map
}

fn id_at(map: &GridMap2D<BasicIdentTileData>, x: u32, y: u32) -> u64 {
    map.get_tile_at_position(&GridPosition::new_xy(x, y)).unwrap().inner().tile_type_id()
}

#[test]
fn identity_rules_are_exactly_the_observed_adjacencies() {
    let map = sample_map(&[&[0, 1], &[2, 2]]);
    let mut analyzer = IdentityAnalyzer::<BasicIdentTileData>::new();
    analyzer.analyze(&map);
    let rules = analyzer.adjacency();
    assert!(rules.is_valid_raw(0, 1, GridDir::RIGHT));
    assert!(rules.is_valid_raw(1, 0, GridDir::LEFT));
    assert!(rules.is_valid_raw(0, 2, GridDir::DOWN));
    assert!(rules.is_valid_raw(2, 0, GridDir::UP));
    assert!(rules.is_valid_raw(2, 2, GridDir::RIGHT));
    assert!(!rules.is_valid_raw(0, 1, GridDir::LEFT));
    assert!(!rules.is_valid_raw(1, 1, GridDir::RIGHT));
    assert!(!rules.is_valid_raw(0, 2, GridDir::RIGHT));
    let mut seen = analyzer.tiles().to_vec();
    seen.sort();
    assert_eq!(seen, vec![0, 1, 2]);
}

#[test]
fn border_rules_allow_tiles_sharing_a_border() {
    // 0 and 1 both touch 2 from the left, so their right sides share a border with the left side of 2.
    let map = sample_map(&[&[0, 2], &[1, 2]]);
    let mut analyzer = BorderAnalyzer::<BasicIdentTileData>::new();
    analyzer.analyze(&map);
    let rules = analyzer.adjacency();
    assert!(rules.is_valid_raw(0, 2, GridDir::RIGHT));
    assert!(rules.is_valid_raw(1, 2, GridDir::RIGHT));
    assert!(rules.is_valid_raw(2, 0, GridDir::LEFT));
    assert!(rules.is_valid_raw(2, 1, GridDir::LEFT));
    assert!(!rules.is_valid_raw(0, 0, GridDir::RIGHT));
    assert!(!rules.is_valid_raw(2, 0, GridDir::RIGHT));
}

#[test]
fn border_rules_are_symmetric() {
    let map = sample_map(&[&[0, 1, 2], &[1, 1, 0], &[2, 0, 0]]);
    let mut analyzer = BorderAnalyzer::<BasicIdentTileData>::new();
    analyzer.analyze(&map);
    let rules = analyzer.adjacency();
    for a in 0..3u64 {
        for c in 0..3u64 {
            for dir in GridDir::ALL.iter() {
                assert_eq!(rules.is_valid_raw(a, c, *dir), rules.is_valid_raw(c, a, dir.opposite()));
            }
        }
    }
}

#[test]
fn frequency_hints_count_tiles() {
    let map = sample_map(&[&[0, 1, 1], &[1, 1, 5]]);
    let mut hints = FrequencyHints::<BasicIdentTileData>::new();
    hints.analyze_grid_map(&map);
    let weights = hints.get_all_weights_cloned();
    assert_eq!(weights.len(), 3);
    assert_eq!(weights.get(0), Some(&1));
    assert_eq!(weights.get(1), Some(&4));
    assert_eq!(weights.get(5), Some(&1));
    hints.set_weight_for_tile(&BasicIdentTileData::tile_new(5), 10);
    hints.count_tile(&BasicIdentTileData::tile_new(5));
    assert_eq!(hints.get_all_weights_cloned().get(5), Some(&11));
}

#[test]
fn generation_fills_every_position_with_allowed_neighbours() {
    let sample = sample_map(&[&[0, 0, 1], &[0, 1, 1], &[1, 1, 0]]);
    let mut analyzer = IdentityAnalyzer::<BasicIdentTileData>::new();
    analyzer.analyze(&sample);
    let mut hints = FrequencyHints::<BasicIdentTileData>::new();
    hints.analyze_grid_map(&sample);

    let size = GridSize::new_xy(5, 4);
    let mut resolver = CollapsibleResolver::<BasicIdentTileData>::new(size);
    let positions = size.get_all_possible_positions();
    let queue = PositionQueue::new(PositionQueueStartingPoint::UpLeft, PositionQueueDirection::Rowwise);
    let mut rng = StdRng::seed_from_u64(7);
    let result = resolver.generate(&mut rng, &positions, queue, &hints, analyzer.adjacency());
    assert!(result.is_ok());

    let grid = resolver.build_grid(&IdentTileTraitBuilder::<BasicIdentTileData>::new()).unwrap();
    for x in 0..5u32 {
        for y in 0..4u32 {
            let id = id_at(&grid, x, y);
            assert!(id == 0 || id == 1);
            if x + 1 < 5 {
                assert!(analyzer.adjacency().is_valid_raw(id, id_at(&grid, x + 1, y), GridDir::RIGHT));
            }
            if y + 1 < 4 {
                assert!(analyzer.adjacency().is_valid_raw(id, id_at(&grid, x, y + 1), GridDir::DOWN));
            }
        }
    }
}

#[test]
fn generation_follows_forced_choices() {
    // Type 3 only ever stands next to type 4 and the other way round.
    let sample = sample_map(&[&[3, 4], &[4, 3]]);
    let mut analyzer = IdentityAnalyzer::<BasicIdentTileData>::new();
    analyzer.analyze(&sample);
    let mut hints = FrequencyHints::<BasicIdentTileData>::new();
    hints.analyze_grid_map(&sample);

    let size = GridSize::new_xy(4, 1);
    let mut resolver = CollapsibleResolver::<BasicIdentTileData>::new(size);
    resolver.fill_with_collapsed(3, &[GridPosition::new_xy(0, 0)]);
    let positions = vec![GridPosition::new_xy(1, 0), GridPosition::new_xy(2, 0), GridPosition::new_xy(3, 0)];
    let queue = PositionQueue::new(PositionQueueStartingPoint::UpLeft, PositionQueueDirection::Rowwise);
    let mut rng = StdRng::seed_from_u64(1);
    let result = resolver.generate(&mut rng, &positions, queue, &hints, analyzer.adjacency());
    assert!(result.is_ok());
    let grid = resolver.build_grid(&IdentTileTraitBuilder::<BasicIdentTileData>::new()).unwrap();
    assert_eq!(id_at(&grid, 0, 0), 3);
    assert_eq!(id_at(&grid, 1, 0), 4);
    assert_eq!(id_at(&grid, 2, 0), 3);
    assert_eq!(id_at(&grid, 3, 0), 4);
}

#[test]
fn generation_reports_tiles_left_without_options() {
    // Type 8 is allowed next to nothing, so an uncollapsed neighbour of it loses every option.
    let sample = sample_map(&[&[8]]);
    let mut analyzer = IdentityAnalyzer::<BasicIdentTileData>::new();
    analyzer.analyze(&sample);
    let mut hints = FrequencyHints::<BasicIdentTileData>::new();
    hints.analyze_grid_map(&sample);

    let size = GridSize::new_xy(2, 1);
    let mut resolver = CollapsibleResolver::<BasicIdentTileData>::new(size);
    resolver.fill_with_collapsed(8, &[GridPosition::new_xy(0, 0)]);
    let positions = vec![GridPosition::new_xy(1, 0)];
    let queue = PositionQueue::new(PositionQueueStartingPoint::UpLeft, PositionQueueDirection::Rowwise);
    let mut rng = StdRng::seed_from_u64(3);
    let result = resolver.generate(&mut rng, &positions, queue, &hints, analyzer.adjacency());
    let err: CollapseError = result.unwrap_err();
    assert_eq!(err.failed_pos(), GridPosition::new_xy(1, 0));
}

#[test]
fn collapsed_tile_keeps_its_option() {
    let mut weights = IdMap::new();
    weights.insert(4, 1);
    weights.insert(9, 3);
    let mut tile = CollapsibleTileData::new_uncollapsed(weights);
    assert!(!tile.is_collapsed());
    assert!(tile.have_options());
    assert_eq!(tile.option_id_list(), vec![4, 9]);
    let mut rng = StdRng::seed_from_u64(11);
    assert_eq!(tile.collapse(&mut rng, GridPosition::new_xy(0, 0)), Ok(true));
    let chosen = tile.collapse_id().unwrap();
    assert!(chosen == 4 || chosen == 9);
    assert!(tile.is_collapsed());
    assert_eq!(tile.collapse(&mut rng, GridPosition::new_xy(0, 0)), Ok(false));
    assert_eq!(tile.collapse_id(), Some(chosen));
}

#[test]
fn removing_every_option_fails_the_collapse() {
    let mut weights = IdMap::new();
    weights.insert(4, 1);
    weights.insert(9, 3);
    let mut tile = CollapsibleTileData::new_uncollapsed(weights);
    assert!(tile.remove_option(4));
    assert_eq!(tile.option_id_list(), vec![9]);
    assert!(!tile.remove_option(4));
    tile.remove_options(&[9]);
    assert!(!tile.have_options());
    let mut rng = StdRng::seed_from_u64(5);
    assert_eq!(tile.collapse(&mut rng, GridPosition::new_xy(2, 3)), Err(GridPosition::new_xy(2, 3)));
}

#[test]
fn errors_carry_what_went_wrong() {
    let e = CollapseError::new(GridPosition::new_xy(1, 2), CollapseErrorKind::Init);
    assert_eq!(e.failed_pos(), GridPosition::new_xy(1, 2));
    assert!(!e.is_probabilistic());
    assert!(CollapseError::new(GridPosition::new_xy(1, 2), CollapseErrorKind::Propagation).is_probabilistic());
    let e = CollapseError::new(GridPosition::new_xy(0, 0), CollapseErrorKind::Collapse);
    assert!(e.is_probabilistic());
    let ok: Result<u8, GridPosition> = Ok(4);
    assert_eq!(CollapseError::from_result(ok, CollapseErrorKind::Init).unwrap(), 4);
    let bad: Result<u8, GridPosition> = Err(GridPosition::new_xy(5, 5));
    assert_eq!(CollapseError::from_result(bad, CollapseErrorKind::Init).unwrap_err().failed_pos(), GridPosition::new_xy(5, 5));
}

#[test]
fn collapsed_grid_records_tile_types() {
    let mut grid = CollapsedGrid::new(GridSize::new_xy(3, 2));
    assert!(grid.insert_data(&GridPosition::new_xy(0, 0), CollapsedTileData::new(7)));
    assert!(grid.insert_tile(GridTile::new(GridPosition::new_xy(2, 1), CollapsedTileData::new(3))));
    assert!(!grid.insert_data(&GridPosition::new_xy(3, 0), CollapsedTileData::new(9)));
    assert_eq!(grid.tile_type_ids(), vec![3, 7]);
    assert_eq!(grid.as_ref().get_tile_at_position(&GridPosition::new_xy(2, 1)).unwrap().inner().tile_type_id(), 3);
    assert!(grid.as_ref().get_tile_at_position(&GridPosition::new_xy(1, 1)).is_none());
}

#[test]
fn failed_generation_names_an_uncollapsed_tile_from_before_the_collapse() {
    let sample = sample_map(&[&[8]]);
    let mut analyzer = IdentityAnalyzer::<BasicIdentTileData>::new();
    analyzer.analyze(&sample);
    let mut hints = FrequencyHints::<BasicIdentTileData>::new();
    hints.analyze_grid_map(&sample);

    let size = GridSize::new_xy(3, 1);
    let mut resolver = CollapsibleResolver::<BasicIdentTileData>::new(size);
    resolver.fill_with_collapsed(8, &[GridPosition::new_xy(1, 0)]);
    let positions = vec![GridPosition::new_xy(0, 0), GridPosition::new_xy(2, 0)];
    let queue = PositionQueue::new(PositionQueueStartingPoint::UpLeft, PositionQueueDirection::Rowwise);
    let mut rng = StdRng::seed_from_u64(5);
    let err = resolver.generate(&mut rng, &positions, queue, &hints, analyzer.adjacency()).unwrap_err();
    assert_eq!(err.failed_pos(), GridPosition::new_xy(0, 0));
    assert!(!err.is_probabilistic());
    assert!(resolver.uncollapsed().contains(&err.failed_pos()));
}

#[test]
fn generation_of_nothing_succeeds() {
    let sample = sample_map(&[&[8]]);
    let mut analyzer = IdentityAnalyzer::<BasicIdentTileData>::new();
    analyzer.analyze(&sample);
    let hints = FrequencyHints::<BasicIdentTileData>::new();
    let mut resolver = CollapsibleResolver::<BasicIdentTileData>::new(GridSize::new_xy(2, 2));
    let queue = PositionQueue::new(PositionQueueStartingPoint::UpLeft, PositionQueueDirection::Rowwise);
    let mut rng = StdRng::seed_from_u64(5);
    assert!(resolver.generate(&mut rng, &[], queue, &hints, analyzer.adjacency()).is_ok());
}

#[test]
fn border_analyzer_merges_only_the_touching_sides() {
    let mut analyzer = BorderAnalyzer::<BasicIdentTileData>::new();
    let d = |i: u64| BasicIdentTileData::tile_new(i);
    analyzer.add_adjacency(&d(1), &d(2), &GridDir::UP);
    analyzer.add_adjacency(&d(3), &d(2), &GridDir::UP);
    analyzer.add_adjacency(&d(3), &d(4), &GridDir::UP);
    analyzer.prepare();
    let r = analyzer.adjacency();
    assert!(r.is_valid_raw(1, 2, GridDir::UP));
    assert!(r.is_valid_raw(3, 4, GridDir::UP));
    assert!(r.is_valid_raw(1, 4, GridDir::UP));
    assert!(r.is_valid_raw(3, 2, GridDir::UP));
    assert!(r.is_valid_raw(4, 1, GridDir::DOWN));
    assert!(r.is_valid_raw(2, 3, GridDir::DOWN));
    assert!(!r.is_valid_raw(1, 3, GridDir::UP));
    assert!(!r.is_valid_raw(2, 4, GridDir::UP));
}

#[test]
fn generation_without_any_real_choice_succeeds() {
    // One tile type, allowed next to itself in every direction: nothing can go wrong.
    let sample = sample_map(&[&[6, 6], &[6, 6]]);
    let mut analyzer = IdentityAnalyzer::<BasicIdentTileData>::new();
    analyzer.analyze(&sample);
    let mut hints = FrequencyHints::<BasicIdentTileData>::new();
    hints.analyze_grid_map(&sample);
    let size = GridSize::new_xy(4, 3);
    let mut resolver = CollapsibleResolver::<BasicIdentTileData>::new(size);
    let positions = size.get_all_possible_positions();
    let queue = PositionQueue::new(PositionQueueStartingPoint::DownRight, PositionQueueDirection::Columnwise);
    let mut rng = StdRng::seed_from_u64(9);
    assert!(resolver.generate(&mut rng, &positions, queue, &hints, analyzer.adjacency()).is_ok());
    let grid = resolver.build_grid(&IdentTileTraitBuilder::<BasicIdentTileData>::new()).unwrap();
    assert_eq!(id_at(&grid, 3, 2), 6);
}

#[test]
fn failed_generation_keeps_only_justified_removals() {
    // Type 1 sits left of type 5, nothing else: next to a collapsed 5 the tile on its left can only be 1 and the
    // tile on its right can be nothing.
    let sample = sample_map(&[&[1, 5]]);
    let mut analyzer = IdentityAnalyzer::<BasicIdentTileData>::new();
    analyzer.analyze(&sample);
    let mut hints = FrequencyHints::<BasicIdentTileData>::new();
    hints.analyze_grid_map(&sample);

    let size = GridSize::new_xy(3, 1);
    let mut resolver = CollapsibleResolver::<BasicIdentTileData>::new(size);
    resolver.fill_with_collapsed(5, &[GridPosition::new_xy(1, 0)]);
    let positions = vec![GridPosition::new_xy(0, 0), GridPosition::new_xy(2, 0)];
    let queue = PositionQueue::new(PositionQueueStartingPoint::UpLeft, PositionQueueDirection::Rowwise);
    let mut rng = StdRng::seed_from_u64(11);
    let err = resolver.generate(&mut rng, &positions, queue, &hints, analyzer.adjacency()).unwrap_err();
    assert_eq!(err.failed_pos(), GridPosition::new_xy(2, 0));
    assert!(!err.is_probabilistic());
    // The tile at (0, 0) lost option 5, which does not allow the collapsed 5 on its right, and kept option 1.
    assert_eq!(resolver.option_weights_at(&GridPosition::new_xy(0, 0)), Some(vec![1]));
    assert!(!analyzer.adjacency().is_valid_raw(5, 5, GridDir::RIGHT));
    assert!(analyzer.adjacency().is_valid_raw(1, 5, GridDir::RIGHT));
    assert_eq!(resolver.option_weights_at(&GridPosition::new_xy(2, 0)), Some(Vec::<u32>::new()));
}
