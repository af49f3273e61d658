use grid_forge::gen::adjacency::AdjacencyAnalyzer as WfcAnalyzerTrait;
use grid_forge::gen::collapse::rules::adjacency::{AdjacencyAnalyzer, AdjacencyBorderAnalyzer, AdjacencyIdentityAnalyzer};
use grid_forge::gen::ms::MSAnalyzer;
use grid_forge::map::{GridDir, GridMap2D, GridSize};
use grid_forge::tile::identifiable::builder::ConstructableViaIdentifierTile;
use grid_forge::tile::identifiable::BasicIdentifiableTile2D;
use grid_forge::tile::{GridPosition, GridTile};

fn tile_map(rows: &[&[u64]]) -> GridMap2D<BasicIdentifiableTile2D> {
    let mut map = GridMap2D::new(GridSize::new_xy(rows[0].len() as u32, rows.len() as u32));
    for (y, row) in rows.iter().enumerate() {
        for (x, id) in row.iter().enumerate() {
            let pos = GridPosition::new_xy(x as u32, y as u32);
            map.insert_tile(GridTile::new(pos, BasicIdentifiableTile2D::tile_new(pos, *id)));
        }
    }
    map
}

#[test]
fn identity_analyzer_keeps_observed_adjacencies() {
    let map = tile_map(&[&[0, 1], &[2, 2]]);
    let mut analyzer = AdjacencyIdentityAnalyzer::<BasicIdentifiableTile2D>::new();
    analyzer.analyze(&map);
    let rules = analyzer.adjacency();
    assert!(rules.is_valid_raw(0, 1, GridDir::RIGHT));
    assert!(rules.is_valid_raw(1, 0, GridDir::LEFT));
    assert!(rules.is_valid_raw(1, 2, GridDir::DOWN));
    assert!(!rules.is_valid_raw(0, 0, GridDir::RIGHT));
    assert!(rules.is_valid_raw_any(0, &[5, 2], GridDir::DOWN));
    assert!(!rules.is_valid_raw_any(0, &[5, 1], GridDir::DOWN));
    let mut seen = AdjacencyAnalyzer::tiles(&analyzer).to_vec();
    seen.sort();
    assert_eq!(seen, vec![0, 1, 2]);
}

#[test]
fn border_analyzer_allows_shared_borders() {
    let map = tile_map(&[&[0, 2], &[1, 2]]);
    let mut analyzer = AdjacencyBorderAnalyzer::<BasicIdentifiableTile2D>::new();
    analyzer.analyze(&map);
    let rules = AdjacencyAnalyzer::adjacency(&analyzer);
    assert!(rules.is_valid_raw(0, 2, GridDir::RIGHT));
    assert!(rules.is_valid_raw(1, 2, GridDir::RIGHT));
    assert!(rules.is_valid_raw(2, 1, GridDir::LEFT));
    assert!(!rules.is_valid_raw(2, 0, GridDir::RIGHT));
}

#[test]
fn border_analyzer_prepares_rules_from_added_adjacencies() {
    let mut analyzer = AdjacencyBorderAnalyzer::<BasicIdentifiableTile2D>::new();
    analyzer.add_adjacency_raw(4, 5, &GridDir::UP);
    analyzer.add_adjacency_raw(6, 5, &GridDir::UP);
    assert!(!AdjacencyAnalyzer::adjacency(&analyzer).is_valid_raw(4, 5, GridDir::UP));
    analyzer.prepare();
    let rules = AdjacencyAnalyzer::adjacency(&analyzer);
    assert!(rules.is_valid_raw(4, 5, GridDir::UP));
    assert!(rules.is_valid_raw(6, 5, GridDir::UP));
    assert!(rules.is_valid_raw(5, 6, GridDir::DOWN));
    assert!(!rules.is_valid_raw(4, 6, GridDir::UP));
}

#[test]
fn ms_analyzer_counts_and_allows_observed_neighbours() {
    let map = tile_map(&[&[0, 1, 2]]);
    let mut analyzer = MSAnalyzer::<BasicIdentifiableTile2D>::new();
    analyzer.analyze(&map);
    let rules = analyzer.adjacency();
    assert!(rules.is_valid_raw(0, 1, GridDir::RIGHT));
    assert!(rules.is_valid_raw(1, 0, GridDir::LEFT));
    assert!(rules.is_valid_raw(1, 2, GridDir::RIGHT));
    assert!(!rules.is_valid_raw(0, 2, GridDir::RIGHT));
    assert!(!rules.is_valid_raw(0, 1, GridDir::LEFT));
    assert_eq!(analyzer.tiles(), vec![0, 1, 2]);
    let weights = analyzer.frequency().get_all_weights_cloned();
    assert_eq!(weights.get(1), Some(&1));
}

#[test]
fn ms_analyzer_moves_a_lone_border_to_the_opposite_side() {
    // Tile 0 already has a right border when it is seen left of 2, whose left side has none: the border is
    // given to the left side of 0, so 0 may stand next to itself.
    let map = tile_map(&[&[0, 1], &[0, 2]]);
    let mut analyzer = MSAnalyzer::<BasicIdentifiableTile2D>::new();
    analyzer.analyze(&map);
    let rules = analyzer.adjacency();
    assert!(rules.is_valid_raw(0, 0, GridDir::RIGHT));
    assert!(rules.is_valid_raw(0, 0, GridDir::LEFT));
    assert!(rules.is_valid_raw(0, 2, GridDir::RIGHT));
    assert!(rules.is_valid_raw(2, 0, GridDir::LEFT));
    for a in 0..3u64 {
        for c in 0..3u64 {
            for dir in GridDir::ALL.iter() {
                assert_eq!(rules.is_valid_raw(a, c, *dir), rules.is_valid_raw(c, a, dir.opposite()));
            }
        }
    }
}

#[test]
fn ms_analyzer_keeps_rules_of_earlier_maps() {
    let mut analyzer = MSAnalyzer::<BasicIdentifiableTile2D>::new();
    analyzer.analyze(&tile_map(&[&[3], &[4]]));
    assert!(analyzer.adjacency().is_valid_raw(3, 4, GridDir::DOWN));
    analyzer.analyze(&tile_map(&[&[5, 6]]));
    let rules = analyzer.adjacency();
    assert!(rules.is_valid_raw(3, 4, GridDir::DOWN));
    assert!(rules.is_valid_raw(4, 3, GridDir::UP));
    assert!(rules.is_valid_raw(5, 6, GridDir::RIGHT));
    assert!(!rules.is_valid_raw(3, 6, GridDir::DOWN));
}

#[test]
fn border_positions_lie_on_the_named_edge() {
    let single = tile_map(&[&[7]]);
    assert_eq!(single.get_all_border_positions(&GridDir::RIGHT), vec![GridPosition::new_xy(0, 0)]);
    let map = tile_map(&[&[0, 1, 2], &[3, 4, 5]]);
    assert_eq!(
        map.get_all_border_positions(&GridDir::RIGHT),
        vec![GridPosition::new_xy(2, 0), GridPosition::new_xy(2, 1)]
    );
    assert_eq!(
        map.get_all_border_positions(&GridDir::UP),
        vec![GridPosition::new_xy(0, 0), GridPosition::new_xy(1, 0), GridPosition::new_xy(2, 0)]
    );
}

#[test]
fn border_analyzer_allows_all_the_identity_analyzer_allows() {
    let map = tile_map(&[&[0, 2, 1], &[1, 2, 0], &[3, 3, 2]]);
    let mut identity = AdjacencyIdentityAnalyzer::<BasicIdentifiableTile2D>::new();
    identity.analyze(&map);
    let mut border = AdjacencyBorderAnalyzer::<BasicIdentifiableTile2D>::new();
    border.analyze(&map);
    let mut allowed = 0;
    for a in 0..4u64 {
        for c in 0..4u64 {
            for dir in GridDir::ALL.iter() {
                let by_identity = identity.adjacency().is_valid_raw(a, c, *dir);
                let by_border = AdjacencyAnalyzer::adjacency(&border).is_valid_raw(a, c, *dir);
                assert!(!by_identity || by_border);
                if by_identity {
                    allowed += 1;
                }
            }
        }
    }
    assert!(allowed > 0);
}
