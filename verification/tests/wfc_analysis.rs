use grid_forge::gen::adjacency::AdjacencyAnalyzer;
use grid_forge::gen::wfc::analyzer::WFCAnalyzer;
use grid_forge::map::{GridDir, GridMap2D, GridSize};
use grid_forge::tile::identifiable::builder::ConstructableViaIdentifierTile;
use grid_forge::tile::identifiable::BasicIdentifiableTile2D;
use grid_forge::tile::{GridPosition, GridTile};

type TT = BasicIdentifiableTile2D;

const TILES: [[u64; 6]; 6] = [
    [0, 0, 1, 1, 0, 0],
    [0, 0, 1, 1, 0, 0],
    [0, 1, 1, 1, 0, 0],
    [1, 1, 2, 2, 0, 1],
    [1, 2, 3, 2, 1, 1],
    [0, 1, 3, 1, 1, 1],
];

fn get_test_map() -> GridMap2D<TT> {
    let mut map = GridMap2D::new(GridSize::new_xy(6, 6));
    for (y_pos, row) in TILES.iter().enumerate() {
        for (x_pos, id) in row.iter().enumerate() {
            let pos = GridPosition::new_xy(x_pos as u32, y_pos as u32);
            map.insert_tile(GridTile::new(pos, TT::tile_new(pos, *id)));
        }
    }
    map
}

#[test]
fn can_analyze_map() {
    let map = get_test_map();

    let mut analyzer = WFCAnalyzer::<TT>::new();
    analyzer.analyze(&map);

    assert_eq!(4, analyzer.tiles().len());
}

#[test]
fn can_generate_rules() {
    let map = get_test_map();

    let mut analyzer = WFCAnalyzer::<TT>::new();
    analyzer.analyze(&map);

    let freq = analyzer.frequency();

    assert_eq!(4, freq.get_all_weights_cloned().len());

    let adjacency = analyzer.adjacency();

    assert!(adjacency.is_adjacent_option_valid(1, 2, GridDir::RIGHT));
}

#[test]
fn analysis_counts_tiles_and_keeps_only_observed_adjacencies() {
    let map = get_test_map();
    let mut analyzer = WFCAnalyzer::<TT>::new();
    analyzer.analyze(&map);

    let weights = analyzer.frequency().get_all_weights_cloned();
    assert_eq!(weights.get(0), Some(&13));
    assert_eq!(weights.get(1), Some(&17));
    assert_eq!(weights.get(2), Some(&4));
    assert_eq!(weights.get(3), Some(&2));

    let adjacency = analyzer.adjacency();
    assert!(adjacency.is_adjacent_option_valid(2, 1, GridDir::LEFT));
    assert!(adjacency.is_adjacent_option_valid(2, 3, GridDir::DOWN));
    assert!(adjacency.is_adjacent_option_valid(3, 2, GridDir::UP));
    assert!(!adjacency.is_adjacent_option_valid(0, 3, GridDir::RIGHT));
    assert!(!adjacency.is_adjacent_option_valid(3, 0, GridDir::UP));
}
