use grid_forge::gen::collapse::rules::pattern::{OverlappingAnalyzer, Pattern, Pattern2D};
use grid_forge::map::{GridDir, GridMap2D, GridSize};
use grid_forge::tile::identifiable::builders::ConstructableViaIdentifierTile;
use grid_forge::tile::identifiable::BasicIdentTileData;
use grid_forge::tile::{GridPosition, GridTile};

const TEST_4X4: [[u64; 4]; 4] = [[0, 1, 1, 0], [1, 1, 1, 0], [0, 1, 1, 1], [0, 1, 1, 0]];

fn generate_test_map<const WIDTH: usize, const HEIGHT: usize>(
    tile_ids: &[[u64; WIDTH]; HEIGHT],
) -> GridMap2D<BasicIdentTileData> {
    let size = GridSize::new_xy(WIDTH as u32, HEIGHT as u32);

    let mut map = GridMap2D::new(size);

    for (y, row) in tile_ids.iter().enumerate() {
        for (x, tile_type_id) in row.iter().enumerate() {
            map.insert_tile(GridTile::new(
                GridPosition::new_xy(x as u32, y as u32),
                BasicIdentTileData::tile_new(*tile_type_id),
            ));
        }
    }
    map
}

#[test]
fn analyze_4x4() {
    let map = generate_test_map(&TEST_4X4);
    let mut analyzer2d = OverlappingAnalyzer::<BasicIdentTileData, Pattern2D<2, 2>>::new();
    analyzer2d.analyze_map(&map);
    println!("{:?}", analyzer2d.pattern_counts());
}

#[test]
fn pattern_compatibility() {
    const WIDTH: usize = 2;
    const HEIGHT: usize = 2;
    const DEPTH: usize = 2;

    let a = Pattern::<WIDTH, HEIGHT, DEPTH>::from_tile_type_ids(1, 1, [[[1, 2], [3, 4]], [[5, 6], [7, 8]]]);

    let b = Pattern::<WIDTH, HEIGHT, DEPTH>::from_tile_type_ids(2, 2, [[[3, 4], [1, 2]], [[7, 8], [5, 6]]]);

    let direction = GridDir::DOWN;

    let result = a.is_compatible_with(&b, direction);
    println!("Are the patterns compatible in the given direction? {}", result);
    let direction = GridDir::UP;

    let result = a.is_compatible_with(&b, direction);
    println!("Are the patterns compatible in the given direction? {}", result);

    let direction = GridDir::LEFT;

    let result = a.is_compatible_with(&b, direction);
    println!("Are the patterns compatible in the given direction? {}", result);
}

#[test]
fn compatibility_compares_shifted_cells() {
    let a = Pattern::<2, 2, 2>::from_tile_type_ids(1, 1, [[[1, 2], [3, 4]], [[5, 6], [7, 8]]]);
    let b = Pattern::<2, 2, 2>::from_tile_type_ids(2, 2, [[[3, 4], [1, 2]], [[7, 8], [5, 6]]]);
    assert!(a.is_compatible_with(&b, GridDir::DOWN));
    assert!(a.is_compatible_with(&b, GridDir::UP));
    assert!(!a.is_compatible_with(&b, GridDir::LEFT));
    assert!(!a.is_compatible_with(&b, GridDir::RIGHT));
    for dir in GridDir::ALL.iter() {
        assert_eq!(a.is_compatible_with(&b, *dir), b.is_compatible_with(&a, dir.opposite()));
    }
}

#[test]
fn pattern_keeps_its_tiles() {
    let a = Pattern::<3, 1, 1>::from_tile_type_ids(9, 4, [[[4, 5, 6]]]);
    assert_eq!(a.get_id(0, 0, 0), 4);
    assert_eq!(a.get_id(0, 0, 2), 6);
    let c = a.duplicate();
    assert_eq!(c.get_id(0, 0, 1), 5);
    let empty = Pattern::<2, 2, 1>::new();
    assert_eq!(empty.get_id(0, 1, 1), 0);
}

#[test]
fn analysis_counts_every_block() {
    let map = generate_test_map(&TEST_4X4);
    let mut analyzer = OverlappingAnalyzer::<BasicIdentTileData, Pattern2D<2, 2>>::new();
    analyzer.analyze_map(&map);
    let counts = analyzer.pattern_counts();
    assert_eq!(counts.len(), 7);
    let mut total: u32 = 0;
    let mut most: u32 = 0;
    for i in 0..counts.len() {
        let c = *counts.value_at(i);
        total += c;
        most = most.max(c);
    }
    assert_eq!(total, 9);
    assert_eq!(most, 3);

    let _rules = analyzer.generate_pattern_rules();
}

#[test]
fn same_block_gives_same_identifier() {
    let map = generate_test_map(&[[2, 2, 2], [2, 2, 2]]);
    let mut analyzer = OverlappingAnalyzer::<BasicIdentTileData, Pattern2D<2, 2>>::new();
    analyzer.analyze_map(&map);
    assert_eq!(analyzer.pattern_counts().len(), 1);
    assert_eq!(*analyzer.pattern_counts().value_at(0), 2);
    analyzer.analyze_map(&map);
    assert_eq!(*analyzer.pattern_counts().value_at(0), 4);
}
