use grid_forge::gen::walker::{BuilderField, GridWalker2DBuilder};
use grid_forge::map::{GridDir, GridSize};
use grid_forge::tile::identifiable::builders::ConstructableViaIdentifierTile;
use grid_forge::tile::identifiable::{BasicIdentTileData, IdentifiableTileData};
use grid_forge::tile::GridPosition;
use rand::rngs::StdRng;
use rand::SeedableRng;

#[test]
fn builder_lists_missing_fields() {
    let err = match GridWalker2DBuilder::new().with_current_pos(GridPosition::new_xy(0, 0)).build() {
        Err(e) => e,
        Ok(_) => panic!("size and rng are missing"),
    };
    assert_eq!(err.missing_fields(), &[BuilderField::Size, BuilderField::Rng]);
    let err = match GridWalker2DBuilder::new().with_size(GridSize::new_xy(4, 4)).build() {
        Err(e) => e,
        Ok(_) => panic!("rng is missing"),
    };
    assert_eq!(err.missing_fields(), &[BuilderField::Rng]);
}

#[test]
fn walker_starts_at_the_center() {
    let walker = GridWalker2DBuilder::new()
        .with_size(GridSize::new_xy(7, 5))
        .with_rng(StdRng::seed_from_u64(1))
        .build()
        .ok()
        .unwrap();
    assert_eq!(walker.current_pos(), GridPosition::new_xy(3, 2));
    assert_eq!(walker.walked(), &[GridPosition::new_xy(3, 2)]);
    assert_eq!(walker.current_iters(), 0);
}

#[test]
fn walking_stops_at_the_border() {
    let mut walker = GridWalker2DBuilder::new()
        .with_size(GridSize::new_xy(5, 5))
        .with_current_pos(GridPosition::new_xy(2, 2))
        .with_rng(StdRng::seed_from_u64(1))
        .build()
        .ok()
        .unwrap();
    assert!(!walker.walk_in(GridDir::RIGHT, 3));
    assert_eq!(walker.current_pos(), GridPosition::new_xy(4, 2));
    assert!(walker.walk_in(GridDir::UP, 2));
    assert_eq!(walker.current_pos(), GridPosition::new_xy(4, 0));
    assert!(walker.walk_in(GridDir::DOWN, 2));
    let mut walked = walker.walked().to_vec();
    walked.sort_by_key(|p| (*p.x(), *p.y()));
    assert_eq!(
        walked,
        vec![
            GridPosition::new_xy(2, 2),
            GridPosition::new_xy(3, 2),
            GridPosition::new_xy(4, 0),
            GridPosition::new_xy(4, 1),
            GridPosition::new_xy(4, 2),
        ]
    );
}

#[test]
fn random_walks_stay_within_the_grid() {
    let size = GridSize::new_xy(6, 4);
    let mut walker = GridWalker2DBuilder::new()
        .with_size(size)
        .with_rng(StdRng::seed_from_u64(99))
        .with_min_step_size(1)
        .with_max_step_size(3)
        .build()
        .ok()
        .unwrap();
    for _ in 0..50 {
        walker.walk();
    }
    assert_eq!(walker.current_iters(), 50);
    assert!(walker.walked().len() > 1);
    for p in walker.walked() {
        assert!(size.is_position_valid(p));
    }
    let map = walker.gen_grid_map(|_p| BasicIdentTileData::tile_new(7));
    for p in walker.walked() {
        assert_eq!(map.get_tile_at_position(p).unwrap().inner().tile_type_id(), 7);
    }
    assert_eq!(map.get_all_positions().len(), walker.walked().len());
    walker.reset();
    assert_eq!(walker.current_iters(), 0);
    assert!(walker.walked().is_empty());
}
