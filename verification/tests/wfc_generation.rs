use grid_forge::gen::adjacency::AdjacencyAnalyzer;
use grid_forge::gen::wfc::analyzer::WFCAnalyzer;
use grid_forge::gen::wfc::resolver::{WFCGenTile, WFCResolver};
use grid_forge::id_map::IdMap;
use grid_forge::map::{GridDir, GridMap2D, GridSize};
use grid_forge::tile::identifiable::builder::{ConstructableViaIdentifierTile, IdentTileTraitBuilder};
use grid_forge::tile::identifiable::{BasicIdentifiableTile2D, IdentifiableTile};
use grid_forge::tile::{GridPosition, GridTile};
use rand::rngs::StdRng;
use rand::SeedableRng;

type TT = BasicIdentifiableTile2D;

const TILES: [[u64; 6]; 6] = [
    [0, 0, 1, 1, 0, 0],
    [0, 0, 1, 1, 0, 0],
    [0, 1, 1, 1, 0, 0],
    [1, 1, 2, 2, 0, 1],
    [1, 2, 3, 2, 1, 1],
    [0, 1, 3, 1, 1, 1],
];

fn analyzed() -> WFCAnalyzer<TT> {
    let mut map = GridMap2D::new(GridSize::new_xy(6, 6));
    for (y_pos, row) in TILES.iter().enumerate() {
        for (x_pos, id) in row.iter().enumerate() {
            let pos = GridPosition::new_xy(x_pos as u32, y_pos as u32);
            map.insert_tile(GridTile::new(pos, TT::tile_new(pos, *id)));
        }
    }
    let mut analyzer = WFCAnalyzer::<TT>::new();
    analyzer.analyze(&map);
    analyzer
}

fn with_tile<R>(resolver: &WFCResolver<TT>, x: u32, y: u32, f: impl Fn(&WFCGenTile) -> R) -> R {
    let tile = resolver.wfc_grid().get_tile_at_position(&GridPosition::new_xy(x, y)).unwrap();
    f(tile.inner())
}

#[test]
fn wfc_populate_fills_the_grid() {
    let analyzer = analyzed();
    let mut resolver = WFCResolver::new(GridSize::new_xy(3, 3), &analyzer);
    assert_eq!(resolver.n_all(), 9);
    assert_eq!(resolver.n_with_opts(), 0);
    assert_eq!(resolver.n_resolved(), 0);

    resolver.populate_map(&[GridPosition::new_xy(0, 0), GridPosition::new_xy(5, 5)]);
    assert_eq!(resolver.n_with_opts(), 1);

    resolver.populate_map_all();
    assert_eq!(resolver.n_with_opts(), 9);
    with_tile(&resolver, 2, 1, |t| {
        let weights = t.options_with_weights();
        assert_eq!(weights.len(), 4);
        assert_eq!(weights.get(0), Some(&13));
        assert_eq!(weights.get(1), Some(&17));
        assert_eq!(weights.get(2), Some(&4));
        assert_eq!(weights.get(3), Some(&2));
        assert!(!t.collapsed());
    });
}

#[test]
fn wfc_collapse_then_propagate_to_neighbours() {
    let analyzer = analyzed();
    let mut resolver = WFCResolver::new(GridSize::new_xy(3, 3), &analyzer);
    resolver.populate_map_all();
    let mut rng = StdRng::seed_from_u64(7);

    let center = GridPosition::new_xy(1, 1);
    assert!(resolver.collapse_position(&mut rng, &center));
    assert!(!resolver.collapse_position(&mut rng, &center));
    assert_eq!(resolver.n_resolved(), 1);
    assert_eq!(resolver.n_with_opts(), 8);
    let collapsed_id = with_tile(&resolver, 1, 1, |t| t.tile_id());
    assert!(collapsed_id < 4);
    assert!(with_tile(&resolver, 1, 1, |t| t.options_with_weights().is_empty()));

    let updated = resolver.propagate_next().unwrap();
    let neighbours = [
        (GridDir::UP, 1, 0),
        (GridDir::DOWN, 1, 2),
        (GridDir::LEFT, 0, 1),
        (GridDir::RIGHT, 2, 1),
    ];
    for (dir, x, y) in neighbours {
        let options = with_tile(&resolver, x, y, |t| t.options_with_weights().keys());
        for option in options.iter() {
            assert!(analyzer.adjacency().is_valid_raw(*option, collapsed_id, dir.opposite()));
        }
        let narrowed = options.len() < 4;
        assert_eq!(narrowed, updated.contains(&GridPosition::new_xy(x, y)));
    }
    // corners are untouched by the first step
    assert_eq!(with_tile(&resolver, 0, 0, |t| t.options_with_weights().len()), 4);

    let mut steps = 0;
    while resolver.propagate_next().is_some() {
        steps += 1;
        assert!(steps < 1000);
    }
    assert!(resolver.propagate_next().is_none());
}

#[test]
fn wfc_nothing_to_do_on_empty_grid() {
    let analyzer = analyzed();
    let mut resolver = WFCResolver::new(GridSize::new_xy(2, 2), &analyzer);
    let mut rng = StdRng::seed_from_u64(1);
    assert!(!resolver.collapse_position(&mut rng, &GridPosition::new_xy(0, 0)));
    assert!(resolver.propagate_next().is_none());
}

#[test]
fn wfc_build_grid_from_collapsed_tiles() {
    let analyzer = analyzed();
    let mut resolver = WFCResolver::new(GridSize::new_xy(3, 3), &analyzer);
    resolver.populate_map_all();
    let mut rng = StdRng::seed_from_u64(42);
    for (x, y) in [(0, 0), (2, 2)] {
        resolver.collapse_position(&mut rng, &GridPosition::new_xy(x, y));
        while resolver.propagate_next().is_some() {}
    }
    let builder = IdentTileTraitBuilder::<TT>::new();
    let built = resolver.build_grid(&builder);
    for x in 0..3 {
        for y in 0..3 {
            let pos = GridPosition::new_xy(x, y);
            let (collapsed, tile_id) = with_tile(&resolver, x, y, |t| (t.collapsed(), t.tile_id()));
            match built.get_tile_at_position(&pos) {
                Some(created) => {
                    assert!(collapsed);
                    assert_eq!(created.inner().get_tile_id(), tile_id);
                }
                None => assert!(!collapsed),
            }
        }
    }
    assert!(built.get_tile_at_position(&GridPosition::new_xy(0, 0)).is_some());
}

#[test]
fn wfc_tile_collapse_choices() {
    let mut single = IdMap::new();
    single.insert(9, 3);
    let mut tile = WFCGenTile::uncollapsed(GridPosition::new_xy(4, 4), single);
    let mut rng = StdRng::seed_from_u64(3);
    assert!(tile.collapse(&mut rng));
    assert!(tile.collapsed());
    assert_eq!(tile.tile_id(), 9);
    assert!(!tile.collapse(&mut rng));

    let mut empty = WFCGenTile::uncollapsed(GridPosition::new_xy(0, 0), IdMap::new());
    assert!(!empty.collapse(&mut rng));
    assert!(!empty.collapsed());

    let mut zero_weights = IdMap::new();
    zero_weights.insert(5, 0);
    zero_weights.insert(6, 0);
    let mut tile = WFCGenTile::uncollapsed(GridPosition::new_xy(0, 0), zero_weights);
    assert!(tile.collapse(&mut rng));
    assert_eq!(tile.tile_id(), 5);
}

#[test]
fn wfc_process_collapses_and_propagates_until_settled() {
    let analyzer = analyzed();
    let mut resolver = WFCResolver::new(GridSize::new_xy(3, 3), &analyzer);
    resolver.populate_map_all();
    let mut rng = StdRng::seed_from_u64(11);

    let (given, _) = resolver.process(&mut rng, None);
    assert!(!given);
    assert_eq!(resolver.n_resolved(), 0);

    let (given, updated) = resolver.process(&mut rng, Some(GridPosition::new_xy(1, 1)));
    assert!(given);
    assert_eq!(resolver.n_resolved(), 1);
    assert!(resolver.propagate_next().is_none());
    let collapsed_id = with_tile(&resolver, 1, 1, |t| t.tile_id());
    for (dir, x, y) in [(GridDir::UP, 1, 0), (GridDir::DOWN, 1, 2), (GridDir::LEFT, 0, 1), (GridDir::RIGHT, 2, 1)] {
        let options = with_tile(&resolver, x, y, |t| t.options_with_weights().keys());
        for option in options.iter() {
            assert!(analyzer.adjacency().is_valid_raw(*option, collapsed_id, dir.opposite()));
        }
        if options.len() < 4 {
            assert!(updated.contains(&GridPosition::new_xy(x, y)));
        }
    }
    for pos in updated.iter() {
        assert!(with_tile(&resolver, *pos.x(), *pos.y(), |t| t.options_with_weights().len()) < 4);
    }

    let (given, _) = resolver.process(&mut rng, Some(GridPosition::new_xy(7, 7)));
    assert!(given);
    assert_eq!(resolver.n_resolved(), 1);
}
