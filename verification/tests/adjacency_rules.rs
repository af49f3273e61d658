use grid_forge::gen::adjacency::AdjacencyRules;
use grid_forge::map::GridDir;
use grid_forge::tile::identifiable::builder::ConstructableViaIdentifierTile;
use grid_forge::tile::identifiable::{BasicIdentifiableTile2D, IdentifiableTile};
use grid_forge::tile::GridPosition;

fn tile(id: u64) -> BasicIdentifiableTile2D {
    BasicIdentifiableTile2D::tile_new(GridPosition::new_xy(0, 0), id)
}

#[test]
fn can_add_and_evaluate_rules() {
    let main_tile = tile(0);
    let other_tile = tile(1);

    let mut adjacency_rules = AdjacencyRules::new();

    for dir in GridDir::ALL.iter() {
        adjacency_rules.add_adjacency(&main_tile, &other_tile, *dir);

        assert!(adjacency_rules.is_valid_raw(main_tile.get_tile_id(), other_tile.get_tile_id(), *dir));
        assert!(!adjacency_rules.is_valid_raw(other_tile.get_tile_id(), main_tile.get_tile_id(), *dir));

        assert!(adjacency_rules.is_adjacent_option_valid(
            other_tile.get_tile_id(),
            main_tile.get_tile_id(),
            dir.opposite()
        ));
    }
}

#[test]
fn rules_start_empty_and_raw_additions_are_one_sided() {
    let mut rules: AdjacencyRules<BasicIdentifiableTile2D> = AdjacencyRules::new();
    assert!(!rules.is_valid_raw(3, 4, GridDir::UP));
    rules.add_adjacency_raw(3, 4, GridDir::UP);
    assert!(rules.is_valid_raw(3, 4, GridDir::UP));
    assert!(!rules.is_valid_raw(4, 3, GridDir::DOWN));
    assert!(!rules.is_valid_raw(3, 4, GridDir::DOWN));
    assert!(rules.is_adjacent_option_valid(4, 3, GridDir::DOWN));
    assert!(!rules.is_adjacent_option_valid(3, 4, GridDir::UP));
}

#[test]
fn any_of_several_options_can_validate_an_adjacency() {
    let mut rules: AdjacencyRules<BasicIdentifiableTile2D> = AdjacencyRules::new();
    rules.add_adjacency_raw(7, 8, GridDir::LEFT);
    assert!(rules.is_adjacent_option_valid_for_options(&[1, 2, 7], 8, GridDir::RIGHT));
    assert!(!rules.is_adjacent_option_valid_for_options(&[1, 2], 8, GridDir::RIGHT));
    assert!(!rules.is_adjacent_option_valid_for_options(&[1, 2, 7], 8, GridDir::LEFT));
    assert!(!rules.is_adjacent_option_valid_for_options(&[], 8, GridDir::RIGHT));
}

#[test]
fn opposite_directions_pair_up() {
    assert_eq!(GridDir::UP.opposite(), GridDir::DOWN);
    assert_eq!(GridDir::DOWN.opposite(), GridDir::UP);
    assert_eq!(GridDir::LEFT.opposite(), GridDir::RIGHT);
    assert_eq!(GridDir::RIGHT.opposite(), GridDir::LEFT);
    for dir in GridDir::ALL.iter() {
        assert_eq!(dir.opposite().opposite(), *dir);
        assert_eq!(GridDir::from_index(dir.index()), *dir);
    }
}
