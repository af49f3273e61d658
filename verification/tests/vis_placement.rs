use grid_forge::tile::vis::pixel_position;
use grid_forge::tile::GridPosition;

#[test]
fn pixel_of_tile_is_placed_in_its_block() {
    let position = GridPosition::new_xy(2, 3);
    assert_eq!(pixel_position(position, 3, 3, 1, 2), (7, 11));
    assert_eq!(pixel_position(GridPosition::new_xy(0, 0), 3, 3, 2, 2), (2, 2));
    assert_eq!(pixel_position(GridPosition::new_xy(1, 0), 4, 2, 0, 1), (4, 1));
}
