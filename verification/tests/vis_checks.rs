use grid_forge::gen::wfc::vis::{check_grid_vis_size, check_tile_vis_size, VisAnalyzeErrorKind};

#[test]
fn tile_images_must_hold_exactly_one_tile() {
    assert!(check_tile_vis_size::<4, 3>(4, 3).is_ok());
    let err = check_tile_vis_size::<4, 3>(3, 4).unwrap_err();
    assert_eq!(err.kind(), VisAnalyzeErrorKind::WrongSizeTile { x: 3, y: 4 });
}

#[test]
fn grid_images_are_measured_in_whole_tiles() {
    let size = check_grid_vis_size::<4, 3>(16, 9).unwrap();
    assert_eq!(size.x(), 4);
    assert_eq!(size.y(), 3);
    let err = check_grid_vis_size::<4, 3>(16, 10).unwrap_err();
    assert_eq!(err.kind(), VisAnalyzeErrorKind::WrongSizeGrid { x: 16, y: 10 });
}
