use go_engine::sprites::{board_tile, is_dotted, SpriteSheet};

#[test]
fn star_points_only_on_nine() {
    assert!(is_dotted(9, 2, 6));
    assert!(is_dotted(9, 6, 6));
    assert!(!is_dotted(9, 4, 4));
    assert!(!is_dotted(13, 2, 2));
}

#[test]
fn tiles_for_corners_edges_and_inside() {
    assert_eq!(board_tile(9, 0, 0), SpriteSheet::Northwest);
    assert_eq!(board_tile(9, 0, 8), SpriteSheet::Southwest);
    assert_eq!(board_tile(9, 8, 0), SpriteSheet::Northeast);
    assert_eq!(board_tile(9, 8, 8), SpriteSheet::Southeast);
    assert_eq!(board_tile(9, 0, 3), SpriteSheet::West);
    assert_eq!(board_tile(9, 8, 3), SpriteSheet::East);
    assert_eq!(board_tile(9, 3, 0), SpriteSheet::North);
    assert_eq!(board_tile(9, 3, 8), SpriteSheet::South);
    assert_eq!(board_tile(9, 2, 2), SpriteSheet::CrossDot);
    assert_eq!(board_tile(9, 3, 3), SpriteSheet::Cross);
    assert_eq!(board_tile(13, 2, 2), SpriteSheet::Cross);
}

#[test]
fn sheet_origins() {
    assert_eq!(SpriteSheet::Cross.origin(), (0, 0));
    assert_eq!(SpriteSheet::Northwest.origin(), (64, 32));
    assert_eq!(SpriteSheet::White.origin(), (64, 96));
    assert_eq!(SpriteSheet::Black.origin(), (96, 96));
}
