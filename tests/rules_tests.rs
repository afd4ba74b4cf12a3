use go_engine::{Board, CellState, Point};

fn ko_board() -> Board {
    Board::from_str(
        "
        .BW..
        BW.W.
        .BW..
        .....
        .....
        ",
        CellState::Black,
    )
    .unwrap()
}

#[test]
fn adjacent_counts_on_small_boards() {
    let b = Board::new(2);
    for (x, y) in [(0, 0), (1, 0), (0, 1), (1, 1)] {
        assert_eq!(b.get_adjacent(Point::new(x, y)).len(), 2);
    }
    let b = Board::new(5);
    assert_eq!(b.get_adjacent(Point::new(4, 4)).len(), 2);
    assert_eq!(b.get_adjacent(Point::new(4, 2)).len(), 3);
    assert_eq!(b.get_adjacent(Point::new(2, 0)).len(), 3);
    assert_eq!(b.get_adjacent(Point::new(1, 3)).len(), 4);
}

#[test]
fn adjacent_points_in_order() {
    let b = Board::new(5);
    assert_eq!(
        b.get_adjacent(Point::new(2, 3)),
        vec![Point::new(1, 3), Point::new(3, 3), Point::new(2, 2), Point::new(2, 4)]
    );
    assert_eq!(b.get_adjacent(Point::new(0, 0)), vec![Point::new(1, 0), Point::new(0, 1)]);
}

#[test]
fn capture_credits_the_capturing_side() {
    let mut b = Board::from_str(
        "
    .....
    .BBB.
    BWWW.
    .BBB.
    .....
    ",
        CellState::Black,
    )
    .unwrap();
    b.place(Point::new(4, 2));
    assert_eq!(b.get_captured_stones(CellState::Black), 3);
    assert_eq!(b.get_captured_stones(CellState::White), 0);
    assert_eq!(b.get(Point::new(4, 2)), CellState::Black);
    assert_eq!(b.get_turn(), CellState::White);
}

#[test]
fn white_move_in_capture_position_is_not_suicide() {
    let mut b = Board::from_str(
        "
    .....
    .BBB.
    BWWW.
    .BBB.
    .....
    ",
        CellState::White,
    )
    .unwrap();
    assert!(b.can_place(Point::new(4, 2)));
    b.place(Point::new(4, 2));
    assert_eq!(b.get(Point::new(4, 2)), CellState::White);
    assert_eq!(b.count_liberties(Point::new(1, 2)), 2);
}

#[test]
fn suicide_is_rejected_and_turn_kept() {
    let mut b = Board::new(19);
    b.place(Point::new(1, 0));
    b.place(Point::new(5, 5));
    b.place(Point::new(0, 1));
    assert_eq!(b.get_turn(), CellState::White);
    assert!(!b.can_place(Point::new(0, 0)));
    b.place(Point::new(0, 0));
    assert_eq!(b.get(Point::new(0, 0)), CellState::Empty);
    assert_eq!(b.get_turn(), CellState::White);
}

#[test]
fn suicide_when_allowed_removes_own_stone() {
    let mut b = Board::new(19);
    b.place(Point::new(1, 0));
    b.place(Point::new(5, 5));
    b.place(Point::new(0, 1));
    b.set_allow_suicide(true);
    assert!(b.get_allow_suicide());
    assert!(b.can_place(Point::new(0, 0)));
    b.place(Point::new(0, 0));
    assert_eq!(b.get(Point::new(0, 0)), CellState::Empty);
    assert_eq!(b.get_captured_stones(CellState::Black), 1);
    assert_eq!(b.get_captured_stones(CellState::White), 0);
    assert_eq!(b.get_turn(), CellState::Black);
}

#[test]
fn occupied_and_outside_points_are_illegal() {
    let mut b = Board::new(5);
    b.place(Point::new(2, 2));
    assert!(!b.can_place(Point::new(2, 2)));
    assert!(!b.can_place(Point::new(-1, 0)));
    assert!(!b.can_place(Point::new(0, 5)));
    assert!(!b.can_place(Point::new(5, 5)));
    b.place(Point::new(5, 0));
    assert_eq!(b.get_turn(), CellState::White);
}

#[test]
fn ko_forbids_immediate_recapture_only() {
    let mut b = ko_board();
    assert!(b.is_in_atari(Point::new(1, 1)));
    b.place(Point::new(2, 1));
    assert_eq!(b.get(Point::new(1, 1)), CellState::Empty);
    assert_eq!(b.get_captured_stones(CellState::Black), 1);
    assert!(b.is_in_atari(Point::new(2, 1)));
    // White may not take back at once.
    assert!(!b.can_place(Point::new(1, 1)));
    b.place(Point::new(1, 1));
    assert_eq!(b.get(Point::new(1, 1)), CellState::Empty);
    assert_eq!(b.get_turn(), CellState::White);
    // Both sides play elsewhere; the ko is over.
    b.place(Point::new(4, 4));
    b.place(Point::new(0, 4));
    assert!(b.can_place(Point::new(1, 1)));
    b.place(Point::new(1, 1));
    assert_eq!(b.get(Point::new(1, 1)), CellState::White);
    assert_eq!(b.get(Point::new(2, 1)), CellState::Empty);
    assert_eq!(b.get_captured_stones(CellState::White), 1);
}

#[test]
fn ko_clears_after_one_move() {
    let mut b = ko_board();
    b.place(Point::new(2, 1));
    assert!(!b.can_place(Point::new(1, 1)));
    b.place(Point::new(4, 4));
    assert!(b.can_place(Point::new(1, 1)));
}

#[test]
fn can_place_repeats_its_answer() {
    let mut b = ko_board();
    let first = b.can_place(Point::new(2, 1));
    let second = b.can_place(Point::new(2, 1));
    assert!(first);
    assert_eq!(first, second);
    let p = Point::new(0, 0);
    let answers: Vec<bool> = (0..3).map(|_| b.can_place(p)).collect();
    assert_eq!(answers, vec![true, true, true]);
}

#[test]
fn territory_same_from_any_point_of_region() {
    let b = Board::from_str(
        "
        ..B..
        ..B..
        BBB..
        .....
        .....
        ",
        CellState::White,
    )
    .unwrap();
    let mut a = b.get_territory(Point::new(0, 0));
    let mut c = b.get_territory(Point::new(1, 1));
    assert_eq!(a.len(), 4);
    assert_eq!(a[0], Point::new(0, 0));
    a.sort_by_key(|p| (p.x, p.y));
    c.sort_by_key(|p| (p.x, p.y));
    assert_eq!(a, c);
    let mut e = b.get_boundary(Point::new(1, 0));
    let mut f = b.get_boundary(Point::new(0, 1));
    e.sort_by_key(|p| (p.x, p.y));
    f.sort_by_key(|p| (p.x, p.y));
    assert_eq!(e, f);
    assert_eq!(e, vec![Point::new(0, 1), Point::new(1, 0), Point::new(1, 1)]);
    assert_eq!(b.get_territory(Point::new(4, 4)).len(), 16);
    assert!(b.get_territory(Point::new(2, 2)).is_empty());
}

#[test]
fn boundary_of_open_board_is_empty() {
    let b = Board::new(3);
    assert_eq!(b.get_territory(Point::new(1, 1)).len(), 9);
    assert!(b.get_boundary(Point::new(1, 1)).is_empty());
    let mut b = Board::new(3);
    b.place(Point::new(1, 1));
    assert_eq!(b.get_territory(Point::new(0, 0)).len(), 8);
    assert_eq!(b.get_boundary(Point::new(0, 0)).len(), 4);
}

#[test]
fn reset_restores_fresh_state() {
    let mut b = ko_board();
    b.place(Point::new(2, 1));
    assert!(!b.can_place(Point::new(1, 1)));
    b.reset();
    assert_eq!(b.get_turn(), CellState::Black);
    assert_eq!(b.get_size(), 5);
    for y in 0..5 {
        for x in 0..5 {
            assert_eq!(b.get(Point::new(x, y)), CellState::Empty);
        }
    }
    assert_eq!(b.get_captured_stones(CellState::Black), 0);
    assert_eq!(b.get_captured_stones(CellState::White), 0);
    assert!(b.can_place(Point::new(1, 1)));
}

#[test]
fn liberties_of_groups() {
    let b = Board::from_str(
        "
        B....
        .....
        ..WW.
        .....
        .....
        ",
        CellState::Black,
    )
    .unwrap();
    assert_eq!(b.count_liberties(Point::new(0, 0)), 2);
    assert_eq!(b.count_liberties(Point::new(2, 2)), 6);
    assert_eq!(b.count_liberties(Point::new(4, 4)), 0);
    assert!(!b.is_in_atari(Point::new(0, 0)));
    let libs = b.get_liberties(Point::new(0, 0));
    assert!(libs.contains(&Point::new(1, 0)) && libs.contains(&Point::new(0, 1)));
}

#[test]
fn group_accumulator_keeps_prior_points() {
    let b = Board::from_str(
        "
        BB...
        .....
        ...B.
        ...B.
        .....
        ",
        CellState::Black,
    )
    .unwrap();
    let mut g = vec![Point::new(3, 2)];
    b.get_group(CellState::Black, Point::new(3, 3), &mut g);
    assert_eq!(g, vec![Point::new(3, 2), Point::new(3, 3)]);
    b.get_group(CellState::Black, Point::new(1, 0), &mut g);
    assert_eq!(g.len(), 4);
    b.get_group(CellState::White, Point::new(1, 0), &mut g);
    assert_eq!(g.len(), 4);
}

#[test]
fn diagram_rejects_ragged_and_non_square() {
    assert!(Board::from_str("BB\nB", CellState::Black).is_none());
    assert!(Board::from_str("BBB\nBBB", CellState::Black).is_none());
    assert!(Board::from_str("B\nBB", CellState::Black).is_none());
    assert!(Board::from_str("BB\n\nBB", CellState::Black).is_none());
}

#[test]
fn diagram_trims_white_space() {
    let b = Board::from_str("  \n \t .B \r\n  wx\t\n\n", CellState::White).unwrap();
    assert_eq!(b.get_size(), 2);
    assert_eq!(b.get(Point::new(0, 0)), CellState::Empty);
    assert_eq!(b.get(Point::new(1, 0)), CellState::Black);
    assert_eq!(b.get(Point::new(0, 1)), CellState::White);
    assert_eq!(b.get(Point::new(1, 1)), CellState::Empty);
    assert_eq!(b.get_turn(), CellState::White);
    let empty = Board::from_str(" \n ", CellState::Black).unwrap();
    assert_eq!(empty.get_size(), 0);
}

#[test]
fn other_player_and_names() {
    assert_eq!(CellState::Black.get_other_player(), CellState::White);
    assert_eq!(CellState::White.get_other_player(), CellState::Black);
    assert_eq!(CellState::Empty.get_other_player(), CellState::Empty);
    assert_eq!(CellState::Black.name(), "Black");
    assert_eq!(CellState::White.name(), "White");
    assert_eq!(CellState::Empty.name(), "Empty");
}

#[test]
fn point_moved_by_offset() {
    let p = Point::new(3, 4).add(Point::new(-1, 2));
    assert_eq!(p, Point::new(2, 6));
}
