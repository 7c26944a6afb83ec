use minesweeper::{new, new_with_mines, Board, ConstructionError, RevealError, TileState};

#[test]
fn new_valid_starts_all_hidden() {
    let b = new(4, 3, 5).unwrap();
    assert_eq!(b.get_width(), 4);
    assert_eq!(b.get_height(), 3);
    for r in 0..3 {
        for c in 0..4 {
            assert_eq!(b.get_tile(r, c), Some(TileState::HIDDEN(false)));
        }
    }
    let rows = b.render();
    assert_eq!(rows.len(), 3);
    for row in &rows {
        assert_eq!(row.len(), 4);
        for ch in row {
            assert_eq!(*ch, '#');
        }
    }
}

#[test]
fn new_rejects_too_many_mines() {
    assert!(matches!(new(5, 5, 25), Err(ConstructionError::InvalidConfiguration)));
    assert!(matches!(new(5, 5, 26), Err(ConstructionError::InvalidConfiguration)));
    assert!(new(5, 5, 24).is_ok());
    assert!(matches!(new(0, 5, 0), Err(ConstructionError::InvalidConfiguration)));
}

#[test]
fn first_reveal_is_never_a_mine() {
    // With 8 mines on a 3x3 grid, every cell but the first revealed one is a
    // mine, so the revealed tile must carry the count 8.
    for _ in 0..20 {
        let mut b = new(3, 3, 8).unwrap();
        assert_eq!(b.reveal_tile(1, 1), Ok(()));
        assert_eq!(b.get_tile(1, 1), Some(TileState::REVEALED(8)));
    }
}

#[test]
fn placement_has_exactly_the_configured_mines() {
    // Reveal every cell of a 4x4 board with 6 mines: exactly 6 tiles end as
    // the mine sentinel, and the first revealed cell is never one of them.
    for _ in 0..10 {
        let mut b = new(4, 4, 6).unwrap();
        assert_eq!(b.reveal_tile(0, 0), Ok(()));
        assert_ne!(b.get_tile(0, 0), Some(TileState::REVEALED(-1)));
        let mut mines = 0;
        for r in 0..4 {
            for c in 0..4 {
                b.reveal_tile(r, c).unwrap();
                if b.get_tile(r, c) == Some(TileState::REVEALED(-1)) {
                    mines += 1;
                }
            }
        }
        assert_eq!(mines, 6);
    }
}

#[test]
fn flood_expansion_reveals_the_zero_region() {
    // 3x3 board, one mine at (0, 0), reveal at (2, 2): the whole safe region
    // opens, with exact counts, and the mine stays hidden.
    let mut b = new_with_mines(3, 3, vec![(0, 0)]).unwrap();
    assert_eq!(b.reveal_tile(2, 2), Ok(()));
    assert_eq!(b.get_tile(2, 2), Some(TileState::REVEALED(0)));
    assert_eq!(b.get_tile(0, 0), Some(TileState::HIDDEN(false)));
    assert_eq!(b.get_tile(0, 1), Some(TileState::REVEALED(1)));
    assert_eq!(b.get_tile(1, 0), Some(TileState::REVEALED(1)));
    assert_eq!(b.get_tile(1, 1), Some(TileState::REVEALED(1)));
    assert_eq!(b.get_tile(0, 2), Some(TileState::REVEALED(0)));
    assert_eq!(b.get_tile(2, 0), Some(TileState::REVEALED(0)));
    assert_eq!(b.get_tile(1, 2), Some(TileState::REVEALED(0)));
    assert_eq!(b.get_tile(2, 1), Some(TileState::REVEALED(0)));
}

#[test]
fn revealing_a_mine_changes_only_that_tile() {
    let mut b = new_with_mines(3, 3, vec![(1, 1)]).unwrap();
    assert_eq!(b.reveal_tile(1, 1), Ok(()));
    assert_eq!(b.get_tile(1, 1), Some(TileState::REVEALED(-1)));
    for r in 0..3 {
        for c in 0..3 {
            if (r, c) != (1, 1) {
                assert_eq!(b.get_tile(r, c), Some(TileState::HIDDEN(false)));
            }
        }
    }
}

#[test]
fn reveal_is_idempotent_on_safe_tiles() {
    let mut b = new_with_mines(3, 3, vec![(0, 0)]).unwrap();
    b.reveal_tile(2, 2).unwrap();
    let first = b.render();
    b.reveal_tile(2, 2).unwrap();
    assert_eq!(b.render(), first);
    b.reveal_tile(0, 1).unwrap();
    assert_eq!(b.render(), first);
}

#[test]
fn reveal_with_fixed_mines_is_deterministic() {
    let mut b1 = new_with_mines(4, 4, vec![(0, 0), (3, 3)]).unwrap();
    let mut b2 = new_with_mines(4, 4, vec![(0, 0), (3, 3)]).unwrap();
    b1.reveal_tile(0, 3).unwrap();
    b2.reveal_tile(0, 3).unwrap();
    assert_eq!(b1.render(), b2.render());
}

#[test]
fn out_of_range_reveal_is_an_error_and_changes_nothing() {
    let mut b = new(3, 3, 2).unwrap();
    assert_eq!(b.reveal_tile(3, 0), Err(RevealError::OutOfRangeCoordinate));
    assert_eq!(b.reveal_tile(0, 3), Err(RevealError::OutOfRangeCoordinate));
    for r in 0..3 {
        for c in 0..3 {
            assert_eq!(b.get_tile(r, c), Some(TileState::HIDDEN(false)));
        }
    }
    assert_eq!(b.get_tile(3, 0), None);
}

#[test]
fn counts_match_the_number_of_adjacent_mines() {
    // Mines at (0, 1) and (1, 0): the corner (0, 0) touches both.
    let mut b = new_with_mines(3, 3, vec![(0, 1), (1, 0)]).unwrap();
    b.reveal_tile(0, 0).unwrap();
    assert_eq!(b.get_tile(0, 0), Some(TileState::REVEALED(2)));
    let mut b2 = new_with_mines(3, 3, vec![(0, 1), (1, 0)]).unwrap();
    b2.reveal_tile(2, 2).unwrap();
    assert_eq!(b2.get_tile(2, 2), Some(TileState::REVEALED(0)));
    assert_eq!(b2.get_tile(1, 1), Some(TileState::REVEALED(2)));
    assert_eq!(b2.get_tile(1, 2), Some(TileState::REVEALED(1)));
    assert_eq!(b2.get_tile(2, 1), Some(TileState::REVEALED(1)));
    // Tiles past the positive-count border stay hidden.
    assert_eq!(b2.get_tile(2, 0), Some(TileState::HIDDEN(false)));
    assert_eq!(b2.get_tile(0, 2), Some(TileState::HIDDEN(false)));
    // The mines were never auto-revealed by the expansion.
    assert_eq!(b2.get_tile(0, 1), Some(TileState::HIDDEN(false)));
    assert_eq!(b2.get_tile(1, 0), Some(TileState::HIDDEN(false)));
}

#[test]
fn new_with_mines_validates_the_layout() {
    assert!(new_with_mines(3, 3, vec![(0, 0), (0, 0)]).is_err());
    assert!(new_with_mines(3, 3, vec![(3, 0)]).is_err());
    assert!(new_with_mines(3, 3, vec![(0, 3)]).is_err());
    assert!(
        new_with_mines(
            3,
            3,
            vec![
                (0, 0),
                (0, 1),
                (0, 2),
                (1, 0),
                (1, 1),
                (1, 2),
                (2, 0),
                (2, 1),
                (2, 2)
            ]
        )
        .is_err()
    );
    assert!(new_with_mines(3, 3, vec![]).is_ok());
}

#[test]
fn zero_mines_reveals_everything() {
    let mut b = new(2, 2, 0).unwrap();
    b.reveal_tile(0, 0).unwrap();
    for r in 0..2 {
        for c in 0..2 {
            assert_eq!(b.get_tile(r, c), Some(TileState::REVEALED(0)));
        }
    }
}

#[test]
fn neighbors_are_clipped_at_edges() {
    let b = new(3, 3, 0).unwrap();
    assert_eq!(b.get_neighbors(0, 0), vec![(0, 1), (1, 0), (1, 1)]);
    assert_eq!(
        b.get_neighbors(1, 1),
        vec![(0, 0), (0, 1), (0, 2), (1, 0), (1, 2), (2, 0), (2, 1), (2, 2)]
    );
    assert_eq!(b.get_neighbors(2, 1), vec![(1, 0), (1, 1), (1, 2), (2, 0), (2, 2)]);
}

#[test]
fn num_neighbor_mines_counts_exactly() {
    let b = new_with_mines(3, 3, vec![(0, 0), (2, 2)]).unwrap();
    assert_eq!(b.num_neighbor_mines(1, 1), 2);
    assert_eq!(b.num_neighbor_mines(0, 1), 1);
    assert_eq!(b.num_neighbor_mines(2, 0), 0);
}

#[test]
fn render_draws_each_tile_state() {
    let mut b = new_with_mines(2, 2, vec![(0, 0)]).unwrap();
    b.reveal_tile(1, 1).unwrap();
    b.reveal_tile(0, 1).unwrap();
    b.reveal_tile(1, 0).unwrap();
    b.reveal_tile(0, 0).unwrap();
    let rows = b.render();
    assert_eq!(rows[0], vec!['*', '1']);
    assert_eq!(rows[1], vec!['1', '1']);
}

#[test]
fn non_square_boards_use_row_and_column_consistently() {
    let mut b = new(5, 2, 0).unwrap();
    assert_eq!(b.get_width(), 5);
    assert_eq!(b.get_height(), 2);
    assert_eq!(b.get_tile(1, 4), Some(TileState::HIDDEN(false)));
    assert_eq!(b.get_tile(4, 1), None);
    assert_eq!(b.reveal_tile(1, 4), Ok(()));
    assert_eq!(b.reveal_tile(4, 1), Err(RevealError::OutOfRangeCoordinate));
    let rows = b.render();
    assert_eq!(rows.len(), 2);
    assert_eq!(rows[0].len(), 5);
}
