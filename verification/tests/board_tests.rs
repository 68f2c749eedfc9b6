use emi_go::{Board, Piece, Pos};

fn pos(x: u32, y: u32) -> Pos {
    Pos { x, y }
}

#[test]
fn new_board_is_empty() {
    let b = Board::new(9);
    assert_eq!(b.board_size(), 9);
    for x in 0..9 {
        for y in 0..9 {
            assert_eq!(b.get(x, y), Piece::Empty);
        }
    }
}

#[test]
fn set_get_remove() {
    let mut b = Board::new(9);
    b.set(3, 4, Piece::Black);
    assert_eq!(b.get(3, 4), Piece::Black);
    assert_eq!(b.get(4, 3), Piece::Empty);
    b.remove(3, 4);
    assert_eq!(b.get(3, 4), Piece::Empty);
}

#[test]
fn coord_is_valid_clips_at_edges() {
    let b = Board::new(9);
    assert!(b.coord_is_valid(0, 0));
    assert!(b.coord_is_valid(8, 8));
    assert!(!b.coord_is_valid(9, 0));
    assert!(!b.coord_is_valid(0, 9));
}

#[test]
fn surround_corner_edge_interior() {
    let b = Board::new(9);
    let corner = b.surround(0, 0);
    assert_eq!(corner.len(), 2);
    assert!(corner.contains(&pos(1, 0)));
    assert!(corner.contains(&pos(0, 1)));

    let edge = b.surround(4, 0);
    assert_eq!(edge.len(), 3);
    assert!(edge.contains(&pos(5, 0)));
    assert!(edge.contains(&pos(3, 0)));
    assert!(edge.contains(&pos(4, 1)));

    let interior = b.surround(4, 4);
    assert_eq!(interior.len(), 4);
    assert!(interior.contains(&pos(5, 4)));
    assert!(interior.contains(&pos(3, 4)));
    assert!(interior.contains(&pos(4, 5)));
    assert!(interior.contains(&pos(4, 3)));
}

#[test]
fn liberties_on_empty_point_is_none() {
    let b = Board::new(9);
    assert_eq!(b.liberties(4, 4), None);
}

#[test]
fn liberties_single_stone() {
    let mut b = Board::new(9);
    b.set(4, 4, Piece::Black);
    assert_eq!(b.liberties(4, 4), Some(4));
    b.set(0, 0, Piece::White);
    assert_eq!(b.liberties(0, 0), Some(2));
    b.set(4, 0, Piece::White);
    assert_eq!(b.liberties(4, 0), Some(3));
}

#[test]
fn liberties_counts_distinct_points_once_per_group() {
    let mut b = Board::new(9);
    // A 2x2 block: each inner point is adjacent to two of the block's
    // stones, yet every empty point around it counts exactly once.
    b.set(3, 3, Piece::Black);
    b.set(4, 3, Piece::Black);
    b.set(3, 4, Piece::Black);
    b.set(4, 4, Piece::Black);
    assert_eq!(b.liberties(3, 3), Some(8));
    assert_eq!(b.liberties(4, 4), Some(8));
}

#[test]
fn liberties_reduced_by_opposing_neighbors() {
    let mut b = Board::new(9);
    b.set(4, 4, Piece::Black);
    b.set(4, 3, Piece::White);
    assert_eq!(b.liberties(4, 4), Some(3));
    assert_eq!(b.liberties(4, 3), Some(3));
    b.set(3, 4, Piece::White);
    b.set(5, 4, Piece::White);
    b.set(4, 5, Piece::White);
    assert_eq!(b.liberties(4, 4), Some(0));
}

#[test]
fn liberties_of_snake_group() {
    let mut b = Board::new(9);
    // A bent group of three stones in a corner region.
    b.set(0, 0, Piece::Black);
    b.set(1, 0, Piece::Black);
    b.set(1, 1, Piece::Black);
    // Liberties: (2,0), (2,1), (1,2), (0,1).
    assert_eq!(b.liberties(0, 0), Some(4));
    assert_eq!(b.liberties(1, 1), Some(4));
}

#[test]
fn group_size_counts_connected_stones() {
    let mut b = Board::new(9);
    assert_eq!(b.group_size(2, 2), None);
    b.set(2, 2, Piece::Black);
    b.set(3, 2, Piece::Black);
    b.set(4, 2, Piece::Black);
    // A diagonal neighbor is not connected.
    b.set(5, 3, Piece::Black);
    assert_eq!(b.group_size(2, 2), Some(3));
    assert_eq!(b.group_size(4, 2), Some(3));
    assert_eq!(b.group_size(5, 3), Some(1));
}

#[test]
fn capture_set_lists_whole_group_without_removing() {
    let mut b = Board::new(9);
    b.set(1, 0, Piece::White);
    b.set(1, 1, Piece::White);
    let group = b.capture_(1, 0).unwrap();
    assert_eq!(group.len(), 2);
    assert!(group.contains(&pos(1, 0)));
    assert!(group.contains(&pos(1, 1)));
    // Nothing was removed.
    assert_eq!(b.get(1, 0), Piece::White);
    assert_eq!(b.get(1, 1), Piece::White);
    assert_eq!(b.capture_(0, 0), None);
}

#[test]
fn capture_removes_whole_group_and_nothing_else() {
    let mut b = Board::new(9);
    b.set(1, 0, Piece::White);
    b.set(1, 1, Piece::White);
    b.set(0, 0, Piece::Black);
    assert_eq!(b.capture(1, 0), Some(2));
    assert_eq!(b.get(1, 0), Piece::Empty);
    assert_eq!(b.get(1, 1), Piece::Empty);
    assert_eq!(b.get(0, 0), Piece::Black);
    assert_eq!(b.capture(5, 5), None);
}
