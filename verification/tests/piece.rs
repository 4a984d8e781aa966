use klotski::coordinates::Coor;
use klotski::direction::Direction;
use klotski::piece::AdjacentSpaces;
use klotski::piece::Piece;
use std::cmp::Ordering;

fn default_piece() -> Piece {
    Piece::new(Coor::new(0, 0), 1, 1)
}

#[test]
fn check_adjacent_spaces() {
    let piece = default_piece();
    let spaces = piece.adjacent_spaces();
    assert_eq!(
        spaces,
        AdjacentSpaces {
            up: vec![],
            down: vec![Coor::new(1, 0)],
            right: vec![Coor::new(0, 1)],
            left: vec![],
        }
    );
}

#[test]
fn check_boundaries_make_move() {
    let mut piece = default_piece();
    assert_eq!(piece.make_move(Direction::Up), Err(()));
}

#[test]
fn new_keeps_the_fields() {
    let piece = Piece::new(Coor::new(2, 1), 1, 2);
    assert_eq!(piece.coor, Coor::new(2, 1));
    assert_eq!(piece.height, 1);
    assert_eq!(piece.width, 2);
}

#[test]
fn occupied_spaces_come_row_by_row() {
    let piece = Piece::new(Coor::new(1, 2), 2, 2);
    assert_eq!(
        piece.occupied_spaces(),
        vec![
            Coor::new(1, 2),
            Coor::new(1, 3),
            Coor::new(2, 2),
            Coor::new(2, 3)
        ]
    );
    let tall = Piece::new(Coor::new(0, 3), 3, 1);
    assert_eq!(
        tall.occupied_spaces(),
        vec![Coor::new(0, 3), Coor::new(1, 3), Coor::new(2, 3)]
    );
}

#[test]
fn occupied_spaces_are_height_times_width_distinct_cells() {
    for row in 0..5usize {
        for col in 0..4usize {
            for height in 1..=(5 - row) {
                for width in 1..=(4 - col) {
                    let piece = Piece::new(Coor::new(row, col), height, width);
                    let spaces = piece.occupied_spaces();
                    assert_eq!(spaces.len(), height * width);
                    for (k, a) in spaces.iter().enumerate() {
                        assert!(row <= a.row && a.row < row + height);
                        assert!(col <= a.col && a.col < col + width);
                        for b in &spaces[k + 1..] {
                            assert_ne!(a, b);
                        }
                    }
                }
            }
        }
    }
}

#[test]
fn a_piece_without_cells_occupies_nothing() {
    assert_eq!(Piece::new(Coor::new(1, 1), 0, 3).occupied_spaces(), vec![]);
    assert_eq!(Piece::new(Coor::new(1, 1), 3, 0).occupied_spaces(), vec![]);
}

#[test]
fn adjacent_spaces_of_a_piece_in_the_middle() {
    let piece = Piece::new(Coor::new(1, 1), 2, 2);
    let spaces = piece.adjacent_spaces();
    assert_eq!(spaces.up, vec![Coor::new(0, 1), Coor::new(0, 2)]);
    assert_eq!(spaces.down, vec![Coor::new(3, 1), Coor::new(3, 2)]);
    assert_eq!(spaces.left, vec![Coor::new(1, 0), Coor::new(2, 0)]);
    assert_eq!(spaces.right, vec![Coor::new(1, 3), Coor::new(2, 3)]);
    assert_eq!(spaces.spaces(Direction::Up), &spaces.up);
    assert_eq!(spaces.spaces(Direction::Right), &spaces.right);
    assert_eq!(spaces.spaces(Direction::Left), &spaces.left);
    assert_eq!(spaces.spaces(Direction::Down), &spaces.down);
}

#[test]
fn adjacent_spaces_of_a_piece_in_the_far_corner() {
    let piece = Piece::new(Coor::new(3, 3), 2, 1);
    let spaces = piece.adjacent_spaces();
    assert_eq!(spaces.up, vec![Coor::new(2, 3)]);
    assert_eq!(spaces.down, vec![]);
    assert_eq!(spaces.left, vec![Coor::new(3, 2), Coor::new(4, 2)]);
    assert_eq!(spaces.right, vec![]);
}

#[test]
fn adjacent_spaces_leave_out_single_cells_off_the_grid() {
    // The piece sticks out of the grid on the right: of the cells above and
    // below it only those over the grid's columns are left.
    let piece = Piece::new(Coor::new(1, 2), 1, 4);
    let spaces = piece.adjacent_spaces();
    assert_eq!(spaces.up, vec![Coor::new(0, 2), Coor::new(0, 3)]);
    assert_eq!(spaces.down, vec![Coor::new(2, 2), Coor::new(2, 3)]);
    assert_eq!(spaces.left, vec![Coor::new(1, 1)]);
    assert_eq!(spaces.right, vec![]);
}

#[test]
fn make_move_moves_the_anchor_only() {
    let mut piece = Piece::new(Coor::new(1, 1), 2, 1);
    assert_eq!(piece.make_move(Direction::Down), Ok(()));
    assert_eq!(piece, Piece::new(Coor::new(2, 1), 2, 1));
    assert_eq!(piece.make_move(Direction::Right), Ok(()));
    assert_eq!(piece, Piece::new(Coor::new(2, 2), 2, 1));
    assert_eq!(piece.make_move(Direction::Up), Ok(()));
    assert_eq!(piece, Piece::new(Coor::new(1, 2), 2, 1));
    assert_eq!(piece.make_move(Direction::Left), Ok(()));
    assert_eq!(piece, Piece::new(Coor::new(1, 1), 2, 1));
}

#[test]
fn make_move_fails_when_any_cell_would_leave_the_grid() {
    // The anchor could go down, the second row could not.
    let mut tall = Piece::new(Coor::new(3, 0), 2, 1);
    assert_eq!(tall.make_move(Direction::Down), Err(()));
    assert_eq!(tall, Piece::new(Coor::new(3, 0), 2, 1));
    // The anchor could go right, the second column could not.
    let mut wide = Piece::new(Coor::new(0, 2), 1, 2);
    assert_eq!(wide.make_move(Direction::Right), Err(()));
    assert_eq!(wide, Piece::new(Coor::new(0, 2), 1, 2));
    let mut corner = default_piece();
    assert_eq!(corner.make_move(Direction::Left), Err(()));
    assert_eq!(corner, default_piece());
}

#[test]
fn pieces_are_ordered_by_height_width_row_column() {
    let small = Piece::new(Coor::new(4, 3), 1, 1);
    let wide = Piece::new(Coor::new(0, 0), 1, 2);
    let tall = Piece::new(Coor::new(0, 0), 2, 1);
    let tall_below = Piece::new(Coor::new(1, 0), 2, 1);
    let tall_right = Piece::new(Coor::new(1, 2), 2, 1);
    assert!(small < wide);
    assert!(wide < tall);
    assert!(tall < tall_below);
    assert!(tall_below < tall_right);
    assert!(small.comes_before(&wide));
    assert!(small.comes_before(&small));
    assert!(!tall.comes_before(&wide));
    assert_eq!(small.partial_cmp(&wide), Some(Ordering::Less));
    assert_eq!(tall_right.partial_cmp(&tall_below), Some(Ordering::Greater));
    assert_eq!(tall.partial_cmp(&tall), Some(Ordering::Equal));
    assert_eq!(small.cmp(&wide), Ordering::Less);
    assert_eq!(tall_right.cmp(&tall_below), Ordering::Greater);
    assert_eq!(tall.cmp(&tall), Ordering::Equal);
}

#[test]
fn both_orders_of_pieces_agree() {
    let mut pieces = Vec::new();
    for row in 0..3usize {
        for col in 0..3usize {
            for height in 1..3usize {
                for width in 1..3usize {
                    pieces.push(Piece::new(Coor::new(row, col), height, width));
                }
            }
        }
    }
    for a in &pieces {
        for b in &pieces {
            assert_eq!(a.partial_cmp(b), Some(a.cmp(b)));
            assert_eq!(a.comes_before(b), a.cmp(b) != Ordering::Greater);
        }
    }
}
