use klotski::coordinates::Coor;
use klotski::coordinates::COLS;
use klotski::coordinates::ROWS;
use klotski::direction::Direction;

#[test]
fn check_legal_movements() {
    let c = Coor::new(1, 1);
    assert!(c
        .apply_move(Direction::Up)
        .is_ok_and(|d| d == Coor::new(0, 1)));
    assert!(c
        .apply_move(Direction::Left)
        .is_ok_and(|d| d == Coor::new(1, 0)));
    assert!(c
        .apply_move(Direction::Right)
        .is_ok_and(|d| d == Coor::new(1, 2)));
    assert!(c
        .apply_move(Direction::Down)
        .is_ok_and(|d| d == Coor::new(2, 1)));
}

#[test]
fn check_boundaries() {
    let a = Coor::new(0, 0);
    assert!(a.apply_move(Direction::Up).is_err());
    assert!(a.apply_move(Direction::Left).is_err());

    let b = Coor::new(ROWS - 1, COLS - 1);
    assert!(b.apply_move(Direction::Down).is_err());
    assert!(b.apply_move(Direction::Right).is_err());
}

#[test]
fn grid_is_five_by_four() {
    assert_eq!(ROWS, 5);
    assert_eq!(COLS, 4);
}

#[test]
fn new_keeps_row_and_column() {
    let c = Coor::new(4, 2);
    assert_eq!(c.row, 4);
    assert_eq!(c.col, 2);
    assert_eq!(c, Coor { row: 4, col: 2 });
}

#[test]
fn every_cell_steps_exactly_onto_the_grid() {
    let directions = [
        (Direction::Up, -1i64, 0i64),
        (Direction::Right, 0, 1),
        (Direction::Left, 0, -1),
        (Direction::Down, 1, 0),
    ];
    for row in 0..ROWS {
        for col in 0..COLS {
            for (direction, row_shift, col_shift) in directions {
                let new_row = row as i64 + row_shift;
                let new_col = col as i64 + col_shift;
                let inside =
                    0 <= new_row && new_row < ROWS as i64 && 0 <= new_col && new_col < COLS as i64;
                match Coor::new(row, col).apply_move(direction) {
                    Ok(moved) => {
                        assert!(inside);
                        assert_eq!(moved, Coor::new(new_row as usize, new_col as usize));
                    }
                    Err(_) => assert!(!inside),
                }
            }
        }
    }
}

#[test]
fn a_step_from_outside_the_grid_may_enter_it() {
    assert!(Coor::new(5, 2)
        .apply_move(Direction::Up)
        .is_ok_and(|d| d == Coor::new(4, 2)));
    assert!(Coor::new(1, 4)
        .apply_move(Direction::Left)
        .is_ok_and(|d| d == Coor::new(1, 3)));
    assert!(Coor::new(5, 2).apply_move(Direction::Left).is_err());
    assert!(Coor::new(6, 2).apply_move(Direction::Up).is_err());
}

#[test]
fn steps_at_the_end_of_the_integers_fail() {
    let far = Coor::new(usize::MAX, usize::MAX);
    assert!(far.apply_move(Direction::Down).is_err());
    assert!(far.apply_move(Direction::Right).is_err());
    assert!(far.apply_move(Direction::Up).is_err());
    assert!(far.apply_move(Direction::Left).is_err());
    // 2^32 + 1 would read as row 1 if it were cut to 32 bits.
    if usize::BITS > 32 {
        let wrapped = Coor::new((1usize << 32) + 1, 0);
        assert!(wrapped.apply_move(Direction::Up).is_err());
    }
}

#[test]
fn fits_tells_whether_a_rectangle_is_inside() {
    assert!(Coor::new(0, 0).fits(5, 4));
    assert!(!Coor::new(0, 0).fits(6, 4));
    assert!(!Coor::new(0, 0).fits(5, 5));
    assert!(Coor::new(3, 1).fits(2, 2));
    assert!(!Coor::new(4, 1).fits(2, 2));
    assert!(!Coor::new(3, 3).fits(2, 2));
    assert!(Coor::new(4, 3).fits(1, 1));
    assert!(!Coor::new(5, 0).fits(1, 1));
    assert!(!Coor::new(0, 0).fits(usize::MAX, 1));
    assert!(!Coor::new(usize::MAX, 0).fits(1, 1));
}

#[test]
fn coordinates_add_by_row_and_column() {
    assert_eq!(Coor::new(1, 2) + Coor::new(3, 1), Coor::new(4, 3));
    assert_eq!(Coor::new(0, 0) + Coor::new(0, 0), Coor::new(0, 0));
}

#[test]
fn coordinates_are_ordered_by_row_then_column() {
    assert!(Coor::new(0, 3) < Coor::new(1, 0));
    assert!(Coor::new(2, 1) < Coor::new(2, 2));
    assert!(Coor::new(2, 2) > Coor::new(1, 3));
}

#[test]
fn directions_come_in_a_fixed_order() {
    assert_eq!(klotski::direction::DIRECTIONS, 4);
    assert_eq!(Direction::from_rank(0), Direction::Up);
    assert_eq!(Direction::from_rank(1), Direction::Right);
    assert_eq!(Direction::from_rank(2), Direction::Left);
    assert_eq!(Direction::from_rank(3), Direction::Down);
}
