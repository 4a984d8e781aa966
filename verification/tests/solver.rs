use klotski::board::Board;
use klotski::coordinates::Coor;
use klotski::piece::Piece;
use klotski::solve_klotski;
use klotski::solver::confirm_route;
use klotski::solver::is_solution_path;

fn unit(row: usize, col: usize) -> Piece {
    Piece::new(Coor::new(row, col), 1, 1)
}

/// A grid without an empty cell, the target piece in its middle.
fn packed_board() -> Board {
    Board {
        pieces: [
            Piece::new(Coor::new(1, 1), 2, 2),
            Piece::new(Coor::new(0, 0), 1, 2),
            Piece::new(Coor::new(0, 2), 1, 2),
            Piece::new(Coor::new(1, 0), 2, 1),
            Piece::new(Coor::new(1, 3), 2, 1),
            Piece::new(Coor::new(3, 0), 1, 2),
            Piece::new(Coor::new(3, 2), 1, 2),
            Piece::new(Coor::new(4, 0), 1, 2),
            unit(4, 2),
            unit(4, 3),
        ],
    }
}

/// The target piece one cell above the solution, nothing below it.
fn nearly_solved() -> Board {
    Board {
        pieces: [
            Piece::new(Coor::new(2, 1), 2, 2),
            unit(0, 0),
            unit(0, 1),
            unit(0, 2),
            unit(0, 3),
            unit(1, 0),
            unit(1, 1),
            unit(1, 2),
            unit(1, 3),
            unit(2, 0),
        ],
    }
}

fn solved_from(board: &Board) -> Board {
    let mut pieces = board.pieces;
    pieces[0].coor = Coor::new(3, 1);
    Board { pieces }
}

#[test]
fn can_solve_default_klotski() {
    // This test may take a few seconds to complete
    let board = Board::new();
    let finished = solve_klotski(board);
    assert!(finished.is_some());
}

#[test]
fn the_solution_leads_from_the_start_to_a_solved_board() {
    let start = Board::new();
    let (path, cost) = solve_klotski(start.clone()).expect("the starting layout can be solved");
    assert!(path[0] == start);
    assert_eq!(path[0].pieces, start.pieces);
    assert!(path[path.len() - 1].is_solution());
    assert_eq!(cost as usize, path.len() - 1);
    assert_eq!(cost, 112);
    for pair in path.windows(2) {
        assert!(pair[0]
            .next_states()
            .into_iter()
            .any(|(state, _)| state == pair[1]));
    }
    for board in &path {
        assert!(board.is_well_formed());
    }
    assert!(is_solution_path(&start, &path, cost));
}

#[test]
fn the_search_gives_the_same_answer_each_time() {
    let start = Board::new();
    let (first, first_cost) = solve_klotski(start.clone()).expect("the layout can be solved");
    let (second, second_cost) = solve_klotski(start).expect("the layout can be solved");
    assert_eq!(first_cost, second_cost);
    assert_eq!(first.len(), second.len());
    for (a, b) in first.iter().zip(&second) {
        assert_eq!(a.pieces, b.pieces);
    }
}

#[test]
fn a_packed_board_cannot_be_solved() {
    assert!(solve_klotski(packed_board()).is_none());
}

#[test]
fn a_solved_board_is_its_own_solution() {
    let solved = solved_from(&nearly_solved());
    let (path, cost) = solve_klotski(solved.clone()).expect("the board is solved");
    assert_eq!(cost, 0);
    assert_eq!(path.len(), 1);
    assert_eq!(path[0].pieces, solved.pieces);
}

#[test]
fn one_move_solves_a_nearly_solved_board() {
    let start = nearly_solved();
    let (path, cost) = solve_klotski(start.clone()).expect("one move is left");
    assert_eq!(cost, 1);
    assert_eq!(path.len(), 2);
    assert_eq!(path[0].pieces, start.pieces);
    assert_eq!(path[1].pieces, solved_from(&start).pieces);
}

#[test]
fn distance_to_solution_is_the_manhattan_distance() {
    assert_eq!(Board::new().distance_to_solution(), 3);
    assert_eq!(packed_board().distance_to_solution(), 2);
    assert_eq!(nearly_solved().distance_to_solution(), 1);
    assert_eq!(solved_from(&nearly_solved()).distance_to_solution(), 0);
    let mut right = nearly_solved();
    right.pieces[0].coor = Coor::new(3, 2);
    assert_eq!(right.distance_to_solution(), 1);
    let mut corner = nearly_solved();
    corner.pieces[0] = unit(4, 0);
    assert_eq!(corner.distance_to_solution(), 2);
}

#[test]
fn a_path_is_held_to_every_condition() {
    let start = nearly_solved();
    let solved = solved_from(&start);
    let good = vec![start.clone(), solved.clone()];
    assert!(is_solution_path(&start, &good, 1));
    // the cost counts the moves
    assert!(!is_solution_path(&start, &good, 2));
    assert!(!is_solution_path(&start, &good, 0));
    assert!(!is_solution_path(&start, &good, -1));
    // the path is not empty and begins with the start
    assert!(!is_solution_path(&start, &vec![], 0));
    assert!(!is_solution_path(&start, &vec![solved.clone()], 0));
    assert!(is_solution_path(&solved, &vec![solved.clone()], 0));
    // it ends on a solved board
    assert!(!is_solution_path(&start, &vec![start.clone()], 0));
    // each board is one move from the one before it
    let mut far = start.clone();
    far.pieces[9].coor = Coor::new(4, 0);
    assert!(!is_solution_path(
        &start,
        &vec![start.clone(), far.clone(), solved.clone()],
        2
    ));
    let mut jumped = solved.clone();
    jumped.pieces[9].coor = Coor::new(2, 3);
    assert!(!is_solution_path(&start, &vec![start.clone(), jumped], 1));
    // a move may be followed by the same layout with its pieces in another order
    let mut relabelled = solved.clone();
    relabelled.pieces.swap(1, 2);
    assert!(is_solution_path(&start, &vec![start.clone(), relabelled], 1));
    // but each index keeps its shape
    let mut exchanged = solved.clone();
    exchanged.pieces.swap(0, 1);
    assert!(!is_solution_path(&start, &vec![start.clone(), exchanged], 1));
    // and every board is well-formed
    let mut overlapping = start.clone();
    overlapping.pieces[9].coor = Coor::new(2, 1);
    assert!(!is_solution_path(
        &overlapping,
        &vec![overlapping.clone(), solved_from(&overlapping)],
        1
    ));
}

#[test]
fn a_confirmed_route_is_handed_on_unchanged() {
    let start = nearly_solved();
    let solved = solved_from(&start);
    let found = Some((vec![start.clone(), solved.clone()], 1));
    let (path, cost) = confirm_route(&start, found).expect("the path holds up");
    assert_eq!(cost, 1);
    assert_eq!(path.len(), 2);
    assert_eq!(path[0].pieces, start.pieces);
    assert_eq!(path[1].pieces, solved.pieces);
    assert!(confirm_route(&start, None).is_none());
    assert!(confirm_route(&start, Some((vec![start.clone()], 0))).is_none());
    assert!(confirm_route(&start, Some((vec![start.clone(), solved], 5))).is_none());
}
