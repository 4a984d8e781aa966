//! The search for a shortest way from a board to a solved board.

use crate::board::coherent;
use crate::board::disjoint;
use crate::board::solution;
use crate::board::Board;
use crate::board::NUM_PIECES;
use crate::coordinates::Coor;
use crate::direction::Direction;
use crate::direction::DIRECTIONS;
use crate::layout::lemma_same_layout_equivalence;
use crate::layout::lemma_same_layout_same_pieces;
use crate::layout::same_layout;
use crate::moves::blocked;
use crate::moves::can_move;
use crate::moves::candidates;
use crate::moves::is_legal;
use crate::moves::legal_pairs;
use crate::moves::lemma_legal_pairs;
use crate::moves::slide;
use crate::piece::Piece;
use vstd::prelude::*;
use vstd::seq_lib::to_multiset_contains;
use vstd::seq_lib::to_multiset_update;

verus! {

/// Manhattan distance between two coordinates: the sum of the absolute row
/// difference and the absolute column difference.
pub open spec fn manhattan(a: Coor, b: Coor) -> int {
    (if a.row >= b.row {
        a.row - b.row
    } else {
        b.row - a.row
    }) + (if a.col >= b.col {
        a.col - b.col
    } else {
        b.col - a.col
    })
}

/// The pieces after the legal move at place `k` of `legal_pairs`.
pub open spec fn after_move(pieces: Seq<Piece>, k: int) -> Seq<Piece> {
    slide(pieces, legal_pairs(pieces)[k].0, legal_pairs(pieces)[k].1)
}

/// Whether one legal move leads from `a` to the layout of `b`.
pub open spec fn is_step(a: Seq<Piece>, b: Seq<Piece>) -> bool {
    exists|k: int| 0 <= k < legal_pairs(a).len() && same_layout(#[trigger] after_move(a, k), b)
}

/// Whether at each index `pieces` holds a piece of the height and width that
/// `start` holds there.
pub open spec fn keeps_shapes(start: Seq<Piece>, pieces: Seq<Piece>) -> bool {
    &&& pieces.len() == start.len()
    &&& forall|k: int|
        0 <= k < start.len() ==> (#[trigger] pieces[k]).height == start[k].height
            && pieces[k].width == start[k].width
}

/// Whether `path` leads from `start` to a solved board in `cost` moves: it
/// begins with `start`, each of its boards lies on the grid without overlap and
/// holds at each index a piece of the shape that `start` holds there, each
/// board but the first is the layout that one legal move makes of the board
/// before it, on the last board the target piece is at the solution, and
/// `cost` counts the moves.
pub open spec fn is_solution_route(start: Seq<Piece>, path: Seq<Seq<Piece>>, cost: int) -> bool {
    &&& path.len() >= 1
    &&& path[0] == start
    &&& forall|i: int|
        0 <= i < path.len() ==> coherent(#[trigger] path[i]) && keeps_shapes(start, path[i])
    &&& forall|i: int| 0 <= i < path.len() - 1 ==> is_step(#[trigger] path[i], path[i + 1])
    &&& path.last()[0].coor == solution()
    &&& cost == path.len() - 1
}

/// No path leads from `start` to a solved board.
pub open spec fn unsolvable(start: Seq<Piece>) -> bool {
    forall|path: Seq<Seq<Piece>>, moves: int| !is_solution_route(start, path, moves)
}

/// No path from `start` to a solved board takes fewer than `cost` moves.
pub open spec fn no_shorter_route(start: Seq<Piece>, cost: int) -> bool {
    forall|path: Seq<Seq<Piece>>, moves: int|
        is_solution_route(start, path, moves) ==> cost <= moves
}

/// No piece but the target piece has the target piece's height and width.
pub open spec fn target_stands_out(pieces: Seq<Piece>) -> bool {
    forall|k: int|
        0 < k < pieces.len() ==> (#[trigger] pieces[k]).height != pieces[0].height
            || pieces[k].width != pieces[0].width
}

/// The boards of a path as lists of pieces.
pub open spec fn route_view(path: Seq<Board>) -> Seq<Seq<Piece>> {
    path.map_values(|board: Board| board@)
}

/// What a search returned, as lists of pieces and a number of moves.
pub open spec fn outcome_view(found: Option<(Vec<Board>, i32)>) -> Option<(Seq<Seq<Piece>>, int)> {
    match found {
        Some((path, cost)) => Some((route_view(path@), cost as int)),
        None => None,
    }
}

/// What is left of a search's outcome once it is held to `is_solution_route`.
pub open spec fn confirmed(
    start: Seq<Piece>,
    outcome: Option<(Seq<Seq<Piece>>, int)>,
) -> Option<(Seq<Seq<Piece>>, int)> {
    match outcome {
        Some((path, cost)) => if is_solution_route(start, path, cost) {
            outcome
        } else {
            None
        },
        None => None,
    }
}

/// What `pathfinding`'s A* search returns from the board with these pieces,
/// with `Board::next_states` for the successors, `Board::distance_to_solution`
/// for the heuristic and `Board::is_solution` for the goal.
pub uninterp spec fn astar_outcome(start: Seq<Piece>) -> Option<(Seq<Seq<Piece>>, int)>;

/// One legal move changes the Manhattan distance between the target piece's
/// anchor and the solution by at most one: the distance never overestimates the
/// number of moves that are left, and it is consistent.
pub proof fn lemma_distance_changes_by_one(pieces: Seq<Piece>, i: int, direction: Direction)
    requires
        coherent(pieces),
        0 <= i < NUM_PIECES,
        pieces[i].can_slide(direction),
    ensures
        manhattan(slide(pieces, i, direction)[0].coor, solution()) - manhattan(
            pieces[0].coor,
            solution(),
        ) <= 1,
        manhattan(pieces[0].coor, solution()) - manhattan(
            slide(pieces, i, direction)[0].coor,
            solution(),
        ) <= 1,
{
}

/// Where the target piece stands out, boards of the same layout that keep the
/// shapes have the target piece at the same place: its place is a matter of the
/// layout alone.
pub proof fn lemma_target_fixed_by_layout(start: Seq<Piece>, a: Seq<Piece>, b: Seq<Piece>)
    requires
        start.len() >= 1,
        target_stands_out(start),
        keeps_shapes(start, a),
        keeps_shapes(start, b),
        same_layout(a, b),
    ensures
        a[0] == b[0],
{
    lemma_same_layout_same_pieces(a, b);
    to_multiset_contains(a, a[0]);
    to_multiset_contains(b, a[0]);
    assert(a.contains(a[0]));
    let k = choose|k: int| 0 <= k < b.len() && b[k] == a[0];
    if k != 0 {
        assert(start[k].height != start[0].height || start[k].width != start[0].width);
    }
}

/// Boards of the same layout have the same moves: a layout that one legal move
/// makes of the one, one legal move makes of the other.
pub proof fn lemma_same_layout_same_steps(a: Seq<Piece>, b: Seq<Piece>, c: Seq<Piece>)
    requires
        coherent(a),
        coherent(b),
        same_layout(a, b),
        is_step(a, c),
    ensures
        is_step(b, c),
{
    lemma_same_layout_same_pieces(a, b);
    lemma_legal_pairs(a);
    let k = choose|k: int| 0 <= k < legal_pairs(a).len() && same_layout(#[trigger] after_move(a, k), c);
    let (i, direction) = legal_pairs(a)[k];
    let piece = a[i];
    // The piece that moves stands on the other board too, at some index `j`.
    to_multiset_contains(a, piece);
    to_multiset_contains(b, piece);
    assert(a.contains(piece));
    let j = choose|j: int| 0 <= j < b.len() && b[j] == piece;
    // Nothing is in its way there either.
    let spaces = piece.beside(direction);
    assert forall|l: int| 0 <= l < spaces.len() implies !blocked(b, j, #[trigger] spaces[l]) by {
        if blocked(b, j, spaces[l]) {
            let m = choose|m: int| 0 <= m < b.len() && m != j && (#[trigger] b[m]).covers(spaces[l]);
            to_multiset_contains(a, b[m]);
            to_multiset_contains(b, b[m]);
            assert(b.contains(b[m]));
            let n = choose|n: int| 0 <= n < a.len() && a[n] == b[m];
            if n == i {
                assert(disjoint(b[m], b[j]));
                assert(b[m].covers(piece.coor) && b[j].covers(piece.coor));
            }
            assert(blocked(a, i, spaces[l]));
        }
    }
    assert(can_move(b, j, direction));
    // So the move is among the legal moves of the other board,
    let all = candidates();
    let place = j * DIRECTIONS + direction.rank();
    assert(all[place] == (j, direction));
    all.lemma_filter_contains(is_legal(b), place);
    let k2 = choose|k2: int| 0 <= k2 < legal_pairs(b).len() && legal_pairs(b)[k2] == (j, direction);
    // and it leads to the same layout.
    to_multiset_update(a, i, piece.slid(direction));
    to_multiset_update(b, j, piece.slid(direction));
    lemma_same_layout_same_pieces(after_move(a, k), after_move(b, k2));
    lemma_same_layout_equivalence(after_move(b, k2), after_move(a, k), c);
    assert(same_layout(after_move(b, k2), c));
}

/// The A* search of `pathfinding` from `start`.
///
/// Calls `pathfinding::directed::astar::astar` with `Board::next_states` for
/// the successors, `Board::distance_to_solution` for the heuristic and
/// `Board::is_solution` for the goal. Nothing of this contract is proved. It
/// claims three things.
///
/// - The result is a function of `start`: the search draws on nothing but its
///   arguments, and it keeps its nodes in an insertion-ordered map and a binary
///   heap.
/// - Where the target piece stands out by its shape and the search returns
///   `None`, no path leads to a solved board.
/// - Where the target piece stands out by its shape and the search returns a
///   cost, no path to a solved board has fewer moves.
///
/// The last two are what the search's documentation promises of a heuristic
/// that never overestimates (see `lemma_distance_changes_by_one`) and of
/// successors and a goal test that agree on equal nodes. Equal boards are
/// boards of the same layout. Their legal moves lead to the same layouts (see
/// `lemma_same_layout_same_steps`); they agree on the goal where the layout
/// settles the place of the target piece (see `lemma_target_fixed_by_layout`),
/// which is why both claims are made of such boards only.
///
/// The search hands to the three functions `start` and boards that came out of
/// `next_states`, all of them well-formed. Its costs count the moves on paths
/// through distinct layouts; the grid has 102,289,893 layouts of ten pieces, so
/// the costs stay far below `i32::MAX`, and the search ends.
#[verifier::external_body]
fn astar_from(start: &Board) -> (found: Option<(Vec<Board>, i32)>)
    requires
        start.well_formed(),
    ensures
        outcome_view(found) == astar_outcome(start@),
        target_stands_out(start@) && found is None ==> unsolvable(start@),
        target_stands_out(start@) ==> (found matches Some((_, cost)) ==> no_shorter_route(
            start@,
            cost as int,
        )),
{
    pathfinding::directed::astar::astar(
        start,
        |board: &Board| board.next_states(),
        |board: &Board| board.distance_to_solution(),
        |board: &Board| board.is_solution(),
    )
}

/// Whether two boards hold the same piece at each index.
fn same_pieces(a: &Board, b: &Board) -> (same: bool)
    ensures
        same == (a@ == b@),
{
    for k in 0..NUM_PIECES
        invariant
            forall|l: int| 0 <= l < k ==> a@[l] == b@[l],
    {
        if a.pieces[k] != b.pieces[k] {
            return false;
        }
    }
    assert(a@ =~= b@);
    true
}

/// Whether `board` holds at each index a piece of the shape that `start` holds
/// there.
fn same_shapes(start: &Board, board: &Board) -> (same: bool)
    ensures
        same == keeps_shapes(start@, board@),
{
    for k in 0..NUM_PIECES
        invariant
            forall|l: int|
                0 <= l < k ==> (#[trigger] board@[l]).height == start@[l].height
                    && board@[l].width == start@[l].width,
    {
        if board.pieces[k].height != start.pieces[k].height || board.pieces[k].width
            != start.pieces[k].width {
            assert(board@[k as int].height != start@[k as int].height || board@[k as int].width
                != start@[k as int].width);
            return false;
        }
    }
    true
}

/// Whether one legal move leads from `from` to the layout of `to`.
fn follows(from: &Board, to: &Board) -> (reached: bool)
    requires
        from.well_formed(),
    ensures
        reached == is_step(from@, to@),
{
    let next = from.next_states();
    for k in 0..next.len()
        invariant
            next@.len() == legal_pairs(from@).len(),
            forall|l: int|
                0 <= l < next@.len() ==> (#[trigger] next@[l]).0@ == after_move(from@, l),
            forall|l: int| 0 <= l < k ==> !same_layout(#[trigger] after_move(from@, l), to@),
    {
        if next[k].0 == *to {
            assert(same_layout(after_move(from@, k as int), to@));
            return true;
        }
    }
    false
}

impl Board {
    /// Manhattan distance between the anchor of the target piece and the
    /// solution: what the search takes for the number of moves that are left.
    pub fn distance_to_solution(&self) -> (distance: i32)
        requires
            manhattan(self@[0].coor, solution()) <= i32::MAX,
        ensures
            distance == manhattan(self@[0].coor, solution()),
    {
        let Coor { row: target_row, col: target_col } = self.target_piece().coor;
        let Coor { row: sol_row, col: sol_col } = solution();
        let rows = if target_row >= sol_row {
            target_row - sol_row
        } else {
            sol_row - target_row
        };
        let cols = if target_col >= sol_col {
            target_col - sol_col
        } else {
            sol_col - target_col
        };
        (rows + cols) as i32
    }
}

/// Whether `path` leads from `start` to a solved board in `cost` moves, as
/// `is_solution_route` says.
pub fn is_solution_path(start: &Board, path: &Vec<Board>, cost: i32) -> (ok: bool)
    ensures
        ok == is_solution_route(start@, route_view(path@), cost as int),
{
    let ghost route = route_view(path@);
    if path.len() == 0 || cost < 0 || cost as usize != path.len() - 1 {
        return false;
    }
    if !same_pieces(&path[0], start) {
        assert(route[0] != start@);
        return false;
    }
    for i in 0..path.len()
        invariant
            route == route_view(path@),
            forall|l: int|
                0 <= l < i ==> coherent(#[trigger] route[l]) && keeps_shapes(start@, route[l]),
    {
        if !path[i].is_well_formed() || !same_shapes(start, &path[i]) {
            assert(!(coherent(route[i as int]) && keeps_shapes(start@, route[i as int])));
            return false;
        }
    }
    for i in 0..path.len() - 1
        invariant
            route == route_view(path@),
            path@.len() >= 1,
            forall|l: int| 0 <= l < path@.len() ==> coherent(#[trigger] route[l]),
            forall|l: int| 0 <= l < i ==> is_step(#[trigger] route[l], route[l + 1]),
    {
        assert(coherent(route[i as int]));
        if !follows(&path[i], &path[i + 1]) {
            assert(!is_step(route[i as int], route[i + 1]));
            return false;
        }
    }
    path[path.len() - 1].is_solution()
}

/// Holds what a search returned to `is_solution_route`: hands it on where it is
/// a path from `start` to a solved board together with the number of its moves,
/// and withholds it otherwise.
pub fn confirm_route(start: &Board, found: Option<(Vec<Board>, i32)>) -> (solution: Option<
    (Vec<Board>, i32),
>)
    ensures
        outcome_view(solution) == confirmed(start@, outcome_view(found)),
        solution is Some ==> solution == found,
{
    match found {
        Some((path, cost)) => {
            if is_solution_path(start, &path, cost) {
                Some((path, cost))
            } else {
                None
            }
        },
        None => None,
    }
}

/// Solves a given Klotski board state using an A* algorithm
///
/// Returns the boards from `state` to a solved board, one move apart, and the
/// number of moves; or `None` where the search finds no such path. What the
/// search reports is held to `is_solution_route` before it is handed on. Where
/// the target piece stands out by its shape, no path to a solved board is
/// shorter than the one returned, and there is none at all where the search
/// finds none.
pub fn solve_klotski(state: Board) -> (solution: Option<(Vec<Board>, i32)>)
    requires
        state.well_formed(),
    ensures
        outcome_view(solution) == confirmed(state@, astar_outcome(state@)),
        solution matches Some((path, cost)) ==> is_solution_route(
            state@,
            route_view(path@),
            cost as int,
        ),
        target_stands_out(state@) ==> (solution matches Some((_, cost)) ==> no_shorter_route(
            state@,
            cost as int,
        )),
        target_stands_out(state@) && astar_outcome(state@) is None ==> unsolvable(state@),
{
    let found = astar_from(&state);
    confirm_route(&state, found)
}

} // verus!
