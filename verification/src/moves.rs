//! What a legal move is, and what it does to the pieces of a board.

use crate::board::coherent;
use crate::board::disjoint;
use crate::board::NUM_PIECES;
use crate::coordinates::Coor;
use crate::direction::Direction;
use crate::direction::DIRECTIONS;
use crate::piece::Piece;
use vstd::prelude::*;

verus! {

/// Whether a piece other than the one at index `i` covers `cell`.
pub open spec fn blocked(pieces: Seq<Piece>, i: int, cell: Coor) -> bool {
    exists|m: int| 0 <= m < pieces.len() && m != i && (#[trigger] pieces[m]).covers(cell)
}

/// Whether the piece at index `i` may slide one cell in `direction`: there are
/// cells of the grid beside it on that side, and no other piece covers any of
/// them.
pub open spec fn can_move(pieces: Seq<Piece>, i: int, direction: Direction) -> bool {
    let spaces = pieces[i].beside(direction);
    &&& spaces.len() > 0
    &&& forall|k: int| 0 <= k < spaces.len() ==> !blocked(pieces, i, #[trigger] spaces[k])
}

/// Every pair of a piece's index and a direction, piece by piece, and for each
/// piece in the order Up, Right, Left, Down.
pub open spec fn candidates() -> Seq<(int, Direction)> {
    Seq::new(
        (NUM_PIECES * DIRECTIONS) as nat,
        |k: int| (k / (DIRECTIONS as int), Direction::ranked(k % (DIRECTIONS as int))),
    )
}

/// The test that a pair of a piece's index and a direction is a legal move.
pub open spec fn is_legal(pieces: Seq<Piece>) -> spec_fn((int, Direction)) -> bool {
    |m: (int, Direction)| can_move(pieces, m.0, m.1)
}

/// The map that puts the piece in the place of its index.
pub open spec fn with_piece(pieces: Seq<Piece>) -> spec_fn((int, Direction)) -> (
    Piece,
    Direction,
) {
    |m: (int, Direction)| (pieces[m.0], m.1)
}

/// The legal moves among the first `n` candidates.
pub open spec fn legal_upto(pieces: Seq<Piece>, n: int) -> Seq<(int, Direction)> {
    candidates().take(n).filter(is_legal(pieces))
}

/// The legal moves of a board, as pairs of a piece's index and a direction, in
/// the order of the candidates.
pub open spec fn legal_pairs(pieces: Seq<Piece>) -> Seq<(int, Direction)> {
    candidates().filter(is_legal(pieces))
}

/// The legal moves of a board, each with the piece that moves.
pub open spec fn legal_moves(pieces: Seq<Piece>) -> Seq<(Piece, Direction)> {
    legal_pairs(pieces).map_values(with_piece(pieces))
}

/// The pieces after the one at index `i` has slid one cell in `direction`.
pub open spec fn slide(pieces: Seq<Piece>, i: int, direction: Direction) -> Seq<Piece> {
    pieces.update(i, pieces[i].slid(direction))
}

/// `legal_upto` starts empty and ends as `legal_pairs`.
pub proof fn lemma_legal_ends(pieces: Seq<Piece>)
    ensures
        legal_upto(pieces, 0) == Seq::<(int, Direction)>::empty(),
        legal_upto(pieces, (NUM_PIECES * DIRECTIONS) as int) == legal_pairs(pieces),
{
    reveal(Seq::filter);
    assert(candidates().take(0).len() == 0);
    assert(legal_upto(pieces, 0) =~= Seq::<(int, Direction)>::empty());
    assert(candidates().take((NUM_PIECES * DIRECTIONS) as int) =~= candidates());
}

/// One more candidate adds itself to `legal_upto` if it is a legal move, and
/// nothing otherwise.
pub proof fn lemma_legal_next(pieces: Seq<Piece>, i: int, direction: Direction)
    requires
        0 <= i < NUM_PIECES,
    ensures
        legal_upto(pieces, i * DIRECTIONS + direction.rank() + 1) == if can_move(
            pieces,
            i,
            direction,
        ) {
            legal_upto(pieces, i * DIRECTIONS + direction.rank()).push((i, direction))
        } else {
            legal_upto(pieces, i * DIRECTIONS + direction.rank())
        },
{
    let n = i * DIRECTIONS + direction.rank();
    let all = candidates();
    assert(all[n] == (i, direction));
    assert(all.take(n + 1) =~= all.take(n).push(all[n]));
    all.take(n).lemma_filter_push(all[n], is_legal(pieces));
}

/// Every legal move names a piece of the board and may be made.
pub proof fn lemma_legal_pairs(pieces: Seq<Piece>)
    ensures
        forall|k: int|
            0 <= k < legal_pairs(pieces).len() ==> {
                let (i, direction) = #[trigger] legal_pairs(pieces)[k];
                0 <= i < NUM_PIECES && can_move(pieces, i, direction)
            },
{
    let all = candidates();
    let legal = legal_pairs(pieces);
    assert forall|k: int| 0 <= k < legal.len() implies {
        let (i, direction) = #[trigger] legal[k];
        0 <= i < NUM_PIECES && can_move(pieces, i, direction)
    } by {
        all.lemma_filter_pred(is_legal(pieces), k);
        assert(legal.contains(legal[k]));
        all.lemma_filter_contains_rev(is_legal(pieces), legal[k]);
        let n = choose|n: int| 0 <= n < all.len() && all[n] == legal[k];
        assert(legal[k].0 == n / (DIRECTIONS as int));
    }
}

/// A piece of one cell in the grid's top-left corner cannot move up or left.
/// It can move down exactly when no other piece covers the cell below it, and
/// right exactly when no other piece covers the cell to its right.
pub proof fn lemma_corner_piece_moves(pieces: Seq<Piece>, i: int)
    requires
        0 <= i < pieces.len(),
        pieces[i] == (Piece { height: 1, width: 1, coor: Coor { row: 0, col: 0 } }),
    ensures
        !can_move(pieces, i, Direction::Up),
        !can_move(pieces, i, Direction::Left),
        can_move(pieces, i, Direction::Down) <==> !blocked(pieces, i, Coor { row: 1, col: 0 }),
        can_move(pieces, i, Direction::Right) <==> !blocked(pieces, i, Coor { row: 0, col: 1 }),
{
    let piece = pieces[i];
    piece.lemma_beside_on_grid(Direction::Up);
    piece.lemma_beside_on_grid(Direction::Left);
    piece.lemma_beside_on_grid(Direction::Down);
    piece.lemma_beside_on_grid(Direction::Right);
    assert(piece.beside(Direction::Down) =~= seq![Coor { row: 1, col: 0 }]);
    assert(piece.beside(Direction::Right) =~= seq![Coor { row: 0, col: 1 }]);
    assert(piece.beside(Direction::Down)[0] == (Coor { row: 1, col: 0 }));
    assert(piece.beside(Direction::Right)[0] == (Coor { row: 0, col: 1 }));
}

/// A legal move of a piece on the grid keeps it on the grid.
pub proof fn lemma_move_stays_on_grid(pieces: Seq<Piece>, i: int, direction: Direction)
    requires
        0 <= i < pieces.len(),
        pieces[i].in_grid(),
        can_move(pieces, i, direction),
    ensures
        pieces[i].can_slide(direction),
        pieces[i].slid(direction).in_grid(),
{
    pieces[i].lemma_beside_on_grid(direction);
}

/// A legal move keeps the invariant of a board: after it every piece still
/// lies on the grid and no two pieces share a cell.
pub proof fn lemma_slide_coherent(pieces: Seq<Piece>, i: int, direction: Direction)
    requires
        coherent(pieces),
        0 <= i < NUM_PIECES,
        can_move(pieces, i, direction),
    ensures
        coherent(slide(pieces, i, direction)),
{
    let piece = pieces[i];
    let moved = piece.slid(direction);
    let after = slide(pieces, i, direction);
    lemma_move_stays_on_grid(pieces, i, direction);
    assert forall|j: int| 0 <= j < pieces.len() && j != i implies disjoint(moved, pieces[j])
        && disjoint(pieces[j], moved) by {
        assert forall|cell: Coor| !(moved.covers(cell) && pieces[j].covers(cell)) by {
            if moved.covers(cell) && pieces[j].covers(cell) {
                piece.lemma_slid_covers(direction, cell);
                assert(disjoint(pieces[i], pieces[j]));
                assert(!piece.covers(cell));
                let spaces = piece.beside(direction);
                let k = choose|k: int| 0 <= k < spaces.len() && spaces[k] == cell;
                assert(!blocked(pieces, i, spaces[k]));
            }
        }
    }
    assert forall|a: int, b: int|
        0 <= a < after.len() && 0 <= b < after.len() && a != b implies disjoint(
        #[trigger] after[a],
        #[trigger] after[b],
    ) by {
        if a != i && b != i {
            assert(disjoint(pieces[a], pieces[b]));
        }
    }
}

} // verus!
