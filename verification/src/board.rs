//! The board: ten pieces on the grid, its legal moves and the boards that
//! they lead to.

use crate::coordinates::Coor;
use crate::coordinates::COLS;
use crate::coordinates::ROWS;
use crate::direction::Direction;
use crate::direction::DIRECTIONS;
use crate::moves::blocked;
use crate::moves::can_move;
use crate::moves::legal_moves;
use crate::moves::legal_pairs;
use crate::moves::legal_upto;
use crate::moves::lemma_legal_ends;
use crate::moves::lemma_legal_next;
use crate::moves::lemma_legal_pairs;
use crate::moves::lemma_move_stays_on_grid;
use crate::moves::lemma_slide_coherent;
use crate::moves::slide;
use crate::moves::with_piece;
use crate::piece::Piece;
use vstd::prelude::*;

verus! {

/// Row of the coordinate where the anchor of the target piece must be in the
/// final state
pub const SOLUTION_ROW: usize = 3;

/// Column of the coordinate where the anchor of the target piece must be in
/// the final state
pub const SOLUTION_COL: usize = 1;

/// Coordinate where the anchor of the target piece must be in the final state
pub open spec fn spec_solution() -> Coor {
    Coor { row: SOLUTION_ROW, col: SOLUTION_COL }
}

/// Coordinate where the anchor of the target piece must be in the final state
#[verifier::when_used_as_spec(spec_solution)]
pub fn solution() -> (coor: Coor)
    ensures
        coor == spec_solution(),
{
    Coor::new(SOLUTION_ROW, SOLUTION_COL)
}

/// Number of total pieces in the board
pub const NUM_PIECES: usize = 10;

/// No cell of the grid belongs to both pieces.
pub open spec fn disjoint(a: Piece, b: Piece) -> bool {
    forall|cell: Coor|
        #![trigger a.covers(cell)]
        #![trigger b.covers(cell)]
        !(a.covers(cell) && b.covers(cell))
}

/// The rectangles of the two pieces lie apart: one ends before the other
/// begins, by rows or by columns.
pub open spec fn separated(a: Piece, b: Piece) -> bool {
    ||| a.coor.row + a.height <= b.coor.row
    ||| b.coor.row + b.height <= a.coor.row
    ||| a.coor.col + a.width <= b.coor.col
    ||| b.coor.col + b.width <= a.coor.col
}

/// Two pieces with at least one cell each share no cell exactly when their
/// rectangles lie apart.
pub proof fn lemma_disjoint_separated(a: Piece, b: Piece)
    requires
        a.in_grid(),
        b.in_grid(),
    ensures
        disjoint(a, b) <==> separated(a, b),
{
    if !separated(a, b) {
        let row = if a.coor.row >= b.coor.row {
            a.coor.row
        } else {
            b.coor.row
        };
        let col = if a.coor.col >= b.coor.col {
            a.coor.col
        } else {
            b.coor.col
        };
        let cell = Coor { row, col };
        assert(a.covers(cell) && b.covers(cell));
    }
}

/// The invariant of a board's pieces: there are `NUM_PIECES` of them, each
/// lies on the grid, and no two of them share a cell.
pub open spec fn coherent(pieces: Seq<Piece>) -> bool {
    &&& pieces.len() == NUM_PIECES
    &&& forall|i: int| 0 <= i < pieces.len() ==> (#[trigger] pieces[i]).in_grid()
    &&& forall|i: int, j: int|
        0 <= i < pieces.len() && 0 <= j < pieces.len() && i != j ==> disjoint(
            #[trigger] pieces[i],
            #[trigger] pieces[j],
        )
}

/// The pieces of the puzzle's starting layout. The first one is the target
/// piece.
pub open spec fn starting_layout() -> Seq<Piece> {
    seq![
        Piece { height: 2, width: 2, coor: Coor { row: 0, col: 1 } },
        Piece { height: 2, width: 1, coor: Coor { row: 0, col: 0 } },
        Piece { height: 2, width: 1, coor: Coor { row: 0, col: 3 } },
        Piece { height: 1, width: 2, coor: Coor { row: 2, col: 1 } },
        Piece { height: 2, width: 1, coor: Coor { row: 3, col: 0 } },
        Piece { height: 2, width: 1, coor: Coor { row: 3, col: 3 } },
        Piece { height: 1, width: 1, coor: Coor { row: 3, col: 1 } },
        Piece { height: 1, width: 1, coor: Coor { row: 3, col: 2 } },
        Piece { height: 1, width: 1, coor: Coor { row: 4, col: 1 } },
        Piece { height: 1, width: 1, coor: Coor { row: 4, col: 2 } },
    ]
}

/// What a cell of the rendered grid shows: `mark` is 0 where no piece covers
/// `cell`, and otherwise the index, counted from 1, of a piece that does.
pub open spec fn shows(pieces: Seq<Piece>, cell: Coor, mark: int) -> bool {
    if mark == 0 {
        forall|n: int| 0 <= n < pieces.len() ==> !(#[trigger] pieces[n]).covers(cell)
    } else {
        1 <= mark <= pieces.len() && pieces[mark - 1].covers(cell)
    }
}

/// What a cell of the grid shows while the pieces are drawn one after the
/// other: the pieces before index `n` are drawn, and of the piece at index `n`
/// the rows before row `i` and, of row `i`, the cells before column `j`.
spec fn shows_so_far(
    pieces: Seq<Piece>,
    n: int,
    i: int,
    j: int,
    cell: Coor,
    mark: int,
) -> bool {
    let begun = n < pieces.len() && pieces[n].covers(cell) && (cell.row - pieces[n].coor.row < i
        || (cell.row - pieces[n].coor.row == i && cell.col - pieces[n].coor.col < j));
    if mark == 0 {
        !begun && forall|m: int| 0 <= m < n ==> !(#[trigger] pieces[m]).covers(cell)
    } else {
        (1 <= mark <= n && pieces[mark - 1].covers(cell)) || (mark == n + 1 && begun)
    }
}

/// Whether the rectangles of two pieces on the grid share no cell.
fn lie_apart(a: &Piece, b: &Piece) -> (apart: bool)
    requires
        a.in_grid(),
        b.in_grid(),
    ensures
        apart == disjoint(*a, *b),
{
    proof {
        lemma_disjoint_separated(*a, *b);
    }
    a.coor.row + a.height <= b.coor.row || b.coor.row + b.height <= a.coor.row || a.coor.col
        + a.width <= b.coor.col || b.coor.col + b.width <= a.coor.col
}

/// Whether `cell` is among `cells`.
fn holds(cells: &Vec<Coor>, cell: Coor) -> (found: bool)
    ensures
        found == cells@.contains(cell),
{
    for k in 0..cells.len()
        invariant
            forall|l: int| 0 <= l < k ==> cells@[l] != cell,
    {
        if cells[k] == cell {
            return true;
        }
    }
    false
}

/// Represents a Klotski board's state and its pieces
#[derive(Debug, Clone)]
pub struct Board {
    pub pieces: [Piece; NUM_PIECES],
}

impl View for Board {
    type V = Seq<Piece>;

    /// A board is modelled by the sequence of its pieces.
    open spec fn view(&self) -> Seq<Piece> {
        self.pieces@
    }
}

impl Board {
    /// Whether the pieces lie on the grid and do not overlap.
    pub open spec fn well_formed(&self) -> bool {
        coherent(self@)
    }

    /// Whether the anchor of the target piece is where the puzzle wants it.
    pub open spec fn is_solved(&self) -> bool {
        self@[0].coor == solution()
    }

    /// The puzzle's starting layout.
    pub fn new() -> (board: Board)
        ensures
            board@ == starting_layout(),
            board.well_formed(),
    {
        let board = Board {
            pieces: [
                Piece::new(Coor::new(0, 1), 2, 2),
                Piece::new(Coor::new(0, 0), 2, 1),
                Piece::new(Coor::new(0, 3), 2, 1),
                Piece::new(Coor::new(2, 1), 1, 2),
                Piece::new(Coor::new(3, 0), 2, 1),
                Piece::new(Coor::new(3, 3), 2, 1),
                Piece::new(Coor::new(3, 1), 1, 1),
                Piece::new(Coor::new(3, 2), 1, 1),
                Piece::new(Coor::new(4, 1), 1, 1),
                Piece::new(Coor::new(4, 2), 1, 1),
            ],
        };
        proof {
            assert(board@ =~= starting_layout());
            lemma_starting_layout_coherent();
        }
        board
    }

    /// Whether every piece has at least one cell and machine integers suffice
    /// for the coordinates of its cells and for their number.
    pub open spec fn measurable(&self) -> bool {
        forall|i: int|
            0 <= i < NUM_PIECES ==> {
                let piece = #[trigger] self@[i];
                piece.height >= 1 && piece.width >= 1 && piece.addressable()
            }
    }

    /// The pieces of a well-formed board can be measured.
    pub proof fn lemma_well_formed_measurable(&self)
        requires
            self.well_formed(),
        ensures
            self.measurable(),
    {
        assert forall|i: int| 0 <= i < NUM_PIECES implies {
            let piece = #[trigger] self@[i];
            piece.height >= 1 && piece.width >= 1 && piece.addressable()
        } by {
            let piece = self@[i];
            assert(piece.in_grid());
            assert(piece.height * piece.width <= ROWS * COLS) by (nonlinear_arith)
                requires
                    piece.height <= ROWS,
                    piece.width <= COLS,
            ;
        }
    }

    /// The cells that each piece occupies, piece by piece.
    fn occupied_by_piece(&self) -> (cache: Vec<Vec<Coor>>)
        requires
            self.measurable(),
        ensures
            cache@.len() == NUM_PIECES,
            forall|m: int, cell: Coor|
                0 <= m < NUM_PIECES ==> (#[trigger] cache@[m]@.contains(cell) <==> self@[m].covers(
                    cell,
                )),
    {
        let mut cache: Vec<Vec<Coor>> = Vec::with_capacity(NUM_PIECES);
        for n in 0..NUM_PIECES
            invariant
                self.measurable(),
                cache@.len() == n,
                forall|m: int, cell: Coor|
                    0 <= m < n ==> (#[trigger] cache@[m]@.contains(cell) <==> self@[m].covers(cell)),
        {
            assert(self@[n as int].addressable());
            cache.push(self.pieces[n].occupied_spaces());
        }
        cache
    }

    /// Whether a piece other than the one at index `n` occupies any of
    /// `spaces`, by the cells that `cache` holds for each piece.
    fn obstructed(&self, cache: &Vec<Vec<Coor>>, n: usize, spaces: &Vec<Coor>) -> (taken: bool)
        requires
            cache@.len() == NUM_PIECES,
            forall|m: int, cell: Coor|
                0 <= m < NUM_PIECES ==> (#[trigger] cache@[m]@.contains(cell) <==> self@[m].covers(
                    cell,
                )),
        ensures
            taken == exists|k: int|
                0 <= k < spaces@.len() && blocked(self@, n as int, #[trigger] spaces@[k]),
    {
        for m in 0..NUM_PIECES
            invariant
                cache@.len() == NUM_PIECES,
                forall|m: int, cell: Coor|
                    0 <= m < NUM_PIECES ==> (#[trigger] cache@[m]@.contains(cell)
                        <==> self@[m].covers(cell)),
                forall|l: int, k: int|
                    0 <= l < m && l != n && 0 <= k < spaces@.len() ==> !(#[trigger] self@[l]).covers(
                        #[trigger] spaces@[k],
                    ),
        {
            if m != n {
                for k in 0..spaces.len()
                    invariant
                        m < NUM_PIECES,
                        m != n,
                        cache@.len() == NUM_PIECES,
                        forall|m: int, cell: Coor|
                            0 <= m < NUM_PIECES ==> (#[trigger] cache@[m]@.contains(cell)
                                <==> self@[m].covers(cell)),
                        forall|j: int| 0 <= j < k ==> !self@[m as int].covers(#[trigger] spaces@[j]),
                {
                    if holds(&cache[m], spaces[k]) {
                        assert(self@[m as int].covers(spaces@[k as int]));
                        assert(blocked(self@, n as int, spaces@[k as int]));
                        return true;
                    }
                }
            }
        }
        false
    }

    /// Return a `Vec` containing all the possible moves in the current state. These moves
    /// are represented by a pair `(Piece, Direction)`.
    ///
    /// A piece may move in a direction when there are cells of the grid beside
    /// it on that side and no other piece occupies any of them. The moves come
    /// piece by piece, and for each piece in the order Up, Right, Left, Down.
    pub fn available_moves(&self) -> (moves: Vec<(Piece, Direction)>)
        requires
            self.measurable(),
        ensures
            moves@ == legal_moves(self@),
    {
        let mut moves: Vec<(Piece, Direction)> = Vec::new();
        let occupied_spaces_cache = self.occupied_by_piece();
        proof {
            lemma_legal_ends(self@);
        }
        for n in 0..NUM_PIECES
            invariant
                self.measurable(),
                occupied_spaces_cache@.len() == NUM_PIECES,
                forall|m: int, cell: Coor|
                    0 <= m < NUM_PIECES ==> (#[trigger] occupied_spaces_cache@[m]@.contains(cell)
                        <==> self@[m].covers(cell)),
                moves@ == legal_upto(self@, n * DIRECTIONS).map_values(with_piece(self@)),
        {
            let source_piece = self.pieces[n];
            assert(source_piece == self@[n as int]);
            let adj_spaces = source_piece.adjacent_spaces();
            for rank in 0..DIRECTIONS
                invariant
                    n < NUM_PIECES,
                    source_piece == self@[n as int],
                    forall|direction: Direction| #[trigger]
                        adj_spaces.toward(direction) == source_piece.beside(direction),
                    occupied_spaces_cache@.len() == NUM_PIECES,
                    forall|m: int, cell: Coor|
                        0 <= m < NUM_PIECES ==> (#[trigger] occupied_spaces_cache@[m]@.contains(
                            cell,
                        ) <==> self@[m].covers(cell)),
                    moves@ == legal_upto(self@, n * DIRECTIONS + rank).map_values(
                        with_piece(self@),
                    ),
            {
                let direction = Direction::from_rank(rank);
                let spaces = adj_spaces.spaces(direction);
                assert(spaces@ == adj_spaces.toward(direction));
                let free = spaces.len() > 0 && !self.obstructed(
                    &occupied_spaces_cache,
                    n,
                    spaces,
                );
                proof {
                    lemma_legal_next(self@, n as int, direction);
                    assert(free == can_move(self@, n as int, direction));
                    let before = legal_upto(self@, n * DIRECTIONS + rank);
                    if free {
                        assert(before.push((n as int, direction)).map_values(with_piece(self@))
                            =~= before.map_values(with_piece(self@)).push(
                            (source_piece, direction),
                        ));
                    }
                }
                if free {
                    moves.push((source_piece, direction));
                }
            }
        }
        moves
    }

    /// Index of the first piece whose anchor is `coor`.
    fn anchored_at(&self, coor: Coor) -> (found: Option<usize>)
        ensures
            match found {
                Some(i) => i < NUM_PIECES && self@[i as int].coor == coor && forall|j: int|
                    0 <= j < i ==> (#[trigger] self@[j]).coor != coor,
                None => forall|j: int| 0 <= j < NUM_PIECES ==> (#[trigger] self@[j]).coor != coor,
            },
    {
        for i in 0..NUM_PIECES
            invariant
                forall|j: int| 0 <= j < i ==> (#[trigger] self@[j]).coor != coor,
        {
            if self.pieces[i].coor == coor {
                return Some(i);
            }
        }
        None
    }

    /// Return a `Vec` with all the possible board states, as long as the cost
    /// to get to each one (will always be `1`).
    ///
    /// There is one state for each legal move, in the order of
    /// `available_moves`: the board on which that piece has moved one cell.
    /// Each of them lies on the grid without overlap, as `self` does.
    pub fn next_states(&self) -> (states: Vec<(Self, i32)>)
        requires
            self.well_formed(),
        ensures
            states@.len() == legal_pairs(self@).len(),
            forall|k: int|
                0 <= k < states@.len() ==> {
                    let (state, cost) = #[trigger] states@[k];
                    let (i, direction) = legal_pairs(self@)[k];
                    state@ == slide(self@, i, direction) && cost == 1 && state.well_formed()
                },
    {
        let mut states: Vec<(Board, i32)> = Vec::new();
        proof {
            self.lemma_well_formed_measurable();
            lemma_legal_pairs(self@);
        }
        let moves = self.available_moves();
        for k in 0..moves.len()
            invariant
                self.well_formed(),
                moves@ == legal_moves(self@),
                forall|l: int|
                    0 <= l < legal_pairs(self@).len() ==> {
                        let (i, direction) = #[trigger] legal_pairs(self@)[l];
                        0 <= i < NUM_PIECES && can_move(self@, i, direction)
                    },
                states@.len() == k,
                forall|l: int|
                    0 <= l < k ==> {
                        let (state, cost) = #[trigger] states@[l];
                        let (i, direction) = legal_pairs(self@)[l];
                        state@ == slide(self@, i, direction) && cost == 1 && state.well_formed()
                    },
        {
            let (piece, dir) = moves[k];
            let ghost (i, direction) = legal_pairs(self@)[k as int];
            proof {
                assert(moves@[k as int] == with_piece(self@)(legal_pairs(self@)[k as int]));
                assert(piece == self@[i] && dir == direction);
                lemma_move_stays_on_grid(self@, i, direction);
                lemma_slide_coherent(self@, i, direction);
            }
            let found = self.anchored_at(piece.coor);
            // The piece is on the board, and no other piece shares its anchor.
            assert(found == Some(i as usize)) by {
                assert(self@[i].covers(piece.coor));
                if let Some(j) = found {
                    if j != i {
                        assert(self@[j as int].in_grid());
                        assert(self@[j as int].covers(piece.coor));
                        assert(disjoint(self@[j as int], self@[i]));
                    }
                }
            }
            if let Some(j) = found {
                let mut pieces = self.pieces;
                let mut moved = pieces[j];
                let outcome = moved.make_move(dir);
                // A legal move never takes a piece off the grid.
                assert(outcome is Ok);
                pieces[j] = moved;
                let new_state = Board { pieces };
                assert(new_state@ =~= slide(self@, i, direction));
                states.push((new_state, 1));
            }
        }
        states
    }

    /// Whether the pieces lie on the grid and do not overlap: the test of
    /// `well_formed`.
    pub fn is_well_formed(&self) -> (ok: bool)
        ensures
            ok == self.well_formed(),
    {
        for i in 0..NUM_PIECES
            invariant
                forall|j: int| 0 <= j < i ==> (#[trigger] self@[j]).in_grid(),
        {
            let piece = &self.pieces[i];
            if !(piece.height >= 1 && piece.width >= 1 && piece.coor.fits(
                piece.height,
                piece.width,
            )) {
                assert(!self@[i as int].in_grid());
                return false;
            }
        }
        for i in 0..NUM_PIECES
            invariant
                forall|j: int| 0 <= j < NUM_PIECES ==> (#[trigger] self@[j]).in_grid(),
                forall|a: int, b: int|
                    0 <= a < i && a < b < NUM_PIECES ==> disjoint(
                        #[trigger] self@[a],
                        #[trigger] self@[b],
                    ),
        {
            for j in (i + 1)..NUM_PIECES
                invariant
                    i < NUM_PIECES,
                    forall|m: int| 0 <= m < NUM_PIECES ==> (#[trigger] self@[m]).in_grid(),
                    forall|a: int, b: int|
                        0 <= a < i && a < b < NUM_PIECES ==> disjoint(
                            #[trigger] self@[a],
                            #[trigger] self@[b],
                        ),
                    forall|b: int| i < b < j ==> disjoint(self@[i as int], #[trigger] self@[b]),
            {
                assert(self@[i as int].in_grid() && self@[j as int].in_grid());
                if !lie_apart(&self.pieces[i], &self.pieces[j]) {
                    assert(!disjoint(self@[i as int], self@[j as int]));
                    return false;
                }
            }
        }
        assert forall|a: int, b: int|
            0 <= a < NUM_PIECES && 0 <= b < NUM_PIECES && a != b implies disjoint(
            #[trigger] self@[a],
            #[trigger] self@[b],
        ) by {
            if a < b {
                assert(disjoint(self@[a], self@[b]));
            } else {
                assert(disjoint(self@[b], self@[a]));
            }
        }
        true
    }

    /// Transform `self` to a matrix, usually meant for drawing purposes: each
    /// cell of the grid holds 0 where it is empty, and otherwise the index,
    /// counted from 1, of the piece that occupies it.
    pub fn to_board(&self) -> (grid: [[usize; COLS]; ROWS])
        requires
            self.well_formed(),
        ensures
            forall|row: int, col: int|
                0 <= row < ROWS && 0 <= col < COLS ==> shows(
                    self@,
                    Coor { row: row as usize, col: col as usize },
                    #[trigger] grid[row][col] as int,
                ),
    {
        let mut board = [[0usize; COLS]; ROWS];
        for n in 0..NUM_PIECES
            invariant
                self.well_formed(),
                forall|row: int, col: int|
                    0 <= row < ROWS && 0 <= col < COLS ==> shows_so_far(
                        self@,
                        n as int,
                        0,
                        0,
                        Coor { row: row as usize, col: col as usize },
                        #[trigger] board[row][col] as int,
                    ),
        {
            let piece = self.pieces[n];
            assert(piece == self@[n as int] && piece.in_grid());
            for i in 0..piece.height
                invariant
                    self.well_formed(),
                    n < NUM_PIECES,
                    piece == self@[n as int],
                    piece.in_grid(),
                    forall|row: int, col: int|
                        0 <= row < ROWS && 0 <= col < COLS ==> shows_so_far(
                            self@,
                            n as int,
                            i as int,
                            0,
                            Coor { row: row as usize, col: col as usize },
                            #[trigger] board[row][col] as int,
                        ),
            {
                for j in 0..piece.width
                    invariant
                        self.well_formed(),
                        n < NUM_PIECES,
                        piece == self@[n as int],
                        piece.in_grid(),
                        i < piece.height,
                        forall|row: int, col: int|
                            0 <= row < ROWS && 0 <= col < COLS ==> shows_so_far(
                                self@,
                                n as int,
                                i as int,
                                j as int,
                                Coor { row: row as usize, col: col as usize },
                                #[trigger] board[row][col] as int,
                            ),
                {
                    let ghost before = board;
                    // No piece drawn so far has taken the cell.
                    assert(before[piece.coor.row + i][piece.coor.col + j] == 0) by {
                        let cell = Coor {
                            row: (piece.coor.row + i) as usize,
                            col: (piece.coor.col + j) as usize,
                        };
                        let mark = before[piece.coor.row + i][piece.coor.col + j];
                        assert(shows_so_far(self@, n as int, i as int, j as int, cell, mark as int));
                        assert(piece.covers(cell));
                        if 1 <= mark <= n {
                            assert(disjoint(self@[mark - 1], self@[n as int]));
                        }
                    }
                    let mut cells = board[piece.coor.row + i];
                    cells[piece.coor.col + j] = n + 1;
                    board[piece.coor.row + i] = cells;
                    assert forall|row: int, col: int|
                        0 <= row < ROWS && 0 <= col < COLS implies shows_so_far(
                        self@,
                        n as int,
                        i as int,
                        j + 1,
                        Coor { row: row as usize, col: col as usize },
                        #[trigger] board[row][col] as int,
                    ) by {
                        let cell = Coor { row: row as usize, col: col as usize };
                        if row == piece.coor.row + i && col == piece.coor.col + j {
                            assert(piece.covers(cell));
                        } else {
                            assert(board[row][col] == before[row][col]);
                            assert(shows_so_far(
                                self@,
                                n as int,
                                i as int,
                                j as int,
                                cell,
                                before[row][col] as int,
                            ));
                        }
                    }
                }
            }
        }
        assert forall|row: int, col: int| 0 <= row < ROWS && 0 <= col < COLS implies shows(
            self@,
            Coor { row: row as usize, col: col as usize },
            #[trigger] board[row][col] as int,
        ) by {
            let cell = Coor { row: row as usize, col: col as usize };
            assert(shows_so_far(self@, NUM_PIECES as int, 0, 0, cell, board[row][col] as int));
        }
        board
    }

    /// Reference to the target piece (i.e. the one that needs to get to the target place)
    pub fn target_piece(&self) -> (target: &Piece)
        ensures
            *target == self@[0],
    {
        &self.pieces[0]
    }

    /// Return whether the actual state is that of the solution
    pub fn is_solution(&self) -> (solved: bool)
        ensures
            solved == self.is_solved(),
    {
        self.target_piece().coor == solution()
    }
}

/// On a well-formed board no cell is occupied by two pieces.
pub proof fn lemma_occupied_spaces_disjoint(pieces: Seq<Piece>, i: int, j: int)
    requires
        coherent(pieces),
        0 <= i < NUM_PIECES,
        0 <= j < NUM_PIECES,
        i != j,
    ensures
        forall|cell: Coor| !(pieces[i].cells().contains(cell) && pieces[j].cells().contains(cell)),
        pieces[i].cells().to_set().disjoint(pieces[j].cells().to_set()),
{
    assert(disjoint(pieces[i], pieces[j]));
    assert(pieces[i].in_grid() && pieces[j].in_grid());
    assert(pieces[i].height * pieces[i].width <= ROWS * COLS) by (nonlinear_arith)
        requires
            pieces[i].height <= ROWS,
            pieces[i].width <= COLS,
    ;
    assert(pieces[j].height * pieces[j].width <= ROWS * COLS) by (nonlinear_arith)
        requires
            pieces[j].height <= ROWS,
            pieces[j].width <= COLS,
    ;
    pieces[i].lemma_cells();
    pieces[j].lemma_cells();
    assert forall|cell: Coor|
        !(pieces[i].cells().contains(cell) && pieces[j].cells().contains(cell)) by {
        if pieces[i].cells().contains(cell) {
            assert(pieces[i].covers(cell));
        }
    }
}

/// The starting layout keeps the invariant of a board.
pub proof fn lemma_starting_layout_coherent()
    ensures
        coherent(starting_layout()),
{
    let pieces = starting_layout();
    assert forall|i: int, j: int|
        0 <= i < pieces.len() && 0 <= j < pieces.len() && i != j implies disjoint(
        #[trigger] pieces[i],
        #[trigger] pieces[j],
    ) by {
        assert(separated(pieces[i], pieces[j]));
    }
}

} // verus!
