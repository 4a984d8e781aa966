//! Pieces: rectangles on the grid, the cells they occupy, the cells beside
//! them, and their order.

use crate::coordinates::Coor;
use crate::direction::Direction;
use std::cmp::Ordering;
use vstd::arithmetic::div_mod::lemma_fundamental_div_mod;
use vstd::arithmetic::div_mod::lemma_fundamental_div_mod_converse;
use vstd::prelude::*;

verus! {

/// A movable piece of the puzzle: a rectangle of `height` rows and `width`
/// columns whose top-left cell, its anchor, is `coor`.
///
/// The fields stand in the order in which pieces are compared.
#[derive(Debug, PartialEq, Eq, Structural, Copy, Clone, Hash, Ord)]
pub struct Piece {
    /// Height of this `Piece`
    pub height: usize,
    /// Width of this `Piece`
    pub width: usize,
    /// Current coordinate where this `Piece` is
    pub coor: Coor,
}

/// The test that a cell has a neighbour on the grid in `direction`.
pub open spec fn steps_on_grid(direction: Direction) -> spec_fn(Coor) -> bool {
    |cell: Coor| cell.can_step(direction)
}

/// The map from a cell to its neighbour in `direction`.
pub open spec fn step_toward(direction: Direction) -> spec_fn(Coor) -> Coor {
    |cell: Coor| cell.stepped(direction)
}

/// A filter whose test gives the same answer on every element keeps all of the
/// sequence or none of it.
proof fn lemma_filter_uniform<A>(s: Seq<A>, pred: spec_fn(A) -> bool, keep: bool)
    requires
        forall|i: int| 0 <= i < s.len() ==> pred(#[trigger] s[i]) == keep,
    ensures
        s.filter(pred) == if keep {
            s
        } else {
            Seq::empty()
        },
    decreases s.len(),
{
    reveal(Seq::filter);
    if s.len() > 0 {
        lemma_filter_uniform(s.drop_last(), pred, keep);
        assert(s.drop_last().push(s.last()) =~= s);
    } else {
        assert(s =~= Seq::empty());
    }
}

/// For each direction, the cells of the grid that lie just outside a piece's
/// rectangle on that side.
#[derive(Debug, Clone, PartialEq, Eq)]
pub struct AdjacentSpaces {
    /// The cells above the top row, from the left.
    pub up: Vec<Coor>,
    /// The cells right of the last column, from the top.
    pub right: Vec<Coor>,
    /// The cells left of the first column, from the top.
    pub left: Vec<Coor>,
    /// The cells below the bottom row, from the left.
    pub down: Vec<Coor>,
}

impl AdjacentSpaces {
    /// The cells held for `direction`.
    pub open spec fn toward(&self, direction: Direction) -> Seq<Coor> {
        match direction {
            Direction::Up => self.up@,
            Direction::Right => self.right@,
            Direction::Left => self.left@,
            Direction::Down => self.down@,
        }
    }

    /// The cells held for `direction`.
    pub fn spaces(&self, direction: Direction) -> (spaces: &Vec<Coor>)
        ensures
            spaces@ == self.toward(direction),
    {
        match direction {
            Direction::Up => &self.up,
            Direction::Right => &self.right,
            Direction::Left => &self.left,
            Direction::Down => &self.down,
        }
    }
}

impl Piece {
    /// Whether `cell` is one of the cells of this piece's rectangle.
    pub open spec fn covers(self, cell: Coor) -> bool {
        &&& self.coor.row <= cell.row < self.coor.row + self.height
        &&& self.coor.col <= cell.col < self.coor.col + self.width
    }

    /// A piece as a board holds it: at least one cell, all of them on the grid.
    pub open spec fn in_grid(self) -> bool {
        &&& self.height >= 1
        &&& self.width >= 1
        &&& self.coor.has_room(self.height, self.width)
    }

    /// The coordinates of all cells of the rectangle are machine integers.
    pub open spec fn spans(self) -> bool {
        &&& self.coor.row + self.height <= usize::MAX + 1
        &&& self.coor.col + self.width <= usize::MAX + 1
    }

    /// The coordinates of all cells of the rectangle are machine integers, and
    /// so is their number.
    pub open spec fn addressable(self) -> bool {
        &&& self.spans()
        &&& self.height * self.width <= usize::MAX
    }

    /// The cells of the rectangle along its side in `direction`: a row from the
    /// left for `Up` and `Down`, a column from the top for `Left` and `Right`.
    pub open spec fn edge(self, direction: Direction) -> Seq<Coor> {
        match direction {
            Direction::Up => Seq::new(
                self.width as nat,
                |j: int| Coor { row: self.coor.row, col: (self.coor.col + j) as usize },
            ),
            Direction::Down => Seq::new(
                self.width as nat,
                |j: int|
                    Coor {
                        row: (self.coor.row + self.height - 1) as usize,
                        col: (self.coor.col + j) as usize,
                    },
            ),
            Direction::Left => Seq::new(
                self.height as nat,
                |i: int| Coor { row: (self.coor.row + i) as usize, col: self.coor.col },
            ),
            Direction::Right => Seq::new(
                self.height as nat,
                |i: int|
                    Coor {
                        row: (self.coor.row + i) as usize,
                        col: (self.coor.col + self.width - 1) as usize,
                    },
            ),
        }
    }

    /// What the first `n` cells of the edge in `direction` contribute to
    /// [`Piece::beside`].
    spec fn beside_upto(self, direction: Direction, n: int) -> Seq<Coor> {
        self.edge(direction).take(n).filter(steps_on_grid(direction)).map_values(
            step_toward(direction),
        )
    }

    /// The cells just outside the rectangle on the side in `direction`: the
    /// neighbour in that direction of each cell of the edge, in the edge's
    /// order, without those that are off the grid.
    pub open spec fn beside(self, direction: Direction) -> Seq<Coor> {
        self.edge(direction).filter(steps_on_grid(direction)).map_values(step_toward(direction))
    }

    /// The cells of the rectangle, row by row from the top, each row from the
    /// left.
    pub open spec fn cells(self) -> Seq<Coor> {
        Seq::new(
            (self.height * self.width) as nat,
            |k: int|
                Coor {
                    row: (self.coor.row + k / (self.width as int)) as usize,
                    col: (self.coor.col + k % (self.width as int)) as usize,
                },
        )
    }

    /// Whether the piece, moved one cell in `direction`, lies within the grid
    /// with its anchor and all its cells.
    pub open spec fn can_slide(self, direction: Direction) -> bool {
        &&& self.coor.can_step(direction)
        &&& self.coor.stepped(direction).has_room(self.height, self.width)
    }

    /// The piece moved one cell in `direction`.
    pub open spec fn slid(self, direction: Direction) -> Piece {
        Piece { coor: self.coor.stepped(direction), ..self }
    }

    /// The cells of an addressable piece are `height * width` distinct
    /// coordinates, and they are the coordinates that the rectangle covers.
    pub proof fn lemma_cells(self)
        requires
            self.addressable(),
        ensures
            self.cells().len() == self.height * self.width,
            self.cells().no_duplicates(),
            forall|cell: Coor| self.cells().contains(cell) <==> self.covers(cell),
    {
        let w = self.width as int;
        let h = self.height as int;
        let cells = self.cells();
        assert forall|k: int| 0 <= k < cells.len() implies 0 <= #[trigger] (k / w) < h && 0 <= k % w
            < w && k == w * (k / w) + k % w by {
            self.lemma_cell_index(k);
        }
        assert forall|i: int, j: int| 0 <= i < cells.len() && 0 <= j < cells.len() && i != j implies cells[i]
            != cells[j] by {
            self.lemma_cell_index(i);
            self.lemma_cell_index(j);
        }
        assert forall|cell: Coor| cells.contains(cell) implies self.covers(cell) by {
            let k = choose|k: int| 0 <= k < cells.len() && cells[k] == cell;
            self.lemma_cell_index(k);
        }
        assert forall|cell: Coor| self.covers(cell) implies cells.contains(cell) by {
            let i = cell.row - self.coor.row;
            let j = cell.col - self.coor.col;
            let k = i * w + j;
            assert(0 <= k < h * w) by (nonlinear_arith)
                requires
                    0 <= i < h,
                    0 <= j < w,
                    k == i * w + j,
            ;
            lemma_fundamental_div_mod_converse(k, w, i, j);
            assert(cells[k] == cell);
        }
    }

    /// Row and column offsets of the cell at place `k` of `cells`.
    proof fn lemma_cell_index(self, k: int)
        requires
            0 <= k < self.height * self.width,
        ensures
            0 <= k / (self.width as int) < self.height,
            0 <= k % (self.width as int) < self.width,
            k == (self.width as int) * (k / (self.width as int)) + k % (self.width as int),
    {
        let w = self.width as int;
        let h = self.height as int;
        assert(w > 0) by (nonlinear_arith)
            requires
                0 <= k < h * w,
                0 <= w,
        ;
        lemma_fundamental_div_mod(k, w);
        let q = k / w;
        assert(0 <= q < h) by (nonlinear_arith)
            requires
                0 <= k < h * w,
                k == w * q + k % w,
                0 <= k % w < w,
        ;
    }

    /// `beside_upto` starts empty and ends as `beside`.
    proof fn lemma_beside_ends(self, direction: Direction)
        ensures
            self.beside_upto(direction, 0) == Seq::<Coor>::empty(),
            self.beside_upto(direction, self.edge(direction).len() as int) == self.beside(
                direction,
            ),
    {
        let edge = self.edge(direction);
        reveal(Seq::filter);
        assert(edge.take(0).len() == 0);
        assert(self.beside_upto(direction, 0) =~= Seq::<Coor>::empty());
        assert(edge.take(edge.len() as int) =~= edge);
    }

    /// One more cell of the edge adds its neighbour to `beside_upto` if that
    /// neighbour is on the grid, and nothing otherwise.
    proof fn lemma_beside_next(self, direction: Direction, n: int)
        requires
            0 <= n < self.edge(direction).len(),
        ensures
            self.beside_upto(direction, n + 1) == if self.edge(direction)[n].can_step(direction) {
                self.beside_upto(direction, n).push(self.edge(direction)[n].stepped(direction))
            } else {
                self.beside_upto(direction, n)
            },
    {
        let edge = self.edge(direction);
        let keep = steps_on_grid(direction);
        let step = step_toward(direction);
        assert(edge.take(n + 1) =~= edge.take(n).push(edge[n]));
        edge.take(n).lemma_filter_push(edge[n], keep);
        if keep(edge[n]) {
            assert(edge.take(n).filter(keep).push(edge[n]).map_values(step) =~= edge.take(
                n,
            ).filter(keep).map_values(step).push(step(edge[n])));
        }
    }

    /// Of a piece on the grid the cells beside an edge are on the grid all
    /// together or not at all: they are the neighbours of the whole edge where
    /// the piece can slide that way, and none where it cannot.
    pub proof fn lemma_beside_on_grid(self, direction: Direction)
        requires
            self.in_grid(),
        ensures
            self.edge(direction).len() >= 1,
            self.can_slide(direction) ==> self.beside(direction) == self.edge(
                direction,
            ).map_values(step_toward(direction)),
            !self.can_slide(direction) ==> self.beside(direction).len() == 0,
            self.beside(direction).len() > 0 <==> self.can_slide(direction),
    {
        let edge = self.edge(direction);
        let keep = steps_on_grid(direction);
        assert forall|i: int| 0 <= i < edge.len() implies keep(#[trigger] edge[i])
            == self.can_slide(direction) by {}
        lemma_filter_uniform(edge, keep, self.can_slide(direction));
    }

    /// A cell that a piece covers after a slide was covered before it, or lies
    /// beside the piece in the direction of the slide.
    pub proof fn lemma_slid_covers(self, direction: Direction, cell: Coor)
        requires
            self.in_grid(),
            self.can_slide(direction),
            self.slid(direction).covers(cell),
        ensures
            self.covers(cell) || self.beside(direction).contains(cell),
    {
        self.lemma_beside_on_grid(direction);
        let beside = self.beside(direction);
        if !self.covers(cell) {
            let k = match direction {
                Direction::Up | Direction::Down => cell.col - self.coor.col,
                Direction::Left | Direction::Right => cell.row - self.coor.row,
            };
            assert(0 <= k < beside.len());
            assert(beside[k] == cell);
        }
    }

    /// Return all the adjacent positions to `self` organized by `Direction`.
    ///
    /// These may include positions taken up by other pieces, but never
    /// positions that are out of bounds.
    pub fn adjacent_spaces(&self) -> (spaces: AdjacentSpaces)
        requires
            self.height >= 1,
            self.width >= 1,
            self.spans(),
        ensures
            forall|direction: Direction| #[trigger]
                spaces.toward(direction) == self.beside(direction),
    {
        let mut up: Vec<Coor> = Vec::with_capacity(self.width);
        let mut down: Vec<Coor> = Vec::with_capacity(self.width);
        let mut left: Vec<Coor> = Vec::with_capacity(self.height);
        let mut right: Vec<Coor> = Vec::with_capacity(self.height);

        let upper_left = self.coor;
        let bottom_left = self.coor + Coor::new(self.height - 1, 0);
        let upper_right = self.coor + Coor::new(0, self.width - 1);

        proof {
            self.lemma_beside_ends(Direction::Up);
            self.lemma_beside_ends(Direction::Down);
            self.lemma_beside_ends(Direction::Left);
            self.lemma_beside_ends(Direction::Right);
        }

        for col in 0..self.width
            invariant
                self.height >= 1,
                self.width >= 1,
                self.spans(),
                upper_left == self.coor,
                bottom_left == (Coor {
                    row: (self.coor.row + self.height - 1) as usize,
                    col: self.coor.col,
                }),
                up@ == self.beside_upto(Direction::Up, col as int),
                down@ == self.beside_upto(Direction::Down, col as int),
        {
            proof {
                self.lemma_beside_next(Direction::Up, col as int);
                self.lemma_beside_next(Direction::Down, col as int);
            }
            let upper_row_coor = upper_left + Coor::new(0, col);
            if let Ok(coor) = upper_row_coor.apply_move(Direction::Up) {
                up.push(coor);
            }
            let bottom_row_coor = bottom_left + Coor::new(0, col);
            if let Ok(coor) = bottom_row_coor.apply_move(Direction::Down) {
                down.push(coor);
            }
        }

        for row in 0..self.height
            invariant
                self.height >= 1,
                self.width >= 1,
                self.spans(),
                upper_left == self.coor,
                upper_right == (Coor {
                    row: self.coor.row,
                    col: (self.coor.col + self.width - 1) as usize,
                }),
                left@ == self.beside_upto(Direction::Left, row as int),
                right@ == self.beside_upto(Direction::Right, row as int),
        {
            proof {
                self.lemma_beside_next(Direction::Left, row as int);
                self.lemma_beside_next(Direction::Right, row as int);
            }
            let left_col_coor = upper_left + Coor::new(row, 0);
            if let Ok(coor) = left_col_coor.apply_move(Direction::Left) {
                left.push(coor);
            }
            let right_col_coor = upper_right + Coor::new(row, 0);
            if let Ok(coor) = right_col_coor.apply_move(Direction::Right) {
                right.push(coor);
            }
        }
        AdjacentSpaces { up, right, left, down }
    }

    /// The order of pieces: by height, then width, then the anchor's row, then
    /// its column. `self.precedes(other)` says that `self` comes no later than
    /// `other`.
    pub open spec fn precedes(self, other: Piece) -> bool {
        if self.height != other.height {
            self.height < other.height
        } else if self.width != other.width {
            self.width < other.width
        } else if self.coor.row != other.coor.row {
            self.coor.row < other.coor.row
        } else {
            self.coor.col <= other.coor.col
        }
    }

    /// Whether `self` comes no later than `other` in the order of pieces.
    pub fn comes_before(&self, other: &Piece) -> (first: bool)
        ensures
            first == self.precedes(*other),
    {
        if self.height != other.height {
            self.height < other.height
        } else if self.width != other.width {
            self.width < other.width
        } else if self.coor.row != other.coor.row {
            self.coor.row < other.coor.row
        } else {
            self.coor.col <= other.coor.col
        }
    }

    /// Create a `Piece` given:
    /// - Its starting position as a `Coor`
    /// - Its height
    /// - Its width
    pub fn new(coor: Coor, height: usize, width: usize) -> (piece: Piece)
        ensures
            piece == (Piece { height, width, coor }),
    {
        Piece { height, width, coor }
    }

    /// Return all the currently occupied coordinates by `self`: the cells of
    /// its rectangle, row by row.
    pub fn occupied_spaces(&self) -> (spaces: Vec<Coor>)
        requires
            self.addressable(),
        ensures
            spaces@ == self.cells(),
            spaces@.len() == self.height * self.width,
            spaces@.no_duplicates(),
            forall|cell: Coor| spaces@.contains(cell) <==> self.covers(cell),
    {
        let mut spaces: Vec<Coor> = Vec::with_capacity(self.height * self.width);
        assert(0 * self.width == 0) by (nonlinear_arith);
        for row in 0..self.height
            invariant
                self.addressable(),
                spaces@.len() == row * self.width,
                forall|k: int| 0 <= k < spaces@.len() ==> spaces@[k] == self.cells()[k],
        {
            assert(row * self.width + self.width <= self.height * self.width) by (nonlinear_arith)
                requires
                    row < self.height,
            ;
            for col in 0..self.width
                invariant
                    self.addressable(),
                    row < self.height,
                    spaces@.len() == row * self.width + col,
                    row * self.width + self.width <= self.height * self.width,
                    forall|k: int| 0 <= k < spaces@.len() ==> spaces@[k] == self.cells()[k],
            {
                proof {
                    let k = row * self.width + col;
                    assert(k < self.height * self.width) by (nonlinear_arith)
                        requires
                            row < self.height,
                            col < self.width,
                            k == row * self.width + col,
                    ;
                    lemma_fundamental_div_mod_converse(k, self.width as int, row as int, col as int);
                }
                spaces.push(self.coor + Coor::new(row, col));
            }
            assert((row + 1) * self.width == row * self.width + self.width) by (nonlinear_arith);
        }
        proof {
            self.lemma_cells();
            assert(spaces@ =~= self.cells());
        }
        spaces
    }

    /// Moves `self` in the given `Direction`. Return `Err`, and leave the piece
    /// where it is, if the move would take the anchor or any other cell of the
    /// piece off the grid.
    pub fn make_move(&mut self, direction: Direction) -> (moved: Result<(), ()>)
        ensures
            moved is Ok <==> old(self).can_slide(direction),
            moved is Ok ==> *final(self) == old(self).slid(direction),
            moved is Err ==> *final(self) == *old(self),
    {
        match self.coor.apply_move(direction) {
            Ok(new_coor) => {
                if new_coor.fits(self.height, self.width) {
                    self.coor = new_coor;
                    Ok(())
                } else {
                    Err(())
                }
            },
            Err(_) => Err(()),
        }
    }
}

/// The order of pieces as a relation.
pub open spec fn piece_order() -> spec_fn(Piece, Piece) -> bool {
    |a: Piece, b: Piece| a.precedes(b)
}

/// The order of pieces is total: any two pieces compare, and two pieces that
/// precede each other are the same piece.
pub proof fn lemma_piece_order_total()
    ensures
        vstd::relations::total_ordering(piece_order()),
{
    let order = piece_order();
    assert forall|a: Piece, b: Piece| #[trigger] order(a, b) && #[trigger] order(b, a) implies a
        == b by {
        assert(a.precedes(b) && b.precedes(a));
        assert(a.coor == b.coor);
    }
    assert forall|a: Piece, b: Piece, c: Piece| #[trigger]
        order(a, b) && #[trigger] order(b, c) implies order(a, c) by {
        assert(a.precedes(b) && b.precedes(c));
    }
}

impl PartialOrd for Piece {
    /// Compares by height, then width, then the anchor's row, then its column.
    fn partial_cmp(&self, other: &Self) -> (order: Option<Ordering>) {
        if self == other {
            Some(Ordering::Equal)
        } else if self.comes_before(other) {
            Some(Ordering::Less)
        } else {
            Some(Ordering::Greater)
        }
    }
}

impl vstd::std_specs::cmp::PartialOrdSpecImpl for Piece {
    open spec fn obeys_partial_cmp_spec() -> bool {
        true
    }

    open spec fn partial_cmp_spec(&self, other: &Piece) -> Option<Ordering> {
        if *self == *other {
            Some(Ordering::Equal)
        } else if self.precedes(*other) {
            Some(Ordering::Less)
        } else {
            Some(Ordering::Greater)
        }
    }
}

} // verus!
