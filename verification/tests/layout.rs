use klotski::board::Board;
use klotski::coordinates::Coor;
use klotski::layout::FIELD_BITS;
use klotski::piece::Piece;
use nohash_hasher::NoHashHasher;
use std::collections::hash_map::DefaultHasher;
use std::hash::Hash;
use std::hash::Hasher;

fn rearranged() -> Board {
    let start = Board::new();
    let mut pieces = start.pieces;
    pieces.reverse();
    pieces.swap(2, 7);
    Board { pieces }
}

#[test]
fn canonical_pieces_are_sorted() {
    assert_eq!(
        Board::new().canonical_pieces(),
        vec![
            Piece::new(Coor::new(3, 1), 1, 1),
            Piece::new(Coor::new(3, 2), 1, 1),
            Piece::new(Coor::new(4, 1), 1, 1),
            Piece::new(Coor::new(4, 2), 1, 1),
            Piece::new(Coor::new(2, 1), 1, 2),
            Piece::new(Coor::new(0, 0), 2, 1),
            Piece::new(Coor::new(0, 3), 2, 1),
            Piece::new(Coor::new(3, 0), 2, 1),
            Piece::new(Coor::new(3, 3), 2, 1),
            Piece::new(Coor::new(0, 1), 2, 2),
        ]
    );
}

#[test]
fn canonical_pieces_agree_with_a_sort() {
    for board in [Board::new(), rearranged()] {
        let mut sorted = board.pieces.to_vec();
        sorted.sort();
        assert_eq!(board.canonical_pieces(), sorted);
    }
}

#[test]
fn equality_is_reflexive_and_symmetric() {
    let start = Board::new();
    let other = rearranged();
    let moved = Board::new().next_states().remove(0).0;
    assert!(start == start);
    assert!(moved == moved);
    assert!(start == other);
    assert!(other == start);
    assert!(start != moved);
    assert!(moved != start);
}

#[test]
fn rearranged_pieces_make_an_equal_board() {
    let start = Board::new();
    let other = rearranged();
    assert_ne!(start.pieces, other.pieces);
    assert_eq!(start, other);
    assert_eq!(start.layout_hash(), other.layout_hash());
    assert_eq!(start.canonical_pieces(), other.canonical_pieces());
}

fn single_cells_and(last: Piece) -> Board {
    let unit = |row: usize, col: usize| Piece::new(Coor::new(row, col), 1, 1);
    Board {
        pieces: [
            unit(0, 0),
            unit(0, 1),
            unit(0, 2),
            unit(0, 3),
            unit(3, 0),
            unit(3, 1),
            unit(3, 2),
            unit(3, 3),
            unit(4, 0),
            last,
        ],
    }
}

#[test]
fn boards_that_differ_in_a_shape_differ() {
    // The same anchors in the same order, but another shape: the hash cannot
    // tell the two boards apart, equality does.
    let wide = single_cells_and(Piece::new(Coor::new(1, 0), 1, 2));
    let tall = single_cells_and(Piece::new(Coor::new(1, 0), 2, 1));
    assert!(wide.is_well_formed());
    assert!(tall.is_well_formed());
    assert_eq!(wide.layout_hash(), tall.layout_hash());
    assert!(wide != tall);
    assert!(tall != wide);
}

#[test]
fn layout_hash_packs_the_sorted_anchors() {
    assert_eq!(FIELD_BITS, 3);
    assert_eq!(Board::new().layout_hash(), 151729856027083979);
    let mut expected: u64 = 0;
    for (k, piece) in Board::new().canonical_pieces().iter().enumerate() {
        expected |= (piece.coor.row as u64) << (3 * (2 * k));
        expected |= (piece.coor.col as u64) << (3 * (2 * k + 1));
    }
    assert_eq!(Board::new().layout_hash(), expected);
}

#[test]
fn hashing_a_board_writes_its_layout_hash() {
    let board = Board::new();
    let mut hasher = NoHashHasher::<Board>::default();
    board.hash(&mut hasher);
    assert_eq!(hasher.finish(), board.layout_hash());
    assert_ne!(hasher.finish(), 0);

    let mut mine = DefaultHasher::new();
    board.hash(&mut mine);
    let mut theirs = DefaultHasher::new();
    rearranged().hash(&mut theirs);
    assert_eq!(mine.finish(), theirs.finish());
}

#[test]
fn moved_boards_hash_apart() {
    let start = Board::new();
    for (state, _) in start.next_states() {
        assert_ne!(state.layout_hash(), start.layout_hash());
    }
}
