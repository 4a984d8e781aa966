//! The layout of a board: its pieces without regard to their indices. Equality
//! and hashing of boards go by the layout.

use crate::board::coherent;
use crate::board::Board;
use crate::board::NUM_PIECES;
use crate::piece::lemma_piece_order_total;
use crate::piece::piece_order;
use crate::piece::Piece;
use std::hash::Hash;
use std::hash::Hasher;
use vstd::prelude::*;
use vstd::relations::sorted_by;
use vstd::seq_lib::lemma_sorted_unique;
use vstd::seq_lib::to_multiset_build;
use vstd::seq_lib::to_multiset_insert;
use vstd::seq_lib::to_multiset_len;

verus! {

/// Number of bits that the layout hash gives to one row or column index. The
/// grid has no more than 8 rows and 8 columns, so three bits hold an index.
pub const FIELD_BITS: usize = 3;

/// The pieces in the order of pieces. Which piece stood at which index is
/// forgotten: pieces of one shape at one place are the same piece.
pub open spec fn canonical(pieces: Seq<Piece>) -> Seq<Piece> {
    pieces.sort_by(piece_order())
}

/// Two lists of pieces describe the same layout when they agree once each is
/// put in the order of pieces.
pub open spec fn same_layout(a: Seq<Piece>, b: Seq<Piece>) -> bool {
    canonical(a) == canonical(b)
}

/// The row and the column of each piece's anchor, piece by piece.
pub open spec fn anchor_fields(pieces: Seq<Piece>) -> Seq<usize> {
    Seq::new(
        2 * pieces.len(),
        |k: int|
            if k % 2 == 0 {
                pieces[k / 2].coor.row
            } else {
                pieces[k / 2].coor.col
            },
    )
}

/// The fields packed into one integer: field `k` is shifted left by
/// `FIELD_BITS * k` bits, and the shifted fields are combined by bitwise or.
pub open spec fn packed(fields: Seq<usize>) -> u64
    decreases fields.len(),
{
    if fields.len() == 0 {
        0
    } else {
        packed(fields.drop_last()) | ((fields.last() as u64) << ((FIELD_BITS * (fields.len()
            - 1)) as u64))
    }
}

/// The hash of a layout: the anchors of the pieces, in the order of pieces,
/// packed into one integer.
pub open spec fn layout_hash_of(pieces: Seq<Piece>) -> u64 {
    packed(anchor_fields(canonical(pieces)))
}

/// The canonical order is the one way to put the pieces in the order of
/// pieces: it is sorted, holds each piece as often as the list does, and every
/// sorted list that does so is equal to it.
pub proof fn lemma_canonical(pieces: Seq<Piece>)
    ensures
        sorted_by(canonical(pieces), piece_order()),
        canonical(pieces).to_multiset() == pieces.to_multiset(),
        canonical(pieces).len() == pieces.len(),
        forall|sorted: Seq<Piece>|
            sorted_by(sorted, piece_order()) && sorted.to_multiset() == pieces.to_multiset()
                ==> sorted == #[trigger] canonical(pieces),
{
    lemma_piece_order_total();
    pieces.lemma_sort_by_ensures(piece_order());
    to_multiset_len(pieces);
    to_multiset_len(canonical(pieces));
    assert forall|sorted: Seq<Piece>|
        sorted_by(sorted, piece_order()) && sorted.to_multiset()
            == pieces.to_multiset() implies sorted == #[trigger] canonical(pieces) by {
        lemma_sorted_unique(sorted, canonical(pieces), piece_order());
    }
}

/// Being the same layout is reflexive, symmetric and transitive.
pub proof fn lemma_same_layout_equivalence(a: Seq<Piece>, b: Seq<Piece>, c: Seq<Piece>)
    ensures
        same_layout(a, a),
        same_layout(a, b) ==> same_layout(b, a),
        same_layout(a, b) && same_layout(b, c) ==> same_layout(a, c),
{
}

/// Two lists of pieces are the same layout exactly when each piece occurs as
/// often in the one as in the other. So the order in which a board lists its
/// pieces changes neither what it is equal to nor its hash.
pub proof fn lemma_same_layout_same_pieces(a: Seq<Piece>, b: Seq<Piece>)
    ensures
        same_layout(a, b) <==> a.to_multiset() == b.to_multiset(),
        a.to_multiset() == b.to_multiset() ==> layout_hash_of(a) == layout_hash_of(b),
{
    lemma_canonical(a);
    lemma_canonical(b);
}

/// A field of `FIELD_BITS` bits that is set above the bits of `low` can be read
/// back, and so can `low`.
proof fn lemma_field_recovered(low: u64, field: u64, shift: u64, next: u64)
    by (bit_vector)
    requires
        shift <= 57,
        next == shift + 3,
        low >> shift == 0,
        field < 8,
    ensures
        (low | (field << shift)) >> shift == field,
        (low | (field << shift)) & !(0xffff_ffff_ffff_ffffu64 << shift) == low,
        (low | (field << shift)) >> next == 0,
{
}

/// Fields below 8 stay within their `FIELD_BITS` bits: nothing is set above
/// the last of them.
pub proof fn lemma_packed_fits(fields: Seq<usize>)
    requires
        fields.len() <= 2 * NUM_PIECES,
        forall|k: int| 0 <= k < fields.len() ==> #[trigger] fields[k] < 8,
    ensures
        packed(fields) >> ((FIELD_BITS * fields.len()) as u64) == 0,
    decreases fields.len(),
{
    if fields.len() == 0 {
        assert(0u64 >> 0u64 == 0) by (bit_vector);
    } else {
        let rest = fields.drop_last();
        lemma_packed_fits(rest);
        let shift = (FIELD_BITS * rest.len()) as u64;
        lemma_field_recovered(packed(rest), fields.last() as u64, shift, (shift + 3) as u64);
    }
}

/// Packing is injective on fields below 8: equally many such fields that pack
/// to the same integer are the same fields.
pub proof fn lemma_packed_injective(a: Seq<usize>, b: Seq<usize>)
    requires
        a.len() == b.len(),
        a.len() <= 2 * NUM_PIECES,
        forall|k: int| 0 <= k < a.len() ==> #[trigger] a[k] < 8,
        forall|k: int| 0 <= k < b.len() ==> #[trigger] b[k] < 8,
        packed(a) == packed(b),
    ensures
        a == b,
    decreases a.len(),
{
    if a.len() == 0 {
        assert(a =~= b);
    } else {
        let shift = (FIELD_BITS * (a.len() - 1)) as u64;
        let next = (shift + 3) as u64;
        lemma_packed_fits(a.drop_last());
        lemma_packed_fits(b.drop_last());
        lemma_field_recovered(packed(a.drop_last()), a.last() as u64, shift, next);
        lemma_field_recovered(packed(b.drop_last()), b.last() as u64, shift, next);
        lemma_packed_injective(a.drop_last(), b.drop_last());
        assert(a =~= a.drop_last().push(a.last()));
        assert(b =~= b.drop_last().push(b.last()));
    }
}

/// The hash tells layouts of pieces on the grid apart as far as their anchors
/// go: two boards with the same hash whose pieces, in the order of pieces, have
/// the same shapes are the same layout.
pub proof fn lemma_hash_tells_layouts_apart(a: Seq<Piece>, b: Seq<Piece>)
    requires
        coherent(a),
        coherent(b),
        layout_hash_of(a) == layout_hash_of(b),
        forall|k: int|
            0 <= k < NUM_PIECES ==> (#[trigger] canonical(a)[k]).height == canonical(b)[k].height
                && canonical(a)[k].width == canonical(b)[k].width,
    ensures
        same_layout(a, b),
{
    lemma_canonical(a);
    lemma_canonical(b);
    lemma_piece_order_total();
    a.lemma_sort_by_ensures(piece_order());
    b.lemma_sort_by_ensures(piece_order());
    let first = canonical(a);
    let second = canonical(b);
    assert forall|k: int| 0 <= k < first.len() implies (#[trigger] first[k]).in_grid() by {
        assert(first.contains(first[k]));
        assert(a.contains(first[k]));
    }
    assert forall|k: int| 0 <= k < second.len() implies (#[trigger] second[k]).in_grid() by {
        assert(second.contains(second[k]));
        assert(b.contains(second[k]));
    }
    let rows_cols = anchor_fields(first);
    let other = anchor_fields(second);
    assert forall|k: int| 0 <= k < rows_cols.len() implies #[trigger] rows_cols[k] < 8 by {
        assert(first[k / 2].in_grid());
    }
    assert forall|k: int| 0 <= k < other.len() implies #[trigger] other[k] < 8 by {
        assert(second[k / 2].in_grid());
    }
    lemma_packed_injective(rows_cols, other);
    assert forall|k: int| 0 <= k < first.len() implies first[k] == second[k] by {
        assert(rows_cols[2 * k] == other[2 * k]);
        assert(rows_cols[2 * k + 1] == other[2 * k + 1]);
    }
    assert(first =~= second);
}

/// Feeds one word to a hasher.
///
/// Calls `std::hash::Hasher::write_u64`. Nothing is claimed of the hasher's
/// state.
#[verifier::external_body]
fn write_word<H: Hasher>(state: &mut H, word: u64) {
    state.write_u64(word);
}

impl Board {
    /// The pieces in the order of pieces: by height, then width, then the
    /// anchor's row, then its column.
    pub fn canonical_pieces(&self) -> (sorted: Vec<Piece>)
        ensures
            sorted@ == canonical(self@),
            sorted@.len() == NUM_PIECES,
    {
        let mut sorted: Vec<Piece> = Vec::with_capacity(NUM_PIECES);
        assert(self@.take(0) =~= Seq::<Piece>::empty());
        for n in 0..NUM_PIECES
            invariant
                sorted@.len() == n,
                sorted_by(sorted@, piece_order()),
                sorted@.to_multiset() == self@.take(n as int).to_multiset(),
        {
            let piece = self.pieces[n];
            let mut at: usize = 0;
            while at < sorted.len() && sorted[at].comes_before(&piece)
                invariant
                    at <= sorted@.len(),
                    forall|k: int| 0 <= k < at ==> (#[trigger] sorted@[k]).precedes(piece),
                decreases sorted@.len() - at,
            {
                at += 1;
            }
            let ghost before = sorted@;
            sorted.insert(at, piece);
            proof {
                lemma_piece_order_total();
                to_multiset_insert(before, at as int, piece);
                assert(self@.take(n + 1) =~= self@.take(n as int).push(piece));
                to_multiset_build(self@.take(n as int), piece);
                assert forall|i: int, j: int| 0 <= i < j < sorted@.len() implies #[trigger]
                    piece_order()(sorted@[i], sorted@[j]) by {
                    if j == at {
                        assert(before[i].precedes(piece));
                    } else if i == at {
                        assert(!before[at as int].precedes(piece));
                        assert(piece_order()(before[at as int], before[j - 1]));
                    } else {
                        let old_i = if i < at {
                            i
                        } else {
                            i - 1
                        };
                        let old_j = if j < at {
                            j
                        } else {
                            j - 1
                        };
                        assert(piece_order()(before[old_i], before[old_j]));
                    }
                }
            }
        }
        proof {
            assert(self@.take(NUM_PIECES as int) =~= self@);
            lemma_canonical(self@);
        }
        sorted
    }

    /// The hash of the board's layout: the anchors of the pieces, in the order
    /// of pieces, packed into `FIELD_BITS` bits each. Boards that are the same
    /// layout have the same hash.
    pub fn layout_hash(&self) -> (hash: u64)
        ensures
            hash == layout_hash_of(self@),
    {
        let sorted = self.canonical_pieces();
        let ghost fields = anchor_fields(sorted@);
        let mut hash: u64 = 0;
        assert(fields.take(0) =~= Seq::<usize>::empty());
        for n in 0..NUM_PIECES
            invariant
                sorted@.len() == NUM_PIECES,
                fields == anchor_fields(sorted@),
                hash == packed(fields.take(2 * n)),
        {
            let Piece { coor, .. } = sorted[n];
            let ghost one = fields.take(2 * n + 1);
            let ghost two = fields.take(2 * n + 2);
            proof {
                assert(one.drop_last() =~= fields.take(2 * n));
                assert(two.drop_last() =~= one);
                assert(one.last() == coor.row);
                assert(two.last() == coor.col);
            }
            hash = hash | ((coor.row as u64) << ((FIELD_BITS * (2 * n)) as u64));
            assert(hash == packed(one));
            hash = hash | ((coor.col as u64) << ((FIELD_BITS * (2 * n + 1)) as u64));
            assert(hash == packed(two));
        }
        assert(fields.take(2 * NUM_PIECES as int) =~= fields);
        hash
    }
}

impl Hash for Board {
    /// Feeds the hasher one word, the hash of the board's layout.
    fn hash<H: Hasher>(&self, state: &mut H) {
        write_word(state, self.layout_hash());
    }
}

impl PartialEq for Board {
    /// Two boards are equal when they are the same layout.
    fn eq(&self, other: &Self) -> (same: bool) {
        let mine = self.canonical_pieces();
        let theirs = other.canonical_pieces();
        for k in 0..NUM_PIECES
            invariant
                mine@.len() == NUM_PIECES,
                theirs@.len() == NUM_PIECES,
                mine@ == canonical(self@),
                theirs@ == canonical(other@),
                forall|l: int| 0 <= l < k ==> mine@[l] == theirs@[l],
        {
            if mine[k] != theirs[k] {
                return false;
            }
        }
        assert(mine@ =~= theirs@);
        true
    }
}

impl vstd::std_specs::cmp::PartialEqSpecImpl for Board {
    open spec fn obeys_eq_spec() -> bool {
        true
    }

    open spec fn eq_spec(&self, other: &Board) -> bool {
        same_layout(self@, other@)
    }
}

/// Being the same layout is an equivalence: see `lemma_same_layout_equivalence`.
impl Eq for Board {}

/// Hashing a board calls `write_u64` exactly once, which is what this marker
/// promises: a `NoHashHasher` then gives out the layout hash as it is.
impl nohash_hasher::IsEnabled for Board {}

} // verus!
