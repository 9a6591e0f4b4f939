//! What the enumerator finds of the tilings that can be played.

use vstd::prelude::*;
use crate::bits::{lemma_nothing, lemma_rest_of_rest};
use crate::board::low_mask;
use crate::combination::{all_combinations, covered, lemma_search_complete, next_cell, parity_ok, reaches};
use crate::piece::PieceSet;
use crate::placement::Placement;
use crate::settle::{chosen_from, clears_in_order, first_supports, lemma_playable_not_cyclic};
use crate::solve::board_after;

verus! {

/// The placements of `tail`, one after the other, are each at the next cell
/// of the search after `head`: a well-formed state, of a kind that the set
/// holds, inside the field and on empty cells; the last one fills the field,
/// and after each of the others the field is not full and the pieces that
/// are left may still even out the columns.
pub open spec fn in_search_order(
    head: Seq<Placement>,
    tail: Seq<Placement>,
    board: u64,
    set: PieceSet,
    height: nat,
) -> bool
    decreases tail.len(),
{
    if tail.len() == 0 {
        false
    } else {
        let p = tail[0];
        let cell = next_cell(board, height);
        let piece = p.kind.shape.spec_info().piece;
        let filled = p.cells() | board;
        let rest = set.spec_without(piece);
        &&& p.kind.wf()
        &&& p.x == cell.0
        &&& p.kind.spec_cell_y() == cell.1
        &&& p.kind.spec_height() <= height
        &&& cell.0 + p.kind.shape.spec_info().width <= 10
        &&& set.count(piece) > 0
        &&& p.cells() & board == 0
        &&& if tail.len() == 1 {
            filled == low_mask(10 * height)
        } else {
            &&& filled != low_mask(10 * height)
            &&& parity_ok(filled, rest, height)
            &&& in_search_order(head.push(p), tail.drop_first(), filled, rest, height)
        }
    }
}

/// Placements of a clear that can be played, taken in the order of the
/// search, pass the circle test after each of them.
pub proof fn lemma_search_order_reaches(
    order: Seq<Placement>,
    start: u64,
    head: Seq<Placement>,
    tail: Seq<Placement>,
    board: u64,
    set: PieceSet,
    height: nat,
)
    requires
        clears_in_order(order, start, height),
        board_after(order, start) == low_mask(10 * height),
        chosen_from(head + tail, order),
        in_search_order(head, tail, board, set, height),
    ensures
        reaches(head, tail, board, first_supports(head, height), set, height),
    decreases tail.len(),
{
    let p = tail[0];
    let next = head.push(p);
    let all = head + tail;
    assert(next =~= all.take(next.len() as int));
    assert forall|i: int, j: int| 0 <= i < j < next.len() implies #[trigger] next[i].cells() & #[trigger] next[j].cells()
        == 0 by {
        assert(all[i].cells() & all[j].cells() == 0);
    }
    assert forall|j: int| 0 <= j < next.len() implies order.contains(#[trigger] next[j]) by {
        assert(order.contains(all[j]));
    }
    lemma_playable_not_cyclic(order, start, height, next);
    assert(next.drop_last() =~= head);
    lemma_rest_of_rest(low_mask(10 * height), covered(head), p.cells());
    assert(first_supports(head, height) & !p.cells() == first_supports(next, height));
    if tail.len() > 1 {
        assert(next + tail.drop_first() =~= all);
        let piece = p.kind.shape.spec_info().piece;
        lemma_search_order_reaches(
            order,
            start,
            next,
            tail.drop_first(),
            p.cells() | board,
            set.spec_without(piece),
            height,
        );
    }
}

/// The enumerator finds every tiling that can be played, but for what the
/// test of the columns rejects: where the placements of `tiling` can be
/// played to a clear in some order, and are in the order of the search, each
/// of a piece of the set, with the test of the columns passed after each but
/// the last, the search that is not stopped finds `tiling`.
pub proof fn lemma_finds_what_can_be_played(
    order: Seq<Placement>,
    tiling: Seq<Placement>,
    set: PieceSet,
    board: u64,
    height: nat,
)
    requires
        clears_in_order(order, board, height),
        board_after(order, board) == low_mask(10 * height),
        chosen_from(tiling, order),
        in_search_order(Seq::empty(), tiling, board, set, height),
    ensures
        all_combinations(set, board, height).contains(tiling),
{
    let none = Seq::<Placement>::empty();
    assert(none + tiling =~= tiling);
    lemma_search_order_reaches(order, board, none, tiling, board, set, height);
    lemma_nothing(low_mask(10 * height));
    assert(first_supports(none, height) == low_mask(10 * height));
    lemma_search_complete(none, tiling, board, low_mask(10 * height), set, height);
}

} // verus!
