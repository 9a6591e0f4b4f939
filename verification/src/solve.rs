//! The solver: the orders in which the placements of one combination can be
//! played from a queue of pieces, and the search for a perfect clear that
//! runs the enumerator and the solver height by height.

use vstd::prelude::*;
use std::sync::atomic::AtomicBool;
use arrayvec::ArrayVec;
use crate::bits::{lemma_inside_both_ways, lemma_meet_commutes, lemma_nothing, lemma_part_inside, lemma_union_inside};
use crate::board::{low_mask, popcount, row_bits, BitBoard};
use crate::combination::{
    all_combinations, consults, copy_placements, covered, find_combinations_in, lemma_covered_contains, some_of,
    tiles, views,
};
use crate::piece::{set_of, Piece};
use crate::placement::Placement;
use crate::sequence::{after_remove, next_ok, PieceSequence};
use crate::stack::{stack_get, stack_items, stack_len, stack_new, stack_pop, stack_push, stack_swap, stack_swap_remove};
use crate::table::ShapeTable;

verus! {

/// The queue after the placements of `done` were played from `queue`.
pub open spec fn queue_after(done: Seq<Placement>, queue: Seq<Piece>) -> Seq<Piece>
    decreases done.len(),
{
    if done.len() == 0 {
        queue
    } else {
        after_remove(queue_after(done.drop_last(), queue), done.last().kind.shape.spec_info().piece)
    }
}

/// The field after the placements of `done` were put on `board`.
pub open spec fn board_after(done: Seq<Placement>, board: u64) -> u64
    decreases done.len(),
{
    if done.len() == 0 {
        board
    } else {
        board_after(done.drop_last(), board) | done.last().cells()
    }
}

/// Each placement of `done`, in its turn, is of the next piece of the queue
/// or of the one in hold, can come to rest on the field as it then is, and
/// is accepted there by the judge.
pub open spec fn valid_order<F: Fn(BitBoard, Placement) -> bool>(
    done: Seq<Placement>,
    queue: Seq<Piece>,
    board: u64,
    hold_allowed: bool,
    judge: F,
) -> bool
    decreases done.len(),
{
    if done.len() == 0 {
        true
    } else {
        let prev = done.drop_last();
        let p = done.last();
        let b = board_after(prev, board);
        &&& valid_order(prev, queue, board, hold_allowed, judge)
        &&& next_ok(queue_after(prev, queue), p.kind.shape.spec_info().piece, hold_allowed)
        &&& p.spec_placeable(b)
        &&& call_ensures(judge, (BitBoard(b), p), true)
    }
}

/// The placements of `combo` at the positions that `idx` names, in that order.
pub open spec fn ordered(idx: Seq<u8>, combo: Seq<Placement>) -> Seq<Placement> {
    Seq::new(idx.len(), |i: int| combo[idx[i] as int])
}

/// `idx` names each position of a combination of `n` placements once.
pub open spec fn names_all(idx: Seq<u8>, n: nat) -> bool {
    &&& idx.len() == n
    &&& idx.no_duplicates()
    &&& forall|i: int| 0 <= i < idx.len() ==> (#[trigger] idx[i]) < n
}

/// `sol` holds the placements of `combo`, each once, in some order.
pub open spec fn is_ordering(sol: Seq<Placement>, combo: Seq<Placement>) -> bool {
    exists|idx: Seq<u8>| names_all(idx, combo.len()) && #[trigger] ordered(idx, combo) == sol
}

/// `sol` is an order of `combo` that can be played from `queue` on `board`.
pub open spec fn solves<F: Fn(BitBoard, Placement) -> bool>(
    sol: Seq<Placement>,
    combo: Seq<Placement>,
    queue: Seq<Piece>,
    board: u64,
    hold_allowed: bool,
    judge: F,
) -> bool {
    is_ordering(sol, combo) && valid_order(sol, queue, board, hold_allowed, judge)
}

/// The judge gives one answer for each field and placement.
pub open spec fn decided<F: Fn(BitBoard, Placement) -> bool>(judge: F) -> bool {
    forall|b: BitBoard, p: Placement| !(call_ensures(judge, (b, p), true) && call_ensures(judge, (b, p), false))
}

/// The solutions as sequences.
pub open spec fn solutions(found: Seq<Vec<Placement>>) -> Seq<Seq<Placement>> {
    Seq::new(found.len(), |i: int| found[i]@)
}

/// What the solver finds below one state, in its order, and whether the
/// search goes on after it. `perm` names the placements played so far and
/// `rem` the others; with none left the played ones are a solution, after
/// which the search goes on unless one solution is all that is wanted.
pub open spec fn orders<F: Fn(BitBoard, Placement) -> bool>(
    combo: Seq<Placement>,
    perm: Seq<u8>,
    rem: Seq<u8>,
    queue: Seq<Piece>,
    board: u64,
    hold_allowed: bool,
    unique: bool,
    judge: F,
) -> (Seq<Seq<Placement>>, bool)
    decreases rem.len(), 1nat, 0nat,
{
    if rem.len() == 0 {
        (seq![ordered(perm, combo)], !unique)
    } else {
        orders_from(combo, perm, rem, queue, board, hold_allowed, unique, judge, 0)
    }
}

/// The same for the placements that `rem` names from position `i` on, each
/// tried as the next one: one that is of a piece that can be played, can come
/// to rest and is accepted by the judge moves from `rem` to `perm` as
/// `swap_remove` and `push` move it, and the search goes down.
pub open spec fn orders_from<F: Fn(BitBoard, Placement) -> bool>(
    combo: Seq<Placement>,
    perm: Seq<u8>,
    rem: Seq<u8>,
    queue: Seq<Piece>,
    board: u64,
    hold_allowed: bool,
    unique: bool,
    judge: F,
    i: nat,
) -> (Seq<Seq<Placement>>, bool)
    decreases rem.len(), 0nat, rem.len() - i,
{
    if i >= rem.len() {
        (Seq::empty(), true)
    } else {
        let p = combo[rem[i as int] as int];
        let piece = p.kind.shape.spec_info().piece;
        if next_ok(queue, piece, hold_allowed) && p.spec_placeable(board) && call_ensures(
            judge,
            (BitBoard(board), p),
            true,
        ) {
            let below = orders(
                combo,
                perm.push(rem[i as int]),
                rem.update(i as int, rem.last()).drop_last(),
                after_remove(queue, piece),
                board | p.cells(),
                hold_allowed,
                unique,
                judge,
            );
            if !below.1 {
                below
            } else {
                let later = orders_from(combo, perm, rem, queue, board, hold_allowed, unique, judge, i + 1);
                (below.0 + later.0, later.1)
            }
        } else {
            orders_from(combo, perm, rem, queue, board, hold_allowed, unique, judge, i + 1)
        }
    }
}

/// Positions that are named once each, as many as there are, are all named.
pub proof fn lemma_names_every(idx: Seq<u8>, n: nat, j: int)
    requires
        names_all(idx, n),
        0 <= j < n,
    ensures
        exists|i: int| 0 <= i < idx.len() && idx[i] == j,
{
    let ints = Seq::new(idx.len(), |i: int| idx[i] as int);
    assert(ints.no_duplicates());
    ints.unique_seq_to_set();
    vstd::set_lib::lemma_int_range(0, n as int);
    let named = ints.to_set();
    let range = vstd::set_lib::set_int_range(0, n as int);
    assert forall|v: int| named.contains(v) implies range.contains(v) by {
        let i = choose|i: int| 0 <= i < ints.len() && ints[i] == v;
        assert(idx[i] < n);
    }
    vstd::seq_lib::seq_to_set_is_finite(ints);
    vstd::set_lib::lemma_subset_equality(named, range);
    assert(range.contains(j));
    assert(named.contains(j));
    let i = choose|i: int| 0 <= i < ints.len() && ints[i] == j;
    assert(idx[i] == j);
}

/// Placements that each lie inside `within` cover cells inside it.
pub proof fn lemma_covered_inside(ps: Seq<Placement>, within: u64)
    requires
        forall|i: int| 0 <= i < ps.len() ==> (#[trigger] ps[i]).cells() & !within == 0,
    ensures
        covered(ps) & !within == 0,
    decreases ps.len(),
{
    if ps.len() > 0 {
        lemma_covered_inside(ps.drop_last(), within);
        let rest = covered(ps.drop_last());
        let last = ps.last().cells();
        assert(ps[ps.len() - 1].cells() & !within == 0);
        lemma_union_inside(rest, last, within);
    } else {
        lemma_nothing(within);
    }
}

/// The placements of a tiling in another order are a tiling still.
pub proof fn lemma_order_tiles(sol: Seq<Placement>, combo: Seq<Placement>, board: u64, height: nat)
    requires
        is_ordering(sol, combo),
        tiles(combo, board, height),
    ensures
        tiles(sol, board, height),
{
    let idx = choose|idx: Seq<u8>| names_all(idx, combo.len()) && #[trigger] ordered(idx, combo) == sol;
    assert forall|i: int, j: int| 0 <= i < j < sol.len() implies #[trigger] sol[i].cells() & #[trigger] sol[j].cells()
        == 0 by {
        let a = combo[idx[i] as int].cells();
        let b = combo[idx[j] as int].cells();
        assert(idx[i] != idx[j]);
        if idx[i] < idx[j] {
            assert(a & b == 0);
        } else {
            assert(b & a == 0);
            lemma_meet_commutes(a, b);
        }
    }
    let all = covered(combo);
    let mine = covered(sol);
    assert forall|i: int| 0 <= i < sol.len() implies (#[trigger] sol[i]).cells() & !all == 0 by {
        lemma_covered_contains(combo, idx[i] as int);
        let c = sol[i].cells();
        lemma_part_inside(all, c);
    }
    lemma_covered_inside(sol, all);
    assert forall|j: int| 0 <= j < combo.len() implies (#[trigger] combo[j]).cells() & !mine == 0 by {
        lemma_names_every(idx, combo.len(), j);
        let i = choose|i: int| 0 <= i < idx.len() && idx[i] == j;
        assert(sol[i] == combo[j]);
        lemma_covered_contains(sol, i);
        let c = combo[j].cells();
        lemma_part_inside(mine, c);
    }
    lemma_covered_inside(combo, mine);
    lemma_inside_both_ways(mine, all);
}

/// Moving one number from the second stack to the top of the first, as
/// `swap_remove` and `push` do it, keeps the two stacks naming each
/// position once.
pub proof fn lemma_move(p: Seq<u8>, r: Seq<u8>, i: int, n: nat)
    requires
        names_all(p + r, n),
        0 <= i < r.len(),
    ensures
        names_all(p.push(r[i]) + r.update(i, r.last()).drop_last(), n),
{
    let a = p + r;
    let r2 = r.update(i, r.last()).drop_last();
    let b = p.push(r[i]) + r2;
    let from = |k: int|
        if k < p.len() {
            k
        } else if k == p.len() {
            p.len() + i
        } else if k - p.len() - 1 == i {
            p.len() + r.len() - 1
        } else {
            k - 1
        };
    assert forall|k: int| 0 <= k < b.len() implies b[k] == a[from(k)] && 0 <= from(k) < a.len() by {}
    assert forall|k: int, l: int| 0 <= k < b.len() && 0 <= l < b.len() && k != l implies b[k] != b[l] by {
        assert(b[k] == a[from(k)]);
        assert(b[l] == a[from(l)]);
        assert(from(k) != from(l));
    }
    assert forall|k: int| 0 <= k < b.len() implies (#[trigger] b[k]) < n by {
        assert(b[k] == a[from(k)]);
    }
}

/// The placements that the stack names, in its order.
fn collect(combination: &[Placement], permutation: &ArrayVec<u8, 15>) -> (r: Vec<Placement>)
    requires
        forall|i: int|
            0 <= i < stack_items(*permutation).len() ==> (#[trigger] stack_items(*permutation)[i])
                < combination@.len(),
    ensures
        r@ == ordered(stack_items(*permutation), combination@),
{
    let mut out: Vec<Placement> = Vec::new();
    let n = stack_len(permutation);
    let mut i: usize = 0;
    while i < n
        invariant
            i <= n,
            n == stack_items(*permutation).len(),
            forall|i: int|
                0 <= i < stack_items(*permutation).len() ==> (#[trigger] stack_items(*permutation)[i])
                    < combination@.len(),
            out@.len() == i,
            forall|k: int| 0 <= k < i ==> out@[k] == combination@[stack_items(*permutation)[k] as int],
        decreases n - i,
    {
        let at = stack_get(permutation, i);
        out.push(combination[at as usize]);
        i += 1;
    }
    assert(out@ =~= ordered(stack_items(*permutation), combination@));
    out
}

/// The search below one state of the solver. `permutation` names the
/// placements played so far, `remaining` the others; `queue` and `board` are
/// what the played ones have left. Returns false once a solution was found
/// and only one is wanted.
fn solve<F: Fn(BitBoard, Placement) -> bool>(
    combination: &[Placement],
    permutation: &mut ArrayVec<u8, 15>,
    queue: PieceSequence,
    board: BitBoard,
    remaining: &mut ArrayVec<u8, 15>,
    hold_allowed: bool,
    unique: bool,
    judge: &F,
    out: &mut Vec<Vec<Placement>>,
    Ghost(queue0): Ghost<Seq<Piece>>,
    Ghost(board0): Ghost<u64>,
) -> (go_on: bool)
    requires
        combination@.len() <= 15,
        forall|i: int| 0 <= i < combination@.len() ==> (#[trigger] combination@[i]).wf(),
        forall|b: BitBoard, p: Placement| p.wf() ==> call_requires(*judge, (b, p)),
        names_all(stack_items(*old(permutation)) + stack_items(*old(remaining)), combination@.len()),
        queue.wf(),
        queue@ == queue_after(ordered(stack_items(*old(permutation)), combination@), queue0),
        board.0 == board_after(ordered(stack_items(*old(permutation)), combination@), board0),
        valid_order(ordered(stack_items(*old(permutation)), combination@), queue0, board0, hold_allowed, *judge),
        forall|i: int|
            0 <= i < old(out)@.len() ==> solves(
                (#[trigger] old(out)@[i])@,
                combination@,
                queue0,
                board0,
                hold_allowed,
                *judge,
            ),
    ensures
        go_on ==> stack_items(*final(permutation)) == stack_items(*old(permutation)),
        go_on ==> stack_items(*final(remaining)) == stack_items(*old(remaining)),
        final(out)@.len() >= old(out)@.len(),
        unique ==> final(out)@.len() <= old(out)@.len() + 1,
        unique && go_on ==> final(out)@.len() == old(out)@.len(),
        !go_on ==> unique,
        decided(*judge) ==> {
            let all = orders(
                combination@,
                stack_items(*old(permutation)),
                stack_items(*old(remaining)),
                queue@,
                board.0,
                hold_allowed,
                unique,
                *judge,
            );
            solutions(final(out)@) == solutions(old(out)@) + all.0 && go_on == all.1
        },
        forall|i: int|
            0 <= i < final(out)@.len() ==> solves(
                (#[trigger] final(out)@[i])@,
                combination@,
                queue0,
                board0,
                hold_allowed,
                *judge,
            ),
    decreases stack_items(*old(remaining)).len(),
{
    let ghost played = stack_items(*permutation);
    let ghost others = stack_items(*remaining);
    let n = stack_len(remaining);
    if n == 0 {
        let sol = collect(combination, permutation);
        proof {
            assert(played + others =~= played);
            assert(names_all(played, combination@.len()) && ordered(played, combination@) == sol@);
        }
        let ghost fewer = out@;
        out.push(sol);
        assert(solutions(out@) =~= solutions(fewer) + seq![ordered(played, combination@)]);
        return !unique;
    }
    let ghost out0 = solutions(out@);
    let ghost all = orders_from(combination@, played, others, queue@, board.0, hold_allowed, unique, *judge, 0);
    assert(out0 + Seq::<Seq<Placement>>::empty() =~= out0);
    let mut i: usize = 0;
    while i < n
        invariant
            i <= n,
            n == others.len(),
            n >= 1,
            combination@.len() <= 15,
            forall|i: int| 0 <= i < combination@.len() ==> (#[trigger] combination@[i]).wf(),
            forall|b: BitBoard, p: Placement| p.wf() ==> call_requires(*judge, (b, p)),
            stack_items(*permutation) == played,
            stack_items(*remaining) == others,
            played == stack_items(*old(permutation)),
            others == stack_items(*old(remaining)),
            names_all(played + others, combination@.len()),
            queue.wf(),
            queue@ == queue_after(ordered(played, combination@), queue0),
            board.0 == board_after(ordered(played, combination@), board0),
            valid_order(ordered(played, combination@), queue0, board0, hold_allowed, *judge),
            out@.len() >= old(out)@.len(),
            unique ==> out@.len() == old(out)@.len(),
            out0 == solutions(old(out)@),
            all == orders_from(combination@, played, others, queue@, board.0, hold_allowed, unique, *judge, 0),
            others.len() > 0,
            decided(*judge) ==> {
                let rest = orders_from(
                    combination@,
                    played,
                    others,
                    queue@,
                    board.0,
                    hold_allowed,
                    unique,
                    *judge,
                    i as nat,
                );
                out0 + all.0 == solutions(out@) + rest.0 && all.1 == rest.1
            },
            forall|i: int|
                0 <= i < out@.len() ==> solves(
                    (#[trigger] out@[i])@,
                    combination@,
                    queue0,
                    board0,
                    hold_allowed,
                    *judge,
                ),
        decreases n - i,
    {
        let at = stack_get(remaining, i);
        assert((played + others)[played.len() + i] == at);
        let placement = combination[at as usize];
        let piece = placement.kind.piece();
        let ghost before = solutions(out@);
        let ghost rest = orders_from(combination@, played, others, queue@, board.0, hold_allowed, unique, *judge, i as nat);
        let ghost later = orders_from(
            combination@,
            played,
            others,
            queue@,
            board.0,
            hold_allowed,
            unique,
            *judge,
            (i + 1) as nat,
        );
        if queue.is_next(piece, hold_allowed) && placement.placeable(board) && judge(board, placement) {
            let new_board = board.combine(placement.board());
            let mut new_queue = queue;
            new_queue.remove(piece);
            stack_swap_remove(remaining, i);
            stack_push(permutation, at);
            proof {
                lemma_move(played, others, i as int, combination@.len());
                let done = ordered(played.push(at), combination@);
                assert(done.drop_last() =~= ordered(played, combination@));
                assert(done.last() == placement);
            }
            let go = solve(
                combination,
                permutation,
                new_queue,
                new_board,
                remaining,
                hold_allowed,
                unique,
                judge,
                out,
                Ghost(queue0),
                Ghost(board0),
            );
            proof {
                if decided(*judge) {
                    let below = orders(
                        combination@,
                        played.push(at),
                        others.update(i as int, others.last()).drop_last(),
                        after_remove(queue@, piece),
                        board.0 | placement.cells(),
                        hold_allowed,
                        unique,
                        *judge,
                    );
                    assert(solutions(out@) == before + below.0 && go == below.1);
                    if go {
                        assert(rest.0 == below.0 + later.0 && rest.1 == later.1);
                        assert(before + (below.0 + later.0) =~= (before + below.0) + later.0);
                    } else {
                        assert(rest == below);
                    }
                }
            }
            if !go {
                return false;
            }
            stack_pop(permutation);
            stack_push(remaining, at);
            let last_index = stack_len(remaining) - 1;
            stack_swap(remaining, i, last_index);
            assert(stack_items(*permutation) =~= played);
            assert(stack_items(*remaining) =~= others);
        } else {
            assert(decided(*judge) ==> rest == later);
        }
        i += 1;
    }
    proof {
        assert(solutions(out@) + Seq::<Seq<Placement>>::empty() =~= solutions(out@));
    }
    true
}

/// The orders in which the placements of `combination` can be played from
/// `queue` on `board`. With `unique` the search ends at the first one.
pub fn solve_placement_combo<F: Fn(BitBoard, Placement) -> bool>(
    queue: PieceSequence,
    board: BitBoard,
    combination: &[Placement],
    hold_allowed: bool,
    unique: bool,
    placeability_judge: &F,
) -> (r: Vec<Vec<Placement>>)
    requires
        queue.wf(),
        combination@.len() <= 15,
        forall|i: int| 0 <= i < combination@.len() ==> (#[trigger] combination@[i]).wf(),
        forall|b: BitBoard, p: Placement| p.wf() ==> call_requires(*placeability_judge, (b, p)),
    ensures
        unique ==> r@.len() <= 1,
        forall|i: int|
            0 <= i < r@.len() ==> solves(
                (#[trigger] r@[i])@,
                combination@,
                queue@,
                board.0,
                hold_allowed,
                *placeability_judge,
            ),
        decided(*placeability_judge) ==> solutions(r@) == all_orders(
            combination@,
            queue@,
            board.0,
            hold_allowed,
            unique,
            *placeability_judge,
        ),
{
    let mut remaining = stack_new();
    let mut i: usize = 0;
    while i < combination.len()
        invariant
            i <= combination@.len() <= 15,
            stack_items(remaining).len() == i,
            forall|k: int| 0 <= k < i ==> stack_items(remaining)[k] == k,
        decreases combination@.len() - i,
    {
        stack_push(&mut remaining, i as u8);
        i += 1;
    }
    let mut permutation = stack_new();
    let mut out: Vec<Vec<Placement>> = Vec::new();
    proof {
        assert(stack_items(permutation) + stack_items(remaining) =~= stack_items(remaining));
        assert(ordered(stack_items(permutation), combination@) =~= Seq::<Placement>::empty());
        assert(stack_items(remaining) =~= Seq::new(combination@.len(), |k: int| k as u8));
    }
    solve(
        combination,
        &mut permutation,
        queue,
        board,
        &mut remaining,
        hold_allowed,
        unique,
        placeability_judge,
        &mut out,
        Ghost(queue@),
        Ghost(board.0),
    );
    proof {
        let all = all_orders(combination@, queue@, board.0, hold_allowed, unique, *placeability_judge);
        assert(solutions(Seq::<Vec<Placement>>::empty()) + all =~= all);
    }
    out
}

/// The orders in which the solver finds the placements of `combo` playable,
/// in the order in which it finds them.
pub open spec fn all_orders<F: Fn(BitBoard, Placement) -> bool>(
    combo: Seq<Placement>,
    queue: Seq<Piece>,
    board: u64,
    hold_allowed: bool,
    unique: bool,
    judge: F,
) -> Seq<Seq<Placement>> {
    orders(
        combo,
        Seq::empty(),
        Seq::new(combo.len(), |k: int| k as u8),
        queue,
        board,
        hold_allowed,
        unique,
        judge,
    ).0
}

/// The orders in which the placements of `combination` can be played from
/// the first sixteen pieces of `queue` on `board`. The solver runs to its end
/// without looking at `abort`.
pub fn solve_placement_combination<F: Fn(BitBoard, Placement) -> bool>(
    queue: &[Piece],
    board: BitBoard,
    combination: &[Placement],
    hold_allowed: bool,
    unique: bool,
    abort: &AtomicBool,
    placeability_judge: F,
) -> (r: Vec<Vec<Placement>>)
    requires
        combination@.len() <= 15,
        forall|i: int| 0 <= i < combination@.len() ==> (#[trigger] combination@[i]).wf(),
        forall|b: BitBoard, p: Placement| p.wf() ==> call_requires(placeability_judge, (b, p)),
    ensures
        unique ==> r@.len() <= 1,
        forall|i: int|
            0 <= i < r@.len() ==> solves(
                (#[trigger] r@[i])@,
                combination@,
                upcoming(queue@, queue@.len()),
                board.0,
                hold_allowed,
                placeability_judge,
            ),
        decided(placeability_judge) ==> solutions(r@) == all_orders(
            combination@,
            upcoming(queue@, queue@.len()),
            board.0,
            hold_allowed,
            unique,
            placeability_judge,
        ),
{
    let sequence = PieceSequence::from_prefix(queue, queue.len());
    assert(sequence@ =~= upcoming(queue@, queue@.len()));
    solve_placement_combo(sequence, board, combination, hold_allowed, unique, &placeability_judge)
}

/// The first `n` pieces of `queue`, and no more than sixteen, in the order
/// in which a `PieceSequence` keeps them: the next piece last.
pub open spec fn upcoming(queue: Seq<Piece>, n: nat) -> Seq<Piece> {
    let len = if n <= queue.len() && n <= 16 {
        n
    } else if queue.len() <= 16 {
        queue.len()
    } else {
        16
    };
    Seq::new(len, |i: int| queue[len - 1 - i])
}

/// The number of rows from row 0 to the highest of the first `n` rows that
/// has a filled cell.
pub open spec fn top_row(board: u64, n: nat) -> nat
    decreases n,
{
    if n == 0 {
        0
    } else if row_bits(board, (n - 1) as nat) != 0 {
        n
    } else {
        top_row(board, (n - 1) as nat)
    }
}

/// The number of empty cells of `board` under `height`.
pub open spec fn empty_cells(board: u64, height: nat) -> nat {
    popcount(low_mask(10 * height) & !board)
}

/// The lowest height at which `board` may be cleared: over its highest
/// filled row, one more where the empty cells under that are two more than a
/// multiple of four, and 2 for the empty field. None where the empty cells
/// are odd in number.
pub open spec fn start_height(board: u64) -> Option<nat> {
    let top = top_row(board, 6);
    let unfilled = empty_cells(board, top);
    if unfilled % 2 != 0 {
        None
    } else {
        let h = if unfilled % 4 != 0 {
            top + 1
        } else {
            top
        };
        Some(if h == 0 { 2nat } else { h })
    }
}

/// The heights `from`, `from + 2` and so on up to 6, as far as the queue has
/// the pieces that fill the empty cells under them.
pub open spec fn heights_from(queue_len: nat, board: u64, from: nat) -> Seq<nat>
    decreases 8 - from,
{
    if from > 6 || queue_len < empty_cells(board, from) / 4 {
        Seq::empty()
    } else {
        seq![from] + heights_from(queue_len, board, from + 2)
    }
}

/// The heights at which a perfect clear is looked for, in their order.
pub open spec fn heights(queue_len: nat, board: u64) -> Seq<nat> {
    match start_height(board) {
        None => Seq::empty(),
        Some(h) => heights_from(queue_len, board, h),
    }
}

/// The pieces with which a clear at `height` is looked for: as many as fill
/// the empty cells, and one more where hold is allowed.
pub open spec fn pieces_for(queue: Seq<Piece>, board: u64, hold_allowed: bool, height: nat) -> Seq<Piece> {
    upcoming(queue, empty_cells(board, height) / 4 + (if hold_allowed { 1nat } else { 0nat }))
}

/// The queue for a search at `height`.
pub fn queue_for(queue: &[Piece], board: BitBoard, hold_allowed: bool, height: usize) -> (r: PieceSequence)
    requires
        height <= 6,
    ensures
        r.wf(),
        r@ == pieces_for(queue@, board.0, hold_allowed, height as nat),
{
    let unfilled = BitBoard::filled(height).remove(board).0.count_ones() as usize;
    let pieces = unfilled / 4;
    let extra: usize = if hold_allowed { 1 } else { 0 };
    let r = PieceSequence::from_prefix(queue, pieces + extra);
    assert(r@ =~= pieces_for(queue@, board.0, hold_allowed, height as nat));
    r
}

/// The heights at which a perfect clear is looked for, lowest first, each
/// with the queue for it.
pub fn solve_pc_prep(queue: &[Piece], board: BitBoard, hold_allowed: bool) -> (r: Vec<(PieceSequence, usize)>)
    ensures
        r@.len() == heights(queue@.len(), board.0).len(),
        forall|i: int|
            0 <= i < r@.len() ==> {
                &&& (#[trigger] r@[i]).1 == heights(queue@.len(), board.0)[i]
                &&& 1 <= r@[i].1 <= 6
                &&& r@[i].0.wf()
                &&& r@[i].0@ == pieces_for(queue@, board.0, hold_allowed, r@[i].1 as nat)
            },
{
    let mut out: Vec<(PieceSequence, usize)> = Vec::new();
    let mut lowest_height: usize = 0;
    let mut y: usize = 0;
    while y < 6
        invariant
            y <= 6,
            lowest_height == top_row(board.0, y as nat),
            lowest_height <= y,
        decreases 6 - y,
    {
        if (board.0 >> ((10 * y) as u64)) & 0x3ffu64 != 0 {
            lowest_height = y + 1;
        }
        y += 1;
    }
    let unfilled = BitBoard::filled(lowest_height).remove(board).0.count_ones() as usize;
    if unfilled % 2 != 0 {
        return out;
    } else if unfilled % 4 != 0 {
        lowest_height += 1;
    }
    if lowest_height == 0 {
        lowest_height = 2;
    }
    let ghost start = lowest_height as nat;
    let ghost all = heights_from(queue@.len(), board.0, start);
    let mut height = lowest_height;
    let mut enough = true;
    while height <= 6 && enough
        invariant
            1 <= height <= 8,
            heights(queue@.len(), board.0) == all,
            all == out@.map_values(|e: (PieceSequence, usize)| e.1 as nat) + (if enough {
                heights_from(queue@.len(), board.0, height as nat)
            } else {
                Seq::empty()
            }),
            forall|i: int|
                0 <= i < out@.len() ==> {
                    &&& 1 <= (#[trigger] out@[i]).1 <= 6
                    &&& out@[i].0.wf()
                    &&& out@[i].0@ == pieces_for(queue@, board.0, hold_allowed, out@[i].1 as nat)
                },
        decreases 8 - height + (if enough { 1int } else { 0int }),
    {
        let unfilled = BitBoard::filled(height).remove(board).0.count_ones() as usize;
        let pieces = unfilled / 4;
        if queue.len() < pieces {
            enough = false;
        } else {
            let ghost before = out@;
            out.push((queue_for(queue, board, hold_allowed, height), height));
            proof {
                let f = |e: (PieceSequence, usize)| e.1 as nat;
                assert(out@.map_values(f) =~= before.map_values(f).push(height as nat));
                assert(before.map_values(f).push(height as nat) + heights_from(
                    queue@.len(),
                    board.0,
                    (height + 2) as nat,
                ) =~= before.map_values(f) + (seq![height as nat] + heights_from(
                    queue@.len(),
                    board.0,
                    (height + 2) as nat,
                )));
            }
            height += 2;
        }
    }
    proof {
        let f = |e: (PieceSequence, usize)| e.1 as nat;
        assert(all =~= out@.map_values(f));
    }
    out
}

/// `sol` is a perfect clear of `board` at `height`: it tiles the empty cells
/// under `height`, and it is an order of a tiling that can be played from
/// the queue for that height.
pub open spec fn clears<F: Fn(BitBoard, Placement) -> bool>(
    sol: Seq<Placement>,
    queue: Seq<Piece>,
    board: u64,
    hold_allowed: bool,
    height: nat,
    judge: F,
) -> bool {
    &&& tiles(sol, board, height)
    &&& exists|combo: Seq<Placement>|
        {
            &&& tiles(combo, board, height)
            &&& #[trigger] solves(sol, combo, pieces_for(queue, board, hold_allowed, height), board, hold_allowed, judge)
        }
}

/// Each of `found` is a perfect clear of `board` at `height`.
pub open spec fn all_clear<F: Fn(BitBoard, Placement) -> bool>(
    found: Seq<Seq<Placement>>,
    queue: Seq<Piece>,
    board: u64,
    hold_allowed: bool,
    height: nat,
    judge: F,
) -> bool {
    forall|i: int| 0 <= i < found.len() ==> clears(#[trigger] found[i], queue, board, hold_allowed, height, judge)
}

/// The orders of the first `n` of the tilings `combos`, tiling after tiling.
/// A tiling of more than fifteen placements has none.
pub open spec fn orders_of<F: Fn(BitBoard, Placement) -> bool>(
    combos: Seq<Seq<Placement>>,
    n: nat,
    queue: Seq<Piece>,
    board: u64,
    hold_allowed: bool,
    unique: bool,
    judge: F,
) -> Seq<Seq<Placement>>
    decreases n,
{
    if n == 0 || n > combos.len() {
        Seq::empty()
    } else if combos[n - 1].len() <= 15 {
        orders_of(combos, (n - 1) as nat, queue, board, hold_allowed, unique, judge) + all_orders(
            combos[n - 1],
            queue,
            board,
            hold_allowed,
            unique,
            judge,
        )
    } else {
        orders_of(combos, (n - 1) as nat, queue, board, hold_allowed, unique, judge)
    }
}

/// The perfect clears of `board` at `height` that a search finds which is
/// not stopped, in its order: for each tiling of the enumerator, made of the
/// pieces of the queue for that height, the orders that the solver finds.
pub open spec fn clears_at<F: Fn(BitBoard, Placement) -> bool>(
    queue: Seq<Piece>,
    board: u64,
    hold_allowed: bool,
    unique: bool,
    height: nat,
    judge: F,
) -> Seq<Seq<Placement>> {
    let pieces = pieces_for(queue, board, hold_allowed, height);
    let combos = all_combinations(set_of(pieces), board, height);
    orders_of(combos, combos.len(), pieces, board, hold_allowed, unique, judge)
}

/// The clears at the first of the heights `hs`, from position `i` on, that
/// has one.
pub open spec fn first_clears<F: Fn(BitBoard, Placement) -> bool>(
    queue: Seq<Piece>,
    board: u64,
    hold_allowed: bool,
    unique: bool,
    judge: F,
    hs: Seq<nat>,
    i: nat,
) -> Seq<Seq<Placement>>
    decreases hs.len() - i,
{
    if i >= hs.len() {
        Seq::empty()
    } else {
        let found = clears_at(queue, board, hold_allowed, unique, hs[i as int], judge);
        if found.len() > 0 {
            found
        } else {
            first_clears(queue, board, hold_allowed, unique, judge, hs, i + 1)
        }
    }
}

/// The perfect clears that a search finds which is not stopped: those at the
/// lowest height that has one.
pub open spec fn perfect_clears<F: Fn(BitBoard, Placement) -> bool>(
    queue: Seq<Piece>,
    board: u64,
    hold_allowed: bool,
    unique: bool,
    judge: F,
) -> Seq<Seq<Placement>> {
    first_clears(queue, board, hold_allowed, unique, judge, heights(queue.len(), board), 0)
}

/// The perfect clears of `board` at `height`, as far as the search went
/// before `abort` was set: the orders of some of the tilings of the
/// enumerator, and of all of them where the enumerator has no placement to
/// try and so does not look at `abort`.
pub fn solve_pc_at_height<F: Fn(BitBoard, Placement) -> bool>(
    queue: &[Piece],
    board: BitBoard,
    hold_allowed: bool,
    unique: bool,
    abort: &AtomicBool,
    height: usize,
    placeability_judge: &F,
) -> (r: Vec<Vec<Placement>>)
    requires
        1 <= height <= 6,
        forall|b: BitBoard, p: Placement| p.wf() ==> call_requires(*placeability_judge, (b, p)),
    ensures
        forall|i: int|
            0 <= i < r@.len() ==> clears(
                (#[trigger] r@[i])@,
                queue@,
                board.0,
                hold_allowed,
                height as nat,
                *placeability_judge,
            ),
        decided(*placeability_judge) && !consults_at(queue@, board.0, hold_allowed, height as nat) ==> solutions(r@)
            == clears_at(queue@, board.0, hold_allowed, unique, height as nat, *placeability_judge),
        decided(*placeability_judge) ==> clears_of_some(
            solutions(r@),
            queue@,
            board.0,
            hold_allowed,
            unique,
            height as nat,
            *placeability_judge,
        ),
{
    let table = ShapeTable::new();
    solve_pc_at_height_in(&table, queue, board, hold_allowed, unique, abort, height, placeability_judge).0
}

/// `solve_pc_at_height` with a table that the caller has built. The second
/// result says whether the search came to its end without finding `abort`
/// set; with a judge that gives one answer for each question the clears are
/// then those of `clears_at`, in that order, and else the orders of some of
/// the tilings.
pub fn solve_pc_at_height_in<F: Fn(BitBoard, Placement) -> bool>(
    table: &ShapeTable,
    queue: &[Piece],
    board: BitBoard,
    hold_allowed: bool,
    unique: bool,
    abort: &AtomicBool,
    height: usize,
    placeability_judge: &F,
) -> (r: (Vec<Vec<Placement>>, bool))
    requires
        table.wf(),
        1 <= height <= 6,
        forall|b: BitBoard, p: Placement| p.wf() ==> call_requires(*placeability_judge, (b, p)),
    ensures
        forall|i: int|
            0 <= i < r.0@.len() ==> clears(
                (#[trigger] r.0@[i])@,
                queue@,
                board.0,
                hold_allowed,
                height as nat,
                *placeability_judge,
            ),
        r.1 && decided(*placeability_judge) ==> solutions(r.0@) == clears_at(
            queue@,
            board.0,
            hold_allowed,
            unique,
            height as nat,
            *placeability_judge,
        ),
        !r.1 ==> consults_at(queue@, board.0, hold_allowed, height as nat),
        decided(*placeability_judge) ==> clears_of_some(
            solutions(r.0@),
            queue@,
            board.0,
            hold_allowed,
            unique,
            height as nat,
            *placeability_judge,
        ),
{
    let sequence = queue_for(queue, board, hold_allowed, height);
    search_height(table, sequence, queue, board, hold_allowed, unique, abort, height, placeability_judge)
}

/// The enumerator and then the solver, at one height: the orders that the
/// solver finds of each tiling that the enumerator returned, and whether the
/// enumerator came to its end.
fn search_height<F: Fn(BitBoard, Placement) -> bool>(
    table: &ShapeTable,
    sequence: PieceSequence,
    queue: &[Piece],
    board: BitBoard,
    hold_allowed: bool,
    unique: bool,
    abort: &AtomicBool,
    height: usize,
    placeability_judge: &F,
) -> (r: (Vec<Vec<Placement>>, bool))
    requires
        table.wf(),
        1 <= height <= 6,
        sequence.wf(),
        sequence@ == pieces_for(queue@, board.0, hold_allowed, height as nat),
        forall|b: BitBoard, p: Placement| p.wf() ==> call_requires(*placeability_judge, (b, p)),
    ensures
        forall|i: int|
            0 <= i < r.0@.len() ==> clears(
                (#[trigger] r.0@[i])@,
                queue@,
                board.0,
                hold_allowed,
                height as nat,
                *placeability_judge,
            ),
        r.1 && decided(*placeability_judge) ==> solutions(r.0@) == clears_at(
            queue@,
            board.0,
            hold_allowed,
            unique,
            height as nat,
            *placeability_judge,
        ),
        !r.1 ==> consults_at(queue@, board.0, hold_allowed, height as nat),
        decided(*placeability_judge) ==> clears_of_some(
            solutions(r.0@),
            queue@,
            board.0,
            hold_allowed,
            unique,
            height as nat,
            *placeability_judge,
        ),
{
    let mut out: Vec<Vec<Placement>> = Vec::new();
    let (combos, completed) = find_combinations_in(table, sequence.to_set(), board, abort, height);
    let ghost all = views(combos@);
    let ghost full = all_combinations(set_of(sequence@), board.0, height as nat);
    assert(some_of(all, full));
    assert(!completed ==> consults_at(queue@, board.0, hold_allowed, height as nat));
    let mut c: usize = 0;
    assert(solutions(out@) =~= Seq::<Seq<Placement>>::empty());
    while c < combos.len()
        invariant
            c <= combos@.len(),
            sequence.wf(),
            sequence@ == pieces_for(queue@, board.0, hold_allowed, height as nat),
            forall|b: BitBoard, p: Placement| p.wf() ==> call_requires(*placeability_judge, (b, p)),
            forall|i: int| 0 <= i < combos@.len() ==> tiles((#[trigger] combos@[i])@, board.0, height as nat),
            all == views(combos@),
            some_of(all, all_combinations(set_of(sequence@), board.0, height as nat)),
            !completed ==> consults_at(queue@, board.0, hold_allowed, height as nat),
            forall|i: int|
                0 <= i < out@.len() ==> clears(
                    (#[trigger] out@[i])@,
                    queue@,
                    board.0,
                    hold_allowed,
                    height as nat,
                    *placeability_judge,
                ),
            decided(*placeability_judge) ==> solutions(out@) == orders_of(
                all,
                c as nat,
                sequence@,
                board.0,
                hold_allowed,
                unique,
                *placeability_judge,
            ),
        decreases combos@.len() - c,
    {
        let combo = &combos[c];
        assert(all[c as int] == combo@);
        if combo.len() <= 15 {
            let found = solve_placement_combo(
                sequence,
                board,
                combo.as_slice(),
                hold_allowed,
                unique,
                placeability_judge,
            );
            let ghost before = solutions(out@);
            let mut k: usize = 0;
            assert(before + solutions(found@).take(0) =~= before);
            while k < found.len()
                invariant
                    k <= found@.len(),
                    tiles(combo@, board.0, height as nat),
                    forall|i: int|
                        0 <= i < found@.len() ==> solves(
                            (#[trigger] found@[i])@,
                            combo@,
                            sequence@,
                            board.0,
                            hold_allowed,
                            *placeability_judge,
                        ),
                    sequence@ == pieces_for(queue@, board.0, hold_allowed, height as nat),
                    forall|i: int|
                        0 <= i < out@.len() ==> clears(
                            (#[trigger] out@[i])@,
                            queue@,
                            board.0,
                            hold_allowed,
                            height as nat,
                            *placeability_judge,
                        ),
                    solutions(out@) == before + solutions(found@).take(k as int),
                decreases found@.len() - k,
            {
                let sol = copy_placements(&found[k]);
                let ghost fewer = solutions(out@);
                proof {
                    lemma_order_tiles(found@[k as int]@, combo@, board.0, height as nat);
                }
                out.push(sol);
                assert(solutions(out@) =~= fewer.push(found@[k as int]@));
                assert(before + solutions(found@).take(k + 1) =~= (before + solutions(found@).take(k as int)).push(
                    found@[k as int]@,
                ));
                k += 1;
            }
            assert(solutions(found@).take(found@.len() as int) =~= solutions(found@));
        }
        c += 1;
    }
    proof {
        if decided(*placeability_judge) {
            assert(orders_of_some(
                solutions(out@),
                all,
                queue@,
                board.0,
                hold_allowed,
                unique,
                height as nat,
                *placeability_judge,
            ));
        }
    }
    (out, completed)
}

/// The perfect clears of `board` at the lowest height that has one, as far
/// as the search went before `abort` was set. All results are of one height.
/// Where no height is searched, or the enumerator has no placement to try at
/// any, `abort` is not looked at and the result is that of `perfect_clears`.
pub fn solve_pc<F: Fn(BitBoard, Placement) -> bool>(
    queue: &[Piece],
    board: BitBoard,
    hold_allowed: bool,
    unique: bool,
    abort: &AtomicBool,
    placeability_judge: F,
) -> (r: Vec<Vec<Placement>>)
    requires
        forall|b: BitBoard, p: Placement| p.wf() ==> call_requires(placeability_judge, (b, p)),
    ensures
        r@.len() > 0 ==> exists|k: int|
            0 <= k < heights(queue@.len(), board.0).len() && #[trigger] all_clear(
                solutions(r@),
                queue@,
                board.0,
                hold_allowed,
                heights(queue@.len(), board.0)[k],
                placeability_judge,
            ),
        decided(placeability_judge) && !consults_any(
            queue@,
            board.0,
            hold_allowed,
            heights(queue@.len(), board.0),
        ) ==> solutions(r@) == perfect_clears(queue@, board.0, hold_allowed, unique, placeability_judge),
        decided(placeability_judge) && r@.len() > 0 ==> clears_of_some_at(
            solutions(r@),
            queue@,
            board.0,
            hold_allowed,
            unique,
            heights(queue@.len(), board.0),
            placeability_judge,
        ),
{
    let table = ShapeTable::new();
    solve_pc_in(&table, queue, board, hold_allowed, unique, abort, &placeability_judge).0
}

/// `solve_pc` with a table that the caller has built. The second result says
/// whether every search came to its end without finding `abort` set; with a
/// judge that gives one answer for each question the clears are then those
/// of `perfect_clears`, in that order, and else the orders of some of the
/// tilings at one height.
pub fn solve_pc_in<F: Fn(BitBoard, Placement) -> bool>(
    table: &ShapeTable,
    queue: &[Piece],
    board: BitBoard,
    hold_allowed: bool,
    unique: bool,
    abort: &AtomicBool,
    placeability_judge: &F,
) -> (r: (Vec<Vec<Placement>>, bool))
    requires
        table.wf(),
        forall|b: BitBoard, p: Placement| p.wf() ==> call_requires(*placeability_judge, (b, p)),
    ensures
        r.0@.len() > 0 ==> exists|k: int|
            0 <= k < heights(queue@.len(), board.0).len() && #[trigger] all_clear(
                solutions(r.0@),
                queue@,
                board.0,
                hold_allowed,
                heights(queue@.len(), board.0)[k],
                *placeability_judge,
            ),
        r.1 && decided(*placeability_judge) ==> solutions(r.0@) == perfect_clears(
            queue@,
            board.0,
            hold_allowed,
            unique,
            *placeability_judge,
        ),
        !r.1 ==> consults_any(queue@, board.0, hold_allowed, heights(queue@.len(), board.0)),
        decided(*placeability_judge) && r.0@.len() > 0 ==> clears_of_some_at(
            solutions(r.0@),
            queue@,
            board.0,
            hold_allowed,
            unique,
            heights(queue@.len(), board.0),
            *placeability_judge,
        ),
{
    let attempts = solve_pc_prep(queue, board, hold_allowed);
    let ghost hs = heights(queue@.len(), board.0);
    let mut completed = true;
    let mut a: usize = 0;
    while a < attempts.len()
        invariant
            a <= attempts@.len(),
            table.wf(),
            hs == heights(queue@.len(), board.0),
            attempts@.len() == hs.len(),
            forall|i: int|
                0 <= i < attempts@.len() ==> {
                    &&& (#[trigger] attempts@[i]).1 == hs[i]
                    &&& 1 <= attempts@[i].1 <= 6
                    &&& attempts@[i].0.wf()
                    &&& attempts@[i].0@ == pieces_for(queue@, board.0, hold_allowed, attempts@[i].1 as nat)
                },
            forall|b: BitBoard, p: Placement| p.wf() ==> call_requires(*placeability_judge, (b, p)),
            completed && decided(*placeability_judge) ==> perfect_clears(
                queue@,
                board.0,
                hold_allowed,
                unique,
                *placeability_judge,
            ) == first_clears(queue@, board.0, hold_allowed, unique, *placeability_judge, hs, a as nat),
            !completed ==> consults_any(queue@, board.0, hold_allowed, hs),
        decreases attempts@.len() - a,
    {
        let sequence = attempts[a].0;
        let height = attempts[a].1;
        let (found, done) = search_height(
            table,
            sequence,
            queue,
            board,
            hold_allowed,
            unique,
            abort,
            height,
            placeability_judge,
        );
        if !done {
            completed = false;
            assert(consults_at(queue@, board.0, hold_allowed, hs[a as int]));
        }
        if found.len() > 0 {
            assert(hs[a as int] == height);
            assert(decided(*placeability_judge) ==> clears_of_some(
                solutions(found@),
                queue@,
                board.0,
                hold_allowed,
                unique,
                hs[a as int],
                *placeability_judge,
            ));
            assert(all_clear(solutions(found@), queue@, board.0, hold_allowed, hs[a as int], *placeability_judge));
            return (found, completed);
        }
        a += 1;
    }
    let none: Vec<Vec<Placement>> = Vec::new();
    assert(solutions(none@) =~= Seq::<Seq<Placement>>::empty());
    (none, completed)
}

/// The placements that `tail` names can be played in that order from
/// `queue` on `board`, each accepted by the judge.
pub open spec fn playable<F: Fn(BitBoard, Placement) -> bool>(
    combo: Seq<Placement>,
    tail: Seq<u8>,
    queue: Seq<Piece>,
    board: u64,
    hold_allowed: bool,
    judge: F,
) -> bool
    decreases tail.len(),
{
    if tail.len() == 0 {
        true
    } else {
        let p = combo[tail[0] as int];
        let piece = p.kind.shape.spec_info().piece;
        &&& next_ok(queue, piece, hold_allowed)
        &&& p.spec_placeable(board)
        &&& call_ensures(judge, (BitBoard(board), p), true)
        &&& playable(combo, tail.drop_first(), after_remove(queue, piece), board | p.cells(), hold_allowed, judge)
    }
}

/// `tail` names what `rem` names, each once.
pub open spec fn rearranges(tail: Seq<u8>, rem: Seq<u8>) -> bool {
    &&& tail.len() == rem.len()
    &&& tail.no_duplicates()
    &&& rem.no_duplicates()
    &&& forall|i: int| 0 <= i < tail.len() ==> rem.contains(#[trigger] tail[i])
}

/// A search for every solution never ends early.
pub proof fn lemma_goes_on<F: Fn(BitBoard, Placement) -> bool>(
    combo: Seq<Placement>,
    perm: Seq<u8>,
    rem: Seq<u8>,
    queue: Seq<Piece>,
    board: u64,
    hold_allowed: bool,
    judge: F,
)
    ensures
        orders(combo, perm, rem, queue, board, hold_allowed, false, judge).1,
    decreases rem.len(), 1nat, 0nat,
{
    if rem.len() > 0 {
        lemma_goes_on_from(combo, perm, rem, queue, board, hold_allowed, judge, 0);
    }
}

/// The same from position `i` on.
pub proof fn lemma_goes_on_from<F: Fn(BitBoard, Placement) -> bool>(
    combo: Seq<Placement>,
    perm: Seq<u8>,
    rem: Seq<u8>,
    queue: Seq<Piece>,
    board: u64,
    hold_allowed: bool,
    judge: F,
    i: nat,
)
    ensures
        orders_from(combo, perm, rem, queue, board, hold_allowed, false, judge, i).1,
    decreases rem.len(), 0nat, rem.len() - i,
{
    if i < rem.len() {
        let p = combo[rem[i as int] as int];
        let piece = p.kind.shape.spec_info().piece;
        lemma_goes_on(
            combo,
            perm.push(rem[i as int]),
            rem.update(i as int, rem.last()).drop_last(),
            after_remove(queue, piece),
            board | p.cells(),
            hold_allowed,
            judge,
        );
        lemma_goes_on_from(combo, perm, rem, queue, board, hold_allowed, judge, i + 1);
    }
}

/// What the search finds below the placement at position `i`, where that
/// placement passes, is among what it finds from any position up to `i`.
pub proof fn lemma_found_from<F: Fn(BitBoard, Placement) -> bool>(
    combo: Seq<Placement>,
    perm: Seq<u8>,
    rem: Seq<u8>,
    queue: Seq<Piece>,
    board: u64,
    hold_allowed: bool,
    judge: F,
    from: nat,
    i: nat,
    sol: Seq<Placement>,
)
    requires
        from <= i < rem.len(),
        ({
            let p = combo[rem[i as int] as int];
            let piece = p.kind.shape.spec_info().piece;
            &&& next_ok(queue, piece, hold_allowed)
            &&& p.spec_placeable(board)
            &&& call_ensures(judge, (BitBoard(board), p), true)
            &&& orders(
                combo,
                perm.push(rem[i as int]),
                rem.update(i as int, rem.last()).drop_last(),
                after_remove(queue, piece),
                board | p.cells(),
                hold_allowed,
                false,
                judge,
            ).0.contains(sol)
        }),
    ensures
        orders_from(combo, perm, rem, queue, board, hold_allowed, false, judge, from).0.contains(sol),
    decreases i - from,
{
    let here = orders_from(combo, perm, rem, queue, board, hold_allowed, false, judge, from);
    let later = orders_from(combo, perm, rem, queue, board, hold_allowed, false, judge, from + 1);
    let p = combo[rem[from as int] as int];
    let piece = p.kind.shape.spec_info().piece;
    let below = orders(
        combo,
        perm.push(rem[from as int]),
        rem.update(from as int, rem.last()).drop_last(),
        after_remove(queue, piece),
        board | p.cells(),
        hold_allowed,
        false,
        judge,
    );
    let passes = next_ok(queue, piece, hold_allowed) && p.spec_placeable(board) && call_ensures(
        judge,
        (BitBoard(board), p),
        true,
    );
    if passes {
        lemma_goes_on(
            combo,
            perm.push(rem[from as int]),
            rem.update(from as int, rem.last()).drop_last(),
            after_remove(queue, piece),
            board | p.cells(),
            hold_allowed,
            judge,
        );
        assert(here.0 == below.0 + later.0);
    } else {
        assert(here == later);
    }
    if from == i {
        let k = choose|k: int| 0 <= k < below.0.len() && below.0[k] == sol;
        assert(here.0[k] == sol);
    } else {
        lemma_found_from(combo, perm, rem, queue, board, hold_allowed, judge, from + 1, i, sol);
        let k = choose|k: int| 0 <= k < later.0.len() && later.0[k] == sol;
        if passes {
            assert(here.0[below.0.len() + k] == sol);
        } else {
            assert(here.0[k] == sol);
        }
    }
}

/// The solver finds every order that can be played: where `tail` names the
/// placements that are left, each once, in an order in which they can be
/// played, the search for every solution finds the placements played so far
/// followed by those of `tail`.
pub proof fn lemma_finds_playable<F: Fn(BitBoard, Placement) -> bool>(
    combo: Seq<Placement>,
    perm: Seq<u8>,
    rem: Seq<u8>,
    tail: Seq<u8>,
    queue: Seq<Piece>,
    board: u64,
    hold_allowed: bool,
    judge: F,
)
    requires
        rearranges(tail, rem),
        playable(combo, tail, queue, board, hold_allowed, judge),
    ensures
        orders(combo, perm, rem, queue, board, hold_allowed, false, judge).0.contains(ordered(perm + tail, combo)),
    decreases rem.len(),
{
    let all = orders(combo, perm, rem, queue, board, hold_allowed, false, judge);
    let sol = ordered(perm + tail, combo);
    if rem.len() == 0 {
        assert(perm + tail =~= perm);
        assert(all.0[0] == sol);
    } else {
        let first = tail[0];
        let i = choose|i: int| 0 <= i < rem.len() && rem[i] == first;
        let p = combo[first as int];
        let piece = p.kind.shape.spec_info().piece;
        let fewer = rem.update(i, rem.last()).drop_last();
        let rest = tail.drop_first();
        assert forall|k: int| 0 <= k < rest.len() implies fewer.contains(#[trigger] rest[k]) by {
            let v = rest[k];
            assert(v == tail[k + 1]);
            assert(rem.contains(tail[k + 1]));
            let j = choose|j: int| 0 <= j < rem.len() && rem[j] == v;
            assert(tail[0] != tail[k + 1]);
            if j == rem.len() - 1 {
                assert(fewer[i] == v);
            } else {
                assert(fewer[j] == v);
            }
        }
        assert(rearranges(rest, fewer));
        lemma_finds_playable(
            combo,
            perm.push(first),
            fewer,
            rest,
            after_remove(queue, piece),
            board | p.cells(),
            hold_allowed,
            judge,
        );
        assert(perm.push(first) + rest =~= perm + tail);
        lemma_found_from(combo, perm, rem, queue, board, hold_allowed, judge, 0, i as nat, sol);
    }
}

/// What is left of a valid order when its last placements are taken away is
/// a valid order.
pub proof fn lemma_valid_prefix<F: Fn(BitBoard, Placement) -> bool>(
    done: Seq<Placement>,
    k: int,
    queue: Seq<Piece>,
    board: u64,
    hold_allowed: bool,
    judge: F,
)
    requires
        0 <= k <= done.len(),
        valid_order(done, queue, board, hold_allowed, judge),
    ensures
        valid_order(done.take(k), queue, board, hold_allowed, judge),
    decreases done.len(),
{
    if k == done.len() {
        assert(done.take(k) =~= done);
    } else {
        assert(done.drop_last().take(k) =~= done.take(k));
        lemma_valid_prefix(done.drop_last(), k, queue, board, hold_allowed, judge);
    }
}

/// The end of a valid order can be played from where its beginning leaves
/// the queue and the field.
pub proof fn lemma_valid_is_playable<F: Fn(BitBoard, Placement) -> bool>(
    combo: Seq<Placement>,
    head: Seq<u8>,
    tail: Seq<u8>,
    queue: Seq<Piece>,
    board: u64,
    hold_allowed: bool,
    judge: F,
)
    requires
        valid_order(ordered(head + tail, combo), queue, board, hold_allowed, judge),
    ensures
        playable(
            combo,
            tail,
            queue_after(ordered(head, combo), queue),
            board_after(ordered(head, combo), board),
            hold_allowed,
            judge,
        ),
    decreases tail.len(),
{
    if tail.len() > 0 {
        let whole = ordered(head + tail, combo);
        let more = head.push(tail[0]);
        let upto = ordered(more, combo);
        assert(whole.take(more.len() as int) =~= upto);
        lemma_valid_prefix(whole, more.len() as int, queue, board, hold_allowed, judge);
        assert(upto.drop_last() =~= ordered(head, combo));
        assert(upto.last() == combo[tail[0] as int]);
        assert(more + tail.drop_first() =~= head + tail);
        lemma_valid_is_playable(combo, more, tail.drop_first(), queue, board, hold_allowed, judge);
    }
}

/// The solver is complete: an order of the placements of `combo` that is
/// valid for the queue, the field and the judge is among the orders that the
/// search for every solution finds.
pub proof fn lemma_solver_complete<F: Fn(BitBoard, Placement) -> bool>(
    combo: Seq<Placement>,
    idx: Seq<u8>,
    queue: Seq<Piece>,
    board: u64,
    hold_allowed: bool,
    judge: F,
)
    requires
        combo.len() <= 15,
        names_all(idx, combo.len()),
        valid_order(ordered(idx, combo), queue, board, hold_allowed, judge),
    ensures
        all_orders(combo, queue, board, hold_allowed, false, judge).contains(ordered(idx, combo)),
{
    let none = Seq::<u8>::empty();
    let rem = Seq::new(combo.len(), |k: int| k as u8);
    assert(none + idx =~= idx);
    assert(ordered(none, combo) =~= Seq::<Placement>::empty());
    lemma_valid_is_playable(combo, none, idx, queue, board, hold_allowed, judge);
    assert forall|i: int| 0 <= i < idx.len() implies rem.contains(#[trigger] idx[i]) by {
        assert(rem[idx[i] as int] == idx[i]);
    }
    assert(rearranges(idx, rem));
    lemma_finds_playable(combo, none, rem, idx, queue, board, hold_allowed, judge);
}

/// Whether the search at `height` comes to look at the flag that stops it:
/// whether the enumerator has a placement to try at all.
pub open spec fn consults_at(queue: Seq<Piece>, board: u64, hold_allowed: bool, height: nat) -> bool {
    consults(board, set_of(pieces_for(queue, board, hold_allowed, height)), height)
}

/// Whether the search at one of the heights `hs` looks at the flag.
pub open spec fn consults_any(queue: Seq<Piece>, board: u64, hold_allowed: bool, hs: Seq<nat>) -> bool {
    exists|k: int| 0 <= k < hs.len() && #[trigger] consults_at(queue, board, hold_allowed, hs[k])
}

/// `found` holds the orders of `combos`, tiling after tiling, and `combos`
/// are some of the tilings of the enumerator at `height`, in their order.
pub open spec fn orders_of_some<F: Fn(BitBoard, Placement) -> bool>(
    found: Seq<Seq<Placement>>,
    combos: Seq<Seq<Placement>>,
    queue: Seq<Piece>,
    board: u64,
    hold_allowed: bool,
    unique: bool,
    height: nat,
    judge: F,
) -> bool {
    let pieces = pieces_for(queue, board, hold_allowed, height);
    &&& some_of(combos, all_combinations(set_of(pieces), board, height))
    &&& found == orders_of(combos, combos.len(), pieces, board, hold_allowed, unique, judge)
}

/// What a search at `height` returns that was stopped at times: the orders
/// that the solver finds, all of them, of some of the tilings of the
/// enumerator.
pub open spec fn clears_of_some<F: Fn(BitBoard, Placement) -> bool>(
    found: Seq<Seq<Placement>>,
    queue: Seq<Piece>,
    board: u64,
    hold_allowed: bool,
    unique: bool,
    height: nat,
    judge: F,
) -> bool {
    exists|combos: Seq<Seq<Placement>>| #[trigger]
        orders_of_some(found, combos, queue, board, hold_allowed, unique, height, judge)
}

/// The same at one of the heights `hs`.
pub open spec fn clears_of_some_at<F: Fn(BitBoard, Placement) -> bool>(
    found: Seq<Seq<Placement>>,
    queue: Seq<Piece>,
    board: u64,
    hold_allowed: bool,
    unique: bool,
    hs: Seq<nat>,
    judge: F,
) -> bool {
    exists|k: int|
        0 <= k < hs.len() && #[trigger] clears_of_some(found, queue, board, hold_allowed, unique, hs[k], judge)
}

} // verus!
