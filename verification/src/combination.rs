//! The enumerator: every set of placements that fills the empty cells under
//! a height, whatever the order in which the pieces come.

use vstd::prelude::*;
use std::sync::atomic::AtomicBool;
use crate::bits::{lemma_meet_commutes, lemma_nothing, lemma_rest_is_cover};
use crate::board::{low_mask, popcount, BitBoard};
use crate::cancel::abort_requested;
use crate::piece::{lemma_without, Piece, PieceSet};
use crate::placement::Placement;
use crate::board::common_columns;
use crate::table::{all_states, bucket, lemma_bucket_complete, lemma_bucket_sorted, ShapeTable};

verus! {

/// The cells that the placements cover, all together.
pub open spec fn covered(ps: Seq<Placement>) -> u64
    decreases ps.len(),
{
    if ps.len() == 0 {
        0
    } else {
        covered(ps.drop_last()) | ps.last().cells()
    }
}

/// No two of the placements share a cell.
pub open spec fn pairwise_disjoint(ps: Seq<Placement>) -> bool {
    forall|i: int, j: int| 0 <= i < j < ps.len() ==> #[trigger] ps[i].cells() & #[trigger] ps[j].cells() == 0
}

/// How many of the placements are of kind `k`.
pub open spec fn kind_count(ps: Seq<Placement>, k: Piece) -> nat
    decreases ps.len(),
{
    if ps.len() == 0 {
        0
    } else {
        kind_count(ps.drop_last(), k) + (if ps.last().kind.shape.spec_info().piece == k { 1nat } else { 0nat })
    }
}

/// The placements are well-formed, share no cell with each other, and cover
/// exactly the cells below `height` that are empty in `board`.
pub open spec fn tiles(ps: Seq<Placement>, board: u64, height: nat) -> bool {
    &&& forall|i: int| 0 <= i < ps.len() ==> (#[trigger] ps[i]).wf()
    &&& pairwise_disjoint(ps)
    &&& covered(ps) == low_mask(10 * height) & !board
}

/// The placements take no more pieces of any kind than `set` holds.
pub open spec fn within(ps: Seq<Placement>, set: PieceSet) -> bool {
    forall|k: Piece| #[trigger] kind_count(ps, k) <= set.count(k)
}

/// The absolute difference of two counts.
pub open spec fn gap(a: nat, b: nat) -> nat {
    if a >= b {
        (a - b) as nat
    } else {
        (b - a) as nat
    }
}

/// The cells of the even columns.
pub open spec fn even_columns() -> u64 {
    0b0101010101_0101010101_0101010101_0101010101_0101010101_0101010101u64
}

/// Half the difference between the filled cells in even and in odd columns.
pub open spec fn column_parity(board: u64) -> nat {
    gap(popcount(board & even_columns()), popcount(board & !even_columns())) / 2
}

/// How far the pieces of `set` can move the column parity: L, J and T by one
/// each, I by two.
pub open spec fn parity_reach(set: PieceSet) -> nat {
    set.count(Piece::L) + set.count(Piece::J) + set.count(Piece::T) + 2 * set.count(Piece::I)
}

/// How many of the pieces still to be placed must be L or J, for want of others.
pub open spec fn forced_changes(board: u64, set: PieceSet, height: nat) -> nat {
    let pieces = popcount(low_mask(10 * height) & !board) / 4;
    let others = set.count(Piece::S) + set.count(Piece::Z) + set.count(Piece::T) + set.count(Piece::I) + set.count(
        Piece::O,
    );
    if others >= pieces {
        0
    } else {
        (pieces - others) as nat
    }
}

/// Whether the pieces of `set` may still even out the columns of `board`:
/// the parity is within their reach, and where every change that they can
/// make is forced, the forced changes and the parity are both even or both odd.
pub open spec fn parity_ok(board: u64, set: PieceSet, height: nat) -> bool {
    let parity = column_parity(board);
    let reach = parity_reach(set);
    let forced = forced_changes(board, set, height);
    parity <= reach && !(reach == forced && (parity + forced) % 2 != 0)
}

/// What one look at each of the first `n` placements adds to `supports`: a
/// placement that shares no cell with the supports, finds the rows that it
/// hurdles full in them and rests on one of them, joins them.
pub open spec fn settle_pass(supports: u64, ps: Seq<Placement>, n: nat) -> u64
    decreases n,
{
    if n == 0 || n > ps.len() {
        supports
    } else {
        let prev = settle_pass(supports, ps, (n - 1) as nat);
        let p = ps[n - 1];
        if prev & p.cells() == 0 && p.spec_supported(prev) {
            prev | p.cells()
        } else {
            prev
        }
    }
}

/// The supports after `rounds` passes over the placements.
pub open spec fn settle(supports: u64, ps: Seq<Placement>, rounds: nat) -> u64
    decreases rounds,
{
    if rounds == 0 {
        supports
    } else {
        settle_pass(settle(supports, ps, (rounds - 1) as nat), ps, ps.len())
    }
}

/// Whether some placements can never come to rest: after as many passes as
/// there are placements the supports are not the whole field under `height`.
pub open spec fn cyclic(inverse_placed: u64, ps: Seq<Placement>, height: nat) -> bool {
    settle(inverse_placed, ps, ps.len()) != low_mask(10 * height)
}

/// Once a pass adds nothing, no later pass does.
pub proof fn lemma_settle_stable(supports: u64, ps: Seq<Placement>, r: nat, k: nat)
    requires
        settle_pass(settle(supports, ps, r), ps, ps.len()) == settle(supports, ps, r),
    ensures
        settle(supports, ps, r + k) == settle(supports, ps, r),
    decreases k,
{
    if k > 0 {
        lemma_settle_stable(supports, ps, r, (k - 1) as nat);
    }
}

/// Whether the placements depend on each other in a circle. The cells that
/// no placement covers count as support from the start.
pub fn has_cyclic_dependency(inverse_placed: BitBoard, placements: &[Placement], height: usize) -> (r: bool)
    requires
        height <= 6,
        forall|i: int| 0 <= i < placements@.len() ==> (#[trigger] placements@[i]).x < 64,
    ensures
        r == cyclic(inverse_placed.0, placements@, height as nat),
{
    let n = placements.len();
    let mut supports = inverse_placed;
    let mut round: usize = 0;
    let mut stable = false;
    while round < n && !stable
        invariant
            n == placements@.len(),
            round <= n,
            forall|i: int| 0 <= i < placements@.len() ==> (#[trigger] placements@[i]).x < 64,
            supports.0 == settle(inverse_placed.0, placements@, round as nat),
            stable ==> settle_pass(supports.0, placements@, n as nat) == supports.0,
        decreases n - round + (if stable { 0int } else { 1int }),
    {
        let before = supports;
        let mut i: usize = 0;
        while i < n
            invariant
                n == placements@.len(),
                i <= n,
                forall|i: int| 0 <= i < placements@.len() ==> (#[trigger] placements@[i]).x < 64,
                supports.0 == settle_pass(before.0, placements@, i as nat),
            decreases n - i,
        {
            let p = placements[i];
            let piece_board = p.board();
            if !supports.overlaps(piece_board) && p.supported_without_clears(supports) {
                supports = supports.combine(piece_board);
            }
            i += 1;
        }
        if supports.0 == before.0 {
            stable = true;
        } else {
            round += 1;
        }
    }
    proof {
        if stable {
            lemma_settle_stable(inverse_placed.0, placements@, round as nat, (n - round) as nat);
        }
    }
    supports.0 != BitBoard::filled(height).0
}

/// Whether the pieces that are left may still even out the columns.
pub fn vertical_parity_ok(board: BitBoard, remaining: PieceSet, height: usize) -> (r: bool)
    requires
        height <= 6,
    ensures
        r == parity_ok(board.0, remaining, height as nat),
{
    let remaining_pieces: u32 = BitBoard::filled(height).remove(board).0.count_ones() / 4;
    let available_non_lj: u32 = remaining.0[0] as u32 + remaining.0[1] as u32 + remaining.0[4] as u32
        + remaining.0[6] as u32 + remaining.0[5] as u32;
    let even_columns: u64 = 0b0101010101_0101010101_0101010101_0101010101_0101010101_0101010101u64;
    let even: u32 = (board.0 & even_columns).count_ones();
    let odd: u32 = (board.0 & !even_columns).count_ones();
    let vertical_parity: u32 = (if even >= odd { even - odd } else { odd - even }) / 2;
    let can_change: u32 = remaining.0[3] as u32 + remaining.0[2] as u32 + remaining.0[4] as u32 + 2
        * (remaining.0[6] as u32);
    if vertical_parity > can_change {
        return false;
    }
    let must_change: u32 = if available_non_lj >= remaining_pieces {
        0
    } else {
        remaining_pieces - available_non_lj
    };
    !(can_change == must_change && (vertical_parity + must_change) % 2 != 0)
}

/// Each placement's cells are among the covered ones.
pub proof fn lemma_covered_contains(ps: Seq<Placement>, i: int)
    requires
        0 <= i < ps.len(),
    ensures
        covered(ps) & ps[i].cells() == ps[i].cells(),
    decreases ps.len(),
{
    let c = ps[i].cells();
    let rest = covered(ps.drop_last());
    let last = ps.last().cells();
    if i == ps.len() - 1 {
        assert((rest | c) & c == c) by (bit_vector);
    } else {
        lemma_covered_contains(ps.drop_last(), i);
        assert(rest & c == c ==> (rest | last) & c == c) by (bit_vector);
    }
}

/// A placement that shares no cell with the field, put after placements that
/// fill part of it, keeps them disjoint and their cover apart from the cells
/// that were filled at the start.
pub proof fn lemma_extend(ps: Seq<Placement>, p: Placement, initial: u64, board: u64)
    requires
        pairwise_disjoint(ps),
        board == initial | covered(ps),
        initial & covered(ps) == 0,
        p.cells() & board == 0,
    ensures
        pairwise_disjoint(ps.push(p)),
        covered(ps.push(p)) == covered(ps) | p.cells(),
        (p.cells() | board) == initial | covered(ps.push(p)),
        initial & covered(ps.push(p)) == 0,
        forall|k: Piece|
            kind_count(ps.push(p), k) == #[trigger] kind_count(ps, k) + (if p.kind.shape.spec_info().piece == k {
                1nat
            } else {
                0nat
            }),
{
    let q = ps.push(p);
    let c = p.cells();
    let cov = covered(ps);
    assert(q.drop_last() =~= ps);
    assert((c | (initial | cov)) == initial | (cov | c)) by (bit_vector);
    assert(initial & cov == 0 && c & (initial | cov) == 0 ==> initial & (cov | c) == 0) by (bit_vector);
    assert forall|i: int, j: int| 0 <= i < j < q.len() implies #[trigger] q[i].cells() & #[trigger] q[j].cells()
        == 0 by {
        if j == ps.len() {
            lemma_covered_contains(ps, i);
            let d = ps[i].cells();
            assert(cov & d == d && c & (initial | cov) == 0 ==> d & c == 0) by (bit_vector);
        }
    }
}

/// A copy of the placements.
pub(crate) fn copy_placements(ps: &Vec<Placement>) -> (r: Vec<Placement>)
    ensures
        r@ == ps@,
{
    let mut out: Vec<Placement> = Vec::new();
    let mut i: usize = 0;
    while i < ps.len()
        invariant
            i <= ps@.len(),
            out@ == ps@.take(i as int),
        decreases ps@.len() - i,
    {
        out.push(ps[i]);
        assert(out@ =~= ps@.take(i + 1));
        i += 1;
    }
    assert(ps@.take(ps@.len() as int) =~= ps@);
    out
}

/// The lowest row below `height` whose cell in column `x` is empty; 0 where
/// there is none.
pub open spec fn lowest_empty(board: u64, x: nat, height: nat, from: nat) -> nat
    decreases height - from,
{
    if from >= height {
        0
    } else if !BitBoard(board).cell(x, from) {
        from
    } else {
        lowest_empty(board, x, height, from + 1)
    }
}

fn lowest_empty_row(board: BitBoard, x: usize, height: usize) -> (y: usize)
    requires
        x <= 10,
        height <= 6,
    ensures
        y == lowest_empty(board.0, x as nat, height as nat, 0),
        y < 6,
{
    let mut i: usize = 0;
    while i < height
        invariant
            i <= height <= 6,
            x <= 10,
            lowest_empty(board.0, x as nat, height as nat, 0) == lowest_empty(
                board.0,
                x as nat,
                height as nat,
                i as nat,
            ),
        decreases height - i,
    {
        if !board.cell_filled(x, i) {
            return i;
        }
        i += 1;
    }
    0
}

/// The tilings as sequences.
pub open spec fn views(found: Seq<Vec<Placement>>) -> Seq<Seq<Placement>> {
    Seq::new(found.len(), |i: int| found[i]@)
}

/// The column and the row of the cell that the search fills next: the first
/// column with an empty cell under `height`, and its lowest empty row.
pub open spec fn next_cell(board: u64, height: nat) -> (nat, nat) {
    let x = vstd::std_specs::bits::u64_trailing_zeros(!common_columns(board, height)) as nat;
    (x, lowest_empty(board, x, height, 0))
}

/// What the search gives once `p` was tried as one piece more: nothing where
/// `p` meets a filled cell, where placements wait for each other in a circle,
/// or where the pieces that are left cannot even out the columns; the
/// placements where the field is full; and else what the search below gives.
/// `depth` is the number of pieces that may still be placed.
pub open spec fn placed(
    ps: Seq<Placement>,
    board: u64,
    inverse_placed: u64,
    set: PieceSet,
    height: nat,
    p: Placement,
    depth: nat,
) -> Seq<Seq<Placement>>
    decreases depth, 0nat, 0nat,
{
    if p.cells() & board != 0 || depth == 0 {
        Seq::empty()
    } else {
        let next = ps.push(p);
        let filled = p.cells() | board;
        let left = inverse_placed & !p.cells();
        let rest = set.spec_without(p.kind.shape.spec_info().piece);
        if cyclic(left, next, height) {
            Seq::empty()
        } else if filled == low_mask(10 * height) {
            seq![next]
        } else if !parity_ok(filled, rest, height) {
            Seq::empty()
        } else {
            search(next, filled, left, rest, height, (depth - 1) as nat)
        }
    }
}

/// What the search gives for the states of the bucket from position `j` on,
/// as far as they are narrow enough to stand at column `x`.
pub open spec fn search_states(
    ps: Seq<Placement>,
    board: u64,
    inverse_placed: u64,
    set: PieceSet,
    height: nat,
    piece: Piece,
    x: nat,
    y: nat,
    j: nat,
    depth: nat,
) -> Seq<Seq<Placement>>
    decreases depth, 1nat, bucket(height, piece, y).len() - j,
{
    let states = bucket(height, piece, y);
    if j >= states.len() || x + states[j as int].shape.spec_info().width > 10 {
        Seq::empty()
    } else {
        placed(ps, board, inverse_placed, set, height, Placement { kind: states[j as int], x: x as u8 }, depth)
            + search_states(ps, board, inverse_placed, set, height, piece, x, y, j + 1, depth)
    }
}

/// What the search gives for the kinds from position `k` on that the set holds.
pub open spec fn search_pieces(
    ps: Seq<Placement>,
    board: u64,
    inverse_placed: u64,
    set: PieceSet,
    height: nat,
    x: nat,
    y: nat,
    k: nat,
    depth: nat,
) -> Seq<Seq<Placement>>
    decreases depth, 2nat, 7 - k,
{
    if k >= 7 {
        Seq::empty()
    } else if set.count(Piece::spec_from_index(k as int)) > 0 {
        search_states(ps, board, inverse_placed, set, height, Piece::spec_from_index(k as int), x, y, 0, depth)
            + search_pieces(ps, board, inverse_placed, set, height, x, y, k + 1, depth)
    } else {
        search_pieces(ps, board, inverse_placed, set, height, x, y, k + 1, depth)
    }
}

/// The tilings that the search finds from one state, in the order in which
/// it finds them: kind after kind as `Piece` orders them, and of each kind
/// the states of the bucket of the next cell in their order.
pub open spec fn search(
    ps: Seq<Placement>,
    board: u64,
    inverse_placed: u64,
    set: PieceSet,
    height: nat,
    depth: nat,
) -> Seq<Seq<Placement>>
    decreases depth, 3nat, 0nat,
{
    let (x, y) = next_cell(board, height);
    search_pieces(ps, board, inverse_placed, set, height, x, y, 0, depth)
}

/// The tilings of the empty cells of `board` under `height` that a search
/// finds which is not stopped, in its order.
pub open spec fn all_combinations(set: PieceSet, board: u64, height: nat) -> Seq<Seq<Placement>> {
    search(Seq::empty(), board, low_mask(10 * height), set, height, set.total())
}

/// The search below one state: `placements` fill `board` from the cells that
/// were filled at the start, and `piece_set` is what is left of the budget.
/// Every tiling that it completes is added to `out`. Returns whether the
/// search came to its end without finding `abort` set. The flag is looked at
/// before each placement is tried; where it is found set, the search below
/// the state at hand ends, and what was added so far stays.
fn find_combos_st(
    table: &ShapeTable,
    placements: &mut Vec<Placement>,
    board: BitBoard,
    inverse_placed: BitBoard,
    piece_set: PieceSet,
    abort: &AtomicBool,
    height: usize,
    out: &mut Vec<Vec<Placement>>,
    Ghost(initial): Ghost<u64>,
    Ghost(budget): Ghost<PieceSet>,
) -> (completed: bool)
    requires
        table.wf(),
        1 <= height <= 6,
        forall|i: int| 0 <= i < old(placements)@.len() ==> (#[trigger] old(placements)@[i]).wf(),
        pairwise_disjoint(old(placements)@),
        board.0 == initial | covered(old(placements)@),
        initial & covered(old(placements)@) == 0,
        forall|k: Piece| #[trigger] kind_count(old(placements)@, k) + piece_set.count(k) == budget.count(k),
        forall|i: int|
            0 <= i < old(out)@.len() ==> tiles((#[trigger] old(out)@[i])@, initial, height as nat) && within(
                old(out)@[i]@,
                budget,
            ),
    ensures
        final(placements)@ == old(placements)@,
        final(out)@.len() >= old(out)@.len(),
        forall|i: int|
            0 <= i < final(out)@.len() ==> tiles((#[trigger] final(out)@[i])@, initial, height as nat) && within(
                final(out)@[i]@,
                budget,
            ),
        completed ==> views(final(out)@) == views(old(out)@) + search(
            old(placements)@,
            board.0,
            inverse_placed.0,
            piece_set,
            height as nat,
            piece_set.total(),
        ),
        !completed ==> consults(board.0, piece_set, height as nat),
        grown(
            views(old(out)@),
            views(final(out)@),
            search(old(placements)@, board.0, inverse_placed.0, piece_set, height as nat, piece_set.total()),
        ),
    decreases piece_set.total(),
{
    let ghost ps0 = placements@;
    let ghost total = search(placements@, board.0, inverse_placed.0, piece_set, height as nat, piece_set.total());
    let ghost mut done = Seq::<Seq<Placement>>::empty();
    let ghost mut keep = Seq::<bool>::empty();
    proof {
        assert(views(out@) + kept(done, keep) =~= views(out@));
        assert(done + total =~= total);
    }
    let ghost goal = consults(board.0, piece_set, height as nat);
    let ghost out0 = views(out@);
    let ghost depth = piece_set.total();
    let ghost h = height as nat;
    let x = board.leftmost_empty_column(height);
    let y = lowest_empty_row(board, x, height);
    let full = BitBoard::filled(height);
    let mut completed = true;
    let mut k: usize = 0;
    while k < 7
        invariant
            k <= 7,
            table.wf(),
            1 <= height <= 6,
            h == height,
            depth == piece_set.total(),
            (x as nat, y as nat) == next_cell(board.0, h),
            x <= 10,
            y < 6,
            full.0 == low_mask((10 * height) as nat),
            placements@ == ps0,
            ps0 == old(placements)@,
            forall|i: int| 0 <= i < ps0.len() ==> (#[trigger] ps0[i]).wf(),
            pairwise_disjoint(ps0),
            board.0 == initial | covered(ps0),
            initial & covered(ps0) == 0,
            forall|q: Piece| #[trigger] kind_count(ps0, q) + piece_set.count(q) == budget.count(q),
            out@.len() >= old(out)@.len(),
            forall|i: int|
                0 <= i < out@.len() ==> tiles((#[trigger] out@[i])@, initial, height as nat) && within(
                    out@[i]@,
                    budget,
                ),
            completed ==> views(out@) + search_pieces(
                ps0,
                board.0,
                inverse_placed.0,
                piece_set,
                h,
                x as nat,
                y as nat,
                k as nat,
                depth,
            ) == out0 + search(ps0, board.0, inverse_placed.0, piece_set, h, depth),
            goal == consults(board.0, piece_set, h),
            !completed ==> goal,
            tries_pieces(board.0, piece_set, h, x as nat, y as nat, k as nat) ==> goal,
            total == search(ps0, board.0, inverse_placed.0, piece_set, h, depth),
            out0 == views(old(out)@),
            keeps(out0, views(out@), done, keep),
            done + search_pieces(ps0, board.0, inverse_placed.0, piece_set, h, x as nat, y as nat, k as nat, depth)
                == total,
        decreases 7 - k,
    {
        let piece = Piece::from_index(k);
        if piece_set.contains(piece) {
            let rest = piece_set.without(piece);
            let states = table.states_for(height, piece, y);
            let ghost later = search_pieces(
                ps0,
                board.0,
                inverse_placed.0,
                piece_set,
                h,
                x as nat,
                y as nat,
                (k + 1) as nat,
                depth,
            );
            let mut j: usize = 0;
            let mut fits = true;
            proof {
                let here = search_states(
                    ps0,
                    board.0,
                    inverse_placed.0,
                    piece_set,
                    h,
                    piece,
                    x as nat,
                    y as nat,
                    0,
                    depth,
                );
                assert(here + later == search_pieces(
                    ps0,
                    board.0,
                    inverse_placed.0,
                    piece_set,
                    h,
                    x as nat,
                    y as nat,
                    k as nat,
                    depth,
                ));
                assert(views(out@) + (here + later) =~= views(out@) + search_pieces(
                    ps0,
                    board.0,
                    inverse_placed.0,
                    piece_set,
                    h,
                    x as nat,
                    y as nat,
                    k as nat,
                    depth,
                ));
            }
            while j < states.len() && fits
                invariant
                    j <= states@.len(),
                    table.wf(),
                    1 <= height <= 6,
                    h == height,
                    depth == piece_set.total(),
                    x <= 10,
                    y < 6,
                    full.0 == low_mask((10 * height) as nat),
                    states@ == bucket(h, piece, y as nat),
                    forall|i: int| 0 <= i < states@.len() ==> (#[trigger] states@[i]).wf(),
                    forall|i: int|
                        0 <= i < states@.len() ==> (#[trigger] states@[i]).shape.spec_info().piece == piece,
                    piece_set.count(piece) > 0,
                    rest == piece_set.spec_without(piece),
                    rest.total() == piece_set.total() - 1,
                    rest.count(piece) == piece_set.count(piece) - 1,
                    forall|q: Piece| q != piece ==> rest.count(q) == piece_set.count(q),
                    placements@ == ps0,
                    ps0 == old(placements)@,
                    forall|i: int| 0 <= i < ps0.len() ==> (#[trigger] ps0[i]).wf(),
                    pairwise_disjoint(ps0),
                    board.0 == initial | covered(ps0),
                    initial & covered(ps0) == 0,
                    forall|q: Piece| #[trigger] kind_count(ps0, q) + piece_set.count(q) == budget.count(q),
                    out@.len() >= old(out)@.len(),
                    forall|i: int|
                        0 <= i < out@.len() ==> tiles((#[trigger] out@[i])@, initial, height as nat) && within(
                            out@[i]@,
                            budget,
                        ),
                    !fits ==> j < states@.len() && x + states@[j as int].shape.spec_info().width > 10,
                    !completed ==> goal,
                    total == search(ps0, board.0, inverse_placed.0, piece_set, h, depth),
                    out0 == views(old(out)@),
                    keeps(out0, views(out@), done, keep),
                    done + (search_states(
                        ps0,
                        board.0,
                        inverse_placed.0,
                        piece_set,
                        h,
                        piece,
                        x as nat,
                        y as nat,
                        j as nat,
                        depth,
                    ) + later) == total,
                    goal == consults(board.0, piece_set, h),
                    tries_states(board.0, h, piece, x as nat, y as nat, j as nat) ==> goal,
                    tries_pieces(board.0, piece_set, h, x as nat, y as nat, (k + 1) as nat) ==> goal,
                    k < 7,
                    completed ==> views(out@) + (search_states(
                        ps0,
                        board.0,
                        inverse_placed.0,
                        piece_set,
                        h,
                        piece,
                        x as nat,
                        y as nat,
                        j as nat,
                        depth,
                    ) + later) == out0 + search(ps0, board.0, inverse_placed.0, piece_set, h, depth),
                decreases states@.len() - j + (if fits { 1int } else { 0int }),
            {
                let state = states[j];
                if x + state.width() as usize > 10 {
                    fits = false;
                } else {
                    let placement = Placement { kind: state, x: x as u8 };
                    let piece_board = placement.board();
                    let ghost before = views(out@);
                    let ghost here = placed(ps0, board.0, inverse_placed.0, piece_set, h, placement, depth);
                    let ghost after = search_states(
                        ps0,
                        board.0,
                        inverse_placed.0,
                        piece_set,
                        h,
                        piece,
                        x as nat,
                        y as nat,
                        (j + 1) as nat,
                        depth,
                    );
                    proof {
                        assert(before + ((here + after) + later) =~= (before + here) + (after + later));
                        assert(done + ((here + after) + later) =~= (done + here) + (after + later));
                    }
                    if !piece_board.overlaps(board) {
                        assert(tries_states(board.0, h, piece, x as nat, y as nat, j as nat));
                        if abort_requested(abort) {
                            proof {
                                lemma_cut(out0, views(out@), done, keep, (here + after) + later);
                            }
                            return false;
                        }
                        let new_board = piece_board.combine(board);
                        let new_inverse_placed = inverse_placed.remove(piece_board);
                        placements.push(placement);
                        proof {
                            lemma_meet_commutes(placement.cells(), board.0);
                            lemma_extend(ps0, placement, initial, board.0);
                            assert(placements@ == ps0.push(placement));
                            assert forall|q: Piece| #[trigger]
                                kind_count(placements@, q) + rest.count(q) == budget.count(q) by {
                                assert(kind_count(ps0, q) + piece_set.count(q) == budget.count(q));
                            }
                            assert(depth > 0);
                            assert(placement.cells() & board.0 == 0);
                            assert(placement.kind.shape.spec_info().piece == piece);
                        }
                        if has_cyclic_dependency(new_inverse_placed, placements.as_slice(), height) {
                            assert(here =~= Seq::<Seq<Placement>>::empty());
                            assert(views(out@) =~= before + here);
                            assert(done + here =~= done);
                        } else if new_board.0 == full.0 {
                            let tiling = copy_placements(placements);
                            proof {
                                lemma_rest_is_cover(full.0, initial, covered(tiling@));
                                assert forall|q: Piece| #[trigger] kind_count(tiling@, q) <= budget.count(q) by {
                                    assert(kind_count(tiling@, q) + rest.count(q) == budget.count(q));
                                }
                            }
                            let ghost fewer = out@;
                            out.push(tiling);
                            assert(here =~= seq![ps0.push(placement)]);
                            assert(views(out@) =~= views(fewer).push(tiling@));
                            assert(views(out@) =~= before + here);
                            proof {
                                let all_here = Seq::new(here.len(), |i: int| true);
                                lemma_kept_all(here);
                                assert(keeps(before, views(out@), here, all_here));
                                lemma_grow(out0, before, views(out@), done, keep, here, all_here);
                                done = done + here;
                                keep = keep + all_here;
                            }
                        } else if !vertical_parity_ok(new_board, rest, height) {
                            assert(here =~= Seq::<Seq<Placement>>::empty());
                            assert(views(out@) =~= before + here);
                            assert(done + here =~= done);
                        } else {
                            let below = find_combos_st(
                                table,
                                placements,
                                new_board,
                                new_inverse_placed,
                                rest,
                                abort,
                                height,
                                out,
                                Ghost(initial),
                                Ghost(budget),
                            );
                            if !below {
                                completed = false;
                            }
                            assert(here == search(
                                ps0.push(placement),
                                new_board.0,
                                new_inverse_placed.0,
                                rest,
                                h,
                                (depth - 1) as nat,
                            ));
                            proof {
                                let keep_here = choose|keep_here: Seq<bool>| #[trigger]
                                    keeps(before, views(out@), here, keep_here);
                                lemma_grow(out0, before, views(out@), done, keep, here, keep_here);
                                done = done + here;
                                keep = keep + keep_here;
                            }
                        }
                        placements.pop();
                        assert(placements@ =~= ps0);
                    } else {
                        assert(views(out@) =~= before + here);
                        assert(done + here =~= done);
                    }
                    j += 1;
                }
            }
            proof {
                assert(search_states(
                    ps0,
                    board.0,
                    inverse_placed.0,
                    piece_set,
                    h,
                    piece,
                    x as nat,
                    y as nat,
                    j as nat,
                    depth,
                ) =~= Seq::<Seq<Placement>>::empty());
                assert(views(out@) + (Seq::<Seq<Placement>>::empty() + later) =~= views(out@)
                    + later);
                assert(Seq::<Seq<Placement>>::empty() + later =~= later);
            }
        }
        k += 1;
    }
    proof {
        assert(views(out@) + Seq::<Seq<Placement>>::empty() =~= views(out@));
        assert(done + Seq::<Seq<Placement>>::empty() =~= done);
    }
    completed
}

/// Every set of placements, of pieces that `piece_set` holds, that fills the
/// empty cells of `board` under `height`, as far as the search went before
/// `abort` was set: each result is such a tiling, and the results are some
/// of `all_combinations`, in that order. Where the search has no placement
/// to try it does not look at `abort`, and the result is all of them.
pub fn find_combinations(piece_set: PieceSet, board: BitBoard, abort: &AtomicBool, height: usize) -> (r: Vec<
    Vec<Placement>,
>)
    requires
        1 <= height <= 6,
    ensures
        forall|i: int|
            0 <= i < r@.len() ==> tiles((#[trigger] r@[i])@, board.0, height as nat) && within(r@[i]@, piece_set),
        !consults(board.0, piece_set, height as nat) ==> views(r@) == all_combinations(
            piece_set,
            board.0,
            height as nat,
        ),
        some_of(views(r@), all_combinations(piece_set, board.0, height as nat)),
{
    let table = ShapeTable::new();
    find_combinations_in(&table, piece_set, board, abort, height).0
}

/// `find_combinations` with a table that the caller has built. The second
/// result says whether the search came to its end without finding `abort`
/// set; the tilings are then those of `all_combinations`, in that order, and
/// else some of them. It is true wherever the search has no placement to
/// try, for then it does not look at `abort`.
pub fn find_combinations_in(
    table: &ShapeTable,
    piece_set: PieceSet,
    board: BitBoard,
    abort: &AtomicBool,
    height: usize,
) -> (r: (Vec<Vec<Placement>>, bool))
    requires
        table.wf(),
        1 <= height <= 6,
    ensures
        forall|i: int|
            0 <= i < r.0@.len() ==> tiles((#[trigger] r.0@[i])@, board.0, height as nat) && within(
                r.0@[i]@,
                piece_set,
            ),
        r.1 ==> views(r.0@) == all_combinations(piece_set, board.0, height as nat),
        !r.1 ==> consults(board.0, piece_set, height as nat),
        some_of(views(r.0@), all_combinations(piece_set, board.0, height as nat)),
{
    let mut out: Vec<Vec<Placement>> = Vec::new();
    let mut placements: Vec<Placement> = Vec::new();
    proof {
        lemma_nothing(board.0);
    }
    let completed = find_combos_st(
        table,
        &mut placements,
        board,
        BitBoard::filled(height),
        piece_set,
        abort,
        height,
        &mut out,
        Ghost(board.0),
        Ghost(piece_set),
    );
    proof {
        let found = all_combinations(piece_set, board.0, height as nat);
        assert(views(Seq::<Vec<Placement>>::empty()) + found =~= found);
        assert(views(Seq::<Vec<Placement>>::empty()) =~= Seq::<Seq<Placement>>::empty());
    }
    (out, completed)
}

/// One state of the search, for a search that is split among workers: the
/// placements made so far, the field with them, the cells that no placement
/// covers, and the pieces that are left, together with the field and the
/// pieces that the search began with.
pub struct Branch {
    pub placements: Vec<Placement>,
    pub board: BitBoard,
    pub inverse_placed: BitBoard,
    pub piece_set: PieceSet,
    pub start: BitBoard,
    pub budget: PieceSet,
}

impl Branch {
    /// The placements are well-formed and share no cell with each other or
    /// with the field at the start, the field is the one at the start with
    /// the placements on it, and the pieces placed and left are the budget.
    pub open spec fn wf(self) -> bool {
        &&& forall|i: int| 0 <= i < self.placements@.len() ==> (#[trigger] self.placements@[i]).wf()
        &&& pairwise_disjoint(self.placements@)
        &&& self.board.0 == self.start.0 | covered(self.placements@)
        &&& self.start.0 & covered(self.placements@) == 0
        &&& forall|k: Piece| #[trigger]
            kind_count(self.placements@, k) + self.piece_set.count(k) == self.budget.count(k)
    }

    /// The state in which a search for the tilings of `board` under `height`
    /// begins.
    pub fn root(piece_set: PieceSet, board: BitBoard, height: usize) -> (r: Branch)
        requires
            height <= 6,
        ensures
            r.wf(),
            r.placements@.len() == 0,
            r.board == board,
            r.start == board,
            r.piece_set == piece_set,
            r.budget == piece_set,
            r.inverse_placed.0 == low_mask((10 * height) as nat),
    {
        proof {
            lemma_nothing(board.0);
        }
        Branch {
            placements: Vec::new(),
            board,
            inverse_placed: BitBoard::filled(height),
            piece_set,
            start: board,
            budget: piece_set,
        }
    }
}

/// What one more placement made of a state: a tiling, or a state below
/// which the search has to go on.
pub enum Tried {
    Complete(Vec<Placement>),
    Open(Branch),
}

/// A `Tried` as a value: the placements of the tiling, or the placements,
/// the field, the cells that no placement covers and the pieces that are
/// left of the state.
pub enum TriedView {
    Complete(Seq<Placement>),
    Open(Seq<Placement>, u64, u64, PieceSet),
}

impl Tried {
    pub open spec fn view(self) -> TriedView {
        match self {
            Tried::Complete(ps) => TriedView::Complete(ps@),
            Tried::Open(b) => TriedView::Open(b.placements@, b.board.0, b.inverse_placed.0, b.piece_set),
        }
    }

    /// A tiling fills the field from `start` with pieces of `budget`; a
    /// state is well-formed, began with `start` and `budget`, and has one
    /// placement more than `ps`.
    pub open spec fn wf(self, ps: Seq<Placement>, start: BitBoard, budget: PieceSet, height: nat) -> bool {
        match self {
            Tried::Complete(done) => tiles(done@, start.0, height) && within(done@, budget),
            Tried::Open(b) => {
                &&& b.wf()
                &&& b.start == start
                &&& b.budget == budget
                &&& b.placements@.len() == ps.len() + 1
                &&& b.placements@.drop_last() == ps
            },
        }
    }
}

/// What was tried, as values.
pub open spec fn tried_views(found: Seq<Tried>) -> Seq<TriedView> {
    Seq::new(found.len(), |i: int| found[i]@)
}

/// What one level of the search makes of `p` as one piece more: nothing
/// where `p` meets a filled cell, where placements wait for each other in a
/// circle, or where the pieces that are left cannot even out the columns;
/// the tiling where the field is full; and else the state with `p`.
pub open spec fn tried(
    ps: Seq<Placement>,
    board: u64,
    inverse_placed: u64,
    set: PieceSet,
    height: nat,
    p: Placement,
) -> Seq<TriedView> {
    if p.cells() & board != 0 {
        Seq::empty()
    } else {
        let next = ps.push(p);
        let filled = p.cells() | board;
        let left = inverse_placed & !p.cells();
        let rest = set.spec_without(p.kind.shape.spec_info().piece);
        if cyclic(left, next, height) {
            Seq::empty()
        } else if filled == low_mask(10 * height) {
            seq![TriedView::Complete(next)]
        } else if !parity_ok(filled, rest, height) {
            Seq::empty()
        } else {
            seq![TriedView::Open(next, filled, left, rest)]
        }
    }
}

/// What one level of the search makes of the states of the bucket from
/// position `j` on, as far as they are narrow enough to stand at column `x`.
pub open spec fn tried_states(
    ps: Seq<Placement>,
    board: u64,
    inverse_placed: u64,
    set: PieceSet,
    height: nat,
    piece: Piece,
    x: nat,
    y: nat,
    j: nat,
) -> Seq<TriedView>
    decreases bucket(height, piece, y).len() - j,
{
    let states = bucket(height, piece, y);
    if j >= states.len() || x + states[j as int].shape.spec_info().width > 10 {
        Seq::empty()
    } else {
        tried(ps, board, inverse_placed, set, height, Placement { kind: states[j as int], x: x as u8 })
            + tried_states(ps, board, inverse_placed, set, height, piece, x, y, j + 1)
    }
}

/// The same for the kinds from position `k` on that the set holds.
pub open spec fn tried_pieces(
    ps: Seq<Placement>,
    board: u64,
    inverse_placed: u64,
    set: PieceSet,
    height: nat,
    x: nat,
    y: nat,
    k: nat,
) -> Seq<TriedView>
    decreases 7 - k,
{
    if k >= 7 {
        Seq::empty()
    } else if set.count(Piece::spec_from_index(k as int)) > 0 {
        tried_states(ps, board, inverse_placed, set, height, Piece::spec_from_index(k as int), x, y, 0)
            + tried_pieces(ps, board, inverse_placed, set, height, x, y, k + 1)
    } else {
        tried_pieces(ps, board, inverse_placed, set, height, x, y, k + 1)
    }
}

/// What one level of the search makes of a state, in the order in which the
/// search tries the placements.
pub open spec fn forked(ps: Seq<Placement>, board: u64, inverse_placed: u64, set: PieceSet, height: nat) -> Seq<
    TriedView,
> {
    let (x, y) = next_cell(board, height);
    tried_pieces(ps, board, inverse_placed, set, height, x, y, 0)
}

/// One level of the search, for a search that is split among workers: each
/// placement that the search would try at `branch` is tried once. The first
/// result holds, in the order of the search, the tilings that one more
/// placement completed and the states below which the search has to go on;
/// the second says whether `abort` was never found set. Once it is found
/// set no more is tried: the first result is then the beginning of what one
/// level makes of the state.
pub fn fork_branch(table: &ShapeTable, branch: &Branch, abort: &AtomicBool, height: usize) -> (r: (
    Vec<Tried>,
    bool,
))
    requires
        table.wf(),
        1 <= height <= 6,
        branch.wf(),
    ensures
        forall|i: int|
            0 <= i < r.0@.len() ==> (#[trigger] r.0@[i]).wf(
                branch.placements@,
                branch.start,
                branch.budget,
                height as nat,
            ),
        r.1 ==> tried_views(r.0@) == forked(
            branch.placements@,
            branch.board.0,
            branch.inverse_placed.0,
            branch.piece_set,
            height as nat,
        ),
        !r.1 ==> consults(branch.board.0, branch.piece_set, height as nat),
        r.0@.len() <= forked(
            branch.placements@,
            branch.board.0,
            branch.inverse_placed.0,
            branch.piece_set,
            height as nat,
        ).len(),
        tried_views(r.0@) == forked(
            branch.placements@,
            branch.board.0,
            branch.inverse_placed.0,
            branch.piece_set,
            height as nat,
        ).take(r.0@.len() as int),
{
    let mut out: Vec<Tried> = Vec::new();
    let board = branch.board;
    let piece_set = branch.piece_set;
    let ghost ps0 = branch.placements@;
    let ghost initial = branch.start.0;
    let ghost h = height as nat;
    let ghost inv = branch.inverse_placed.0;
    let ghost all = forked(ps0, board.0, inv, piece_set, h);
    let ghost goal = consults(board.0, piece_set, h);
    let x = board.leftmost_empty_column(height);
    let y = lowest_empty_row(board, x, height);
    let full = BitBoard::filled(height);
    let mut k: usize = 0;
    assert(tried_views(out@) + all =~= all);
    while k < 7
        invariant
            k <= 7,
            table.wf(),
            1 <= height <= 6,
            h == height,
            x <= 10,
            y < 6,
            full.0 == low_mask((10 * height) as nat),
            branch.wf(),
            board == branch.board,
            piece_set == branch.piece_set,
            ps0 == branch.placements@,
            initial == branch.start.0,
            inv == branch.inverse_placed.0,
            forall|i: int| 0 <= i < out@.len() ==> (#[trigger] out@[i]).wf(ps0, branch.start, branch.budget, h),
            tried_views(out@) + tried_pieces(ps0, board.0, inv, piece_set, h, x as nat, y as nat, k as nat) == all,
            all == forked(branch.placements@, branch.board.0, branch.inverse_placed.0, branch.piece_set, h),
            goal == consults(board.0, piece_set, h),
            tries_pieces(board.0, piece_set, h, x as nat, y as nat, k as nat) ==> goal,
        decreases 7 - k,
    {
        let piece = Piece::from_index(k);
        if piece_set.contains(piece) {
            let rest = piece_set.without(piece);
            let states = table.states_for(height, piece, y);
            let ghost later = tried_pieces(ps0, board.0, inv, piece_set, h, x as nat, y as nat, (k + 1) as nat);
            let mut j: usize = 0;
            let mut fits = true;
            proof {
                let here = tried_states(ps0, board.0, inv, piece_set, h, piece, x as nat, y as nat, 0);
                assert(tried_views(out@) + (here + later) =~= tried_views(out@) + tried_pieces(
                    ps0,
                    board.0,
                    inv,
                    piece_set,
                    h,
                    x as nat,
                    y as nat,
                    k as nat,
                ));
            }
            while j < states.len() && fits
                invariant
                    j <= states@.len(),
                    1 <= height <= 6,
                    h == height,
                    x <= 10,
                    y < 6,
                    full.0 == low_mask((10 * height) as nat),
                    states@ == bucket(h, piece, y as nat),
                    forall|i: int| 0 <= i < states@.len() ==> (#[trigger] states@[i]).wf(),
                    forall|i: int|
                        0 <= i < states@.len() ==> (#[trigger] states@[i]).shape.spec_info().piece == piece,
                    piece_set.count(piece) > 0,
                    rest == piece_set.spec_without(piece),
                    rest.total() == piece_set.total() - 1,
                    rest.count(piece) == piece_set.count(piece) - 1,
                    forall|q: Piece| q != piece ==> rest.count(q) == piece_set.count(q),
                    branch.wf(),
                    board == branch.board,
                    piece_set == branch.piece_set,
                    ps0 == branch.placements@,
                    initial == branch.start.0,
                    inv == branch.inverse_placed.0,
                    forall|i: int|
                        0 <= i < out@.len() ==> (#[trigger] out@[i]).wf(ps0, branch.start, branch.budget, h),
                    !fits ==> j < states@.len() && x + states@[j as int].shape.spec_info().width > 10,
                    goal == consults(board.0, piece_set, h),
                    tries_states(board.0, h, piece, x as nat, y as nat, j as nat) ==> goal,
                    tries_pieces(board.0, piece_set, h, x as nat, y as nat, (k + 1) as nat) ==> goal,
                    k < 7,
                    tried_views(out@) + (tried_states(
                        ps0,
                        board.0,
                        inv,
                        piece_set,
                        h,
                        piece,
                        x as nat,
                        y as nat,
                        j as nat,
                    ) + later) == all,
                    all == forked(branch.placements@, branch.board.0, branch.inverse_placed.0, branch.piece_set, h),
                decreases states@.len() - j + (if fits { 1int } else { 0int }),
            {
                let state = states[j];
                if x + state.width() as usize > 10 {
                    fits = false;
                } else {
                    let placement = Placement { kind: state, x: x as u8 };
                    let piece_board = placement.board();
                    let ghost before = tried_views(out@);
                    let ghost here = tried(ps0, board.0, inv, piece_set, h, placement);
                    let ghost after = tried_states(
                        ps0,
                        board.0,
                        inv,
                        piece_set,
                        h,
                        piece,
                        x as nat,
                        y as nat,
                        (j + 1) as nat,
                    );
                    proof {
                        assert(before + ((here + after) + later) =~= (before + here) + (after + later));
                    }
                    if !piece_board.overlaps(board) {
                        assert(tries_states(board.0, h, piece, x as nat, y as nat, j as nat));
                        if abort_requested(abort) {
                            assert(tried_views(out@) =~= all.take(out@.len() as int));
                            return (out, false);
                        }
                        let new_board = piece_board.combine(board);
                        let new_inverse_placed = branch.inverse_placed.remove(piece_board);
                        let mut placements = copy_placements(&branch.placements);
                        placements.push(placement);
                        proof {
                            lemma_meet_commutes(placement.cells(), board.0);
                            lemma_extend(ps0, placement, initial, board.0);
                            assert(placements@ == ps0.push(placement));
                            assert(placements@.drop_last() =~= ps0);
                            assert forall|q: Piece| #[trigger]
                                kind_count(placements@, q) + rest.count(q) == branch.budget.count(q) by {
                                assert(kind_count(ps0, q) + piece_set.count(q) == branch.budget.count(q));
                            }
                            assert(placement.kind.shape.spec_info().piece == piece);
                        }
                        if has_cyclic_dependency(new_inverse_placed, placements.as_slice(), height) {
                            assert(here =~= Seq::<TriedView>::empty());
                            assert(tried_views(out@) =~= before + here);
                        } else if new_board.0 == full.0 {
                            proof {
                                lemma_rest_is_cover(full.0, initial, covered(placements@));
                                assert forall|q: Piece| #[trigger]
                                    kind_count(placements@, q) <= branch.budget.count(q) by {
                                    assert(kind_count(placements@, q) + rest.count(q) == branch.budget.count(q));
                                }
                            }
                            let ghost done = placements@;
                            out.push(Tried::Complete(placements));
                            assert(here =~= seq![TriedView::Complete(done)]);
                            assert(tried_views(out@) =~= before + here);
                        } else if !vertical_parity_ok(new_board, rest, height) {
                            assert(here =~= Seq::<TriedView>::empty());
                            assert(tried_views(out@) =~= before + here);
                        } else {
                            let ghost next = placements@;
                            out.push(
                                Tried::Open(
                                    Branch {
                                        placements,
                                        board: new_board,
                                        inverse_placed: new_inverse_placed,
                                        piece_set: rest,
                                        start: branch.start,
                                        budget: branch.budget,
                                    },
                                ),
                            );
                            assert(here =~= seq![TriedView::Open(next, new_board.0, new_inverse_placed.0, rest)]);
                            assert(tried_views(out@) =~= before + here);
                        }
                    } else {
                        assert(tried_views(out@) =~= before + here);
                    }
                    j += 1;
                }
            }
            proof {
                assert(tried_states(ps0, board.0, inv, piece_set, h, piece, x as nat, y as nat, j as nat)
                    =~= Seq::<TriedView>::empty());
                assert(tried_views(out@) + (Seq::<TriedView>::empty() + later) =~= tried_views(out@) + later);
            }
        }
        k += 1;
    }
    proof {
        assert(tried_views(out@) + Seq::<TriedView>::empty() =~= tried_views(out@));
        assert(all.take(out@.len() as int) =~= all);
    }
    (out, true)
}

/// The search below `branch`, by one worker: the tilings that it completes,
/// as far as it went before `abort` was set, and whether it came to its end
/// without finding `abort` set. The tilings are then all that the search
/// finds below `branch`, and else some of them, in their order.
pub fn finish_branch(table: &ShapeTable, branch: Branch, abort: &AtomicBool, height: usize) -> (r: (
    Vec<Vec<Placement>>,
    bool,
))
    requires
        table.wf(),
        1 <= height <= 6,
        branch.wf(),
    ensures
        forall|i: int|
            0 <= i < r.0@.len() ==> tiles((#[trigger] r.0@[i])@, branch.start.0, height as nat) && within(
                r.0@[i]@,
                branch.budget,
            ),
        r.1 ==> views(r.0@) == search(
            branch.placements@,
            branch.board.0,
            branch.inverse_placed.0,
            branch.piece_set,
            height as nat,
            branch.piece_set.total(),
        ),
        !r.1 ==> consults(branch.board.0, branch.piece_set, height as nat),
        some_of(
            views(r.0@),
            search(
                branch.placements@,
                branch.board.0,
                branch.inverse_placed.0,
                branch.piece_set,
                height as nat,
                branch.piece_set.total(),
            ),
        ),
{
    let mut out: Vec<Vec<Placement>> = Vec::new();
    let mut placements = copy_placements(&branch.placements);
    let completed = find_combos_st(
        table,
        &mut placements,
        branch.board,
        branch.inverse_placed,
        branch.piece_set,
        abort,
        height,
        &mut out,
        Ghost(branch.start.0),
        Ghost(branch.budget),
    );
    proof {
        let found = search(
            branch.placements@,
            branch.board.0,
            branch.inverse_placed.0,
            branch.piece_set,
            height as nat,
            branch.piece_set.total(),
        );
        assert(views(Seq::<Vec<Placement>>::empty()) + found =~= found);
        assert(views(Seq::<Vec<Placement>>::empty()) =~= Seq::<Seq<Placement>>::empty());
    }
    (out, completed)
}

/// What the search finds below what was tried: the tiling itself, or what
/// it finds from the state.
pub open spec fn below(t: TriedView, height: nat, depth: nat) -> Seq<Seq<Placement>> {
    match t {
        TriedView::Complete(done) => seq![done],
        TriedView::Open(ps, board, inverse_placed, set) => search(ps, board, inverse_placed, set, height, depth),
    }
}

/// The same for each of `ts` in turn.
pub open spec fn below_all(ts: Seq<TriedView>, height: nat, depth: nat) -> Seq<Seq<Placement>>
    decreases ts.len(),
{
    if ts.len() == 0 {
        Seq::empty()
    } else {
        below_all(ts.drop_last(), height, depth) + below(ts.last(), height, depth)
    }
}

/// What is found below two runs of tries is what is found below the first
/// and then below the second.
pub proof fn lemma_below_all_concat(a: Seq<TriedView>, b: Seq<TriedView>, height: nat, depth: nat)
    ensures
        below_all(a + b, height, depth) == below_all(a, height, depth) + below_all(b, height, depth),
    decreases b.len(),
{
    if b.len() == 0 {
        assert(a + b =~= a);
        assert(below_all(a, height, depth) + Seq::<Seq<Placement>>::empty() =~= below_all(a, height, depth));
    } else {
        assert((a + b).drop_last() =~= a + b.drop_last());
        lemma_below_all_concat(a, b.drop_last(), height, depth);
        assert((below_all(a, height, depth) + below_all(b.drop_last(), height, depth)) + below(
            b.last(),
            height,
            depth,
        ) =~= below_all(a, height, depth) + (below_all(b.drop_last(), height, depth) + below(
            b.last(),
            height,
            depth,
        )));
    }
}

/// One placement: the search with it is the search below what one level
/// makes of it.
pub proof fn lemma_split_placed(
    ps: Seq<Placement>,
    board: u64,
    inverse_placed: u64,
    set: PieceSet,
    height: nat,
    p: Placement,
    depth: nat,
)
    requires
        depth > 0,
    ensures
        placed(ps, board, inverse_placed, set, height, p, depth) == below_all(
            tried(ps, board, inverse_placed, set, height, p),
            height,
            (depth - 1) as nat,
        ),
{
    let ts = tried(ps, board, inverse_placed, set, height, p);
    let found = placed(ps, board, inverse_placed, set, height, p, depth);
    let d = (depth - 1) as nat;
    let next = ps.push(p);
    let filled = p.cells() | board;
    let left = inverse_placed & !p.cells();
    let rest = set.spec_without(p.kind.shape.spec_info().piece);
    if p.cells() & board != 0 || cyclic(left, next, height) {
        assert(ts =~= Seq::<TriedView>::empty());
        assert(found =~= Seq::<Seq<Placement>>::empty());
    } else if filled == low_mask(10 * height) {
        assert(ts =~= seq![TriedView::Complete(next)]);
        assert(ts.drop_last() =~= Seq::<TriedView>::empty());
        assert(below_all(ts.drop_last(), height, d) =~= Seq::<Seq<Placement>>::empty());
        assert(below(ts.last(), height, d) == seq![next]);
        assert(below_all(ts, height, d) =~= seq![next]);
    } else if !parity_ok(filled, rest, height) {
        assert(ts =~= Seq::<TriedView>::empty());
        assert(found =~= Seq::<Seq<Placement>>::empty());
    } else {
        assert(ts =~= seq![TriedView::Open(next, filled, left, rest)]);
        assert(ts.drop_last() =~= Seq::<TriedView>::empty());
        assert(below_all(ts.drop_last(), height, d) =~= Seq::<Seq<Placement>>::empty());
        assert(below(ts.last(), height, d) == search(next, filled, left, rest, height, d));
        assert(below_all(ts, height, d) =~= search(next, filled, left, rest, height, d));
    }
}

/// The states of one bucket.
pub proof fn lemma_split_states(
    ps: Seq<Placement>,
    board: u64,
    inverse_placed: u64,
    set: PieceSet,
    height: nat,
    piece: Piece,
    x: nat,
    y: nat,
    j: nat,
    depth: nat,
)
    requires
        depth > 0,
    ensures
        search_states(ps, board, inverse_placed, set, height, piece, x, y, j, depth) == below_all(
            tried_states(ps, board, inverse_placed, set, height, piece, x, y, j),
            height,
            (depth - 1) as nat,
        ),
    decreases bucket(height, piece, y).len() - j,
{
    let states = bucket(height, piece, y);
    if !(j >= states.len() || x + states[j as int].shape.spec_info().width > 10) {
        let p = Placement { kind: states[j as int], x: x as u8 };
        lemma_split_placed(ps, board, inverse_placed, set, height, p, depth);
        lemma_split_states(ps, board, inverse_placed, set, height, piece, x, y, j + 1, depth);
        lemma_below_all_concat(
            tried(ps, board, inverse_placed, set, height, p),
            tried_states(ps, board, inverse_placed, set, height, piece, x, y, j + 1),
            height,
            (depth - 1) as nat,
        );
    }
}

/// The kinds of the set.
pub proof fn lemma_split_pieces(
    ps: Seq<Placement>,
    board: u64,
    inverse_placed: u64,
    set: PieceSet,
    height: nat,
    x: nat,
    y: nat,
    k: nat,
    depth: nat,
)
    requires
        depth > 0,
    ensures
        search_pieces(ps, board, inverse_placed, set, height, x, y, k, depth) == below_all(
            tried_pieces(ps, board, inverse_placed, set, height, x, y, k),
            height,
            (depth - 1) as nat,
        ),
    decreases 7 - k,
{
    if k < 7 {
        lemma_split_pieces(ps, board, inverse_placed, set, height, x, y, k + 1, depth);
        if set.count(Piece::spec_from_index(k as int)) > 0 {
            let piece = Piece::spec_from_index(k as int);
            lemma_split_states(ps, board, inverse_placed, set, height, piece, x, y, 0, depth);
            lemma_below_all_concat(
                tried_states(ps, board, inverse_placed, set, height, piece, x, y, 0),
                tried_pieces(ps, board, inverse_placed, set, height, x, y, k + 1),
                height,
                (depth - 1) as nat,
            );
        }
    }
}

/// A split search loses nothing and finds nothing twice: what the search
/// finds from a state is what it finds, one after the other, below the
/// tilings and states that one level makes of that state.
pub proof fn lemma_split_search(
    ps: Seq<Placement>,
    board: u64,
    inverse_placed: u64,
    set: PieceSet,
    height: nat,
    depth: nat,
)
    requires
        depth > 0,
    ensures
        search(ps, board, inverse_placed, set, height, depth) == below_all(
            forked(ps, board, inverse_placed, set, height),
            height,
            (depth - 1) as nat,
        ),
{
    let (x, y) = next_cell(board, height);
    lemma_split_pieces(ps, board, inverse_placed, set, height, x, y, 0, depth);
}

/// The placements of `tail`, one after the other, are each what the search
/// may place next after `head`: a well-formed state at the next cell, of a
/// kind that the set holds, inside the field, on empty cells, after which no
/// placements wait for each other in a circle; the last one fills the field,
/// and after each of the others the field is not full and the pieces that
/// are left may still even out the columns.
pub open spec fn reaches(
    head: Seq<Placement>,
    tail: Seq<Placement>,
    board: u64,
    inverse_placed: u64,
    set: PieceSet,
    height: nat,
) -> bool
    decreases tail.len(),
{
    if tail.len() == 0 {
        false
    } else {
        let p = tail[0];
        let cell = next_cell(board, height);
        let piece = p.kind.shape.spec_info().piece;
        let next = head.push(p);
        let filled = p.cells() | board;
        let left = inverse_placed & !p.cells();
        let rest = set.spec_without(piece);
        &&& p.kind.wf()
        &&& p.x == cell.0
        &&& p.kind.spec_cell_y() == cell.1
        &&& p.kind.spec_height() <= height
        &&& cell.0 + p.kind.shape.spec_info().width <= 10
        &&& set.count(piece) > 0
        &&& p.cells() & board == 0
        &&& !cyclic(left, next, height)
        &&& if tail.len() == 1 {
            filled == low_mask(10 * height)
        } else {
            &&& filled != low_mask(10 * height)
            &&& parity_ok(filled, rest, height)
            &&& reaches(next, tail.drop_first(), filled, left, rest, height)
        }
    }
}

/// What the search finds with the state at position `j` of a bucket, it
/// finds from any position up to `j`: the states before it are no wider.
pub proof fn lemma_states_contain(
    ps: Seq<Placement>,
    board: u64,
    inverse_placed: u64,
    set: PieceSet,
    height: nat,
    piece: Piece,
    x: nat,
    y: nat,
    from: nat,
    j: nat,
    depth: nat,
    sol: Seq<Placement>,
)
    requires
        from <= j < bucket(height, piece, y).len(),
        x + bucket(height, piece, y)[j as int].shape.spec_info().width <= 10,
        placed(
            ps,
            board,
            inverse_placed,
            set,
            height,
            Placement { kind: bucket(height, piece, y)[j as int], x: x as u8 },
            depth,
        ).contains(sol),
    ensures
        search_states(ps, board, inverse_placed, set, height, piece, x, y, from, depth).contains(sol),
    decreases j - from,
{
    let states = bucket(height, piece, y);
    let here = placed(ps, board, inverse_placed, set, height, Placement { kind: states[from as int], x: x as u8 }, depth);
    let later = search_states(ps, board, inverse_placed, set, height, piece, x, y, from + 1, depth);
    let all = search_states(ps, board, inverse_placed, set, height, piece, x, y, from, depth);
    if from < j {
        lemma_bucket_sorted(all_states(), height, piece, y, 4, from as int, j as int);
        lemma_states_contain(ps, board, inverse_placed, set, height, piece, x, y, from + 1, j, depth, sol);
        let k = choose|k: int| 0 <= k < later.len() && later[k] == sol;
        assert(all == here + later);
        assert(all[here.len() + k] == sol);
    } else {
        let k = choose|k: int| 0 <= k < here.len() && here[k] == sol;
        assert(all == here + later);
        assert(all[k] == sol);
    }
}

/// What the search finds with a kind that the set holds, it finds from any
/// kind up to that one.
pub proof fn lemma_pieces_contain(
    ps: Seq<Placement>,
    board: u64,
    inverse_placed: u64,
    set: PieceSet,
    height: nat,
    x: nat,
    y: nat,
    from: nat,
    k: nat,
    depth: nat,
    sol: Seq<Placement>,
)
    requires
        from <= k < 7,
        set.count(Piece::spec_from_index(k as int)) > 0,
        search_states(
            ps,
            board,
            inverse_placed,
            set,
            height,
            Piece::spec_from_index(k as int),
            x,
            y,
            0,
            depth,
        ).contains(sol),
    ensures
        search_pieces(ps, board, inverse_placed, set, height, x, y, from, depth).contains(sol),
    decreases k - from,
{
    let all = search_pieces(ps, board, inverse_placed, set, height, x, y, from, depth);
    let later = search_pieces(ps, board, inverse_placed, set, height, x, y, from + 1, depth);
    let here = search_states(
        ps,
        board,
        inverse_placed,
        set,
        height,
        Piece::spec_from_index(from as int),
        x,
        y,
        0,
        depth,
    );
    if from < k {
        lemma_pieces_contain(ps, board, inverse_placed, set, height, x, y, from + 1, k, depth, sol);
        let i = choose|i: int| 0 <= i < later.len() && later[i] == sol;
        if set.count(Piece::spec_from_index(from as int)) > 0 {
            assert(all == here + later);
            assert(all[here.len() + i] == sol);
        } else {
            assert(all == later);
        }
    } else {
        let i = choose|i: int| 0 <= i < here.len() && here[i] == sol;
        assert(all == here + later);
        assert(all[i] == sol);
    }
}

/// The search is complete but for its two prunings: it finds `head` with
/// `tail` wherever the placements of `tail` are each what it may place next.
pub proof fn lemma_search_complete(
    head: Seq<Placement>,
    tail: Seq<Placement>,
    board: u64,
    inverse_placed: u64,
    set: PieceSet,
    height: nat,
)
    requires
        reaches(head, tail, board, inverse_placed, set, height),
    ensures
        search(head, board, inverse_placed, set, height, set.total()).contains(head + tail),
    decreases tail.len(),
{
    let p = tail[0];
    let (x, y) = next_cell(board, height);
    let piece = p.kind.shape.spec_info().piece;
    let next = head.push(p);
    let filled = p.cells() | board;
    let left = inverse_placed & !p.cells();
    let rest = set.spec_without(piece);
    let depth = set.total();
    let sol = head + tail;
    lemma_without(set, piece);
    let found = placed(head, board, inverse_placed, set, height, p, depth);
    if tail.len() == 1 {
        assert(next =~= sol);
        assert(found =~= seq![next]);
        assert(found[0] == sol);
    } else {
        lemma_search_complete(next, tail.drop_first(), filled, left, rest, height);
        assert(next + tail.drop_first() =~= sol);
        assert(found == search(next, filled, left, rest, height, (depth - 1) as nat));
    }
    assert(found.contains(sol));
    lemma_bucket_complete(p.kind, height);
    let states = bucket(height, piece, y);
    let j = choose|j: int| 0 <= j < states.len() && states[j] == p.kind;
    assert(p == Placement { kind: states[j], x: x as u8 });
    lemma_states_contain(head, board, inverse_placed, set, height, piece, x, y, 0, j as nat, depth, sol);
    assert(Piece::spec_from_index(piece.spec_index()) == piece);
    lemma_pieces_contain(head, board, inverse_placed, set, height, x, y, 0, piece.spec_index() as nat, depth, sol);
}

/// The enumerator is complete but for its two prunings: it finds each
/// sequence of placements that fills the field in the order of the search
/// and passes both prunings after each placement.
pub proof fn lemma_enumerator_complete(tiling: Seq<Placement>, set: PieceSet, board: u64, height: nat)
    requires
        reaches(Seq::empty(), tiling, board, low_mask(10 * height), set, height),
    ensures
        all_combinations(set, board, height).contains(tiling),
{
    lemma_search_complete(Seq::empty(), tiling, board, low_mask(10 * height), set, height);
    assert(Seq::<Placement>::empty() + tiling =~= tiling);
}

/// Whether one of the states of the bucket from position `j` on can be
/// tried at column `x`: it is narrow enough, as are the ones before it, and
/// meets no filled cell.
pub open spec fn tries_states(board: u64, height: nat, piece: Piece, x: nat, y: nat, j: nat) -> bool
    decreases bucket(height, piece, y).len() - j,
{
    let states = bucket(height, piece, y);
    if j >= states.len() || x + states[j as int].shape.spec_info().width > 10 {
        false
    } else {
        Placement { kind: states[j as int], x: x as u8 }.cells() & board == 0 || tries_states(
            board,
            height,
            piece,
            x,
            y,
            j + 1,
        )
    }
}

/// The same for the kinds from position `k` on that the set holds.
pub open spec fn tries_pieces(board: u64, set: PieceSet, height: nat, x: nat, y: nat, k: nat) -> bool
    decreases 7 - k,
{
    if k >= 7 {
        false
    } else {
        (set.count(Piece::spec_from_index(k as int)) > 0 && tries_states(
            board,
            height,
            Piece::spec_from_index(k as int),
            x,
            y,
            0,
        )) || tries_pieces(board, set, height, x, y, k + 1)
    }
}

/// Whether the search, in the state with this field and these pieces, comes
/// to look at the flag that stops it: it looks before it tries a placement,
/// and so only where there is one to try at the next cell. Where there is
/// none, the search ends by itself and nothing can stop it.
pub open spec fn consults(board: u64, set: PieceSet, height: nat) -> bool {
    let (x, y) = next_cell(board, height);
    tries_pieces(board, set, height, x, y, 0)
}

/// Those of `full`, in their order, that `keep` marks.
pub open spec fn kept(full: Seq<Seq<Placement>>, keep: Seq<bool>) -> Seq<Seq<Placement>>
    decreases full.len(),
{
    if full.len() == 0 || keep.len() != full.len() {
        Seq::empty()
    } else if keep.last() {
        kept(full.drop_last(), keep.drop_last()).push(full.last())
    } else {
        kept(full.drop_last(), keep.drop_last())
    }
}

/// `after` is `before` followed by those of `full` that `keep` marks.
pub open spec fn keeps(
    before: Seq<Seq<Placement>>,
    after: Seq<Seq<Placement>>,
    full: Seq<Seq<Placement>>,
    keep: Seq<bool>,
) -> bool {
    keep.len() == full.len() && after == before + kept(full, keep)
}

/// `after` is `before` followed by some of `full`, in their order and each
/// once at most: what a search adds that was stopped at times.
pub open spec fn grown(before: Seq<Seq<Placement>>, after: Seq<Seq<Placement>>, full: Seq<Seq<Placement>>) -> bool {
    exists|keep: Seq<bool>| #[trigger] keeps(before, after, full, keep)
}

/// What is kept of two runs is what is kept of the first and then of the
/// second.
pub proof fn lemma_kept_concat(a: Seq<Seq<Placement>>, ka: Seq<bool>, b: Seq<Seq<Placement>>, kb: Seq<bool>)
    requires
        ka.len() == a.len(),
        kb.len() == b.len(),
    ensures
        kept(a + b, ka + kb) == kept(a, ka) + kept(b, kb),
    decreases b.len(),
{
    if b.len() == 0 {
        assert(a + b =~= a);
        assert(ka + kb =~= ka);
        assert(kept(a, ka) + kept(b, kb) =~= kept(a, ka));
    } else {
        assert((a + b).drop_last() =~= a + b.drop_last());
        assert((ka + kb).drop_last() =~= ka + kb.drop_last());
        lemma_kept_concat(a, ka, b.drop_last(), kb.drop_last());
        if kb.last() {
            assert((kept(a, ka) + kept(b.drop_last(), kb.drop_last())).push(b.last()) =~= kept(a, ka) + kept(
                b.drop_last(),
                kb.drop_last(),
            ).push(b.last()));
        }
    }
}

/// With no mark nothing is kept.
pub proof fn lemma_kept_none(full: Seq<Seq<Placement>>)
    ensures
        kept(full, Seq::new(full.len(), |i: int| false)) == Seq::<Seq<Placement>>::empty(),
    decreases full.len(),
{
    if full.len() > 0 {
        lemma_kept_none(full.drop_last());
        assert(Seq::new(full.len(), |i: int| false).drop_last() =~= Seq::new(full.drop_last().len(), |i: int| false));
    }
}

/// With every mark all is kept.
pub proof fn lemma_kept_all(full: Seq<Seq<Placement>>)
    ensures
        kept(full, Seq::new(full.len(), |i: int| true)) == full,
    decreases full.len(),
{
    if full.len() > 0 {
        lemma_kept_all(full.drop_last());
        assert(Seq::new(full.len(), |i: int| true).drop_last() =~= Seq::new(full.drop_last().len(), |i: int| true));
        assert(full.drop_last().push(full.last()) =~= full);
    }
}

/// A search that was stopped after `done` has added some of what it would
/// have found in all.
pub proof fn lemma_cut(
    before: Seq<Seq<Placement>>,
    after: Seq<Seq<Placement>>,
    done: Seq<Seq<Placement>>,
    keep: Seq<bool>,
    rest: Seq<Seq<Placement>>,
)
    requires
        keeps(before, after, done, keep),
    ensures
        grown(before, after, done + rest),
{
    let none = Seq::new(rest.len(), |i: int| false);
    lemma_kept_none(rest);
    lemma_kept_concat(done, keep, rest, none);
    assert(kept(done, keep) + Seq::<Seq<Placement>>::empty() =~= kept(done, keep));
    assert(keeps(before, after, done + rest, keep + none));
}

/// What two parts of a search add one after the other, the two together add.
pub proof fn lemma_grow(
    start: Seq<Seq<Placement>>,
    middle: Seq<Seq<Placement>>,
    end: Seq<Seq<Placement>>,
    done: Seq<Seq<Placement>>,
    keep: Seq<bool>,
    here: Seq<Seq<Placement>>,
    keep_here: Seq<bool>,
)
    requires
        keeps(start, middle, done, keep),
        keeps(middle, end, here, keep_here),
    ensures
        keeps(start, end, done + here, keep + keep_here),
{
    lemma_kept_concat(done, keep, here, keep_here);
    assert((start + kept(done, keep)) + kept(here, keep_here) =~= start + (kept(done, keep) + kept(here, keep_here)));
}

/// A search that came to its end has added all that it finds.
pub proof fn lemma_grown_whole(before: Seq<Seq<Placement>>, full: Seq<Seq<Placement>>)
    ensures
        grown(before, before + full, full),
{
    lemma_kept_all(full);
    assert(keeps(before, before + full, full, Seq::new(full.len(), |i: int| true)));
}

/// `found` holds some of `full`, in their order and each once at most: what
/// a search returns that was stopped at times.
pub open spec fn some_of(found: Seq<Seq<Placement>>, full: Seq<Seq<Placement>>) -> bool {
    grown(Seq::empty(), found, full)
}

} // verus!
