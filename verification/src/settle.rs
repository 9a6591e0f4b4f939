//! The circle test: that as many passes as there are placements settle all
//! that can settle, and that the test loses no clear that can be played.

use vstd::prelude::*;
use crate::bits::{
    lemma_apart_from_taken, lemma_inside_both_ways, lemma_inside_meets, lemma_nothing, lemma_inside_chain, lemma_inside_itself, lemma_inside_rest,
    lemma_inside_union, lemma_meet_commutes, lemma_meets_more, lemma_meets_union, lemma_part_inside,
    lemma_rest_apart, lemma_row_taken_inside, lemma_union_adds, lemma_union_apart, lemma_union_inside,
};
use crate::board::low_mask;
use crate::combination::{covered, cyclic, lemma_covered_contains, pairwise_disjoint, settle, settle_pass, tiles};
use crate::placement::{hurdle_mask, settled, Placement};
use crate::solve::{board_after, lemma_covered_inside};

verus! {

/// How many of the first `k` placements share no cell with `s`.
pub open spec fn unsettled(s: u64, ps: Seq<Placement>, k: nat) -> nat
    decreases k,
{
    if k == 0 || k > ps.len() {
        0
    } else {
        unsettled(s, ps, (k - 1) as nat) + (if s & ps[k - 1].cells() == 0 { 1nat } else { 0nat })
    }
}

/// A pass takes no cell away.
pub proof fn lemma_pass_grows(s: u64, ps: Seq<Placement>, k: nat)
    ensures
        s & !settle_pass(s, ps, k) == 0,
    decreases k,
{
    if k == 0 || k > ps.len() {
        lemma_inside_itself(s);
    } else {
        lemma_pass_grows(s, ps, (k - 1) as nat);
        let prev = settle_pass(s, ps, (k - 1) as nat);
        let c = ps[k - 1].cells();
        lemma_inside_union(s, prev, c);
    }
}

/// With more cells no more placements are unsettled.
pub proof fn lemma_unsettled_shrinks(s: u64, t: u64, ps: Seq<Placement>, k: nat)
    requires
        s & !t == 0,
    ensures
        unsettled(t, ps, k) <= unsettled(s, ps, k),
    decreases k,
{
    if k > 0 && k <= ps.len() {
        lemma_unsettled_shrinks(s, t, ps, (k - 1) as nat);
        let c = ps[k - 1].cells();
        if s & c != 0 {
            lemma_meets_more(s, t, c);
        }
    }
}

/// With more cells, among them some of a placement that was unsettled,
/// fewer placements are unsettled.
pub proof fn lemma_unsettled_drops(s: u64, t: u64, ps: Seq<Placement>, k: nat, i: int)
    requires
        s & !t == 0,
        0 <= i < k <= ps.len(),
        s & ps[i].cells() == 0,
        t & ps[i].cells() != 0,
    ensures
        unsettled(t, ps, k) < unsettled(s, ps, k),
    decreases k,
{
    let c = ps[k - 1].cells();
    if s & c != 0 {
        lemma_meets_more(s, t, c);
    }
    if i == k - 1 {
        lemma_unsettled_shrinks(s, t, ps, (k - 1) as nat);
    } else {
        lemma_unsettled_drops(s, t, ps, (k - 1) as nat, i);
    }
}

/// A pass that changes the supports settles a placement that was unsettled.
pub proof fn lemma_pass_settles(s: u64, ps: Seq<Placement>, k: nat) -> (i: int)
    requires
        k <= ps.len(),
        settle_pass(s, ps, k) != s,
        forall|j: int| 0 <= j < ps.len() ==> (#[trigger] ps[j]).cells() != 0,
    ensures
        0 <= i < k,
        s & ps[i].cells() == 0,
        settle_pass(s, ps, k) & ps[i].cells() != 0,
    decreases k,
{
    let prev = settle_pass(s, ps, (k - 1) as nat);
    let now = settle_pass(s, ps, k);
    let c = ps[k - 1].cells();
    if prev != s {
        let i = lemma_pass_settles(s, ps, (k - 1) as nat);
        let d = ps[i].cells();
        lemma_inside_itself(prev);
        lemma_inside_union(prev, prev, c);
        if now == prev | c {
            lemma_meets_more(prev, prev | c, d);
        }
        i
    } else {
        assert(now == prev | c);
        lemma_inside_itself(c);
        lemma_inside_union(c, c, prev);
        lemma_inside_meets(c, prev | c);
        k - 1
    }
}

/// A pass over placements that are all settled changes nothing.
pub proof fn lemma_all_settled(s: u64, ps: Seq<Placement>, k: nat)
    requires
        k <= ps.len(),
        unsettled(s, ps, k) == 0,
    ensures
        settle_pass(s, ps, k) == s,
    decreases k,
{
    if k > 0 {
        lemma_all_settled(s, ps, (k - 1) as nat);
    }
}

/// After `r` passes the supports are stable, or `r` placements at least are
/// settled.
pub proof fn lemma_rounds(s: u64, ps: Seq<Placement>, r: nat)
    requires
        forall|j: int| 0 <= j < ps.len() ==> (#[trigger] ps[j]).cells() != 0,
    ensures
        settle_pass(settle(s, ps, r), ps, ps.len()) == settle(s, ps, r) || unsettled(settle(s, ps, r), ps, ps.len())
            + r <= ps.len(),
    decreases r,
{
    let n = ps.len();
    if r == 0 {
        lemma_unsettled_bound(s, ps, n);
    } else {
        lemma_rounds(s, ps, (r - 1) as nat);
        let before = settle(s, ps, (r - 1) as nat);
        let now = settle(s, ps, r);
        if now != before {
            let i = lemma_pass_settles(before, ps, n);
            lemma_pass_grows(before, ps, n);
            lemma_unsettled_drops(before, now, ps, n, i);
        }
    }
}

/// No more placements are unsettled than there are.
pub proof fn lemma_unsettled_bound(s: u64, ps: Seq<Placement>, k: nat)
    ensures
        unsettled(s, ps, k) <= k,
    decreases k,
{
    if k > 0 && k <= ps.len() {
        lemma_unsettled_bound(s, ps, (k - 1) as nat);
    }
}

/// As many passes as there are placements, each with a cell, settle all
/// that can settle: one pass more adds nothing.
pub proof fn lemma_settle_is_closed(s: u64, ps: Seq<Placement>)
    requires
        forall|j: int| 0 <= j < ps.len() ==> (#[trigger] ps[j]).cells() != 0,
    ensures
        settle_pass(settle(s, ps, ps.len()), ps, ps.len()) == settle(s, ps, ps.len()),
{
    lemma_rounds(s, ps, ps.len());
    let end = settle(s, ps, ps.len());
    if settle_pass(end, ps, ps.len()) != end {
        lemma_all_settled(end, ps, ps.len());
    }
}

/// A well-formed placement covers a cell.
pub proof fn lemma_cells_nonempty(p: Placement)
    requires
        p.wf(),
    ensures
        p.cells() != 0,
{
    let info = p.kind.shape.spec_info();
    let r = info.r0;
    let s = (10 * p.kind.gaps.pos(0)) as u64;
    let x = p.x as u64;
    assert(1 <= r <= 15 && 1 <= info.height && 1 <= info.width);
    assert(p.kind.bits == ((r << s) | crate::shape::placed_row(info, p.kind.gaps, 1)) | crate::shape::placed_row(
        info,
        p.kind.gaps,
        2,
    ) | crate::shape::placed_row(info, p.kind.gaps, 3));
    let a = crate::shape::placed_row(info, p.kind.gaps, 1);
    let b = crate::shape::placed_row(info, p.kind.gaps, 2);
    let c = crate::shape::placed_row(info, p.kind.gaps, 3);
    assert(1 <= r <= 15 && s <= 50 && x <= 9 ==> (((((r << s) | a) | b) | c) << x) != 0) by (bit_vector);
}

/// As many passes as there are placements settle all of a set of
/// well-formed placements that can settle.
pub proof fn lemma_settle_is_closed_wf(s: u64, ps: Seq<Placement>)
    requires
        forall|j: int| 0 <= j < ps.len() ==> (#[trigger] ps[j]).wf(),
    ensures
        settle_pass(settle(s, ps, ps.len()), ps, ps.len()) == settle(s, ps, ps.len()),
{
    assert forall|j: int| 0 <= j < ps.len() implies (#[trigger] ps[j]).cells() != 0 by {
        lemma_cells_nonempty(ps[j]);
    }
    lemma_settle_is_closed(s, ps);
}

/// A pass over more placements leaves no fewer cells.
pub proof fn lemma_pass_grows_on(s: u64, ps: Seq<Placement>, j: nat, k: nat)
    requires
        j <= k <= ps.len(),
    ensures
        settle_pass(s, ps, j) & !settle_pass(s, ps, k) == 0,
    decreases k - j,
{
    if j == k {
        lemma_inside_itself(settle_pass(s, ps, j));
    } else {
        lemma_pass_grows_on(s, ps, j, (k - 1) as nat);
        let prev = settle_pass(s, ps, (k - 1) as nat);
        lemma_inside_union(settle_pass(s, ps, j), prev, ps[k - 1].cells());
    }
}

/// The passes take no cell away.
pub proof fn lemma_rounds_grow(s: u64, ps: Seq<Placement>, r: nat)
    ensures
        s & !settle(s, ps, r) == 0,
    decreases r,
{
    if r == 0 {
        lemma_inside_itself(s);
    } else {
        lemma_rounds_grow(s, ps, (r - 1) as nat);
        let before = settle(s, ps, (r - 1) as nat);
        lemma_pass_grows(before, ps, ps.len());
        lemma_inside_chain(s, before, settle(s, ps, r));
    }
}

/// Every placement lies inside `m`.
pub open spec fn all_inside(ps: Seq<Placement>, m: u64) -> bool {
    forall|j: int| 0 <= j < ps.len() ==> (#[trigger] ps[j]).cells() & !m == 0
}

/// A pass over placements inside `m`, from supports inside `m`, stays
/// inside `m`.
pub proof fn lemma_pass_inside(s: u64, ps: Seq<Placement>, k: nat, m: u64)
    requires
        s & !m == 0,
        all_inside(ps, m),
    ensures
        settle_pass(s, ps, k) & !m == 0,
    decreases k,
{
    if k > 0 && k <= ps.len() {
        lemma_pass_inside(s, ps, (k - 1) as nat, m);
        lemma_union_inside(settle_pass(s, ps, (k - 1) as nat), ps[k - 1].cells(), m);
    }
}

/// The same of the passes together.
pub proof fn lemma_rounds_inside(s: u64, ps: Seq<Placement>, r: nat, m: u64)
    requires
        s & !m == 0,
        all_inside(ps, m),
    ensures
        settle(s, ps, r) & !m == 0,
    decreases r,
{
    if r > 0 {
        lemma_rounds_inside(s, ps, (r - 1) as nat, m);
        lemma_pass_inside(settle(s, ps, (r - 1) as nat), ps, ps.len(), m);
    }
}

/// The placement at position `j` has no cell among `s`, or all of them.
pub open spec fn whole_at(s: u64, ps: Seq<Placement>, j: int) -> bool {
    s & ps[j].cells() == 0 || ps[j].cells() & !s == 0
}

/// The same of each placement.
pub open spec fn whole(s: u64, ps: Seq<Placement>) -> bool {
    forall|j: int| 0 <= j < ps.len() ==> #[trigger] whole_at(s, ps, j)
}

/// A pass over placements that share no cell adds whole placements only.
pub proof fn lemma_pass_whole(s: u64, ps: Seq<Placement>, k: nat)
    requires
        whole(s, ps),
        pairwise_disjoint(ps),
    ensures
        whole(settle_pass(s, ps, k), ps),
    decreases k,
{
    if k > 0 && k <= ps.len() {
        lemma_pass_whole(s, ps, (k - 1) as nat);
        let prev = settle_pass(s, ps, (k - 1) as nat);
        let now = settle_pass(s, ps, k);
        let i = k - 1;
        let c = ps[i].cells();
        if now != prev {
            assert forall|j: int| 0 <= j < ps.len() implies #[trigger] whole_at(now, ps, j) by {
                let d = ps[j].cells();
                assert(whole_at(prev, ps, j));
                if j == i {
                    lemma_inside_itself(c);
                    lemma_inside_union(c, c, prev);
                } else {
                    if j < i {
                        assert(ps[j].cells() & ps[i].cells() == 0);
                        lemma_meet_commutes(d, c);
                    } else {
                        assert(ps[i].cells() & ps[j].cells() == 0);
                    }
                    if now & d != 0 {
                        lemma_meets_union(prev, c, d);
                        lemma_inside_union(d, prev, c);
                    }
                }
            }
        }
    }
}

/// The same of the passes together.
pub proof fn lemma_rounds_whole(s: u64, ps: Seq<Placement>, r: nat)
    requires
        whole(s, ps),
        pairwise_disjoint(ps),
    ensures
        whole(settle(s, ps, r), ps),
    decreases r,
{
    if r > 0 {
        lemma_rounds_whole(s, ps, (r - 1) as nat);
        lemma_pass_whole(settle(s, ps, (r - 1) as nat), ps, ps.len());
    }
}

/// Where a pass adds nothing, no placement that shares no cell with the
/// supports can stand on them.
pub proof fn lemma_closed_blocks(f: u64, ps: Seq<Placement>, j: int)
    requires
        0 <= j < ps.len(),
        settle_pass(f, ps, ps.len()) == f,
        ps[j].cells() != 0,
    ensures
        !(f & ps[j].cells() == 0 && ps[j].spec_supported(f)),
{
    let before = settle_pass(f, ps, j as nat);
    let after = settle_pass(f, ps, (j + 1) as nat);
    lemma_pass_grows(f, ps, j as nat);
    lemma_pass_grows_on(f, ps, j as nat, ps.len());
    lemma_inside_both_ways(f, before);
    lemma_pass_grows(f, ps, (j + 1) as nat);
    lemma_pass_grows_on(f, ps, (j + 1) as nat, ps.len());
    lemma_inside_both_ways(f, after);
    if f & ps[j].cells() == 0 && ps[j].spec_supported(f) {
        lemma_union_adds(f, ps[j].cells());
    }
}

/// Taking the place of full rows by the rows under them adds no cell.
pub proof fn lemma_settled_inside(on: u64, n: nat)
    ensures
        settled(on, n) & !on == 0,
    decreases n,
{
    if n <= 1 {
        lemma_inside_itself(on);
    } else {
        lemma_settled_inside(on, (n - 1) as nat);
        let prev = settled(on, (n - 1) as nat);
        let now = settled(on, n);
        lemma_row_taken_inside(prev, 0x3ffu64 << ((10 * (n - 1)) as u64));
        lemma_inside_itself(prev);
        lemma_inside_chain(now, prev, on);
    }
}

/// A placement that can come next on a field can stand on any supports that
/// hold the field.
pub proof fn lemma_placeable_stands(p: Placement, on: u64, f: u64)
    requires
        p.spec_placeable(on),
        on & !f == 0,
    ensures
        p.spec_supported(f),
{
    lemma_inside_chain(hurdle_mask(p.kind.hurdle_rows, 5), on, f);
    if p.kind.gaps.g0 != 0 {
        lemma_settled_inside(on, 6);
        lemma_inside_chain(settled(on, 6), on, f);
        lemma_meets_more(settled(on, 6), f, p.kind.below << (p.x as u64));
    }
}

/// Placements that each share no cell with `c` cover no cell of `c`.
pub proof fn lemma_covered_apart(ps: Seq<Placement>, c: u64)
    requires
        forall|j: int| 0 <= j < ps.len() ==> (#[trigger] ps[j]).cells() & c == 0,
    ensures
        covered(ps) & c == 0,
        c & covered(ps) == 0,
    decreases ps.len(),
{
    if ps.len() > 0 {
        lemma_covered_apart(ps.drop_last(), c);
        assert(ps[ps.len() - 1].cells() & c == 0);
        lemma_union_apart(covered(ps.drop_last()), ps.last().cells(), c);
    } else {
        lemma_nothing(c);
    }
}

/// `order` is a way to clear the field: its placements tile the empty cells
/// of `board` under `height`, and each can come next on the field that the
/// ones before it leave.
pub open spec fn clears_in_order(order: Seq<Placement>, board: u64, height: nat) -> bool {
    &&& tiles(order, board, height)
    &&& board & !low_mask(10 * height) == 0
    &&& forall|i: int| 0 <= i < order.len() ==> (#[trigger] order[i]).spec_placeable(
        board_after(order.take(i), board),
    )
}

/// `some` are placements of `order`, and no two of them share a cell.
pub open spec fn chosen_from(some: Seq<Placement>, order: Seq<Placement>) -> bool {
    &&& pairwise_disjoint(some)
    &&& forall|j: int| 0 <= j < some.len() ==> order.contains(#[trigger] some[j])
}

/// The supports with which the circle test begins, and what it ends with.
pub open spec fn first_supports(some: Seq<Placement>, height: nat) -> u64 {
    low_mask(10 * height) & !covered(some)
}

/// Each placement of a selection lies inside what the whole covers.
pub proof fn lemma_chosen_inside(some: Seq<Placement>, order: Seq<Placement>)
    requires
        chosen_from(some, order),
    ensures
        all_inside(some, covered(order)),
        covered(some) & !covered(order) == 0,
{
    assert forall|j: int| 0 <= j < some.len() implies (#[trigger] some[j]).cells() & !covered(order) == 0 by {
        let i = choose|i: int| 0 <= i < order.len() && order[i] == some[j];
        lemma_covered_contains(order, i);
        lemma_part_inside(covered(order), order[i].cells());
    }
    lemma_covered_inside(some, covered(order));
}

/// The field at the start lies inside the supports with which the circle
/// test begins.
pub proof fn lemma_start_inside(order: Seq<Placement>, board: u64, height: nat, some: Seq<Placement>)
    requires
        clears_in_order(order, board, height),
        chosen_from(some, order),
    ensures
        board & !first_supports(some, height) == 0,
{
    let mask = low_mask(10 * height);
    lemma_chosen_inside(some, order);
    lemma_apart_from_taken(covered(some), mask, board);
    lemma_inside_rest(board, mask, covered(some));
}

/// A placement of the clear that the test was not given lies inside the
/// supports with which the test begins.
pub proof fn lemma_other_inside(order: Seq<Placement>, k: int, board: u64, height: nat, some: Seq<Placement>)
    requires
        0 <= k < order.len(),
        clears_in_order(order, board, height),
        chosen_from(some, order),
        !some.contains(order[k]),
    ensures
        order[k].cells() & !first_supports(some, height) == 0,
{
    let mask = low_mask(10 * height);
    let c = order[k].cells();
    assert forall|j: int| 0 <= j < some.len() implies (#[trigger] some[j]).cells() & c == 0 by {
        let i = choose|i: int| 0 <= i < order.len() && order[i] == some[j];
        assert(i != k);
        if i < k {
            assert(order[i].cells() & order[k].cells() == 0);
        } else {
            assert(order[k].cells() & order[i].cells() == 0);
            lemma_meet_commutes(c, order[i].cells());
        }
    }
    lemma_covered_apart(some, c);
    lemma_covered_contains(order, k);
    lemma_part_inside(covered(order), c);
    lemma_apart_from_taken(c, mask, board);
    lemma_inside_rest(c, mask, covered(some));
}

/// A placement that the test was given, and that can stand on what the test
/// ends with, lies inside that.
pub proof fn lemma_chosen_settles(some: Seq<Placement>, j: int, height: nat)
    requires
        0 <= j < some.len(),
        pairwise_disjoint(some),
        forall|i: int| 0 <= i < some.len() ==> (#[trigger] some[i]).wf(),
        some[j].spec_supported(settle(first_supports(some, height), some, some.len())),
    ensures
        some[j].cells() & !settle(first_supports(some, height), some, some.len()) == 0,
{
    let mask = low_mask(10 * height);
    let start = first_supports(some, height);
    let f = settle(start, some, some.len());
    lemma_settle_is_closed_wf(start, some);
    lemma_cells_nonempty(some[j]);
    lemma_closed_blocks(f, some, j);
    assert forall|i: int| 0 <= i < some.len() implies #[trigger] whole_at(start, some, i) by {
        lemma_covered_contains(some, i);
        lemma_part_inside(covered(some), some[i].cells());
        lemma_rest_apart(mask, covered(some), some[i].cells());
    }
    lemma_rounds_whole(start, some, some.len());
    assert(whole_at(f, some, j));
}

/// While a clear is played, the field stays inside what the circle test
/// ends with, whatever placements of the clear the test was given.
pub proof fn lemma_played_inside(order: Seq<Placement>, k: nat, board: u64, height: nat, some: Seq<Placement>)
    requires
        k <= order.len(),
        clears_in_order(order, board, height),
        chosen_from(some, order),
    ensures
        board_after(order.take(k as int), board) & !settle(first_supports(some, height), some, some.len()) == 0,
    decreases k,
{
    let start = first_supports(some, height);
    let f = settle(start, some, some.len());
    lemma_rounds_grow(start, some, some.len());
    if k == 0 {
        assert(order.take(0) =~= Seq::<Placement>::empty());
        lemma_start_inside(order, board, height, some);
        lemma_inside_chain(board, start, f);
    } else {
        lemma_played_inside(order, (k - 1) as nat, board, height, some);
        let before = board_after(order.take(k - 1), board);
        let p = order[k - 1];
        let c = p.cells();
        assert(order.take(k as int).drop_last() =~= order.take(k - 1));
        assert(order.take(k as int).last() == p);
        assert(board_after(order.take(k as int), board) == before | c);
        if some.contains(p) {
            let j = choose|j: int| 0 <= j < some.len() && some[j] == p;
            assert forall|i: int| 0 <= i < some.len() implies (#[trigger] some[i]).wf() by {
                let at = choose|at: int| 0 <= at < order.len() && order[at] == some[i];
                assert(order[at].wf());
            }
            lemma_placeable_stands(p, before, f);
            lemma_chosen_settles(some, j, height);
        } else {
            lemma_other_inside(order, k - 1, board, height, some);
            lemma_inside_chain(c, start, f);
        }
        lemma_union_inside(before, c, f);
    }
}

/// The circle test loses no clear: where placements can be played to a
/// clear in some order, the test finds no circle among any of them, the
/// cells of the others counting as support.
pub proof fn lemma_playable_not_cyclic(order: Seq<Placement>, board: u64, height: nat, some: Seq<Placement>)
    requires
        clears_in_order(order, board, height),
        board_after(order, board) == low_mask(10 * height),
        chosen_from(some, order),
    ensures
        !cyclic(first_supports(some, height), some, height),
{
    let mask = low_mask(10 * height);
    let start = first_supports(some, height);
    let f = settle(start, some, some.len());
    lemma_played_inside(order, order.len(), board, height, some);
    assert(order.take(order.len() as int) =~= order);
    lemma_chosen_inside(some, order);
    lemma_nothing(board);
    lemma_rest_apart(mask, board, 0);
    lemma_nothing(covered(some));
    lemma_rest_apart(mask, covered(some), 0);
    assert forall|j: int| 0 <= j < some.len() implies (#[trigger] some[j]).cells() & !mask == 0 by {
        lemma_inside_chain(some[j].cells(), covered(order), mask);
    }
    lemma_rounds_inside(start, some, some.len(), mask);
    lemma_inside_both_ways(f, mask);
}

} // verus!
