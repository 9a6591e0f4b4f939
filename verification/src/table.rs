//! Every state that a piece can take in the field, and the same states
//! sorted into the buckets in which the search looks them up.

use vstd::prelude::*;
use crate::piece::Piece;
use crate::shape::{Gaps, PieceState, Shape};

verus! {

/// The states of `shape` whose gaps have a code below `c`, in the order of
/// their codes.
pub open spec fn states_upto(shape: Shape, c: nat) -> Seq<PieceState>
    decreases c,
{
    if c == 0 {
        Seq::empty()
    } else {
        let prev = states_upto(shape, (c - 1) as nat);
        let g = Gaps::spec_decode((c - 1) as nat);
        if g.fits(shape.spec_info().height as nat) {
            prev.push(PieceState::spec_new(shape, g))
        } else {
            prev
        }
    }
}

/// The states of the first `n` shapes, shape after shape.
pub open spec fn all_states_upto(n: nat) -> Seq<PieceState>
    decreases n,
{
    if n == 0 {
        Seq::empty()
    } else {
        all_states_upto((n - 1) as nat) + states_upto(Shape::spec_from_index(n - 1), 1296)
    }
}

/// Every state of every shape.
pub open spec fn all_states() -> Seq<PieceState> {
    all_states_upto(19)
}

/// Whether the state belongs to the bucket of a field of `height` rows, of
/// the kind `piece` and of the cell row `y`, among those `width` columns wide.
pub open spec fn in_bucket(s: PieceState, height: nat, piece: Piece, y: nat, width: nat) -> bool {
    &&& s.shape.spec_info().piece == piece
    &&& s.spec_height() <= height
    &&& s.spec_cell_y() == y
    &&& s.shape.spec_info().width == width
}

/// Those of the first `n` states of `all` that are in the bucket and `width`
/// wide, in their order.
pub open spec fn select_upto(all: Seq<PieceState>, n: nat, height: nat, piece: Piece, y: nat, width: nat) -> Seq<
    PieceState,
>
    decreases n,
{
    if n == 0 || n > all.len() {
        Seq::empty()
    } else {
        let prev = select_upto(all, (n - 1) as nat, height, piece, y, width);
        if in_bucket(all[n - 1], height, piece, y, width) {
            prev.push(all[n - 1])
        } else {
            prev
        }
    }
}

/// The states of `all` that are in the bucket and at most `w` wide: the
/// narrower ones first, those of one width in their order in `all`.
pub open spec fn bucket_upto(all: Seq<PieceState>, height: nat, piece: Piece, y: nat, w: nat) -> Seq<PieceState>
    decreases w,
{
    if w == 0 {
        Seq::empty()
    } else {
        bucket_upto(all, height, piece, y, (w - 1) as nat) + select_upto(all, all.len(), height, piece, y, w)
    }
}

/// The bucket of a field of `height` rows, of the kind `piece` and of the
/// cell row `y`.
pub open spec fn bucket(height: nat, piece: Piece, y: nat) -> Seq<PieceState> {
    bucket_upto(all_states(), height, piece, y, 4)
}

/// The bucket that stands at position `i` of the table.
pub open spec fn bucket_at(i: nat) -> Seq<PieceState> {
    bucket(i / 42 + 1, Piece::spec_from_index(((i / 6) % 7) as int), i % 6)
}

/// The state is well-formed, of the kind of the bucket, no higher than the
/// bucket's field, and has its lowest cell of column 0 in the bucket's row.
pub open spec fn belongs(s: PieceState, height: nat, piece: Piece, y: nat) -> bool {
    &&& s.wf()
    &&& s.shape.spec_info().piece == piece
    &&& s.spec_height() <= height
    &&& s.spec_cell_y() == y
}

/// Every state of every shape, each of them well-formed.
pub fn piece_states() -> (r: Vec<PieceState>)
    ensures
        r@ == all_states(),
        forall|i: int| 0 <= i < r@.len() ==> (#[trigger] r@[i]).wf(),
{
    let mut out: Vec<PieceState> = Vec::new();
    let mut si: usize = 0;
    while si < 19
        invariant
            si <= 19,
            out@ == all_states_upto(si as nat),
            forall|i: int| 0 <= i < out@.len() ==> (#[trigger] out@[i]).wf(),
        decreases 19 - si,
    {
        let shape = Shape::from_index(si);
        let ghost before = out@;
        let mut c: usize = 0;
        while c < 1296
            invariant
                c <= 1296,
                shape == Shape::spec_from_index(si as int),
                out@ == before + states_upto(shape, c as nat),
                forall|i: int| 0 <= i < out@.len() ==> (#[trigger] out@[i]).wf(),
            decreases 1296 - c,
        {
            let g = Gaps::decode(c);
            match PieceState::new(shape, g) {
                Some(s) => {
                    out.push(s);
                    assert(out@ =~= before + states_upto(shape, (c + 1) as nat));
                },
                None => {},
            }
            c += 1;
        }
        si += 1;
    }
    out
}

/// The states in the buckets in which the search looks them up.
pub struct ShapeTable {
    pub buckets: Vec<Vec<PieceState>>,
}

impl ShapeTable {
    /// The table holds each bucket at its position.
    pub open spec fn wf(self) -> bool {
        &&& self.buckets@.len() == 252
        &&& forall|i: int| 0 <= i < 252 ==> (#[trigger] self.buckets@[i])@ == bucket_at(i as nat)
        &&& forall|i: int, j: int|
            0 <= i < 252 && 0 <= j < self.buckets@[i]@.len() ==> belongs(
                #[trigger] self.buckets@[i]@[j],
                (i / 42 + 1) as nat,
                Piece::spec_from_index((i / 6) % 7),
                (i % 6) as nat,
            )
    }

    pub fn new() -> (r: ShapeTable)
        ensures
            r.wf(),
    {
        let all = piece_states();
        let mut buckets: Vec<Vec<PieceState>> = Vec::new();
        let mut i: usize = 0;
        while i < 252
            invariant
                i <= 252,
                all@ == all_states(),
                forall|k: int| 0 <= k < all@.len() ==> (#[trigger] all@[k]).wf(),
                buckets@.len() == i,
                forall|k: int| 0 <= k < i ==> (#[trigger] buckets@[k])@ == bucket_at(k as nat),
                forall|k: int, j: int|
                    0 <= k < i && 0 <= j < buckets@[k]@.len() ==> belongs(
                        #[trigger] buckets@[k]@[j],
                        (k / 42 + 1) as nat,
                        Piece::spec_from_index((k / 6) % 7),
                        (k % 6) as nat,
                    ),
            decreases 252 - i,
        {
            let height: u8 = (i / 42 + 1) as u8;
            let piece = Piece::from_index((i / 6) % 7);
            let y: u8 = (i % 6) as u8;
            let b = fill_bucket(&all, height, piece, y);
            buckets.push(b);
            i += 1;
        }
        ShapeTable { buckets }
    }

    /// The bucket of a field of `height` rows, of the kind `piece` and of the
    /// cell row `y`.
    pub fn states_for(&self, height: usize, piece: Piece, y: usize) -> (r: &Vec<PieceState>)
        requires
            self.wf(),
            1 <= height <= 6,
            y < 6,
        ensures
            r@ == bucket(height as nat, piece, y as nat),
            forall|j: int| 0 <= j < r@.len() ==> belongs(#[trigger] r@[j], height as nat, piece, y as nat),
    {
        let k = piece.index();
        let i = ((height - 1) * 7 + k) * 6 + y;
        assert(i / 42 + 1 == height && (i / 6) % 7 == k && i % 6 == y);
        assert(Piece::spec_from_index(k as int) == piece);
        &self.buckets[i]
    }
}

/// The bucket of `height`, `piece` and `y`, taken from `all`.
fn fill_bucket(all: &Vec<PieceState>, height: u8, piece: Piece, y: u8) -> (r: Vec<PieceState>)
    requires
        forall|k: int| 0 <= k < all@.len() ==> (#[trigger] all@[k]).wf(),
    ensures
        r@ == bucket_upto(all@, height as nat, piece, y as nat, 4),
        forall|j: int| 0 <= j < r@.len() ==> belongs(#[trigger] r@[j], height as nat, piece, y as nat),
{
    let mut out: Vec<PieceState> = Vec::new();
    let mut w: u8 = 1;
    while w <= 4
        invariant
            1 <= w <= 5,
            forall|k: int| 0 <= k < all@.len() ==> (#[trigger] all@[k]).wf(),
            out@ == bucket_upto(all@, height as nat, piece, y as nat, (w - 1) as nat),
            forall|j: int| 0 <= j < out@.len() ==> belongs(#[trigger] out@[j], height as nat, piece, y as nat),
        decreases 5 - w,
    {
        let ghost before = out@;
        let mut n: usize = 0;
        while n < all.len()
            invariant
                n <= all@.len(),
                forall|k: int| 0 <= k < all@.len() ==> (#[trigger] all@[k]).wf(),
                out@ == before + select_upto(all@, n as nat, height as nat, piece, y as nat, w as nat),
                forall|j: int| 0 <= j < out@.len() ==> belongs(#[trigger] out@[j], height as nat, piece, y as nat),
            decreases all@.len() - n,
        {
            let s = all[n];
            if s.piece() == piece && s.height() <= height && s.cell_y() == y && s.width() == w {
                out.push(s);
                assert(out@ =~= before + select_upto(
                    all@,
                    (n + 1) as nat,
                    height as nat,
                    piece,
                    y as nat,
                    w as nat,
                ));
            }
            n += 1;
        }
        w += 1;
    }
    out
}

/// Gaps of at most five each are the gaps that their code stands for.
pub proof fn lemma_decode_code(gaps: Gaps)
    requires
        gaps.g0 <= 5,
        gaps.g1 <= 5,
        gaps.g2 <= 5,
        gaps.g3 <= 5,
    ensures
        gaps.code() < 1296,
        Gaps::spec_decode(gaps.code()) == gaps,
{
    let c = gaps.code();
    assert(c == gaps.g0 * 216 + gaps.g1 * 36 + gaps.g2 * 6 + gaps.g3);
    assert(c / 216 == gaps.g0);
    assert(c / 36 == gaps.g0 * 6 + gaps.g1);
    assert(c / 6 == gaps.g0 * 36 + gaps.g1 * 6 + gaps.g2);
    assert((c / 36) % 6 == gaps.g1);
    assert((c / 6) % 6 == gaps.g2);
    assert(c % 6 == gaps.g3);
}

/// The list of the states of a shape holds the state of each fitting gaps
/// whose code is below the bound.
pub proof fn lemma_states_upto_complete(shape: Shape, gaps: Gaps, c: nat)
    requires
        gaps.fits(shape.spec_info().height as nat),
        gaps.g0 <= 5 && gaps.g1 <= 5 && gaps.g2 <= 5 && gaps.g3 <= 5,
        gaps.code() < c <= 1296,
    ensures
        states_upto(shape, c).contains(PieceState::spec_new(shape, gaps)),
    decreases c,
{
    let wanted = PieceState::spec_new(shape, gaps);
    let prev = states_upto(shape, (c - 1) as nat);
    let now = states_upto(shape, c);
    if c - 1 == gaps.code() {
        lemma_decode_code(gaps);
        assert(now == prev.push(wanted));
        assert(now[prev.len() as int] == wanted);
    } else {
        lemma_states_upto_complete(shape, gaps, (c - 1) as nat);
        let i = choose|i: int| 0 <= i < prev.len() && prev[i] == wanted;
        assert(now == prev || now == prev.push(PieceState::spec_new(shape, Gaps::spec_decode((c - 1) as nat))));
        assert(now[i] == wanted);
    }
}

/// What the list of one of the first `n` shapes holds, the list of all holds.
pub proof fn lemma_all_states_upto_complete(n: nat, k: int, wanted: PieceState)
    requires
        0 <= k < n <= 19,
        states_upto(Shape::spec_from_index(k), 1296).contains(wanted),
    ensures
        all_states_upto(n).contains(wanted),
    decreases n,
{
    let first = all_states_upto((n - 1) as nat);
    let last = states_upto(Shape::spec_from_index(n - 1), 1296);
    if k == n - 1 {
        let i = choose|i: int| 0 <= i < last.len() && last[i] == wanted;
        assert((first + last)[first.len() + i] == wanted);
    } else {
        lemma_all_states_upto_complete((n - 1) as nat, k, wanted);
        let i = choose|i: int| 0 <= i < first.len() && first[i] == wanted;
        assert((first + last)[i] == wanted);
    }
}

/// The table is exhaustive: it holds the state of every shape with every
/// gaps that fit it.
pub proof fn lemma_every_state_listed(shape: Shape, gaps: Gaps)
    requires
        gaps.fits(shape.spec_info().height as nat),
    ensures
        all_states().contains(PieceState::spec_new(shape, gaps)),
{
    assert(1 <= shape.spec_info().height <= 4);
    assert(Shape::spec_from_index(shape.spec_index()) == shape);
    lemma_decode_code(gaps);
    lemma_states_upto_complete(shape, gaps, 1296);
    lemma_all_states_upto_complete(19, shape.spec_index(), PieceState::spec_new(shape, gaps));
}

/// Every state of the table is the state of its shape and its gaps, and the
/// gaps fit the shape.
pub proof fn lemma_listed_states_fit(i: int)
    requires
        0 <= i < all_states().len(),
    ensures
        all_states()[i].wf(),
        all_states()[i] == PieceState::spec_new(all_states()[i].shape, all_states()[i].gaps),
{
    lemma_all_upto_fit(19, i);
}

/// The same of the states of the first `n` shapes.
pub proof fn lemma_all_upto_fit(n: nat, i: int)
    requires
        0 <= i < all_states_upto(n).len(),
    ensures
        all_states_upto(n)[i].wf(),
        all_states_upto(n)[i] == PieceState::spec_new(all_states_upto(n)[i].shape, all_states_upto(n)[i].gaps),
    decreases n,
{
    if n > 0 {
        let first = all_states_upto((n - 1) as nat);
        if i < first.len() {
            lemma_all_upto_fit((n - 1) as nat, i);
        } else {
            lemma_upto_fit(Shape::spec_from_index(n - 1), 1296, i - first.len());
        }
    }
}

/// The same of the states of one shape.
pub proof fn lemma_upto_fit(shape: Shape, c: nat, i: int)
    requires
        0 <= i < states_upto(shape, c).len(),
    ensures
        states_upto(shape, c)[i].wf(),
        states_upto(shape, c)[i] == PieceState::spec_new(states_upto(shape, c)[i].shape, states_upto(shape, c)[i].gaps),
    decreases c,
{
    if c > 0 {
        let prev = states_upto(shape, (c - 1) as nat);
        if i < prev.len() {
            lemma_upto_fit(shape, (c - 1) as nat, i);
        }
    }
}

/// What was selected for a bucket and a width is of that bucket and width.
pub proof fn lemma_selected(all: Seq<PieceState>, n: nat, height: nat, piece: Piece, y: nat, width: nat, i: int)
    requires
        0 <= i < select_upto(all, n, height, piece, y, width).len(),
    ensures
        in_bucket(select_upto(all, n, height, piece, y, width)[i], height, piece, y, width),
    decreases n,
{
    if n > 0 && n <= all.len() {
        let prev = select_upto(all, (n - 1) as nat, height, piece, y, width);
        if i < prev.len() {
            lemma_selected(all, (n - 1) as nat, height, piece, y, width, i);
        }
    }
}

/// A state of a bucket up to the width `w` is at most `w` wide.
pub proof fn lemma_bucket_width(all: Seq<PieceState>, height: nat, piece: Piece, y: nat, w: nat, i: int)
    requires
        0 <= i < bucket_upto(all, height, piece, y, w).len(),
    ensures
        bucket_upto(all, height, piece, y, w)[i].shape.spec_info().width <= w,
    decreases w,
{
    if w > 0 {
        let prev = bucket_upto(all, height, piece, y, (w - 1) as nat);
        if i < prev.len() {
            lemma_bucket_width(all, height, piece, y, (w - 1) as nat, i);
        } else {
            lemma_selected(all, all.len(), height, piece, y, w, i - prev.len());
        }
    }
}

/// A bucket is in the order of the widths: no state stands before a
/// narrower one.
pub proof fn lemma_bucket_sorted(all: Seq<PieceState>, height: nat, piece: Piece, y: nat, w: nat, i: int, j: int)
    requires
        0 <= i < j < bucket_upto(all, height, piece, y, w).len(),
    ensures
        bucket_upto(all, height, piece, y, w)[i].shape.spec_info().width <= bucket_upto(
            all,
            height,
            piece,
            y,
            w,
        )[j].shape.spec_info().width,
    decreases w,
{
    if w > 0 {
        let prev = bucket_upto(all, height, piece, y, (w - 1) as nat);
        if j < prev.len() {
            lemma_bucket_sorted(all, height, piece, y, (w - 1) as nat, i, j);
        } else {
            lemma_selected(all, all.len(), height, piece, y, w, j - prev.len());
            if i < prev.len() {
                lemma_bucket_width(all, height, piece, y, (w - 1) as nat, i);
            } else {
                lemma_selected(all, all.len(), height, piece, y, w, i - prev.len());
            }
        }
    }
}

/// What is of a bucket and a width among the first `n` states was selected.
pub proof fn lemma_select_complete(
    all: Seq<PieceState>,
    n: nat,
    height: nat,
    piece: Piece,
    y: nat,
    width: nat,
    i: int,
)
    requires
        0 <= i < n <= all.len(),
        in_bucket(all[i], height, piece, y, width),
    ensures
        select_upto(all, n, height, piece, y, width).contains(all[i]),
    decreases n,
{
    let prev = select_upto(all, (n - 1) as nat, height, piece, y, width);
    let now = select_upto(all, n, height, piece, y, width);
    if i == n - 1 {
        assert(now[prev.len() as int] == all[i]);
    } else {
        lemma_select_complete(all, (n - 1) as nat, height, piece, y, width, i);
        let k = choose|k: int| 0 <= k < prev.len() && prev[k] == all[i];
        assert(now[k] == all[i]);
    }
}

/// A bucket up to the width `w` holds what is of the bucket and at most
/// that wide.
pub proof fn lemma_bucket_upto_complete(
    all: Seq<PieceState>,
    height: nat,
    piece: Piece,
    y: nat,
    w: nat,
    i: int,
)
    requires
        0 <= i < all.len(),
        1 <= all[i].shape.spec_info().width <= w,
        in_bucket(all[i], height, piece, y, all[i].shape.spec_info().width as nat),
    ensures
        bucket_upto(all, height, piece, y, w).contains(all[i]),
    decreases w,
{
    let prev = bucket_upto(all, height, piece, y, (w - 1) as nat);
    let here = select_upto(all, all.len(), height, piece, y, w);
    if all[i].shape.spec_info().width == w {
        lemma_select_complete(all, all.len(), height, piece, y, w, i);
        let k = choose|k: int| 0 <= k < here.len() && here[k] == all[i];
        assert((prev + here)[prev.len() + k] == all[i]);
    } else {
        lemma_bucket_upto_complete(all, height, piece, y, (w - 1) as nat, i);
        let k = choose|k: int| 0 <= k < prev.len() && prev[k] == all[i];
        assert((prev + here)[k] == all[i]);
    }
}

/// The buckets are exhaustive: a well-formed state is in the bucket of its
/// kind and of the row of its lowest cell in column 0, for each field that
/// is high enough for it.
pub proof fn lemma_bucket_complete(s: PieceState, height: nat)
    requires
        s.wf(),
        s.spec_height() <= height,
    ensures
        bucket(height, s.shape.spec_info().piece, s.spec_cell_y()).contains(s),
{
    lemma_every_state_listed(s.shape, s.gaps);
    let all = all_states();
    let i = choose|i: int| 0 <= i < all.len() && all[i] == PieceState::spec_new(s.shape, s.gaps);
    assert(all[i] == s);
    assert(1 <= s.shape.spec_info().width <= 4);
    lemma_bucket_upto_complete(all, height, s.shape.spec_info().piece, s.spec_cell_y(), 4, i);
}

} // verus!
