//! A piece state at a column of the field.

use vstd::prelude::*;
use crate::board::{row_bits, BitBoard};
use crate::piece::SrsPiece;
use crate::shape::PieceState;

verus! {

/// The rows among `1..n` that are named in `hurdles`, each of them full.
pub open spec fn hurdle_mask(hurdles: u8, n: nat) -> u64
    decreases n,
{
    if n <= 1 {
        0
    } else if hurdles & (1u8 << ((n - 1) as u8)) != 0 {
        hurdle_mask(hurdles, (n - 1) as nat) | (0x3ffu64 << ((10 * (n - 1)) as u64))
    } else {
        hurdle_mask(hurdles, (n - 1) as nat)
    }
}

/// The field in which each full row among `1..n`, from the lowest on, has
/// been replaced by the row under it: what a cell rests on once the full
/// rows are gone.
pub open spec fn settled(on: u64, n: nat) -> u64
    decreases n,
{
    if n <= 1 {
        on
    } else {
        let prev = settled(on, (n - 1) as nat);
        if row_bits(prev, (n - 1) as nat) == 0x3ffu64 {
            prev & ((prev << 10u64) | !(0x3ffu64 << ((10 * (n - 1)) as u64)))
        } else {
            prev
        }
    }
}

/// How many of the first `n` rows of `v` are full.
pub open spec fn full_rows(v: u64, n: nat) -> nat
    decreases n,
{
    if n == 0 {
        0
    } else {
        full_rows(v, (n - 1) as nat) + (if row_bits(v, (n - 1) as nat) == 0x3ffu64 { 1nat } else { 0nat })
    }
}

/// A piece state with its left edge at column `x`.
#[derive(Copy, Clone, Debug, PartialEq, Eq, Hash, Structural)]
pub struct Placement {
    pub kind: PieceState,
    pub x: u8,
}

impl Placement {
    /// The state is well-formed and the shape lies inside the ten columns.
    pub open spec fn wf(self) -> bool {
        self.kind.wf() && self.x + self.kind.shape.spec_info().width <= 10
    }

    /// The cells that the placement covers.
    pub open spec fn cells(self) -> u64 {
        self.kind.bits << (self.x as u64)
    }

    /// Whether one of the cells that the placement rests on is filled in
    /// `on`; a placement in row 0 rests on the floor.
    pub open spec fn spec_rests(self, on: u64) -> bool {
        self.kind.gaps.g0 == 0 || on & (self.kind.below << (self.x as u64)) != 0
    }

    /// Whether the rows that the placement hurdles are full in `on`.
    pub open spec fn spec_hurdles_filled(self, on: u64) -> bool {
        hurdle_mask(self.kind.hurdle_rows, 5) & !on == 0
    }

    /// Whether the placement can stand on `on` as it is: the rows that it
    /// hurdles are full, and it rests on a filled cell.
    pub open spec fn spec_supported(self, on: u64) -> bool {
        self.spec_hurdles_filled(on) && self.spec_rests(on)
    }

    /// Whether the placement can come next on `on`: the rows that it hurdles
    /// are full, and it rests on a filled cell once the full rows are gone.
    pub open spec fn spec_placeable(self, on: u64) -> bool {
        self.spec_hurdles_filled(on) && self.spec_rests(settled(on, 6))
    }

    /// The orientations that the placement stands for on `board`, each with
    /// the coordinates of its rotation centre after the full rows under the
    /// placement have gone.
    pub open spec fn spec_srs_piece(self, board: u64) -> Seq<SrsPiece> {
        let base = self.kind.spec_piece_srs();
        Seq::new(
            base.len(),
            |i: int|
                SrsPiece {
                    piece: base[i].piece,
                    rotation: base[i].rotation,
                    x: (self.x + base[i].x) as i32,
                    y: (base[i].y - full_rows(board, self.kind.gaps.g0 as nat)) as i32,
                },
        )
    }

    pub fn board(self) -> (r: BitBoard)
        requires
            self.x < 64,
        ensures
            r.0 == self.cells(),
    {
        BitBoard(self.kind.board().0 << (self.x as u64))
    }

    /// Whether one of the cells that the placement rests on is filled.
    pub fn rests_on(self, on: BitBoard) -> (r: bool)
        requires
            self.x < 64,
        ensures
            r == self.spec_rests(on.0),
    {
        self.kind.y() == 0 || on.overlaps(BitBoard(self.kind.below_mask().0 << (self.x as u64)))
    }

    /// Whether the rows that the placement hurdles are full.
    pub fn hurdles_filled(self, on: BitBoard) -> (r: bool)
        ensures
            r == self.spec_hurdles_filled(on.0),
    {
        let hurdles = self.kind.hurdles();
        let mut hurdled_lines: u64 = 0;
        let mut i: u8 = 1;
        while i < 5
            invariant
                1 <= i <= 5,
                hurdled_lines == hurdle_mask(hurdles, i as nat),
            decreases 5 - i,
        {
            if hurdles & (1u8 << i) != 0 {
                hurdled_lines |= 0x3ffu64 << ((10 * i) as u64);
            }
            i += 1;
        }
        BitBoard(hurdled_lines).remove(on).0 == 0
    }

    /// Whether the placement can stand on the field as it is, no row having
    /// been cleared.
    pub fn supported_without_clears(self, on: BitBoard) -> (r: bool)
        requires
            self.x < 64,
        ensures
            r == self.spec_supported(on.0),
    {
        self.hurdles_filled(on) && self.rests_on(on)
    }

    /// Whether the placement can come next on the field.
    pub fn placeable(self, on: BitBoard) -> (r: bool)
        requires
            self.x < 64,
        ensures
            r == self.spec_placeable(on.0),
    {
        if !self.hurdles_filled(on) {
            false
        } else {
            let mut rest = on;
            let mut y: usize = 1;
            while y < 6
                invariant
                    1 <= y <= 6,
                    rest.0 == settled(on.0, y as nat),
                decreases 6 - y,
            {
                if rest.line_filled(y) {
                    rest = BitBoard(rest.0 & ((rest.0 << 10u64) | !(0x3ffu64 << ((10 * y) as u64))));
                }
                y += 1;
            }
            self.rests_on(rest)
        }
    }

    /// The cells through which the piece falls to this placement.
    pub fn harddrop_mask(self) -> (r: BitBoard)
        requires
            self.x < 64,
        ensures
            r.0 == self.kind.harddrop << (self.x as u64),
    {
        BitBoard(self.kind.harddrop_mask().0 << (self.x as u64))
    }

    pub fn srs_piece(self, board: BitBoard) -> (r: Vec<SrsPiece>)
        requires
            self.kind.gaps.g0 <= 5,
        ensures
            r@ == self.spec_srs_piece(board.0),
            1 <= r@.len() <= 4,
    {
        let mut below_lines: i32 = 0;
        let mut i: usize = 0;
        let n = self.kind.y() as usize;
        while i < n
            invariant
                i <= n <= 5,
                below_lines == full_rows(board.0, i as nat),
                below_lines <= i,
            decreases n - i,
        {
            if board.line_filled(i) {
                below_lines += 1;
            }
            i += 1;
        }
        let base = self.kind.piece_srs();
        let mut out: Vec<SrsPiece> = Vec::new();
        let mut k: usize = 0;
        while k < base.len()
            invariant
                k <= base@.len(),
                base@ == self.kind.spec_piece_srs(),
                1 <= base@.len() <= 4,
                0 <= below_lines <= 5,
                self.kind.gaps.g0 <= 5,
                below_lines == full_rows(board.0, self.kind.gaps.g0 as nat),
                out@.len() == k,
                forall|j: int| 0 <= j < k ==> out@[j] == self.spec_srs_piece(board.0)[j],
            decreases base@.len() - k,
        {
            let p = base[k];
            assert(p == self.kind.spec_piece_srs()[k as int]);
            assert(0 <= self.kind.shape.spec_srs()[k as int].x <= 2 && 0 <= self.kind.shape.spec_srs()[k as int].y <= 2) by {
                lemma_srs_offsets(self.kind.shape, k as int);
            }
            out.push(SrsPiece { piece: p.piece, rotation: p.rotation, x: self.x as i32 + p.x, y: p.y - below_lines });
            k += 1;
        }
        assert(out@ =~= self.spec_srs_piece(board.0));
        out
    }
}

/// The offset of a rotation centre from its shape's corner is at most 2 each way.
pub proof fn lemma_srs_offsets(shape: crate::shape::Shape, k: int)
    requires
        0 <= k < shape.spec_srs().len(),
    ensures
        0 <= shape.spec_srs()[k].x <= 2,
        0 <= shape.spec_srs()[k].y <= 2,
        1 <= shape.spec_srs().len() <= 4,
{
}

} // verus!
