//! The judges: whether a piece can reach a placement on a given field under
//! one model of movement.

use vstd::prelude::*;
use crate::board::{bit, packed_rows, row_bits, BitBoard};
use crate::piece::{Piece, Rotation};
use crate::placement::{full_rows, lemma_srs_offsets, Placement};

verus! {

/// The field with each full row among its first `n` emptied.
pub open spec fn without_full_rows(v: u64, n: nat) -> u64
    decreases n,
{
    if n == 0 {
        v
    } else {
        let prev = without_full_rows(v, (n - 1) as nat);
        if row_bits(prev, (n - 1) as nat) == 0x3ffu64 {
            prev & !(0x3ffu64 << ((10 * (n - 1)) as u64))
        } else {
            prev
        }
    }
}

/// The placement moved to column `x`.
pub open spec fn moved(p: Placement, x: nat) -> Placement {
    Placement { kind: p.kind, x: x as u8 }
}

/// Whether the piece falls straight to the placement: no cell of its path is
/// filled once the full rows are emptied.
pub open spec fn spec_hard_drop_only(board: u64, p: Placement) -> bool {
    without_full_rows(board, 6) & (p.kind.harddrop << (p.x as u64)) == 0
}

/// Whether a column from `x` to `limit` takes the piece by a straight fall,
/// with no column from `x` up to it in which the placement meets a filled cell.
pub open spec fn tuck_right(board: u64, p: Placement, x: nat, limit: nat) -> bool
    decreases limit + 1 - x,
{
    if x > limit {
        false
    } else if board & moved(p, x).cells() != 0 {
        false
    } else if spec_hard_drop_only(board, moved(p, x)) {
        true
    } else {
        tuck_right(board, p, x + 1, limit)
    }
}

/// The same for the columns below `n`, from `n - 1` down.
pub open spec fn tuck_left(board: u64, p: Placement, n: nat) -> bool
    decreases n,
{
    if n == 0 {
        false
    } else if board & moved(p, (n - 1) as nat).cells() != 0 {
        false
    } else if spec_hard_drop_only(board, moved(p, (n - 1) as nat)) {
        true
    } else {
        tuck_left(board, p, (n - 1) as nat)
    }
}

/// Whether the piece reaches the placement by a fall and a slide.
pub open spec fn spec_tucks(board: u64, p: Placement) -> bool {
    tuck_right(board, p, p.x as nat, (10 - p.kind.shape.spec_info().width) as nat) || tuck_left(
        board,
        p,
        p.x as nat,
    )
}

/// Whether the cell in column `x` of row `y` is filled; a cell past the last
/// bit of the field is not.
pub open spec fn spec_probe(board: u64, x: int, y: int) -> bool {
    0 <= x && 0 <= y && x + 10 * y < 64 && bit(board, (x + 10 * y) as nat)
}

/// Whether no cell of `mask`, moved `x` columns right and `y` rows up, is filled.
pub open spec fn spec_empty_at(board: u64, mask: u64, x: int, y: int) -> bool {
    board & (mask << ((10 * y + x) as u64)) == 0
}

/// The same with the mask `off` rows lower; false where that is under the floor.
pub open spec fn spec_empty_below(board: u64, mask: u64, off: int, x: int, y: int) -> bool {
    y >= off && board & (mask << ((10 * (y - off) + x) as u64)) == 0
}

/// Whether the cells around column `x` of row `y` let a piece of this kind
/// turn into this orientation there. Each mask names cells that must be
/// empty; the probes name cells that must be filled, or a wall in their place.
pub open spec fn spec_spin(board: u64, piece: Piece, rotation: Rotation, x: int, y: int) -> bool {
    match (piece, rotation) {
        (Piece::S, Rotation::North) => {
            spec_empty_at(board, 0b_0000000011_0000000011_0000000011_0000000011_0000000000_0000000000, x, y)
                || (spec_empty_at(board, 0b_0000000110_0000000110_0000000110_0000000110_0000000000_0000000000, x, y)
                    && (x == 7 || spec_probe(board, x + 3, y + 2)))
        },
        (Piece::Z, Rotation::North) => {
            spec_empty_at(board, 0b_0000000110_0000000110_0000000110_0000000110_0000000000_0000000000, x, y)
                || (spec_empty_at(board, 0b_0000000011_0000000011_0000000011_0000000011_0000000000_0000000000, x, y)
                    && (x == 0 || spec_probe(board, x - 1, y + 2)))
        },
        (Piece::L, Rotation::North) => {
            spec_empty_below(board, 0b_0000000110_0000000110_0000000110_0000000110_0000000110_0000000110, 1, x, y)
                || spec_empty_below(board, 0b_0000000011_0000000011_0000000011_0000000011_0000000010_0000000010, 1, x, y)
                || (spec_empty_at(board, 0b_0000000110_0000000110_0000000110_0000000110_0000000000_0000000000, x, y)
                    && (spec_probe(board, x + 1, y + 1) || (spec_probe(board, x, y + 1) && (x == 7 || spec_probe(board, x + 3, y + 1)))))
        },
        (Piece::J, Rotation::North) => {
            spec_empty_below(board, 0b_0000000011_0000000011_0000000011_0000000011_0000000011_0000000011, 1, x, y)
                || spec_empty_below(board, 0b_0000000110_0000000110_0000000110_0000000110_0000000010_0000000010, 1, x, y)
                || (spec_empty_at(board, 0b_0000000011_0000000011_0000000011_0000000011_0000000000_0000000000, x, y)
                    && (spec_probe(board, x + 1, y + 1) || (spec_probe(board, x + 2, y + 1) && (x == 0 || spec_probe(board, x - 1, y + 1)))))
        },
        (Piece::L, Rotation::South) => {
            spec_empty_at(board, 0b_0000000110_0000000110_0000000110_0000000110_0000000110_0000000110, x, y)
                || spec_empty_at(board, 0b_0000000011_0000000011_0000000011_0000000011_0000000010_0000000010, x, y)
                || (spec_empty_at(board, 0b_0000000110_0000000110_0000000110_0000000110_0000000100_0000000000, x, y)
                    && (spec_probe(board, x + 1, y + 1) || (spec_probe(board, x, y + 1) && (x == 7 || spec_probe(board, x + 3, y + 1)))))
                || (spec_empty_at(board, 0b_0000000011_0000000011_0000000011_0000000011_0000000011_0000000000, x, y)
                    && spec_probe(board, x + 2, y + 1) && (x == 0 || spec_probe(board, x - 1, y + 1)))
        },
        (Piece::J, Rotation::South) => {
            spec_empty_at(board, 0b_0000000011_0000000011_0000000011_0000000011_0000000011_0000000011, x, y)
                || spec_empty_at(board, 0b_0000000110_0000000110_0000000110_0000000110_0000000010_0000000010, x, y)
                || (spec_empty_at(board, 0b_0000000011_0000000011_0000000011_0000000011_0000000001_0000000000, x, y)
                    && (spec_probe(board, x + 1, y + 1) || (spec_probe(board, x + 2, y + 1) && (x == 0 || spec_probe(board, x - 1, y + 1)))))
                || (spec_empty_at(board, 0b_0000000110_0000000110_0000000110_0000000110_0000000110_0000000000, x, y)
                    && spec_probe(board, x, y + 1) && (x == 7 || spec_probe(board, x + 3, y + 1)))
        },
        (Piece::T, Rotation::North) => {
            spec_empty_below(board, 0b_0000000011_0000000011_0000000011_0000000011_0000000011_0000000010, 1, x, y)
                || spec_empty_below(board, 0b_0000000110_0000000110_0000000110_0000000110_0000000110_0000000010, 1, x, y)
                || (spec_empty_at(board, 0b_0000000110_0000000110_0000000110_0000000110_0000000110_0000000110, x, y)
                    && spec_probe(board, x, y + 1) && (x == 7 || spec_probe(board, x + 3, y + 1)))
                || (spec_empty_at(board, 0b_0000000011_0000000011_0000000011_0000000011_0000000011_0000000011, x, y)
                    && spec_probe(board, x + 2, y + 1) && (x == 0 || spec_probe(board, x - 1, y + 1)))
        },
        (Piece::T, Rotation::West) => {
            x != 8 && spec_empty_at(board, 0b_0000000110_0000000110_0000000110_0000000110_0000000110_0000000110, x, y)
        },
        (Piece::T, Rotation::East) => {
            x != 0 && spec_empty_at(board, 0b_0000000001_1000000001_1000000001_1000000001_1000000001_1000000001, x, y)
                && !spec_probe(board, x - 1, y)
        },
        (Piece::T, Rotation::South) => {
            spec_empty_at(board, 0b_0000000011_0000000011_0000000011_0000000011_0000000011_0000000011, x, y)
                || spec_empty_at(board, 0b_0000000110_0000000110_0000000110_0000000110_0000000110_0000000110, x, y)
        },
        (Piece::I, Rotation::North) => {
            spec_empty_below(board, 0b_0000000010_0000000010_0000000010_0000000010_0000000010_0000000010, 1, x, y)
                || spec_empty_below(board, 0b_0000000100_0000000100_0000000100_0000000100_0000000100_0000000100, 1, x, y)
        },
        _ => false,
    }
}

/// Whether the piece reaches the placement by a fall and a slide, or by one
/// of the turns that `spec_spin` knows, judged on the field without its full
/// rows.
pub open spec fn spec_simple_srs_spins(board: u64, p: Placement) -> bool {
    let piece = p.spec_srs_piece(board)[0];
    spec_tucks(board, p) || spec_spin(packed_rows(board, 6).0, piece.piece, piece.rotation, p.x as int, piece.y as int)
}

/// The judge that accepts every placement.
pub fn always(board: BitBoard, placement: Placement) -> (r: bool)
    ensures
        r,
{
    true
}

/// The judge that accepts a placement reached by a straight fall.
pub fn hard_drop_only(board: BitBoard, placement: Placement) -> (r: bool)
    requires
        placement.x < 64,
    ensures
        r == spec_hard_drop_only(board.0, placement),
{
    let mut rest = board;
    let mut y: usize = 0;
    while y < 6
        invariant
            y <= 6,
            rest.0 == without_full_rows(board.0, y as nat),
        decreases 6 - y,
    {
        if rest.line_filled(y) {
            rest = BitBoard(rest.0 & !(0x3ffu64 << ((10 * y) as u64)));
        }
        y += 1;
    }
    !rest.overlaps(placement.harddrop_mask())
}

/// The judge that accepts a placement reached by a fall and a slide.
pub fn tucks(board: BitBoard, placement: Placement) -> (r: bool)
    requires
        placement.wf(),
    ensures
        r == spec_tucks(board.0, placement),
{
    let limit: u8 = 10 - placement.kind.width();
    let mut x: u8 = placement.x;
    let mut blocked: bool = false;
    while x <= limit && !blocked
        invariant
            placement.x <= x <= limit + 1,
            limit <= 9,
            limit == 10 - placement.kind.shape.spec_info().width,
            tuck_right(board.0, placement, placement.x as nat, limit as nat) == (!blocked && tuck_right(
                board.0,
                placement,
                x as nat,
                limit as nat,
            )),
        decreases limit + 1 - x + (if blocked { 0int } else { 1int }),
    {
        let at = Placement { kind: placement.kind, x };
        assert(at == moved(placement, x as nat));
        if board.overlaps(at.board()) {
            blocked = true;
        } else if hard_drop_only(board, at) {
            return true;
        } else {
            x += 1;
        }
    }
    let mut n: u8 = placement.x;
    while n > 0
        invariant
            n <= placement.x <= 9,
            !tuck_right(board.0, placement, placement.x as nat, limit as nat),
            limit == 10 - placement.kind.shape.spec_info().width,
            tuck_left(board.0, placement, placement.x as nat) == tuck_left(board.0, placement, n as nat),
        decreases n,
    {
        let at = Placement { kind: placement.kind, x: (n - 1) as u8 };
        assert(at == moved(placement, (n - 1) as nat));
        if board.overlaps(at.board()) {
            return false;
        }
        if hard_drop_only(board, at) {
            return true;
        }
        n -= 1;
    }
    false
}

fn probe(board: BitBoard, x: usize, y: usize) -> (r: bool)
    requires
        x <= 100,
        y <= 100,
    ensures
        r == spec_probe(board.0, x as int, y as int),
{
    x + 10 * y < 64 && board.cell_filled(x, y)
}

fn empty_at(board: BitBoard, mask: u64, x: usize, y: usize) -> (r: bool)
    requires
        10 * y + x < 64,
    ensures
        r == spec_empty_at(board.0, mask, x as int, y as int),
{
    board.0 & (mask << ((10 * y + x) as u64)) == 0
}

fn empty_below(board: BitBoard, mask: u64, off: usize, x: usize, y: usize) -> (r: bool)
    requires
        10 * y + x < 64,
    ensures
        r == spec_empty_below(board.0, mask, off as int, x as int, y as int),
{
    y >= off && board.0 & (mask << ((10 * (y - off) + x) as u64)) == 0
}

/// Whether the cells around column `x` of row `y` let a piece of this kind
/// turn into this orientation there.
pub fn spin(board: BitBoard, piece: Piece, rotation: Rotation, x: usize, y: usize) -> (r: bool)
    requires
        x <= 9,
        y <= 5,
    ensures
        r == spec_spin(board.0, piece, rotation, x as int, y as int),
{
    match (piece, rotation) {
        (Piece::S, Rotation::North) => {
            empty_at(board, 0b_0000000011_0000000011_0000000011_0000000011_0000000000_0000000000, x, y)
                || (empty_at(board, 0b_0000000110_0000000110_0000000110_0000000110_0000000000_0000000000, x, y)
                    && (x == 7 || probe(board, x + 3, y + 2)))
        },
        (Piece::Z, Rotation::North) => {
            empty_at(board, 0b_0000000110_0000000110_0000000110_0000000110_0000000000_0000000000, x, y)
                || (empty_at(board, 0b_0000000011_0000000011_0000000011_0000000011_0000000000_0000000000, x, y)
                    && (x == 0 || probe(board, x - 1, y + 2)))
        },
        (Piece::L, Rotation::North) => {
            empty_below(board, 0b_0000000110_0000000110_0000000110_0000000110_0000000110_0000000110, 1, x, y)
                || empty_below(board, 0b_0000000011_0000000011_0000000011_0000000011_0000000010_0000000010, 1, x, y)
                || (empty_at(board, 0b_0000000110_0000000110_0000000110_0000000110_0000000000_0000000000, x, y)
                    && (probe(board, x + 1, y + 1) || (probe(board, x, y + 1) && (x == 7 || probe(board, x + 3, y + 1)))))
        },
        (Piece::J, Rotation::North) => {
            empty_below(board, 0b_0000000011_0000000011_0000000011_0000000011_0000000011_0000000011, 1, x, y)
                || empty_below(board, 0b_0000000110_0000000110_0000000110_0000000110_0000000010_0000000010, 1, x, y)
                || (empty_at(board, 0b_0000000011_0000000011_0000000011_0000000011_0000000000_0000000000, x, y)
                    && (probe(board, x + 1, y + 1) || (probe(board, x + 2, y + 1) && (x == 0 || probe(board, x - 1, y + 1)))))
        },
        (Piece::L, Rotation::South) => {
            empty_at(board, 0b_0000000110_0000000110_0000000110_0000000110_0000000110_0000000110, x, y)
                || empty_at(board, 0b_0000000011_0000000011_0000000011_0000000011_0000000010_0000000010, x, y)
                || (empty_at(board, 0b_0000000110_0000000110_0000000110_0000000110_0000000100_0000000000, x, y)
                    && (probe(board, x + 1, y + 1) || (probe(board, x, y + 1) && (x == 7 || probe(board, x + 3, y + 1)))))
                || (empty_at(board, 0b_0000000011_0000000011_0000000011_0000000011_0000000011_0000000000, x, y)
                    && probe(board, x + 2, y + 1) && (x == 0 || probe(board, x - 1, y + 1)))
        },
        (Piece::J, Rotation::South) => {
            empty_at(board, 0b_0000000011_0000000011_0000000011_0000000011_0000000011_0000000011, x, y)
                || empty_at(board, 0b_0000000110_0000000110_0000000110_0000000110_0000000010_0000000010, x, y)
                || (empty_at(board, 0b_0000000011_0000000011_0000000011_0000000011_0000000001_0000000000, x, y)
                    && (probe(board, x + 1, y + 1) || (probe(board, x + 2, y + 1) && (x == 0 || probe(board, x - 1, y + 1)))))
                || (empty_at(board, 0b_0000000110_0000000110_0000000110_0000000110_0000000110_0000000000, x, y)
                    && probe(board, x, y + 1) && (x == 7 || probe(board, x + 3, y + 1)))
        },
        (Piece::T, Rotation::North) => {
            empty_below(board, 0b_0000000011_0000000011_0000000011_0000000011_0000000011_0000000010, 1, x, y)
                || empty_below(board, 0b_0000000110_0000000110_0000000110_0000000110_0000000110_0000000010, 1, x, y)
                || (empty_at(board, 0b_0000000110_0000000110_0000000110_0000000110_0000000110_0000000110, x, y)
                    && probe(board, x, y + 1) && (x == 7 || probe(board, x + 3, y + 1)))
                || (empty_at(board, 0b_0000000011_0000000011_0000000011_0000000011_0000000011_0000000011, x, y)
                    && probe(board, x + 2, y + 1) && (x == 0 || probe(board, x - 1, y + 1)))
        },
        (Piece::T, Rotation::West) => {
            x != 8 && empty_at(board, 0b_0000000110_0000000110_0000000110_0000000110_0000000110_0000000110, x, y)
        },
        (Piece::T, Rotation::East) => {
            x != 0 && empty_at(board, 0b_0000000001_1000000001_1000000001_1000000001_1000000001_1000000001, x, y)
                && !probe(board, x - 1, y)
        },
        (Piece::T, Rotation::South) => {
            empty_at(board, 0b_0000000011_0000000011_0000000011_0000000011_0000000011_0000000011, x, y)
                || empty_at(board, 0b_0000000110_0000000110_0000000110_0000000110_0000000110_0000000110, x, y)
        },
        (Piece::I, Rotation::North) => {
            empty_below(board, 0b_0000000010_0000000010_0000000010_0000000010_0000000010_0000000010, 1, x, y)
                || empty_below(board, 0b_0000000100_0000000100_0000000100_0000000100_0000000100_0000000100, 1, x, y)
        },
        _ => false,
    }
}

/// The first orientation of a well-formed state has its rotation centre
/// inside the six rows, however many full rows lie under it.
pub proof fn lemma_first_centre(p: Placement, board: u64)
    requires
        p.wf(),
    ensures
        0 <= p.spec_srs_piece(board)[0].y <= 5,
        p.spec_srs_piece(board).len() >= 1,
{
    lemma_srs_offsets(p.kind.shape, 0);
    lemma_full_rows_bound(board, p.kind.gaps.g0 as nat);
}

/// Among `n` rows at most `n` are full.
pub proof fn lemma_full_rows_bound(v: u64, n: nat)
    ensures
        full_rows(v, n) <= n,
    decreases n,
{
    if n > 0 {
        lemma_full_rows_bound(v, (n - 1) as nat);
    }
}

/// The judge that accepts a placement reached by a fall and a slide, or by a
/// turn under a simplified rotation system.
pub fn simple_srs_spins(board: BitBoard, placement: Placement) -> (r: bool)
    requires
        placement.wf(),
    ensures
        r == spec_simple_srs_spins(board.0, placement),
{
    if tucks(board, placement) {
        return true;
    }
    proof {
        lemma_first_centre(placement, board.0);
    }
    let pieces = placement.srs_piece(board);
    let piece = pieces[0];
    let cleared = board.lines_cleared();
    let x = placement.x as usize;
    let y = piece.y as usize;
    spin(cleared, piece.piece, piece.rotation, x, y)
}

/// A placement is reached by a straight fall on the empty field.
pub proof fn lemma_hard_drop_on_empty(p: Placement)
    ensures
        spec_hard_drop_only(0, p),
{
    lemma_empty_stays_empty(6);
    let m = p.kind.harddrop << (p.x as u64);
    assert(0u64 & m == 0) by (bit_vector);
}

/// The empty field has no full row to lose.
pub proof fn lemma_empty_stays_empty(n: nat)
    requires
        n <= 6,
    ensures
        without_full_rows(0, n) == 0,
    decreases n,
{
    if n > 0 {
        lemma_empty_stays_empty((n - 1) as nat);
        let s = (10 * (n - 1)) as u64;
        assert((0u64 >> s) & 0x3ffu64 != 0x3ffu64) by (bit_vector);
    }
}

} // verus!
