use pcf::board::BitBoard;
use pcf::placeability::{always, hard_drop_only, simple_srs_spins, spin, tucks};
use pcf::piece::{Piece, Rotation};
use pcf::placement::Placement;
use pcf::shape::{Gaps, PieceState, Shape};
use pcf::table::piece_states;

fn state(shape: Shape, g0: u8) -> PieceState {
    PieceState::new(shape, Gaps { g0, g1: 0, g2: 0, g3: 0 }).unwrap()
}

fn cell(x: u32, y: u32) -> u64 {
    1u64 << (x + 10 * y)
}

#[test]
fn always_accepts() {
    let p = Placement { kind: state(Shape::O, 0), x: 0 };
    assert!(always(BitBoard(0), p));
    assert!(always(BitBoard(cell(0, 3)), p));
}

#[test]
fn hard_drop_is_free_on_the_empty_field() {
    for s in piece_states() {
        for x in 0..=(10 - s.width()) {
            assert!(hard_drop_only(BitBoard(0), Placement { kind: s, x }));
        }
    }
}

#[test]
fn hard_drop_is_blocked_by_a_cell_in_the_path() {
    let p = Placement { kind: state(Shape::O, 0), x: 0 };
    assert!(hard_drop_only(BitBoard(cell(2, 3)), p));
    assert!(!hard_drop_only(BitBoard(cell(1, 3)), p));
    assert!(!hard_drop_only(BitBoard(cell(0, 5)), p));
    assert!(!hard_drop_only(BitBoard(cell(0, 0)), p));
    // a full row is taken out before the path is looked at
    assert!(hard_drop_only(BitBoard(0x3ff << 30), p));
    assert!(!hard_drop_only(BitBoard(0x3fe << 30), p));
    // an S passes a cell beside its lower row
    let s = Placement { kind: state(Shape::SHorizontal, 0), x: 0 };
    assert!(hard_drop_only(BitBoard(cell(2, 0)), s));
    assert!(!hard_drop_only(BitBoard(cell(2, 1)), s));
}

#[test]
fn tucks_slide_under_an_overhang() {
    let p = Placement { kind: state(Shape::O, 0), x: 0 };
    let roof = cell(0, 3) | cell(1, 3);
    assert!(!hard_drop_only(BitBoard(roof), p));
    assert!(tucks(BitBoard(roof), p));
    // a cell in the way of the slide
    assert!(!tucks(BitBoard(roof | cell(2, 0)), p));
    assert!(!tucks(BitBoard(roof | cell(3, 1)), p));
    // the placement itself straight down
    assert!(tucks(BitBoard(0), p));
    // from the left, past more of the roof
    let p = Placement { kind: state(Shape::O, 0), x: 8 };
    let roof = cell(8, 2) | cell(9, 2);
    assert!(tucks(BitBoard(roof), p));
    assert!(tucks(BitBoard(roof | cell(7, 2) | cell(6, 2)), p));
    assert!(!tucks(BitBoard(roof | cell(7, 0)), p));
}

#[test]
fn spins_turn_a_t_under_an_overhang() {
    let p = Placement { kind: state(Shape::TSouth, 0), x: 0 };
    let board = cell(0, 0) | cell(2, 0) | cell(2, 2);
    assert!(!tucks(BitBoard(board), p));
    assert!(simple_srs_spins(BitBoard(board), p));
    assert!(spin(BitBoard(board), Piece::T, Rotation::South, 0, 1));
    let closed = board | cell(1, 2);
    assert!(!tucks(BitBoard(closed), p));
    assert!(!simple_srs_spins(BitBoard(closed), p));
    assert!(!spin(BitBoard(closed), Piece::T, Rotation::South, 0, 1));
    // what tucks accept, the spins accept
    assert!(simple_srs_spins(BitBoard(0), p));
}

#[test]
fn spins_know_no_turn_for_an_o() {
    let p = Placement { kind: state(Shape::O, 0), x: 0 };
    let roof = cell(0, 3) | cell(1, 3) | cell(2, 0);
    assert!(!simple_srs_spins(BitBoard(roof), p));
    assert!(!spin(BitBoard(0), Piece::O, Rotation::North, 0, 0));
    assert!(!spin(BitBoard(0), Piece::S, Rotation::East, 0, 0));
}

#[test]
fn spin_patterns_of_s_and_z() {
    // S from the left: the two columns over its left part are free
    assert!(spin(BitBoard(0), Piece::S, Rotation::North, 0, 0));
    let left = cell(0, 2);
    // from the right the cell beside it must be filled, or the wall
    assert!(!spin(BitBoard(left), Piece::S, Rotation::North, 0, 0));
    assert!(spin(BitBoard(left | cell(3, 2)), Piece::S, Rotation::North, 0, 0));
    assert!(spin(BitBoard(cell(7, 2)), Piece::S, Rotation::North, 7, 0));
    assert!(!spin(BitBoard(left | cell(3, 2) | cell(2, 3)), Piece::S, Rotation::North, 0, 0));
    // Z mirrored
    assert!(spin(BitBoard(0), Piece::Z, Rotation::North, 0, 0));
    let right = cell(2, 2);
    assert!(spin(BitBoard(right), Piece::Z, Rotation::North, 0, 0));
    assert!(!spin(BitBoard(right), Piece::Z, Rotation::North, 1, 0));
    assert!(spin(BitBoard(cell(3, 2) | cell(0, 2)), Piece::Z, Rotation::North, 1, 0));
}

#[test]
fn spin_of_t_east_and_west() {
    assert!(!spin(BitBoard(0), Piece::T, Rotation::West, 8, 0));
    assert!(spin(BitBoard(0), Piece::T, Rotation::West, 7, 0));
    assert!(!spin(BitBoard(cell(8, 0)), Piece::T, Rotation::West, 7, 0));
    assert!(!spin(BitBoard(0), Piece::T, Rotation::East, 0, 0));
    assert!(spin(BitBoard(0), Piece::T, Rotation::East, 1, 0));
    assert!(!spin(BitBoard(cell(0, 0)), Piece::T, Rotation::East, 1, 0));
    assert!(!spin(BitBoard(cell(0, 1)), Piece::T, Rotation::East, 1, 0));
    assert!(spin(BitBoard(cell(2, 0)), Piece::T, Rotation::East, 1, 0));
    // a probe past the top of the field finds nothing
    assert!(!spin(BitBoard(cell(0, 5)), Piece::S, Rotation::North, 0, 3));
    assert!(spin(BitBoard(cell(0, 5) | cell(3, 5)), Piece::S, Rotation::North, 0, 3));
    assert!(spin(BitBoard(cell(0, 5)), Piece::S, Rotation::North, 0, 4));
    assert!(!spin(BitBoard(cell(0, 5) | cell(1, 5)), Piece::L, Rotation::North, 0, 5));
}

#[test]
fn spin_of_i_needs_the_row_below() {
    assert!(!spin(BitBoard(0), Piece::I, Rotation::North, 0, 0));
    assert!(spin(BitBoard(0), Piece::I, Rotation::North, 0, 1));
    assert!(!spin(BitBoard(cell(1, 0) | cell(2, 0)), Piece::I, Rotation::North, 0, 1));
    assert!(spin(BitBoard(cell(1, 0)), Piece::I, Rotation::North, 0, 1));
}
