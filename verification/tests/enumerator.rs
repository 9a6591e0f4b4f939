use pcf::board::BitBoard;
use pcf::combination::{find_combinations, has_cyclic_dependency, vertical_parity_ok};
use pcf::piece::{Piece, PieceSet};
use pcf::placement::Placement;
use pcf::shape::PieceState;
use pcf::table::piece_states;
use std::sync::atomic::AtomicBool;

fn set_of(pieces: &[Piece]) -> PieceSet {
    PieceSet::from_pieces(pieces)
}

fn brute(
    board: u64,
    height: usize,
    set: PieceSet,
    states: &[PieceState],
    chosen: &mut Vec<Placement>,
    out: &mut Vec<Vec<Placement>>,
) {
    let full = BitBoard::filled(height).0;
    if board == full {
        out.push(chosen.clone());
        return;
    }
    let cell = (!board & full).trailing_zeros();
    for s in states {
        if s.height() as usize > height || !set.contains(s.piece()) {
            continue;
        }
        for x in 0..=(10 - s.width()) {
            let p = Placement { kind: *s, x };
            let cells = p.board().0;
            if cells & (1u64 << cell) == 0 || cells & board != 0 {
                continue;
            }
            chosen.push(p);
            brute(board | cells, height, set.without(s.piece()), states, chosen, out);
            chosen.pop();
        }
    }
}

fn keys(combos: &[Vec<Placement>]) -> Vec<Vec<u64>> {
    let mut all: Vec<Vec<u64>> = combos
        .iter()
        .map(|c| {
            let mut k: Vec<u64> = c.iter().map(|p| p.board().0).collect();
            k.sort();
            k
        })
        .collect();
    all.sort();
    all
}

fn reference(board: u64, height: usize, set: PieceSet) -> Vec<Vec<u64>> {
    let states = piece_states();
    let mut out = Vec::new();
    brute(board, height, set, &states, &mut Vec::new(), &mut out);
    let kept: Vec<Vec<Placement>> = out
        .into_iter()
        .filter(|c| !has_cyclic_dependency(BitBoard(board), c, height))
        .collect();
    keys(&kept)
}

fn check_tiling(combo: &[Placement], board: u64, height: usize) {
    let mut seen = 0u64;
    for p in combo {
        let cells = p.board().0;
        assert_eq!(cells.count_ones(), 4);
        assert_eq!(cells & seen, 0);
        assert_eq!(cells & board, 0);
        assert!(p.x + p.kind.width() <= 10);
        seen |= cells;
    }
    assert_eq!(seen, BitBoard::filled(height).0 & !board);
}

#[test]
fn combinations_tile_the_empty_cells() {
    let abort = AtomicBool::new(false);
    let set = set_of(&[Piece::I, Piece::L, Piece::S, Piece::J, Piece::O, Piece::O]);
    let found = find_combinations(set, BitBoard(0), &abort, 2);
    assert!(!found.is_empty());
    for combo in &found {
        assert_eq!(combo.len(), 5);
        check_tiling(combo, 0, 2);
        let mut left = set;
        for p in combo {
            assert!(left.contains(p.kind.piece()));
            left = left.without(p.kind.piece());
        }
    }
}

#[test]
fn enumerator_matches_exhaustive_search_two_rows() {
    let abort = AtomicBool::new(false);
    let sets: [&[Piece]; 4] = [
        &[Piece::I, Piece::L, Piece::S, Piece::J, Piece::O, Piece::O],
        &[Piece::I, Piece::I, Piece::O, Piece::L, Piece::J],
        &[Piece::T, Piece::T, Piece::L, Piece::J, Piece::S, Piece::Z, Piece::I],
        &[Piece::S, Piece::Z, Piece::S, Piece::Z, Piece::O],
    ];
    for pieces in sets {
        let set = set_of(pieces);
        let found = keys(&find_combinations(set, BitBoard(0), &abort, 2));
        assert_eq!(found, reference(0, 2, set));
    }
}

#[test]
fn enumerator_matches_exhaustive_search_with_gaps() {
    let abort = AtomicBool::new(false);
    // rows 0 to 3, the seven columns on the right filled
    let row = 0b1111111000u64;
    let board = row | row << 10 | row << 20 | row << 30;
    let sets: [&[Piece]; 3] = [
        &[Piece::I, Piece::L, Piece::J, Piece::O],
        &[Piece::S, Piece::Z, Piece::T, Piece::L, Piece::J],
        &[Piece::L, Piece::J, Piece::I],
    ];
    for pieces in sets {
        let set = set_of(pieces);
        let found = keys(&find_combinations(set, BitBoard(board), &abort, 4));
        assert_eq!(found, reference(board, 4, set));
    }
}

#[test]
fn parity_pruning_loses_nothing() {
    let abort = AtomicBool::new(false);
    let sets: [&[Piece]; 4] = [
        &[Piece::L, Piece::L, Piece::L, Piece::J, Piece::J],
        &[Piece::O, Piece::O, Piece::O, Piece::O, Piece::O],
        &[Piece::I, Piece::I, Piece::I, Piece::I, Piece::I],
        &[Piece::T, Piece::S, Piece::Z, Piece::O, Piece::I],
    ];
    for pieces in sets {
        let set = set_of(pieces);
        let found = keys(&find_combinations(set, BitBoard(0), &abort, 2));
        assert_eq!(found, reference(0, 2, set));
    }
}

#[test]
fn vertical_parity_values() {
    // the empty field: as many cells in even as in odd columns
    assert!(vertical_parity_ok(BitBoard(0), set_of(&[Piece::O, Piece::O, Piece::O, Piece::O, Piece::O]), 2));
    // one cell in an even column: parity 0 after halving
    assert!(vertical_parity_ok(BitBoard(1), set_of(&[Piece::O]), 2));
    // four cells in even columns: parity 2, out of reach of one L
    let board = BitBoard(0b0101010101 & 0b0001010101);
    assert_eq!(board.0.count_ones(), 4);
    assert!(!vertical_parity_ok(board, set_of(&[Piece::L, Piece::O, Piece::O, Piece::O]), 2));
    // within reach of one I
    assert!(vertical_parity_ok(board, set_of(&[Piece::I, Piece::O, Piece::O, Piece::O]), 2));
    // one piece to come, which must be the L: one change where none is wanted
    let board = BitBoard(0b0000111111);
    assert!(!vertical_parity_ok(board, set_of(&[Piece::L]), 1));
    assert!(vertical_parity_ok(board, set_of(&[Piece::I]), 1));
    // two forced changes and an even parity
    let board = BitBoard(0b0011111111 | 0b0011111111 << 10 | 0b0000001111 << 20);
    assert!(vertical_parity_ok(board, set_of(&[Piece::L, Piece::L]), 3));
}

#[test]
fn a_set_abort_flag_stops_the_search() {
    let abort = AtomicBool::new(true);
    let set = set_of(&[Piece::I, Piece::L, Piece::S, Piece::J, Piece::O, Piece::O]);
    assert!(find_combinations(set, BitBoard(0), &abort, 2).is_empty());
}

#[test]
fn searching_twice_gives_the_same_combinations() {
    let abort = AtomicBool::new(false);
    let set = set_of(&[Piece::I, Piece::L, Piece::S, Piece::J, Piece::O, Piece::O]);
    let first = find_combinations(set, BitBoard(0), &abort, 2);
    let second = find_combinations(set, BitBoard(0), &abort, 2);
    assert_eq!(first, second);
}

#[test]
fn no_combination_without_pieces() {
    let abort = AtomicBool::new(false);
    assert!(find_combinations(PieceSet::default(), BitBoard(0), &abort, 2).is_empty());
    // ten empty cells are no multiple of four
    let set = set_of(&[Piece::I, Piece::I, Piece::O]);
    assert!(find_combinations(set, BitBoard(0), &abort, 1).is_empty());
}

#[test]
fn counts_of_known_searches() {
    let abort = AtomicBool::new(false);
    let set = set_of(&[Piece::I, Piece::L, Piece::S, Piece::J, Piece::O, Piece::O]);
    assert_eq!(find_combinations(set, BitBoard(0), &abort, 2).len(), 6);
    let set = set_of(&[Piece::O, Piece::O, Piece::O, Piece::O, Piece::O]);
    assert_eq!(find_combinations(set, BitBoard(0), &abort, 2).len(), 1);
    let row = 0b1111111000u64;
    let board = row | row << 10 | row << 20 | row << 30;
    let set = set_of(&[Piece::I, Piece::L, Piece::J, Piece::O]);
    assert_eq!(find_combinations(set, BitBoard(board), &abort, 4).len(), 14);
    let set = set_of(&[Piece::L, Piece::J, Piece::I]);
    assert_eq!(find_combinations(set, BitBoard(board), &abort, 4).len(), 4);
}

#[test]
fn placements_that_wait_for_each_other_are_pruned() {
    let abort = AtomicBool::new(false);
    let s = PieceState::new(pcf::shape::Shape::SHorizontal, pcf::shape::Gaps { g0: 0, g1: 1, g2: 0, g3: 0 })
        .unwrap();
    let o = PieceState::new(pcf::shape::Shape::O, pcf::shape::Gaps { g0: 1, g1: 1, g2: 0, g3: 0 }).unwrap();
    let pair = [Placement { kind: s, x: 0 }, Placement { kind: o, x: 3 }];
    assert_eq!(pair[0].board().0 & pair[1].board().0, 0);
    let board = BitBoard::filled(4).0 & !pair[0].board().0 & !pair[1].board().0;
    assert!(has_cyclic_dependency(BitBoard(board), &pair, 4));
    // the pair is the one way to fill the eight cells
    let states = piece_states();
    let set = set_of(&[Piece::S, Piece::O]);
    let mut all = Vec::new();
    brute(board, 4, set, &states, &mut Vec::new(), &mut all);
    assert_eq!(keys(&all), keys(&[pair.to_vec()]));
    assert!(find_combinations(set, BitBoard(board), &abort, 4).is_empty());
    // with the O resting on the floor nothing waits
    let o = PieceState::new(pcf::shape::Shape::O, pcf::shape::Gaps { g0: 0, g1: 0, g2: 0, g3: 0 }).unwrap();
    let pair = [Placement { kind: s, x: 0 }, Placement { kind: o, x: 3 }];
    let board = BitBoard::filled(3).0 & !pair[0].board().0 & !pair[1].board().0;
    assert!(!has_cyclic_dependency(BitBoard(board), &pair, 3));
    assert_eq!(keys(&find_combinations(set, BitBoard(board), &abort, 3)), keys(&[pair.to_vec()]));
}
