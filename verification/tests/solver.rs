use pcf::board::BitBoard;
use pcf::combination::find_combinations;
use pcf::piece::{Piece, PieceSet};
use pcf::placeability::{always, hard_drop_only};
use pcf::placement::Placement;
use pcf::sequence::PieceSequence;
use pcf::shape::{Gaps, PieceState, Shape};
use pcf::solve::{queue_for, solve_pc, solve_pc_at_height, solve_pc_prep, solve_placement_combination, solve_placement_combo};
use std::sync::atomic::AtomicBool;

fn flat(shape: Shape, g0: u8, x: u8) -> Placement {
    Placement { kind: PieceState::new(shape, Gaps { g0, g1: 0, g2: 0, g3: 0 }).unwrap(), x }
}

/// Whether the pieces can be played in this order from the queue.
fn playable(queue: &[Piece], order: &[Piece], hold_allowed: bool) -> bool {
    let mut rest: Vec<Piece> = queue.to_vec();
    for p in order {
        if !rest.is_empty() && rest[0] == *p {
            rest.remove(0);
        } else if hold_allowed && rest.len() > 1 && rest[1] == *p {
            rest.remove(1);
        } else {
            return false;
        }
    }
    true
}

fn check_solution(sol: &[Placement], queue: &[Piece], board: u64, height: usize, hold_allowed: bool) {
    let mut on = board;
    for p in sol {
        assert!(p.placeable(BitBoard(on)));
        assert_eq!(p.board().0 & on, 0);
        on |= p.board().0;
    }
    assert_eq!(on, BitBoard::filled(height).0);
    let order: Vec<Piece> = sol.iter().map(|p| p.kind.piece()).collect();
    assert!(playable(queue, &order, hold_allowed));
}

#[test]
fn no_clear_of_one_row_with_four_pieces() {
    let abort = AtomicBool::new(false);
    let queue = [Piece::I, Piece::T, Piece::O, Piece::J];
    assert!(solve_pc_at_height(&queue, BitBoard(0), true, false, &abort, 1, &always).is_empty());
}

#[test]
fn orderings_of_four_pieces_on_sixteen_cells() {
    let abort = AtomicBool::new(false);
    let board = 0b11 << 8 | 0b11 << 18;
    assert_eq!((BitBoard::filled(2).0 & !board).count_ones(), 16);
    // one T among pieces that cover two cells of each colour cannot even out the columns
    let queue = [Piece::I, Piece::T, Piece::O, Piece::J];
    let found = solve_pc_at_height(&queue, BitBoard(board), true, false, &abort, 2, &always);
    for sol in &found {
        check_solution(sol, &queue, board, 2, true);
    }
    assert!(found.is_empty());
    let queue = [Piece::I, Piece::I, Piece::O, Piece::O];
    let found = solve_pc_at_height(&queue, BitBoard(board), true, false, &abort, 2, &always);
    for sol in &found {
        assert_eq!(sol.len(), 4);
        check_solution(sol, &queue, board, 2, true);
    }
    // three tilings, and in each the lower I before the upper one: six orders of each
    assert_eq!(found.len(), 18);
    let found = solve_pc_at_height(&queue, BitBoard(board), false, false, &abort, 2, &always);
    for sol in &found {
        check_solution(sol, &queue, board, 2, false);
    }
    assert_eq!(found.len(), 6);
    let queue = [Piece::O, Piece::O, Piece::I, Piece::I];
    let found = solve_pc_at_height(&queue, BitBoard(board), false, false, &abort, 2, &always);
    assert_eq!(found.len(), 6);
}

#[test]
fn end_to_end_two_rows() {
    let abort = AtomicBool::new(false);
    let queue = [Piece::I, Piece::L, Piece::S, Piece::J, Piece::O, Piece::O];
    let found = solve_pc(&queue, BitBoard(0), true, false, &abort, always);
    assert!(!found.is_empty());
    for sol in &found {
        assert_eq!(sol.len(), 5);
        check_solution(sol, &queue, 0, 2, true);
    }
    let again = solve_pc(&queue, BitBoard(0), true, false, &abort, always);
    assert_eq!(found, again);
    let one = solve_pc(&queue, BitBoard(0), true, true, &abort, always);
    assert!(!one.is_empty());
    assert_eq!(one[0], found[0]);
}

#[test]
fn unique_stops_at_the_first_order() {
    let queue = PieceSequence::from_prefix(&[Piece::I, Piece::I, Piece::O, Piece::O], 4);
    let combo = [
        flat(Shape::IHorizontal, 0, 0),
        flat(Shape::IHorizontal, 1, 0),
        flat(Shape::O, 0, 4),
        flat(Shape::O, 0, 6),
    ];
    let board = BitBoard(0b11 << 8 | 0b11 << 18);
    let all = solve_placement_combo(queue, board, &combo, true, false, &always);
    assert_eq!(all.len(), 6);
    assert_eq!(all[0], vec![combo[0], combo[3], combo[2], combo[1]]);
    assert!(all.contains(&combo.to_vec()));
    let one = solve_placement_combo(queue, board, &combo, true, true, &always);
    assert_eq!(one, vec![all[0].clone()]);
    let none = solve_placement_combo(queue, board, &combo, true, false, &|_: BitBoard, _: Placement| false);
    assert!(none.is_empty());
}

#[test]
fn the_judge_decides_each_step() {
    let abort = AtomicBool::new(false);
    let queue = [Piece::I, Piece::I, Piece::O, Piece::O];
    let combo = [
        flat(Shape::IHorizontal, 0, 0),
        flat(Shape::IHorizontal, 1, 0),
        flat(Shape::O, 0, 4),
        flat(Shape::O, 0, 6),
    ];
    let board = BitBoard(0b11 << 8 | 0b11 << 18);
    let found = solve_placement_combination(&queue, board, &combo, true, false, &abort, hard_drop_only);
    assert_eq!(found.len(), 6);
    // a roof over the O at column 4
    let roofed = BitBoard(board.0 | 0b110000 << 30);
    let found = solve_placement_combination(&queue, roofed, &combo, true, false, &abort, hard_drop_only);
    assert!(found.is_empty());
    let found = solve_placement_combination(&queue, roofed, &combo, true, false, &abort, always);
    assert_eq!(found.len(), 6);
}

#[test]
fn a_queue_that_lacks_a_piece_solves_nothing() {
    let abort = AtomicBool::new(false);
    let combo = [
        flat(Shape::IHorizontal, 0, 0),
        flat(Shape::IHorizontal, 1, 0),
        flat(Shape::O, 0, 4),
        flat(Shape::O, 0, 6),
    ];
    let board = BitBoard(0b11 << 8 | 0b11 << 18);
    let queue = [Piece::I, Piece::O, Piece::O, Piece::T];
    assert!(solve_placement_combination(&queue, board, &combo, true, false, &abort, always).is_empty());
    // the O comes third: out of reach without hold when two I must come first
    let queue = [Piece::O, Piece::O, Piece::I, Piece::I];
    assert_eq!(solve_placement_combination(&queue, board, &combo, false, false, &abort, always).len(), 2);
    assert!(solve_placement_combination(&[], board, &combo, true, false, &abort, always).is_empty());
}

#[test]
fn heights_and_queues_of_a_search() {
    let queue = [Piece::I, Piece::L, Piece::S, Piece::J, Piece::O, Piece::O];
    let attempts = solve_pc_prep(&queue, BitBoard(0), true);
    assert_eq!(attempts.len(), 1);
    assert_eq!(attempts[0].1, 2);
    assert_eq!(attempts[0].0, PieceSequence::from_prefix(&queue, 6));
    let attempts = solve_pc_prep(&queue, BitBoard(0), false);
    assert_eq!(attempts[0].0, PieceSequence::from_prefix(&queue, 5));
    let long = [Piece::T; 15];
    let heights: Vec<usize> = solve_pc_prep(&long, BitBoard(0), false).iter().map(|a| a.1).collect();
    assert_eq!(heights, vec![2, 4, 6]);
    let heights: Vec<usize> = solve_pc_prep(&long[..10], BitBoard(0), false).iter().map(|a| a.1).collect();
    assert_eq!(heights, vec![2, 4]);
    // an odd number of empty cells
    assert!(solve_pc_prep(&long, BitBoard(1), false).is_empty());
    // two cells in row 0: eight are empty
    let heights: Vec<usize> = solve_pc_prep(&long, BitBoard(0b11), false).iter().map(|a| a.1).collect();
    assert_eq!(heights, vec![1, 3, 5]);
    // four cells in row 0: six are empty, so one row more
    let heights: Vec<usize> = solve_pc_prep(&long, BitBoard(0b1111), false).iter().map(|a| a.1).collect();
    assert_eq!(heights, vec![2, 4, 6]);
    // a cell in the top row
    let heights: Vec<usize> = solve_pc_prep(&long, BitBoard(0b11 << 50), false).iter().map(|a| a.1).collect();
    assert_eq!(heights, vec![]);
    let heights: Vec<usize> = solve_pc_prep(&long, BitBoard(0b1111 << 50), false).iter().map(|a| a.1).collect();
    assert_eq!(heights, vec![6]);
    // too few pieces for the first height
    assert!(solve_pc_prep(&long[..4], BitBoard(0), true).is_empty());
    assert_eq!(queue_for(&long, BitBoard(0), true, 2).count, 6);
    assert_eq!(queue_for(&long, BitBoard(0), false, 6).count, 15);
    assert_eq!(queue_for(&long[..3], BitBoard(0), false, 6).count, 3);
}

#[test]
fn the_search_moves_up_to_the_first_height_with_a_clear() {
    let abort = AtomicBool::new(false);
    // two rows cannot be filled by five I, four rows can by ten
    let queue = [Piece::I; 10];
    let found = solve_pc(&queue, BitBoard(0), false, true, &abort, always);
    assert!(!found.is_empty());
    for sol in &found {
        assert_eq!(sol.len(), 10);
        check_solution(sol, &queue, 0, 4, false);
    }
    let combos = find_combinations(PieceSet::from_pieces(&queue), BitBoard(0), &abort, 2);
    assert!(combos.is_empty());
    // with `unique` each tiling gives one order at most
    let combos = find_combinations(PieceSet::from_pieces(&queue), BitBoard(0), &abort, 4);
    assert!(found.len() <= combos.len());
}
