use pcf::{
    find_combinations, find_combinations_in, finish_branch, fork_branch, solve_pc, solve_pc_in, BitBoard, Branch,
    Tried,
    Piece, PieceSet, Placement, ShapeTable, PIECES,
};
use pcf::placeability::{always, hard_drop_only, simple_srs_spins, tucks};
use std::sync::atomic::AtomicBool;

fn sorted(mut combos: Vec<Vec<Placement>>) -> Vec<Vec<u64>> {
    let mut all: Vec<Vec<u64>> = combos
        .drain(..)
        .map(|c| {
            let mut k: Vec<u64> = c.iter().map(|p| p.board().0).collect();
            k.sort();
            k
        })
        .collect();
    all.sort();
    all
}

fn split(table: &ShapeTable, branch: Branch, abort: &AtomicBool, height: usize, level: usize) -> Vec<Vec<Placement>> {
    if level >= 3 {
        return finish_branch(table, branch, abort, height).0;
    }
    let (tried, completed) = fork_branch(table, &branch, abort, height);
    assert!(completed);
    let mut found = Vec::new();
    for t in tried {
        match t {
            Tried::Complete(combo) => found.push(combo),
            Tried::Open(child) => {
                assert_eq!(child.placements.len(), branch.placements.len() + 1);
                assert_eq!(child.start, branch.start);
                found.extend(split(table, child, abort, height, level + 1));
            }
        }
    }
    found
}

#[test]
fn a_split_search_finds_what_one_search_finds() {
    let abort = AtomicBool::new(false);
    let table = ShapeTable::new();
    let set = PieceSet::from_pieces(&[Piece::I, Piece::L, Piece::S, Piece::J, Piece::O, Piece::O]);
    let whole = find_combinations(set, BitBoard(0), &abort, 2);
    let parts = split(&table, Branch::root(set, BitBoard(0), 2), &abort, 2, 0);
    // the parts come in the order of the whole search
    assert_eq!(parts, whole);
    let row = 0b1111111000u64;
    let board = BitBoard(row | row << 10 | row << 20 | row << 30);
    let set = PieceSet::from_pieces(&[Piece::I, Piece::L, Piece::J, Piece::O]);
    let whole = find_combinations(set, board, &abort, 4);
    let parts = split(&table, Branch::root(set, board, 4), &abort, 4, 0);
    assert_eq!(parts.len(), 14);
    assert_eq!(sorted(parts), sorted(whole));
}

#[test]
fn a_search_that_is_not_stopped_says_so() {
    let table = ShapeTable::new();
    let set = PieceSet::from_pieces(&[Piece::I, Piece::L, Piece::S, Piece::J, Piece::O, Piece::O]);
    let abort = AtomicBool::new(false);
    let (found, completed) = find_combinations_in(&table, set, BitBoard(0), &abort, 2);
    assert!(completed);
    assert_eq!(found.len(), 6);
    let abort = AtomicBool::new(true);
    let (found, completed) = find_combinations_in(&table, set, BitBoard(0), &abort, 2);
    assert!(!completed);
    assert!(found.is_empty());
    let (tried, completed) = fork_branch(&table, &Branch::root(set, BitBoard(0), 2), &abort, 2);
    assert!(tried.is_empty() && !completed);
    // nothing to try, so nothing to stop
    let (found, completed) = find_combinations_in(&table, PieceSet::default(), BitBoard(0), &abort, 2);
    assert!(completed);
    assert!(found.is_empty());
}

#[test]
fn searching_twice_gives_the_same_clears() {
    let table = ShapeTable::new();
    let abort = AtomicBool::new(false);
    let queue = [Piece::I, Piece::L, Piece::S, Piece::J, Piece::O, Piece::O];
    let (first, completed) = solve_pc_in(&table, &queue, BitBoard(0), true, false, &abort, &always);
    assert!(completed);
    let (second, _) = solve_pc_in(&table, &queue, BitBoard(0), true, false, &abort, &always);
    assert_eq!(first, second);
    assert_eq!(first, solve_pc(&queue, BitBoard(0), true, false, &abort, always));
    let (at_two, completed) =
        pcf::solve_pc_at_height_in(&table, &queue, BitBoard(0), true, false, &abort, 2, &always);
    assert!(completed);
    assert_eq!(first, at_two);
    let stop = AtomicBool::new(true);
    let (none, completed) = solve_pc_in(&table, &queue, BitBoard(0), true, false, &stop, &always);
    assert!(none.is_empty() && !completed);
}

#[test]
fn stricter_judges_accept_fewer_clears() {
    let abort = AtomicBool::new(false);
    let queue = [Piece::I, Piece::L, Piece::S, Piece::J, Piece::O, Piece::O];
    let all = solve_pc(&queue, BitBoard(0), true, false, &abort, always);
    let spins = solve_pc(&queue, BitBoard(0), true, false, &abort, simple_srs_spins);
    let slides = solve_pc(&queue, BitBoard(0), true, false, &abort, tucks);
    let drops = solve_pc(&queue, BitBoard(0), true, false, &abort, hard_drop_only);
    assert!(!drops.is_empty());
    for sol in &drops {
        assert!(slides.contains(sol));
    }
    for sol in &slides {
        assert!(spins.contains(sol));
    }
    for sol in &spins {
        assert!(all.contains(sol));
    }
}

#[test]
fn the_kinds_in_their_order() {
    for (i, p) in PIECES.iter().enumerate() {
        assert_eq!(p.index(), i);
    }
}

#[test]
fn a_search_with_nothing_to_try_cannot_be_stopped() {
    let table = ShapeTable::new();
    let stop = AtomicBool::new(true);
    // an odd number of empty cells: no height is searched
    let queue = [Piece::I, Piece::L, Piece::S, Piece::J, Piece::O, Piece::O];
    let (found, completed) = solve_pc_in(&table, &queue, BitBoard(1), true, false, &stop, &always);
    assert!(found.is_empty() && completed);
    // too few pieces for the lowest height
    let (found, completed) = solve_pc_in(&table, &queue[..3], BitBoard(0), true, false, &stop, &always);
    assert!(found.is_empty() && completed);
    // a full field leaves no cell to fill
    let set = PieceSet::from_pieces(&queue);
    let (found, completed) = find_combinations_in(&table, set, BitBoard::filled(2), &stop, 2);
    assert!(found.is_empty() && completed);
    let (tried, completed) = fork_branch(&table, &Branch::root(set, BitBoard::filled(2), 2), &stop, 2);
    assert!(tried.is_empty() && completed);
    let (found, completed) = finish_branch(&table, Branch::root(PieceSet::default(), BitBoard(0), 2), &stop, 2);
    assert!(found.is_empty() && completed);
    // pieces that do not fit the next cell: the only piece is an I, and column 0 has one cell left
    let board = BitBoard(BitBoard::filled(2).0 & !(1 << 10));
    let set = PieceSet::from_pieces(&[Piece::I]);
    let (found, completed) = find_combinations_in(&table, set, board, &stop, 2);
    assert!(found.is_empty() && completed);
    // where there is a placement to try, the set flag stops the search
    let (found, completed) = solve_pc_in(&table, &queue, BitBoard(0), true, false, &stop, &always);
    assert!(found.is_empty() && !completed);
    let (found, completed) =
        pcf::solve_pc_at_height_in(&table, &queue, BitBoard(0), true, false, &stop, 2, &always);
    assert!(found.is_empty() && !completed);
}
