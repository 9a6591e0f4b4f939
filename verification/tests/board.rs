use pcf::board::BitBoard;

#[test]
fn filled_has_ten_cells_per_row() {
    for h in 0..=6usize {
        let b = BitBoard::filled(h);
        assert_eq!(b.0.count_ones() as usize, 10 * h);
        assert_eq!(b.0 >> (10 * h), 0);
    }
    assert_eq!(BitBoard::filled(2).0, 0xfffff);
}

#[test]
fn combine_remove_overlaps() {
    let a = BitBoard(0b1100);
    let b = BitBoard(0b0110);
    assert_eq!(a.combine(b), BitBoard(0b1110));
    assert_eq!(a.remove(b), BitBoard(0b1000));
    assert!(a.overlaps(b));
    assert!(!a.overlaps(BitBoard(0b0011)));
}

#[test]
fn cells_and_lines() {
    let b = BitBoard(0x3ff << 10 | 1 << 3);
    assert!(b.cell_filled(3, 0));
    assert!(!b.cell_filled(4, 0));
    assert!(b.cell_filled(9, 1));
    assert!(b.line_filled(1));
    assert!(!b.line_filled(0));
    assert!(!b.line_filled(2));
}

#[test]
fn lines_cleared_packs_rows() {
    let b = BitBoard(0b1 | 0x3ff << 10 | 0b110 << 20 | 0x3ff << 30 | 0b1000 << 40);
    assert_eq!(b.lines_cleared(), BitBoard(0b1 | 0b110 << 10 | 0b1000 << 20));
    assert_eq!(BitBoard(0).lines_cleared(), BitBoard(0));
    assert_eq!(BitBoard::filled(6).lines_cleared(), BitBoard(0));
}

#[test]
fn leftmost_empty_column_scans_rows() {
    assert_eq!(BitBoard(0).leftmost_empty_column(2), 0);
    assert_eq!(BitBoard::filled(2).leftmost_empty_column(2), 10);
    assert_eq!(BitBoard(0).leftmost_empty_column(0), 10);
    let b = BitBoard(0b0000000111 | 0b0000000011 << 10);
    assert_eq!(b.leftmost_empty_column(1), 3);
    assert_eq!(b.leftmost_empty_column(2), 2);
    assert_eq!(b.leftmost_empty_column(3), 0);
}
