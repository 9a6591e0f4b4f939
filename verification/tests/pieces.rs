use pcf::piece::{Piece, PieceSet};
use pcf::sequence::PieceSequence;

#[test]
fn piece_index_round_trip() {
    let order = [Piece::S, Piece::Z, Piece::J, Piece::L, Piece::T, Piece::O, Piece::I];
    for (i, p) in order.iter().enumerate() {
        assert_eq!(p.index(), i);
        assert_eq!(Piece::from_index(i), *p);
    }
    assert_eq!(Piece::T.name(), 'T');
}

#[test]
fn piece_set_counts() {
    let set = PieceSet::default();
    assert_eq!(set.0, [0; 7]);
    assert!(!set.contains(Piece::T));
    let set = set.with(Piece::T).with(Piece::T).with(Piece::I);
    assert_eq!(set.0, [0, 0, 0, 0, 2, 0, 1]);
    assert!(set.contains(Piece::T));
    let set = set.without(Piece::T);
    assert_eq!(set.0, [0, 0, 0, 0, 1, 0, 1]);
    let set = set.without(Piece::T);
    assert!(!set.contains(Piece::T));
    assert!(set.contains(Piece::I));
}

#[test]
fn piece_sets_ignore_order() {
    let a = PieceSet::from_pieces(&[Piece::I, Piece::L, Piece::S, Piece::L]);
    let b = PieceSet::from_pieces(&[Piece::L, Piece::S, Piece::L, Piece::I]);
    assert_eq!(a, b);
    assert_eq!(a.0, [1, 0, 0, 2, 0, 0, 1]);
    assert_eq!(a.letters(), vec!['S', 'L', 'L', 'I']);
    assert_eq!(PieceSet::default().letters(), Vec::<char>::new());
}

#[test]
fn sequence_keeps_the_next_piece_last() {
    let q = PieceSequence::from_prefix(&[Piece::I, Piece::T, Piece::O, Piece::J], 3);
    assert_eq!(q.count, 3);
    assert_eq!(&q.seq[..3], &[Piece::O, Piece::T, Piece::I]);
    assert!(q.is_next(Piece::I, false));
    assert!(!q.is_next(Piece::T, false));
    assert!(q.is_next(Piece::T, true));
    assert!(!q.is_next(Piece::O, true));
    assert_eq!(q.to_set(), PieceSet::from_pieces(&[Piece::I, Piece::T, Piece::O]));
}

#[test]
fn sequence_remove_next_and_hold() {
    let mut q = PieceSequence::from_prefix(&[Piece::I, Piece::T, Piece::O, Piece::J], 4);
    q.remove(Piece::T);
    assert_eq!(q, PieceSequence::from_prefix(&[Piece::I, Piece::O, Piece::J], 3));
    q.remove(Piece::I);
    assert_eq!(q, PieceSequence::from_prefix(&[Piece::O, Piece::J], 2));
    q.remove(Piece::J);
    assert_eq!(q, PieceSequence::from_prefix(&[Piece::O], 1));
    assert!(!q.is_next(Piece::J, true));
    q.remove(Piece::O);
    assert_eq!(q.count, 0);
    assert!(!q.is_next(Piece::O, true));
    assert_eq!(q, PieceSequence::from_prefix(&[], 5));
}

#[test]
fn sequence_takes_sixteen_at_most() {
    let long = [Piece::Z; 20];
    let q = PieceSequence::from_prefix(&long, 20);
    assert_eq!(q.count, 16);
    let q = PieceSequence::from_prefix(&long, 0);
    assert_eq!(q.count, 0);
    assert_eq!(q.seq, [Piece::S; 16]);
}
