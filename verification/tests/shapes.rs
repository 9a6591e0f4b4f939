use pcf::board::BitBoard;
use pcf::piece::{Piece, Rotation, SrsPiece};
use pcf::placement::Placement;
use pcf::shape::{Gaps, PieceState, Shape};
use pcf::table::{piece_states, ShapeTable};

fn gaps(g0: u8, g1: u8, g2: u8, g3: u8) -> Gaps {
    Gaps { g0, g1, g2, g3 }
}

#[test]
fn every_state_is_listed_once() {
    let states = piece_states();
    assert_eq!(states.len(), 316);
    for (i, a) in states.iter().enumerate() {
        assert_eq!(a.bits.count_ones(), 4);
        assert_eq!(a.bits >> 60, 0);
        assert_eq!(Some(*a), PieceState::new(a.shape, a.gaps));
        for b in &states[i + 1..] {
            assert!(a.shape != b.shape || a.gaps != b.gaps);
        }
    }
    assert_eq!(states[0].shape, Shape::SHorizontal);
    assert_eq!(states[0].gaps, gaps(0, 0, 0, 0));
    assert_eq!(states[1].gaps, gaps(0, 1, 0, 0));
    assert_eq!(states[315].shape, Shape::O);
    assert_eq!(states[315].gaps, gaps(4, 0, 0, 0));
}

#[test]
fn state_of_a_split_s() {
    let s = PieceState::new(Shape::SHorizontal, gaps(0, 1, 0, 0)).unwrap();
    assert_eq!(s.board(), BitBoard(0b011 | 0b110 << 20));
    assert_eq!(s.width(), 3);
    assert_eq!(s.hurdles(), 0b10);
    assert_eq!(s.below_mask(), BitBoard(0b110));
    assert_eq!(s.harddrop_mask(), BitBoard(0b011 | 0b111 << 20 | 0b111 << 30 | 0b111 << 40 | 0b111 << 50));
    assert_eq!(s.y(), 0);
    assert_eq!(s.height(), 3);
    assert_eq!(s.cell_y(), 0);
    assert_eq!(s.piece(), Piece::S);
}

#[test]
fn state_of_a_raised_o() {
    let o = PieceState::new(Shape::O, gaps(1, 1, 0, 0)).unwrap();
    assert_eq!(o.board(), BitBoard(0b11 << 10 | 0b11 << 30));
    assert_eq!(o.hurdles(), 0b100);
    assert_eq!(o.below_mask(), BitBoard(0b11 | 0b11 << 10));
    assert_eq!(o.harddrop_mask(), BitBoard(0b11 << 10 | 0b11 << 30 | 0b11 << 40 | 0b11 << 50));
    assert_eq!(o.y(), 1);
    assert_eq!(o.height(), 4);
    assert_eq!(o.cell_y(), 1);
}

#[test]
fn state_of_an_upright_i() {
    let i = PieceState::new(Shape::IVertical, gaps(0, 0, 1, 1)).unwrap();
    assert_eq!(i.board(), BitBoard(1 | 1 << 10 | 1 << 30 | 1 << 50));
    assert_eq!(i.hurdles(), 0b010100);
    assert_eq!(i.width(), 1);
    assert_eq!(i.height(), 6);
    assert_eq!(i.below_mask(), BitBoard(1 | 1 << 10 | 1 << 30));
    assert_eq!(i.harddrop_mask(), i.board());
}

#[test]
fn cell_row_of_shapes_that_start_higher() {
    let s = PieceState::new(Shape::SVertical, gaps(1, 0, 1, 0)).unwrap();
    assert_eq!(s.board(), BitBoard(0b10 << 10 | 0b11 << 20 | 0b01 << 40));
    assert_eq!(s.cell_y(), 2);
    let l = PieceState::new(Shape::LWest, gaps(0, 1, 0, 0)).unwrap();
    assert_eq!(l.cell_y(), 3);
    assert_eq!(l.height(), 4);
}

#[test]
fn gaps_that_do_not_fit_give_no_state() {
    assert!(PieceState::new(Shape::IVertical, gaps(2, 0, 0, 0)).is_some());
    assert!(PieceState::new(Shape::IVertical, gaps(3, 0, 0, 0)).is_none());
    assert!(PieceState::new(Shape::IVertical, gaps(1, 1, 1, 0)).is_none());
    assert!(PieceState::new(Shape::O, gaps(0, 0, 1, 0)).is_none());
    assert!(PieceState::new(Shape::IHorizontal, gaps(5, 0, 0, 0)).is_some());
    assert!(PieceState::new(Shape::IHorizontal, gaps(6, 0, 0, 0)).is_none());
    assert!(PieceState::new(Shape::IHorizontal, gaps(0, 1, 0, 0)).is_none());
    assert!(PieceState::new(Shape::TNorth, gaps(200, 100, 0, 0)).is_none());
}

#[test]
fn buckets_hold_their_states_by_width() {
    let table = ShapeTable::new();
    assert_eq!(table.buckets.len(), 252);
    let o = table.states_for(2, Piece::O, 0);
    assert_eq!(o.len(), 1);
    assert_eq!(o[0], PieceState::new(Shape::O, gaps(0, 0, 0, 0)).unwrap());
    assert!(table.states_for(1, Piece::O, 0).is_empty());
    assert!(table.states_for(2, Piece::O, 1).is_empty());
    let all = piece_states();
    for height in 1..=6usize {
        for k in 0..7usize {
            let piece = Piece::from_index(k);
            let mut total = 0;
            for y in 0..6usize {
                let bucket = table.states_for(height, piece, y);
                total += bucket.len();
                for pair in bucket.windows(2) {
                    assert!(pair[0].width() <= pair[1].width());
                }
                for s in bucket.iter() {
                    assert_eq!(s.piece(), piece);
                    assert!(s.height() as usize <= height);
                    assert_eq!(s.cell_y() as usize, y);
                    assert!(s.bits & (1 << (10 * y)) != 0);
                    assert_eq!(s.bits & ((1u64 << (10 * y)) - 1) & 0x0040100401004010 >> 4, 0);
                }
            }
            let expected = all.iter().filter(|s| s.piece() == piece && s.height() as usize <= height).count();
            assert_eq!(total, expected);
        }
    }
    let i = table.states_for(6, Piece::I, 0);
    assert_eq!(i[0].shape, Shape::IVertical);
    assert_eq!(i[i.len() - 1].shape, Shape::IHorizontal);
}

#[test]
fn placement_board_shifts_the_shape() {
    let t = PieceState::new(Shape::TSouth, gaps(0, 0, 0, 0)).unwrap();
    let p = Placement { kind: t, x: 3 };
    assert_eq!(p.board(), BitBoard(0b010 << 3 | 0b111 << 13));
    assert_eq!(p.harddrop_mask(), BitBoard(t.harddrop_mask().0 << 3));
    assert_eq!(
        t.harddrop_mask(),
        BitBoard(0b010 | 0b111 << 10 | 0b111 << 20 | 0b111 << 30 | 0b111 << 40 | 0b111 << 50)
    );
}

#[test]
fn placeable_needs_support_and_full_hurdles() {
    let o = PieceState::new(Shape::O, gaps(0, 0, 0, 0)).unwrap();
    assert!(Placement { kind: o, x: 4 }.placeable(BitBoard(0)));
    let raised = PieceState::new(Shape::O, gaps(1, 0, 0, 0)).unwrap();
    let p = Placement { kind: raised, x: 4 };
    assert!(!p.placeable(BitBoard(0)));
    assert!(p.placeable(BitBoard(1 << 4)));
    assert!(p.placeable(BitBoard(1 << 5)));
    assert!(!p.placeable(BitBoard(1 << 6)));
    // over a full row the placement rests on what lies under that row
    let two_up = PieceState::new(Shape::O, gaps(2, 0, 0, 0)).unwrap();
    let p = Placement { kind: two_up, x: 4 };
    assert!(!p.placeable(BitBoard(0x3ff << 10)));
    assert!(p.supported_without_clears(BitBoard(0x3ff << 10)));
    assert!(p.placeable(BitBoard(0x3ff << 10 | 1 << 4)));
    assert!(p.placeable(BitBoard(0x3ff | 0x3ff << 10)));
    // a split shape needs its hurdled row full
    let split = PieceState::new(Shape::O, gaps(0, 1, 0, 0)).unwrap();
    let p = Placement { kind: split, x: 0 };
    assert!(!p.placeable(BitBoard(0)));
    assert!(!p.placeable(BitBoard(0x3fe << 10)));
    assert!(p.placeable(BitBoard(0x3ff << 10)));
    assert!(!p.supported_without_clears(BitBoard(0x3fe << 10)));
    assert!(p.supported_without_clears(BitBoard(0x3ff << 10)));
}

#[test]
fn srs_piece_names_the_rotation_centre() {
    let t = PieceState::new(Shape::TSouth, gaps(0, 0, 0, 0)).unwrap();
    let p = Placement { kind: t, x: 3 };
    assert_eq!(
        p.srs_piece(BitBoard(0)),
        vec![SrsPiece { piece: Piece::T, rotation: Rotation::South, x: 4, y: 1 }]
    );
    let t = PieceState::new(Shape::TSouth, gaps(2, 0, 0, 0)).unwrap();
    let p = Placement { kind: t, x: 0 };
    assert_eq!(p.srs_piece(BitBoard(0))[0].y, 3);
    assert_eq!(p.srs_piece(BitBoard(0x3ff))[0].y, 2);
    assert_eq!(p.srs_piece(BitBoard(0x3ff | 0x3ff << 10))[0].y, 1);
    assert_eq!(p.srs_piece(BitBoard(0x3ff << 20))[0].y, 3);
    let o = PieceState::new(Shape::O, gaps(0, 0, 0, 0)).unwrap();
    let all = Placement { kind: o, x: 5 }.srs_piece(BitBoard(0));
    assert_eq!(
        all,
        vec![
            SrsPiece { piece: Piece::O, rotation: Rotation::North, x: 5, y: 0 },
            SrsPiece { piece: Piece::O, rotation: Rotation::East, x: 5, y: 1 },
            SrsPiece { piece: Piece::O, rotation: Rotation::South, x: 6, y: 1 },
            SrsPiece { piece: Piece::O, rotation: Rotation::West, x: 6, y: 0 },
        ]
    );
    let i = PieceState::new(Shape::IVertical, gaps(1, 0, 0, 0)).unwrap();
    let all = Placement { kind: i, x: 9 }.srs_piece(BitBoard(0));
    assert_eq!(
        all,
        vec![
            SrsPiece { piece: Piece::I, rotation: Rotation::West, x: 9, y: 2 },
            SrsPiece { piece: Piece::I, rotation: Rotation::East, x: 9, y: 3 },
        ]
    );
}
