//! The shapes that a piece can take inside the six rows of the field.
//!
//! A piece that comes to rest across rows that are cleared later ends up with
//! gaps between its rows. A `PieceState` is one of the nineteen oriented
//! shapes together with the gap below each of its rows.

use vstd::prelude::*;
use crate::board::BitBoard;
use crate::piece::{Piece, Rotation, SrsPiece};

verus! {

/// An oriented piece. The two horizontal positions of S, Z and I cover the
/// same cells, and so do their two vertical ones; O covers the same cells in
/// all four.
#[derive(Copy, Clone, Debug, PartialEq, Eq, Hash, Structural)]
pub enum Shape {
    SHorizontal,
    SVertical,
    ZHorizontal,
    ZVertical,
    IHorizontal,
    IVertical,
    JNorth,
    TNorth,
    LNorth,
    JSouth,
    TSouth,
    LSouth,
    JEast,
    TEast,
    LEast,
    JWest,
    TWest,
    LWest,
    O,
}

/// What is fixed about a shape: its kind, the cells of each of its rows from
/// the bottom (bit `x` for column `x`), how many rows and columns it spans, and
/// which of its rows is the lowest with a cell in column 0.
#[derive(Copy, Clone, Debug, PartialEq, Eq, Hash, Structural)]
pub struct ShapeInfo {
    pub piece: Piece,
    pub r0: u64,
    pub r1: u64,
    pub r2: u64,
    pub r3: u64,
    pub height: u8,
    pub width: u8,
    pub first: u8,
}

pub open spec fn shape_info(piece: Piece, r0: u64, r1: u64, r2: u64, r3: u64, height: u8, width: u8, first: u8) -> ShapeInfo {
    ShapeInfo { piece, r0, r1, r2, r3, height, width, first }
}

fn make_info(piece: Piece, r0: u64, r1: u64, r2: u64, r3: u64, height: u8, width: u8, first: u8) -> (r: ShapeInfo)
    ensures
        r == shape_info(piece, r0, r1, r2, r3, height, width, first),
{
    ShapeInfo { piece, r0, r1, r2, r3, height, width, first }
}

impl ShapeInfo {
    /// The cells of row `i` of the shape; none from the shape's height on.
    pub open spec fn row(self, i: nat) -> u64 {
        if i == 0 {
            self.r0
        } else if i == 1 {
            self.r1
        } else if i == 2 {
            self.r2
        } else if i == 3 {
            self.r3
        } else {
            0
        }
    }

    /// The columns in which one of the rows `0..=i` has a cell.
    pub open spec fn swept(self, i: nat) -> u64 {
        if i == 0 {
            self.r0
        } else if i == 1 {
            self.r0 | self.r1
        } else if i == 2 {
            self.r0 | self.r1 | self.r2
        } else {
            self.r0 | self.r1 | self.r2 | self.r3
        }
    }
}

impl Shape {
    pub open spec fn spec_info(self) -> ShapeInfo {
        match self {
            Shape::SHorizontal => shape_info(Piece::S, 3, 6, 0, 0, 2, 3, 0),
            Shape::SVertical => shape_info(Piece::S, 2, 3, 1, 0, 3, 2, 1),
            Shape::ZHorizontal => shape_info(Piece::Z, 6, 3, 0, 0, 2, 3, 1),
            Shape::ZVertical => shape_info(Piece::Z, 1, 3, 2, 0, 3, 2, 0),
            Shape::IHorizontal => shape_info(Piece::I, 15, 0, 0, 0, 1, 4, 0),
            Shape::IVertical => shape_info(Piece::I, 1, 1, 1, 1, 4, 1, 0),
            Shape::JNorth => shape_info(Piece::J, 7, 1, 0, 0, 2, 3, 0),
            Shape::TNorth => shape_info(Piece::T, 7, 2, 0, 0, 2, 3, 0),
            Shape::LNorth => shape_info(Piece::L, 7, 4, 0, 0, 2, 3, 0),
            Shape::JSouth => shape_info(Piece::J, 4, 7, 0, 0, 2, 3, 1),
            Shape::TSouth => shape_info(Piece::T, 2, 7, 0, 0, 2, 3, 1),
            Shape::LSouth => shape_info(Piece::L, 1, 7, 0, 0, 2, 3, 0),
            Shape::JEast => shape_info(Piece::J, 1, 1, 3, 0, 3, 2, 0),
            Shape::TEast => shape_info(Piece::T, 1, 3, 1, 0, 3, 2, 0),
            Shape::LEast => shape_info(Piece::L, 3, 1, 1, 0, 3, 2, 0),
            Shape::JWest => shape_info(Piece::J, 3, 2, 2, 0, 3, 2, 0),
            Shape::TWest => shape_info(Piece::T, 2, 3, 2, 0, 3, 2, 1),
            Shape::LWest => shape_info(Piece::L, 2, 2, 3, 0, 3, 2, 2),
            Shape::O => shape_info(Piece::O, 3, 3, 0, 0, 2, 2, 0),
        }
    }

    pub fn info(self) -> (r: ShapeInfo)
        ensures
            r == self.spec_info(),
            1 <= r.height <= 4,
            1 <= r.width <= 4,
            r.first < r.height,
    {
        match self {
            Shape::SHorizontal => make_info(Piece::S, 3, 6, 0, 0, 2, 3, 0),
            Shape::SVertical => make_info(Piece::S, 2, 3, 1, 0, 3, 2, 1),
            Shape::ZHorizontal => make_info(Piece::Z, 6, 3, 0, 0, 2, 3, 1),
            Shape::ZVertical => make_info(Piece::Z, 1, 3, 2, 0, 3, 2, 0),
            Shape::IHorizontal => make_info(Piece::I, 15, 0, 0, 0, 1, 4, 0),
            Shape::IVertical => make_info(Piece::I, 1, 1, 1, 1, 4, 1, 0),
            Shape::JNorth => make_info(Piece::J, 7, 1, 0, 0, 2, 3, 0),
            Shape::TNorth => make_info(Piece::T, 7, 2, 0, 0, 2, 3, 0),
            Shape::LNorth => make_info(Piece::L, 7, 4, 0, 0, 2, 3, 0),
            Shape::JSouth => make_info(Piece::J, 4, 7, 0, 0, 2, 3, 1),
            Shape::TSouth => make_info(Piece::T, 2, 7, 0, 0, 2, 3, 1),
            Shape::LSouth => make_info(Piece::L, 1, 7, 0, 0, 2, 3, 0),
            Shape::JEast => make_info(Piece::J, 1, 1, 3, 0, 3, 2, 0),
            Shape::TEast => make_info(Piece::T, 1, 3, 1, 0, 3, 2, 0),
            Shape::LEast => make_info(Piece::L, 3, 1, 1, 0, 3, 2, 0),
            Shape::JWest => make_info(Piece::J, 3, 2, 2, 0, 3, 2, 0),
            Shape::TWest => make_info(Piece::T, 2, 3, 2, 0, 3, 2, 1),
            Shape::LWest => make_info(Piece::L, 2, 2, 3, 0, 3, 2, 2),
            Shape::O => make_info(Piece::O, 3, 3, 0, 0, 2, 2, 0),
        }
    }

    /// The position of the shape in the order in which the table lists them.
    pub open spec fn spec_index(self) -> int {
        match self {
            Shape::SHorizontal => 0,
            Shape::SVertical => 1,
            Shape::ZHorizontal => 2,
            Shape::ZVertical => 3,
            Shape::IHorizontal => 4,
            Shape::IVertical => 5,
            Shape::JNorth => 6,
            Shape::TNorth => 7,
            Shape::LNorth => 8,
            Shape::JSouth => 9,
            Shape::TSouth => 10,
            Shape::LSouth => 11,
            Shape::JEast => 12,
            Shape::TEast => 13,
            Shape::LEast => 14,
            Shape::JWest => 15,
            Shape::TWest => 16,
            Shape::LWest => 17,
            Shape::O => 18,
        }
    }

    /// The shape at position `i` of the order in which the table lists them.
    pub open spec fn spec_from_index(i: int) -> Shape {
        if i == 0 {
            Shape::SHorizontal
        } else if i == 1 {
            Shape::SVertical
        } else if i == 2 {
            Shape::ZHorizontal
        } else if i == 3 {
            Shape::ZVertical
        } else if i == 4 {
            Shape::IHorizontal
        } else if i == 5 {
            Shape::IVertical
        } else if i == 6 {
            Shape::JNorth
        } else if i == 7 {
            Shape::TNorth
        } else if i == 8 {
            Shape::LNorth
        } else if i == 9 {
            Shape::JSouth
        } else if i == 10 {
            Shape::TSouth
        } else if i == 11 {
            Shape::LSouth
        } else if i == 12 {
            Shape::JEast
        } else if i == 13 {
            Shape::TEast
        } else if i == 14 {
            Shape::LEast
        } else if i == 15 {
            Shape::JWest
        } else if i == 16 {
            Shape::TWest
        } else if i == 17 {
            Shape::LWest
        } else {
            Shape::O
        }
    }

    pub fn from_index(i: usize) -> (r: Shape)
        ensures
            r == Shape::spec_from_index(i as int),
    {
        if i == 0 {
            Shape::SHorizontal
        } else if i == 1 {
            Shape::SVertical
        } else if i == 2 {
            Shape::ZHorizontal
        } else if i == 3 {
            Shape::ZVertical
        } else if i == 4 {
            Shape::IHorizontal
        } else if i == 5 {
            Shape::IVertical
        } else if i == 6 {
            Shape::JNorth
        } else if i == 7 {
            Shape::TNorth
        } else if i == 8 {
            Shape::LNorth
        } else if i == 9 {
            Shape::JSouth
        } else if i == 10 {
            Shape::TSouth
        } else if i == 11 {
            Shape::LSouth
        } else if i == 12 {
            Shape::JEast
        } else if i == 13 {
            Shape::TEast
        } else if i == 14 {
            Shape::LEast
        } else if i == 15 {
            Shape::JWest
        } else if i == 16 {
            Shape::TWest
        } else if i == 17 {
            Shape::LWest
        } else {
            Shape::O
        }
    }

    /// The orientations that cover the cells of this shape, each with the
    /// offset of its rotation centre from the shape's lower left corner.
    pub open spec fn spec_srs(self) -> Seq<SrsPiece> {
        let p = self.spec_info().piece;
        match self {
            Shape::SHorizontal | Shape::ZHorizontal => seq![
                SrsPiece { piece: p, rotation: Rotation::North, x: 1, y: 0 },
                SrsPiece { piece: p, rotation: Rotation::South, x: 1, y: 1 },
            ],
            Shape::SVertical | Shape::ZVertical => seq![
                SrsPiece { piece: p, rotation: Rotation::West, x: 1, y: 1 },
                SrsPiece { piece: p, rotation: Rotation::East, x: 0, y: 1 },
            ],
            Shape::IHorizontal => seq![
                SrsPiece { piece: p, rotation: Rotation::North, x: 1, y: 0 },
                SrsPiece { piece: p, rotation: Rotation::South, x: 2, y: 0 },
            ],
            Shape::IVertical => seq![
                SrsPiece { piece: p, rotation: Rotation::West, x: 0, y: 1 },
                SrsPiece { piece: p, rotation: Rotation::East, x: 0, y: 2 },
            ],
            Shape::JNorth | Shape::TNorth | Shape::LNorth => seq![
                SrsPiece { piece: p, rotation: Rotation::North, x: 1, y: 0 },
            ],
            Shape::JSouth | Shape::TSouth | Shape::LSouth => seq![
                SrsPiece { piece: p, rotation: Rotation::South, x: 1, y: 1 },
            ],
            Shape::JEast | Shape::TEast | Shape::LEast => seq![
                SrsPiece { piece: p, rotation: Rotation::East, x: 0, y: 1 },
            ],
            Shape::JWest | Shape::TWest | Shape::LWest => seq![
                SrsPiece { piece: p, rotation: Rotation::West, x: 1, y: 1 },
            ],
            Shape::O => seq![
                SrsPiece { piece: p, rotation: Rotation::North, x: 0, y: 0 },
                SrsPiece { piece: p, rotation: Rotation::East, x: 0, y: 1 },
                SrsPiece { piece: p, rotation: Rotation::South, x: 1, y: 1 },
                SrsPiece { piece: p, rotation: Rotation::West, x: 1, y: 0 },
            ],
        }
    }

    pub fn srs(self) -> (r: Vec<SrsPiece>)
        ensures
            r@ == self.spec_srs(),
            1 <= r@.len() <= 4,
            forall|i: int| 0 <= i < r@.len() ==> 0 <= (#[trigger] r@[i]).x <= 2 && 0 <= r@[i].y <= 2,
    {
        let p = self.info().piece;
        let mut v: Vec<SrsPiece> = Vec::new();
        match self {
            Shape::SHorizontal | Shape::ZHorizontal => {
                v.push(SrsPiece { piece: p, rotation: Rotation::North, x: 1, y: 0 });
                v.push(SrsPiece { piece: p, rotation: Rotation::South, x: 1, y: 1 });
            },
            Shape::SVertical | Shape::ZVertical => {
                v.push(SrsPiece { piece: p, rotation: Rotation::West, x: 1, y: 1 });
                v.push(SrsPiece { piece: p, rotation: Rotation::East, x: 0, y: 1 });
            },
            Shape::IHorizontal => {
                v.push(SrsPiece { piece: p, rotation: Rotation::North, x: 1, y: 0 });
                v.push(SrsPiece { piece: p, rotation: Rotation::South, x: 2, y: 0 });
            },
            Shape::IVertical => {
                v.push(SrsPiece { piece: p, rotation: Rotation::West, x: 0, y: 1 });
                v.push(SrsPiece { piece: p, rotation: Rotation::East, x: 0, y: 2 });
            },
            Shape::JNorth | Shape::TNorth | Shape::LNorth => {
                v.push(SrsPiece { piece: p, rotation: Rotation::North, x: 1, y: 0 });
            },
            Shape::JSouth | Shape::TSouth | Shape::LSouth => {
                v.push(SrsPiece { piece: p, rotation: Rotation::South, x: 1, y: 1 });
            },
            Shape::JEast | Shape::TEast | Shape::LEast => {
                v.push(SrsPiece { piece: p, rotation: Rotation::East, x: 0, y: 1 });
            },
            Shape::JWest | Shape::TWest | Shape::LWest => {
                v.push(SrsPiece { piece: p, rotation: Rotation::West, x: 1, y: 1 });
            },
            Shape::O => {
                v.push(SrsPiece { piece: p, rotation: Rotation::North, x: 0, y: 0 });
                v.push(SrsPiece { piece: p, rotation: Rotation::East, x: 0, y: 1 });
                v.push(SrsPiece { piece: p, rotation: Rotation::South, x: 1, y: 1 });
                v.push(SrsPiece { piece: p, rotation: Rotation::West, x: 1, y: 0 });
            },
        }
        assert(v@ =~= self.spec_srs());
        v
    }
}

/// The empty rows below row 0 of a shape, and between each row and the next.
#[derive(Copy, Clone, Debug, PartialEq, Eq, Hash, Structural)]
pub struct Gaps {
    pub g0: u8,
    pub g1: u8,
    pub g2: u8,
    pub g3: u8,
}

impl Gaps {
    /// The row of the field in which row `i` of the shape lies.
    pub open spec fn pos(self, i: nat) -> nat {
        if i == 0 {
            self.g0 as nat
        } else if i == 1 {
            (self.g0 + self.g1 + 1) as nat
        } else if i == 2 {
            (self.g0 + self.g1 + self.g2 + 2) as nat
        } else {
            (self.g0 + self.g1 + self.g2 + self.g3 + 3) as nat
        }
    }

    /// Whether a shape of `height` rows with these gaps lies inside the six
    /// rows of the field. Rows that the shape does not have carry no gap.
    pub open spec fn fits(self, height: nat) -> bool {
        &&& self.g0 + self.g1 + self.g2 + self.g3 + height <= 6
        &&& (height <= 1 ==> self.g1 == 0)
        &&& (height <= 2 ==> self.g2 == 0)
        &&& (height <= 3 ==> self.g3 == 0)
    }

    /// The gaps that the number `c` below 1296 stands for: its four digits in
    /// base six, `g0` first.
    pub open spec fn spec_decode(c: nat) -> Gaps {
        Gaps { g0: (c / 216) as u8, g1: ((c / 36) % 6) as u8, g2: ((c / 6) % 6) as u8, g3: (c % 6) as u8 }
    }

    pub fn decode(c: usize) -> (r: Gaps)
        requires
            c < 1296,
        ensures
            r == Gaps::spec_decode(c as nat),
            r.g0 < 6 && r.g1 < 6 && r.g2 < 6 && r.g3 < 6,
    {
        Gaps { g0: (c / 216) as u8, g1: ((c / 36) % 6) as u8, g2: ((c / 6) % 6) as u8, g3: (c % 6) as u8 }
    }

    /// The number that `spec_decode` turns into these gaps.
    pub open spec fn code(self) -> nat {
        (self.g0 * 216 + self.g1 * 36 + self.g2 * 6 + self.g3) as nat
    }
}

/// The cells of row `i` of the shape, where they lie in the field.
pub open spec fn placed_row(info: ShapeInfo, g: Gaps, i: nat) -> u64 {
    if i < info.height {
        info.row(i) << ((10 * g.pos(i)) as u64)
    } else {
        0
    }
}

/// The cells that a shape with gaps `g` covers when its left edge is column 0.
pub open spec fn footprint(info: ShapeInfo, g: Gaps) -> u64 {
    placed_row(info, g, 0) | placed_row(info, g, 1) | placed_row(info, g, 2) | placed_row(info, g, 3)
}

/// The cells on which row `i` of the shape would rest once the rows between
/// it and the row below it are gone: below row 0 the cells under it, if there
/// is a row under it; below a later row the same columns in the row of the
/// shape's row before.
pub open spec fn support_row(info: ShapeInfo, g: Gaps, i: nat) -> u64 {
    if i >= info.height {
        0
    } else if i == 0 {
        if g.g0 != 0 {
            info.r0 << ((10 * (g.g0 - 1)) as u64)
        } else {
            0
        }
    } else {
        info.row(i) << ((10 * g.pos((i - 1) as nat)) as u64)
    }
}

/// The cells of which one must be filled for the shape to rest.
pub open spec fn support(info: ShapeInfo, g: Gaps) -> u64 {
    support_row(info, g, 0) | support_row(info, g, 1) | support_row(info, g, 2) | support_row(info, g, 3)
}

/// `pattern` in each of the rows `from..6`.
pub open spec fn rows_above(pattern: u64, from: nat) -> u64
    decreases 6 - from,
{
    if from >= 6 {
        0
    } else {
        (pattern << ((10 * from) as u64)) | rows_above(pattern, from + 1)
    }
}

/// In the row of the shape's row `i`, the columns of the rows `0..=i`.
pub open spec fn sweep_row(info: ShapeInfo, g: Gaps, i: nat) -> u64 {
    if i < info.height {
        info.swept(i) << ((10 * g.pos(i)) as u64)
    } else {
        0
    }
}

/// The cells through which the shape passes when it falls straight down to
/// its place: in each of its rows the columns of that row and of the rows
/// under it, and all of its columns in the rows above it. The rows in the
/// gaps are left out.
pub open spec fn drop_path(info: ShapeInfo, g: Gaps) -> u64 {
    sweep_row(info, g, 0) | sweep_row(info, g, 1) | sweep_row(info, g, 2) | sweep_row(info, g, 3)
        | rows_above(info.swept((info.height - 1) as nat), g.pos((info.height - 1) as nat) + 1)
}

/// Whether row `j` of the field lies in a gap between two rows of the shape.
pub open spec fn hurdled(info: ShapeInfo, g: Gaps, j: nat) -> bool {
    ||| (info.height > 1 && g.pos(0) < j < g.pos(1))
    ||| (info.height > 2 && g.pos(1) < j < g.pos(2))
    ||| (info.height > 3 && g.pos(2) < j < g.pos(3))
}

/// Bit `j` for each row `j` below `n` that is hurdled.
pub open spec fn hurdle_bits(info: ShapeInfo, g: Gaps, n: nat) -> u8
    decreases n,
{
    if n == 0 {
        0
    } else if hurdled(info, g, (n - 1) as nat) {
        hurdle_bits(info, g, (n - 1) as nat) | (1u8 << ((n - 1) as u8))
    } else {
        hurdle_bits(info, g, (n - 1) as nat)
    }
}

/// A shape with its gaps, and what the search reads of it, worked out once.
#[derive(Copy, Clone, Debug, PartialEq, Eq, Hash, Structural)]
pub struct PieceState {
    pub shape: Shape,
    pub gaps: Gaps,
    pub bits: u64,
    pub below: u64,
    pub harddrop: u64,
    pub hurdle_rows: u8,
}

impl PieceState {
    /// The gaps fit the shape, and the other fields are what follows from
    /// the two.
    pub open spec fn wf(self) -> bool {
        let info = self.shape.spec_info();
        &&& self.gaps.fits(info.height as nat)
        &&& self.bits == footprint(info, self.gaps)
        &&& self.below == support(info, self.gaps)
        &&& self.harddrop == drop_path(info, self.gaps)
        &&& self.hurdle_rows == hurdle_bits(info, self.gaps, 6)
    }

    /// The state of `shape` with `gaps`, the only well-formed one.
    pub open spec fn spec_new(shape: Shape, gaps: Gaps) -> PieceState {
        let info = shape.spec_info();
        PieceState {
            shape,
            gaps,
            bits: footprint(info, gaps),
            below: support(info, gaps),
            harddrop: drop_path(info, gaps),
            hurdle_rows: hurdle_bits(info, gaps, 6),
        }
    }

    /// The number of rows of the field from row 0 to the shape's top row.
    pub open spec fn spec_height(self) -> nat {
        self.gaps.pos((self.shape.spec_info().height - 1) as nat) + 1
    }

    /// The lowest row in which the shape has a cell in its leftmost column.
    pub open spec fn spec_cell_y(self) -> nat {
        self.gaps.pos(self.shape.spec_info().first as nat)
    }

    /// The state of `shape` with `gaps`, if the gaps fit the shape.
    pub fn new(shape: Shape, gaps: Gaps) -> (r: Option<PieceState>)
        ensures
            r.is_some() == gaps.fits(shape.spec_info().height as nat),
            r.is_some() ==> r.unwrap() == PieceState::spec_new(shape, gaps) && r.unwrap().wf(),
    {
        let info = shape.info();
        let h = info.height;
        if gaps.g0 > 5 || gaps.g1 > 5 || gaps.g2 > 5 || gaps.g3 > 5 {
            return None;
        }
        if gaps.g0 + gaps.g1 + gaps.g2 + gaps.g3 + h > 6 {
            return None;
        }
        if (h <= 1 && gaps.g1 != 0) || (h <= 2 && gaps.g2 != 0) || (h <= 3 && gaps.g3 != 0) {
            return None;
        }
        let at0: u8 = gaps.g0;
        let at1: u8 = gaps.g0 + gaps.g1 + 1;
        let at2: u8 = gaps.g0 + gaps.g1 + gaps.g2 + 2;
        let at3: u8 = gaps.g0 + gaps.g1 + gaps.g2 + gaps.g3 + 3;
        let top: u8 = if h == 1 {
            at0
        } else if h == 2 {
            at1
        } else if h == 3 {
            at2
        } else {
            at3
        };
        assert(top <= 5);
        assert(at0 == gaps.pos(0) && at1 == gaps.pos(1) && at2 == gaps.pos(2) && at3 == gaps.pos(3));
        let s0: u64 = info.r0;
        let s1: u64 = info.r0 | info.r1;
        let s2: u64 = info.r0 | info.r1 | info.r2;
        let s3: u64 = info.r0 | info.r1 | info.r2 | info.r3;
        let b0: u64 = info.r0 << ((10 * at0) as u64);
        let b1: u64 = if h > 1 { info.r1 << ((10 * at1) as u64) } else { 0 };
        let b2: u64 = if h > 2 { info.r2 << ((10 * at2) as u64) } else { 0 };
        let b3: u64 = if h > 3 { info.r3 << ((10 * at3) as u64) } else { 0 };
        let u0: u64 = if gaps.g0 != 0 { info.r0 << ((10 * (gaps.g0 - 1)) as u64) } else { 0 };
        let u1: u64 = if h > 1 { info.r1 << ((10 * at0) as u64) } else { 0 };
        let u2: u64 = if h > 2 { info.r2 << ((10 * at1) as u64) } else { 0 };
        let u3: u64 = if h > 3 { info.r3 << ((10 * at2) as u64) } else { 0 };
        let d0: u64 = s0 << ((10 * at0) as u64);
        let d1: u64 = if h > 1 { s1 << ((10 * at1) as u64) } else { 0 };
        let d2: u64 = if h > 2 { s2 << ((10 * at2) as u64) } else { 0 };
        let d3: u64 = if h > 3 { s3 << ((10 * at3) as u64) } else { 0 };
        let all: u64 = if h == 1 {
            s0
        } else if h == 2 {
            s1
        } else if h == 3 {
            s2
        } else {
            s3
        };
        assert(all == info.swept((h - 1) as nat));
        let mut above: u64 = 0;
        let mut row: u8 = 6;
        while row > top + 1
            invariant
                top + 1 <= row <= 6,
                above == rows_above(all, row as nat),
            decreases row,
        {
            row -= 1;
            above = (all << ((10 * row) as u64)) | above;
        }
        let mut hurdle_rows: u8 = 0;
        let mut j: u8 = 0;
        while j < 6
            invariant
                j <= 6,
                info == shape.spec_info(),
                h == info.height,
                at0 == gaps.pos(0) && at1 == gaps.pos(1) && at2 == gaps.pos(2) && at3 == gaps.pos(3),
                hurdle_rows == hurdle_bits(info, gaps, j as nat),
            decreases 6 - j,
        {
            if (h > 1 && at0 < j && j < at1) || (h > 2 && at1 < j && j < at2) || (h > 3 && at2 < j && j < at3) {
                hurdle_rows = hurdle_rows | (1u8 << j);
            }
            j += 1;
        }
        Some(
            PieceState {
                shape,
                gaps,
                bits: b0 | b1 | b2 | b3,
                below: u0 | u1 | u2 | u3,
                harddrop: d0 | d1 | d2 | d3 | above,
                hurdle_rows,
            },
        )
    }

    /// The cells that the shape covers when its left edge is column 0.
    pub fn board(self) -> (r: BitBoard)
        ensures
            r.0 == self.bits,
    {
        BitBoard(self.bits)
    }

    pub fn width(self) -> (r: u8)
        ensures
            r == self.shape.spec_info().width,
            1 <= r <= 4,
    {
        self.shape.info().width
    }

    /// Bit `j` is set where row `j` lies in a gap of the shape.
    pub fn hurdles(self) -> (r: u8)
        ensures
            r == self.hurdle_rows,
    {
        self.hurdle_rows
    }

    /// The cells of which one must be filled for the shape to rest.
    pub fn below_mask(self) -> (r: BitBoard)
        ensures
            r.0 == self.below,
    {
        BitBoard(self.below)
    }

    /// The cells through which the shape falls to its place.
    pub fn harddrop_mask(self) -> (r: BitBoard)
        ensures
            r.0 == self.harddrop,
    {
        BitBoard(self.harddrop)
    }

    /// The row of the shape's lowest cell.
    pub fn y(self) -> (r: u8)
        ensures
            r == self.gaps.g0,
    {
        self.gaps.g0
    }

    pub fn piece(self) -> (r: Piece)
        ensures
            r == self.shape.spec_info().piece,
    {
        self.shape.info().piece
    }

    /// The number of rows of the field from row 0 to the shape's top row.
    pub fn height(self) -> (r: u8)
        requires
            self.wf(),
        ensures
            r == self.spec_height(),
            1 <= r <= 6,
    {
        let h = self.shape.info().height;
        let g = self.gaps;
        if h == 1 {
            g.g0 + 1
        } else if h == 2 {
            g.g0 + g.g1 + 2
        } else if h == 3 {
            g.g0 + g.g1 + g.g2 + 3
        } else {
            g.g0 + g.g1 + g.g2 + g.g3 + 4
        }
    }

    /// The lowest row in which the shape has a cell in its leftmost column.
    pub fn cell_y(self) -> (r: u8)
        requires
            self.wf(),
        ensures
            r == self.spec_cell_y(),
            r < 6,
    {
        let info = self.shape.info();
        let g = self.gaps;
        if info.first == 0 {
            g.g0
        } else if info.first == 1 {
            g.g0 + g.g1 + 1
        } else {
            g.g0 + g.g1 + g.g2 + 2
        }
    }

    /// The orientations that the state stands for, each with the offset of
    /// its rotation centre from column 0 of the shape and row 0 of the field.
    pub open spec fn spec_piece_srs(self) -> Seq<SrsPiece> {
        let base = self.shape.spec_srs();
        Seq::new(
            base.len(),
            |i: int|
                SrsPiece {
                    piece: base[i].piece,
                    rotation: base[i].rotation,
                    x: base[i].x,
                    y: (base[i].y + self.gaps.g0) as i32,
                },
        )
    }

    pub fn piece_srs(self) -> (r: Vec<SrsPiece>)
        requires
            self.gaps.g0 <= 5,
        ensures
            r@ == self.spec_piece_srs(),
    {
        let base = self.shape.srs();
        let mut out: Vec<SrsPiece> = Vec::new();
        let mut i: usize = 0;
        while i < base.len()
            invariant
                i <= base@.len(),
                base@ == self.shape.spec_srs(),
                self.gaps.g0 <= 5,
                forall|k: int| 0 <= k < base@.len() ==> 0 <= (#[trigger] base@[k]).x <= 2 && 0 <= base@[k].y <= 2,
                out@.len() == i,
                forall|k: int| 0 <= k < i ==> out@[k] == self.spec_piece_srs()[k],
            decreases base@.len() - i,
        {
            let p = base[i];
            out.push(SrsPiece { piece: p.piece, rotation: p.rotation, x: p.x, y: p.y + self.gaps.g0 as i32 });
            i += 1;
        }
        assert(out@ =~= self.spec_piece_srs());
        out
    }
}

} // verus!
