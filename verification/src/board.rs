//! The playing field as a bit set: ten columns, six rows, one bit per cell.

use vstd::prelude::*;

verus! {

/// The number of bits that are set in `v`.
pub open spec fn popcount(v: u64) -> nat
    decreases v,
{
    if v == 0 {
        0
    } else {
        (v % 2) as nat + popcount(v / 2)
    }
}

/// Whether bit `k` of `v` is set.
pub open spec fn bit(v: u64, k: nat) -> bool
    recommends
        k < 64,
{
    v & (1u64 << (k as u64)) != 0
}

/// The `n` lowest bits, all set.
pub open spec fn low_mask(n: nat) -> u64
    recommends
        n < 64,
{
    ((1u64 << (n as u64)) - 1) as u64
}

/// The ten bits of row `y` of `v`.
pub open spec fn row_bits(v: u64, y: nat) -> u64
    recommends
        y <= 6,
{
    (v >> ((10 * y) as u64)) & 0x3ffu64
}

/// Where each of the first `n` rows of `v` has a cell, as ten bits.
pub open spec fn common_columns(v: u64, n: nat) -> u64
    decreases n,
{
    if n == 0 {
        0x3ffu64
    } else {
        common_columns(v, (n - 1) as nat) & (v >> ((10 * (n - 1)) as u64))
    }
}

/// The rows among the first `n` of `v` that are not full, packed from row 0
/// upwards in their order, and how many they are.
pub open spec fn packed_rows(v: u64, n: nat) -> (u64, nat)
    decreases n,
{
    if n == 0 {
        (0u64, 0nat)
    } else {
        let (acc, k) = packed_rows(v, (n - 1) as nat);
        if row_bits(v, (n - 1) as nat) == 0x3ffu64 {
            (acc, k)
        } else {
            (acc | (row_bits(v, (n - 1) as nat) << ((10 * k) as u64)), k + 1)
        }
    }
}

/// `low_mask(n)` has exactly `n` bits.
pub proof fn lemma_popcount_low_mask(n: nat)
    requires
        n < 64,
    ensures
        popcount(low_mask(n)) == n,
    decreases n,
{
    let m = n as u64;
    if n == 0 {
        assert(((1u64 << 0u64) - 1) as u64 == 0) by (bit_vector);
    } else {
        lemma_popcount_low_mask((n - 1) as nat);
        assert(1 <= m < 64 ==> ((((1u64 << m) - 1) as u64) % 2 == 1 && (((1u64 << m) - 1) as u64) / 2
            == ((1u64 << ((m - 1) as u64)) - 1) as u64 && (((1u64 << m) - 1) as u64) != 0)) by (bit_vector);
    }
}

/// `u64::count_ones` counts the bits that are set: the result is `popcount`
/// of the number, which for 64 bits is at most 64.
pub assume_specification[ u64::count_ones ](v: u64) -> (r: u32)
    ensures
        r == popcount(v),
        r <= 64,
;

/// A playing field: bit `x + 10 * y` stands for the cell in column `x` of row `y`.
#[derive(Copy, Clone, Debug, PartialEq, Eq, Hash, Default, Structural)]
pub struct BitBoard(pub u64);

impl BitBoard {
    /// Whether the cell in column `x` of row `y` is filled.
    pub open spec fn cell(self, x: nat, y: nat) -> bool
        recommends
            x + 10 * y < 64,
    {
        bit(self.0, x + 10 * y)
    }

    /// No bit past the six rows is set.
    pub open spec fn wf(self) -> bool {
        self.0 >> 60u64 == 0
    }

    /// Whether every cell of row `y` is filled.
    pub open spec fn row_full(self, y: nat) -> bool
        recommends
            y <= 6,
    {
        row_bits(self.0, y) == 0x3ffu64
    }

    /// The board whose cells below row `height` are filled, and no others.
    pub fn filled(height: usize) -> (r: BitBoard)
        requires
            height <= 6,
        ensures
            r.0 == low_mask((10 * height) as nat),
            popcount(r.0) == 10 * height,
            r.0 >> ((10 * height) as u64) == 0,
            r.wf(),
            forall|x: nat, y: nat| x < 10 && y < 6 ==> (#[trigger] r.cell(x, y) <==> y < height),
    {
        let n: u64 = (height * 10) as u64;
        assert(n <= 60 ==> (1u64 << n) >= 1) by (bit_vector);
        let v: u64 = (1u64 << n) - 1;
        proof {
            lemma_popcount_low_mask((10 * height) as nat);
            assert(n <= 60 ==> (((1u64 << n) - 1) as u64) >> n == 0 && (((1u64 << n) - 1) as u64) >> 60u64 == 0)
                by (bit_vector);
            assert forall|x: nat, y: nat| x < 10 && y < 6 implies (#[trigger] BitBoard(v).cell(x, y) <==> y
                < height) by {
                let s = (x + 10 * y) as u64;
                assert(n <= 60 && s < 60 ==> ((((1u64 << n) - 1) as u64) & (1u64 << s) != 0 <==> s < n))
                    by (bit_vector);
            }
        }
        BitBoard(v)
    }

    /// The cells that are filled in either board.
    pub fn combine(self, other: Self) -> (r: Self)
        ensures
            r.0 == self.0 | other.0,
            self.wf() && other.wf() ==> r.wf(),
    {
        let a = self.0;
        let b = other.0;
        assert(a >> 60u64 == 0 && b >> 60u64 == 0 ==> (a | b) >> 60u64 == 0) by (bit_vector);
        BitBoard(self.0 | other.0)
    }

    /// The cells of this board that `other` does not have.
    pub fn remove(self, other: Self) -> (r: Self)
        ensures
            r.0 == self.0 & !other.0,
            self.wf() ==> r.wf(),
    {
        let a = self.0;
        let b = other.0;
        assert(a >> 60u64 == 0 ==> (a & !b) >> 60u64 == 0) by (bit_vector);
        BitBoard(self.0 & !other.0)
    }

    /// Whether the two boards have a filled cell in common.
    pub fn overlaps(self, other: Self) -> (r: bool)
        ensures
            r == (self.0 & other.0 != 0),
    {
        self.0 & other.0 != 0
    }

    pub fn cell_filled(self, x: usize, y: usize) -> (r: bool)
        requires
            x + 10 * y < 64,
        ensures
            r == self.cell(x as nat, y as nat),
    {
        self.0 & (1u64 << ((x + y * 10) as u64)) != 0
    }

    pub fn line_filled(self, y: usize) -> (r: bool)
        requires
            y <= 6,
        ensures
            r == self.row_full(y as nat),
    {
        (self.0 >> ((10 * y) as u64)) & 0x3ffu64 == 0x3ffu64
    }

    /// The board after its full rows have gone and the rows above them have
    /// come down.
    pub fn lines_cleared(self) -> (r: BitBoard)
        ensures
            r.0 == packed_rows(self.0, 6).0,
            r.wf(),
    {
        let mut b: u64 = 0;
        let mut row: usize = 0;
        let mut y: usize = 0;
        assert(0u64 >> 60u64 == 0) by (bit_vector);
        while y < 6
            invariant
                y <= 6,
                row <= y,
                (b, row as nat) == packed_rows(self.0, y as nat),
                b >> 60u64 == 0,
            decreases 6 - y,
        {
            if !self.line_filled(y) {
                let ghost before = b;
                let ghost v = self.0;
                let ghost from = (10 * y) as u64;
                let ghost to = (10 * row) as u64;
                assert(before >> 60u64 == 0 && to <= 50 ==> (before | (((v >> from) & 0x3ffu64) << to)) >> 60u64 == 0)
                    by (bit_vector);
                b |= ((self.0 >> ((10 * y) as u64)) & 0x3ffu64) << ((10 * row) as u64);
                row += 1;
            }
            y += 1;
        }
        BitBoard(b)
    }

    /// The first column that has an empty cell in one of the rows below
    /// `height`, or 10 where there is none.
    pub fn leftmost_empty_column(self, height: usize) -> (r: usize)
        requires
            height <= 6,
        ensures
            r == vstd::std_specs::bits::u64_trailing_zeros(!common_columns(self.0, height as nat)),
            r <= 10,
            forall|x: nat, y: nat| x < r && y < height ==> #[trigger] self.cell(x, y),
            r < 10 ==> exists|y: nat| y < height && !self.cell(r as nat, y),
    {
        let mut collapsed: u64 = 0x3ff;
        let mut i: usize = 0;
        proof {
            assert(0x3ffu64 & !0x3ffu64 == 0) by (bit_vector);
            assert forall|x: nat| x < 10 implies #[trigger] bit(collapsed, x) by {
                let xx = x as u64;
                assert(xx < 10 ==> 0x3ffu64 & (1u64 << xx) != 0) by (bit_vector);
            }
        }
        while i < height
            invariant
                i <= height <= 6,
                collapsed == common_columns(self.0, i as nat),
                collapsed & !0x3ffu64 == 0,
                forall|x: nat, y: nat|
                    x < 10 && y < i && bit(collapsed, x) ==> #[trigger] self.cell(x, y),
                forall|x: nat|
                    x < 10 && !#[trigger] bit(collapsed, x) ==> exists|y: nat|
                        y < i && !self.cell(x, y),
            decreases height - i,
        {
            let ghost before = collapsed;
            let shifted: u64 = self.0 >> ((i * 10) as u64);
            collapsed &= shifted;
            proof {
                let v = self.0;
                let s = (i * 10) as u64;
                assert((before & !0x3ffu64 == 0) ==> ((before & shifted) & !0x3ffu64 == 0)) by (bit_vector);
                assert forall|x: nat, y: nat|
                    x < 10 && y < i + 1 && bit(collapsed, x) implies #[trigger] self.cell(
                    x,
                    y,
                ) by {
                    let xx = x as u64;
                    assert(xx < 10 && (before & shifted) & (1u64 << xx) != 0 ==> before & (1u64 << xx) != 0)
                        by (bit_vector);
                    if y == i {
                        assert(xx < 10 && s <= 50 && (before & (v >> s)) & (1u64 << xx) != 0 ==> v & (1u64 << (
                        (xx + s) as u64)) != 0) by (bit_vector);
                    }
                }
                assert forall|x: nat| x < 10 && !#[trigger] bit(collapsed, x) implies exists|y: nat|
                    y < i + 1 && !self.cell(x, y) by {
                    let xx = x as u64;
                    if !bit(before, x) {
                        let y0 = choose|y: nat| y < i && !self.cell(x, y);
                        assert(y0 < i + 1 && !self.cell(x, y0));
                    } else {
                        assert(xx < 10 && s <= 50 && (before & (v >> s)) & (1u64 << xx) == 0 && before & (1u64
                            << xx) != 0 ==> v & (1u64 << ((xx + s) as u64)) == 0) by (bit_vector);
                        assert(!self.cell(x, i as nat));
                    }
                }
            }
            i += 1;
        }
        let inv: u64 = !collapsed;
        let tz = inv.trailing_zeros();
        proof {
            vstd::std_specs::bits::axiom_u64_trailing_zeros(inv);
            assert((collapsed & !0x3ffu64 == 0) ==> ((!collapsed) >> 10u64) & 1u64 == 1u64) by (bit_vector);
            if tz > 10 {
                assert((inv >> 10u64) & 1u64 == 0u64);
            }
            assert forall|x: nat, y: nat| x < tz && y < height implies #[trigger] self.cell(x, y) by {
                let xx = x as u64;
                assert((inv >> xx) & 1u64 == 0u64);
                assert(xx < 10 && ((!collapsed) >> xx) & 1u64 == 0u64 ==> collapsed & (1u64 << xx) != 0)
                    by (bit_vector);
            }
            if tz < 10 {
                let t = tz as u64;
                assert(t < 10 && ((!collapsed) >> t) & 1u64 == 1u64 ==> collapsed & (1u64 << t) == 0)
                    by (bit_vector);
                assert(!bit(collapsed, tz as nat));
            }
        }
        tz as usize
    }
}

} // verus!
