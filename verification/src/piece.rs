//! Piece kinds and the multiset of pieces that a search may still use.

use vstd::prelude::*;

verus! {

/// One of the seven tetromino kinds.
#[derive(Copy, Clone, Debug, PartialEq, Eq, Hash, Structural)]
pub enum Piece {
    S,
    Z,
    J,
    L,
    T,
    O,
    I,
}

/// The seven kinds in their order.
pub const PIECES: [Piece; 7] = [Piece::S, Piece::Z, Piece::J, Piece::L, Piece::T, Piece::O, Piece::I];

/// The four orientations of a piece.
#[derive(Copy, Clone, Debug, PartialEq, Eq, Hash, Structural)]
pub enum Rotation {
    North,
    East,
    South,
    West,
}

/// A piece as a rotation system describes it: kind, orientation and the
/// coordinates of its rotation centre.
#[derive(Copy, Clone, Debug, PartialEq, Eq, Hash, Structural)]
pub struct SrsPiece {
    pub piece: Piece,
    pub rotation: Rotation,
    pub x: i32,
    pub y: i32,
}

impl Piece {
    /// The position of the kind in the order S, Z, J, L, T, O, I.
    pub open spec fn spec_index(self) -> int {
        match self {
            Piece::S => 0,
            Piece::Z => 1,
            Piece::J => 2,
            Piece::L => 3,
            Piece::T => 4,
            Piece::O => 5,
            Piece::I => 6,
        }
    }

    /// The kind at position `i`; `I` for every `i` above 5.
    pub open spec fn spec_from_index(i: int) -> Piece {
        if i == 0 {
            Piece::S
        } else if i == 1 {
            Piece::Z
        } else if i == 2 {
            Piece::J
        } else if i == 3 {
            Piece::L
        } else if i == 4 {
            Piece::T
        } else if i == 5 {
            Piece::O
        } else {
            Piece::I
        }
    }

    pub fn index(self) -> (r: usize)
        ensures
            r == self.spec_index(),
            r < 7,
    {
        match self {
            Piece::S => 0,
            Piece::Z => 1,
            Piece::J => 2,
            Piece::L => 3,
            Piece::T => 4,
            Piece::O => 5,
            Piece::I => 6,
        }
    }

    pub fn from_index(i: usize) -> (r: Piece)
        requires
            i < 7,
        ensures
            r == Piece::spec_from_index(i as int),
            r.spec_index() == i,
    {
        if i == 0 {
            Piece::S
        } else if i == 1 {
            Piece::Z
        } else if i == 2 {
            Piece::J
        } else if i == 3 {
            Piece::L
        } else if i == 4 {
            Piece::T
        } else if i == 5 {
            Piece::O
        } else {
            Piece::I
        }
    }

    /// The letter of the kind.
    pub open spec fn spec_name(self) -> char {
        match self {
            Piece::S => 'S',
            Piece::Z => 'Z',
            Piece::J => 'J',
            Piece::L => 'L',
            Piece::T => 'T',
            Piece::O => 'O',
            Piece::I => 'I',
        }
    }

    pub fn name(self) -> (r: char)
        ensures
            r == self.spec_name(),
    {
        match self {
            Piece::S => 'S',
            Piece::Z => 'Z',
            Piece::J => 'J',
            Piece::L => 'L',
            Piece::T => 'T',
            Piece::O => 'O',
            Piece::I => 'I',
        }
    }
}

/// How many pieces of each kind are available, indexed as `Piece::index`.
#[derive(Copy, Clone, Debug, PartialEq, Eq, Hash)]
pub struct PieceSet(pub [u8; 7]);

impl PieceSet {
    /// The number of pieces of kind `p` in the set.
    pub open spec fn count(self, p: Piece) -> nat {
        self.0@[p.spec_index()] as nat
    }

    /// The number of pieces in the set, all kinds together.
    pub open spec fn total(self) -> nat {
        self.0@[0] as nat + self.0@[1] as nat + self.0@[2] as nat + self.0@[3] as nat
            + self.0@[4] as nat + self.0@[5] as nat + self.0@[6] as nat
    }

    /// The set with one piece of kind `p` taken out, as a value.
    pub open spec fn spec_without(self, p: Piece) -> PieceSet {
        PieceSet(vstd::array::spec_array_update(self.0, p.spec_index(), (self.0@[p.spec_index()] - 1) as u8))
    }

    /// The set with one piece of kind `p` taken out.
    pub fn without(self, p: Piece) -> (r: PieceSet)
        requires
            self.count(p) > 0,
        ensures
            r == self.spec_without(p),
            r.0@ == self.0@.update(p.spec_index(), (self.0@[p.spec_index()] - 1) as u8),
            r.count(p) == self.count(p) - 1,
            forall|q: Piece| q != p ==> r.count(q) == self.count(q),
            r.total() == self.total() - 1,
    {
        let mut a = self.0;
        let i = p.index();
        a[i] = a[i] - 1;
        assert(a =~= vstd::array::spec_array_update(self.0, p.spec_index(), (self.0@[p.spec_index()] - 1) as u8));
        PieceSet(a)
    }

    /// Whether the set holds a piece of kind `p`.
    pub fn contains(self, p: Piece) -> (r: bool)
        ensures
            r == (self.count(p) > 0),
    {
        self.0[p.index()] != 0
    }

    /// The set with one more piece of kind `p`.
    pub fn with(self, p: Piece) -> (r: PieceSet)
        requires
            self.count(p) < 255,
        ensures
            r.0@ == self.0@.update(p.spec_index(), (self.0@[p.spec_index()] + 1) as u8),
            r.count(p) == self.count(p) + 1,
            forall|q: Piece| q != p ==> r.count(q) == self.count(q),
            r.total() == self.total() + 1,
    {
        let mut a = self.0;
        let i = p.index();
        a[i] = a[i] + 1;
        PieceSet(a)
    }

    /// The set that holds each piece of `pieces`, counted as often as it occurs.
    pub fn from_pieces(pieces: &[Piece]) -> (r: PieceSet)
        requires
            pieces@.len() <= 255,
        ensures
            forall|q: Piece| r.count(q) == occurrences(pieces@, q),
            r == set_of(pieces@),
    {
        let mut set = PieceSet([0u8;7]);
        let mut i: usize = 0;
        while i < pieces.len()
            invariant
                i <= pieces@.len() <= 255,
                forall|q: Piece| set.count(q) == occurrences(pieces@.take(i as int), q),
            decreases pieces@.len() - i,
        {
            proof {
                assert(pieces@.take(i as int + 1).drop_last() =~= pieces@.take(i as int));
                lemma_occurrences_bound(pieces@.take(i as int), pieces[i as int]);
            }
            set = set.with(pieces[i]);
            i += 1;
        }
        proof {
            assert(pieces@.take(i as int) =~= pieces@);
            lemma_set_of(pieces@, set);
        }
        set
    }

    /// The letters of the pieces of the first `k` kinds: the letter of each
    /// kind as often as the set holds the kind.
    pub open spec fn spec_letters(self, k: nat) -> Seq<char>
        decreases k,
    {
        if k == 0 || k > 7 {
            Seq::empty()
        } else {
            self.spec_letters((k - 1) as nat) + Seq::new(
                self.0@[k - 1] as nat,
                |j: int| Piece::spec_from_index(k - 1).spec_name(),
            )
        }
    }

    /// One letter for each piece of the set, in the order S, Z, J, L, T, O, I.
    pub fn letters(self) -> (r: Vec<char>)
        ensures
            r@ == self.spec_letters(7),
    {
        let mut out: Vec<char> = Vec::new();
        let mut i: usize = 0;
        while i < 7
            invariant
                i <= 7,
                out@ == self.spec_letters(i as nat),
            decreases 7 - i,
        {
            let c = Piece::from_index(i).name();
            let ghost before = out@;
            let mut j: u8 = 0;
            while j < self.0[i]
                invariant
                    i < 7,
                    j <= self.0@[i as int],
                    out@ == before + Seq::new(j as nat, |k: int| c),
                decreases self.0@[i as int] - j,
            {
                out.push(c);
                assert(out@ =~= before + Seq::new((j + 1) as nat, |k: int| c));
                j += 1;
            }
            assert(out@ =~= self.spec_letters((i + 1) as nat));
            i += 1;
        }
        out
    }
}

impl Default for PieceSet {
    fn default() -> (r: PieceSet)
        ensures
            forall|q: Piece| r.count(q) == 0,
            r.total() == 0,
    {
        PieceSet([0u8;7])
    }
}

/// Taking a piece out of a set that holds it leaves one piece less of that
/// kind and as many of each other kind.
pub proof fn lemma_without(set: PieceSet, p: Piece)
    requires
        set.count(p) > 0,
    ensures
        set.spec_without(p).total() == set.total() - 1,
        set.spec_without(p).count(p) == set.count(p) - 1,
        forall|q: Piece| q != p ==> set.spec_without(p).count(q) == set.count(q),
        set.total() > 0,
{
    let r = set.spec_without(p);
    assert(r.0@ == set.0@.update(p.spec_index(), (set.0@[p.spec_index()] - 1) as u8));
    assert forall|q: Piece| q != p implies r.count(q) == set.count(q) by {
        assert(q.spec_index() != p.spec_index());
    }
}

/// The set that holds each piece as often as it occurs in `s`; there is one
/// such set where no piece occurs more than 255 times.
pub open spec fn set_of(s: Seq<Piece>) -> PieceSet {
    choose|set: PieceSet| counts(set, s)
}

/// `set` holds each piece as often as it occurs in `s`.
pub open spec fn counts(set: PieceSet, s: Seq<Piece>) -> bool {
    forall|q: Piece| set.count(q) == occurrences(s, q)
}

/// Two sets that hold each kind equally often are one set.
pub proof fn lemma_sets_equal(a: PieceSet, b: PieceSet)
    requires
        forall|q: Piece| a.count(q) == b.count(q),
    ensures
        a == b,
{
    assert(a.count(Piece::S) == b.count(Piece::S));
    assert(a.count(Piece::Z) == b.count(Piece::Z));
    assert(a.count(Piece::J) == b.count(Piece::J));
    assert(a.count(Piece::L) == b.count(Piece::L));
    assert(a.count(Piece::T) == b.count(Piece::T));
    assert(a.count(Piece::O) == b.count(Piece::O));
    assert(a.count(Piece::I) == b.count(Piece::I));
    assert(a.0 =~= b.0);
}

/// A set that holds each piece as often as it occurs in `s` is `set_of(s)`.
pub proof fn lemma_set_of(s: Seq<Piece>, set: PieceSet)
    requires
        forall|q: Piece| set.count(q) == occurrences(s, q),
    ensures
        set == set_of(s),
{
    assert(counts(set, s));
    lemma_sets_equal(set, set_of(s));
}

/// How often `p` occurs in `s`.
pub open spec fn occurrences(s: Seq<Piece>, p: Piece) -> nat
    decreases s.len(),
{
    if s.len() == 0 {
        0
    } else {
        occurrences(s.drop_last(), p) + (if s.last() == p { 1nat } else { 0nat })
    }
}

/// A piece occurs in a sequence at most as often as the sequence is long.
pub proof fn lemma_occurrences_bound(s: Seq<Piece>, p: Piece)
    ensures
        occurrences(s, p) <= s.len(),
    decreases s.len(),
{
    if s.len() > 0 {
        lemma_occurrences_bound(s.drop_last(), p);
    }
}

} // verus!
