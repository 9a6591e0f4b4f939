//! The queue of pieces to come, with the piece in hold.

use vstd::prelude::*;
use crate::piece::{lemma_occurrences_bound, lemma_set_of, occurrences, set_of, Piece, PieceSet};

verus! {

/// Whether `piece` can be played from the queue `q`, whose last piece is the
/// next one and whose last but one can be reached through hold.
pub open spec fn next_ok(q: Seq<Piece>, piece: Piece, hold_allowed: bool) -> bool {
    q.len() != 0 && (q.last() == piece || (hold_allowed && q.len() != 1 && q[q.len() - 2] == piece))
}

/// The queue after `piece` was played: without its last piece where that is
/// `piece`, and else without its last but one, which came from hold.
pub open spec fn after_remove(q: Seq<Piece>, piece: Piece) -> Seq<Piece> {
    if q.len() == 0 {
        q
    } else if q.last() == piece || q.len() == 1 {
        q.drop_last()
    } else {
        q.drop_last().drop_last().push(q.last())
    }
}

/// At most sixteen pieces, kept in reverse: the next piece is the last of the
/// `count` pieces in use.
#[derive(Copy, Clone, Debug, PartialEq, Eq, Hash)]
pub struct PieceSequence {
    pub seq: [Piece; 16],
    pub count: u8,
}

impl PieceSequence {
    /// At most sixteen pieces are in use, and the places that are not in use
    /// hold `S`, so that equal queues are equal values.
    pub open spec fn wf(self) -> bool {
        self.count <= 16 && forall|i: int| self.count <= i < 16 ==> self.seq@[i] == Piece::S
    }

    /// The pieces in use, the next one last.
    pub open spec fn view(self) -> Seq<Piece> {
        self.seq@.take(self.count as int)
    }

    /// The first `n` pieces of `queue`, and no more than sixteen, as a queue
    /// whose next piece is the first of them.
    pub fn from_prefix(queue: &[Piece], n: usize) -> (r: PieceSequence)
        ensures
            r.wf(),
            r@.len() == (if n <= queue@.len() && n <= 16 {
                n as int
            } else if queue@.len() <= 16 {
                queue@.len() as int
            } else {
                16
            }),
            forall|i: int| 0 <= i < r@.len() ==> r@[i] == queue@[r@.len() - 1 - i],
    {
        let mut count: usize = queue.len();
        if n < count {
            count = n;
        }
        if 16 < count {
            count = 16;
        }
        let mut seq = [Piece::S;16];
        let mut i: usize = 0;
        while i < count
            invariant
                i <= count <= 16,
                count <= queue@.len(),
                forall|k: int| 0 <= k < count - i ==> seq@[k] == Piece::S,
                forall|k: int| count <= k < 16 ==> seq@[k] == Piece::S,
                forall|k: int| count - i <= k < count ==> seq@[k] == queue@[count - 1 - k],
            decreases count - i,
        {
            seq[count - 1 - i] = queue[i];
            i += 1;
        }
        PieceSequence { seq, count: count as u8 }
    }

    /// Whether `piece` is the next piece or, with hold, the one behind it.
    pub fn is_next(&self, piece: Piece, hold_allowed: bool) -> (r: bool)
        requires
            self.wf(),
        ensures
            r == next_ok(self@, piece, hold_allowed),
    {
        self.count != 0 && (self.seq[self.count as usize - 1] == piece || (hold_allowed && self.count != 1
            && self.seq[self.count as usize - 2] == piece))
    }

    /// Plays `piece`: the next piece leaves where it is `piece`; else the one
    /// behind it leaves, and the next piece stays next.
    pub fn remove(&mut self, piece: Piece)
        requires
            old(self).wf(),
            old(self)@.len() >= 1,
            old(self)@.last() == piece || old(self)@.len() >= 2,
        ensures
            final(self).wf(),
            final(self)@ == after_remove(old(self)@, piece),
    {
        let c = self.count as usize;
        if self.seq[c - 1] != piece {
            self.seq[c - 2] = self.seq[c - 1];
        }
        self.seq[c - 1] = Piece::S;
        self.count -= 1;
        assert(self@ =~= after_remove(old(self)@, piece));
    }

    /// The pieces in use, as a set with counts.
    pub fn to_set(&self) -> (r: PieceSet)
        requires
            self.wf(),
        ensures
            forall|q: Piece| r.count(q) == occurrences(self@, q),
            r.total() == self@.len(),
            r == set_of(self@),
    {
        let mut set = PieceSet::default();
        let mut i: usize = 0;
        while i < self.count as usize
            invariant
                i <= self.count <= 16,
                forall|q: Piece| set.count(q) == occurrences(self@.take(i as int), q),
                set.total() == i,
            decreases self.count - i,
        {
            proof {
                assert(self@.take(i as int + 1).drop_last() =~= self@.take(i as int));
                lemma_occurrences_bound(self@.take(i as int), self.seq@[i as int]);
            }
            set = set.with(self.seq[i]);
            i += 1;
        }
        proof {
            assert(self@.take(i as int) =~= self@);
            lemma_set_of(self@, set);
        }
        set
    }
}

/// Two well-formed queues of the same pieces in the same order are one
/// value: the places that are not in use tell nothing apart.
pub proof fn lemma_sequences_equal(a: PieceSequence, b: PieceSequence)
    requires
        a.wf(),
        b.wf(),
        a@ == b@,
    ensures
        a == b,
{
    assert(a@.len() == a.count && b@.len() == b.count);
    assert forall|i: int| 0 <= i < 16 implies a.seq@[i] == b.seq@[i] by {
        if i < a.count {
            assert(a@[i] == a.seq@[i]);
            assert(b@[i] == b.seq@[i]);
        }
    }
    assert(a.seq =~= b.seq);
}

} // verus!
