//! The bounded stacks of the solver: `ArrayVec`s of at most fifteen small
//! numbers, each the position of a placement in the combination at hand.

use vstd::prelude::*;
use arrayvec::ArrayVec;

verus! {

/// `arrayvec::ArrayVec`, of which the verifier knows the name and no more.
#[verifier::external_type_specification]
#[verifier::external_body]
#[verifier::reject_recursive_types(T)]
pub struct ExArrayVec<T, const CAP: usize>(ArrayVec<T, CAP>);

/// The numbers that the stack holds, the oldest first.
pub uninterp spec fn stack_items(s: ArrayVec<u8, 15>) -> Seq<u8>;

/// `ArrayVec::new`: a stack that holds nothing.
#[verifier::external_body]
pub(crate) fn stack_new() -> (r: ArrayVec<u8, 15>)
    ensures
        stack_items(r) == Seq::<u8>::empty(),
{
    ArrayVec::new()
}

/// `ArrayVec::len`: how many numbers the stack holds, never more than its
/// capacity of fifteen.
#[verifier::external_body]
pub(crate) fn stack_len(s: &ArrayVec<u8, 15>) -> (r: usize)
    ensures
        r == stack_items(*s).len(),
        r <= 15,
{
    s.len()
}

/// Indexing an `ArrayVec`: the number at position `i`. It panics past the
/// end, which the `requires` leaves out.
#[verifier::external_body]
pub(crate) fn stack_get(s: &ArrayVec<u8, 15>, i: usize) -> (r: u8)
    requires
        i < stack_items(*s).len(),
    ensures
        r == stack_items(*s)[i as int],
{
    s[i]
}

/// `ArrayVec::push`: the number goes on top. It panics on a full stack,
/// which the `requires` leaves out.
#[verifier::external_body]
pub(crate) fn stack_push(s: &mut ArrayVec<u8, 15>, v: u8)
    requires
        stack_items(*old(s)).len() < 15,
    ensures
        stack_items(*final(s)) == stack_items(*old(s)).push(v),
{
    s.push(v)
}

/// `ArrayVec::pop`: the top number leaves and is returned; an empty stack
/// stays as it is and gives `None`.
#[verifier::external_body]
pub(crate) fn stack_pop(s: &mut ArrayVec<u8, 15>) -> (r: Option<u8>)
    ensures
        stack_items(*old(s)).len() == 0 ==> r.is_none() && stack_items(*final(s)) == stack_items(*old(s)),
        stack_items(*old(s)).len() > 0 ==> r == Some(stack_items(*old(s)).last()) && stack_items(*final(s))
            == stack_items(*old(s)).drop_last(),
{
    s.pop()
}

/// `ArrayVec::swap_remove`: the number at position `i` leaves and is
/// returned, and the top number takes its place. It panics past the end,
/// which the `requires` leaves out.
#[verifier::external_body]
pub(crate) fn stack_swap_remove(s: &mut ArrayVec<u8, 15>, i: usize) -> (r: u8)
    requires
        i < stack_items(*old(s)).len(),
    ensures
        r == stack_items(*old(s))[i as int],
        stack_items(*final(s)) == stack_items(*old(s)).update(i as int, stack_items(*old(s)).last()).drop_last(),
{
    s.swap_remove(i)
}

/// `swap` on the slice of an `ArrayVec`: the numbers at the two positions
/// change places. It panics past the end, which the `requires` leaves out.
#[verifier::external_body]
pub(crate) fn stack_swap(s: &mut ArrayVec<u8, 15>, i: usize, j: usize)
    requires
        i < stack_items(*old(s)).len(),
        j < stack_items(*old(s)).len(),
    ensures
        stack_items(*final(s)) == stack_items(*old(s)).update(i as int, stack_items(*old(s))[j as int]).update(
            j as int,
            stack_items(*old(s))[i as int],
        ),
{
    s.swap(i, j)
}

} // verus!
