//! Facts about sets of cells as bits. `a & !b == 0` says that every cell of
//! `a` is a cell of `b`.

use vstd::prelude::*;

verus! {

/// Every set lies inside itself.
pub proof fn lemma_inside_itself(a: u64)
    ensures
        a & !a == 0,
{
    assert(a & !a == 0) by (bit_vector);
}

/// What lies inside a set lies inside what that set lies in.
pub proof fn lemma_inside_chain(a: u64, b: u64, c: u64)
    requires
        a & !b == 0,
        b & !c == 0,
    ensures
        a & !c == 0,
{
    assert(a & !b == 0 && b & !c == 0 ==> a & !c == 0) by (bit_vector);
}

/// Two sets inside a third have their union inside it.
pub proof fn lemma_union_inside(a: u64, b: u64, c: u64)
    requires
        a & !c == 0,
        b & !c == 0,
    ensures
        (a | b) & !c == 0,
{
    assert(a & !c == 0 && b & !c == 0 ==> (a | b) & !c == 0) by (bit_vector);
}

/// What lies inside a set lies inside its union with another.
pub proof fn lemma_inside_union(a: u64, b: u64, c: u64)
    requires
        a & !b == 0,
    ensures
        a & !(b | c) == 0,
        a & !(c | b) == 0,
{
    assert(a & !b == 0 ==> a & !(b | c) == 0 && a & !(c | b) == 0) by (bit_vector);
}

/// What meets a set meets every set that holds it.
pub proof fn lemma_meets_more(s: u64, t: u64, c: u64)
    requires
        s & !t == 0,
        s & c != 0,
    ensures
        t & c != 0,
{
    assert(s & !t == 0 && s & c != 0 ==> t & c != 0) by (bit_vector);
}

/// Two sets that lie inside each other are one set.
pub proof fn lemma_inside_both_ways(a: u64, b: u64)
    requires
        a & !b == 0,
        b & !a == 0,
    ensures
        a == b,
{
    assert(a & !b == 0 && b & !a == 0 ==> a == b) by (bit_vector);
}

/// Two sets apart from a third have their union apart from it.
pub proof fn lemma_union_apart(a: u64, b: u64, c: u64)
    requires
        a & c == 0,
        b & c == 0,
    ensures
        (a | b) & c == 0,
        c & (a | b) == 0,
{
    assert(a & c == 0 && b & c == 0 ==> (a | b) & c == 0 && c & (a | b) == 0) by (bit_vector);
}

/// What lies inside `m` and apart from `u` lies inside `m` without `u`.
pub proof fn lemma_inside_rest(c: u64, m: u64, u: u64)
    requires
        c & !m == 0,
        c & u == 0,
    ensures
        c & !(m & !u) == 0,
{
    assert(c & !m == 0 && c & u == 0 ==> c & !(m & !u) == 0) by (bit_vector);
}

/// A set that `whole` holds lies inside it, and meets it where it is not empty.
pub proof fn lemma_part_inside(whole: u64, c: u64)
    requires
        whole & c == c,
    ensures
        c & !whole == 0,
        (c != 0 ==> whole & c != 0),
{
    assert(whole & c == c ==> c & !whole == 0 && (c != 0 ==> whole & c != 0)) by (bit_vector);
}

/// A set that is not empty meets what it lies inside.
pub proof fn lemma_inside_meets(c: u64, whole: u64)
    requires
        c & !whole == 0,
        c != 0,
    ensures
        whole & c != 0,
{
    assert(c & !whole == 0 && c != 0 ==> whole & c != 0) by (bit_vector);
}

/// `m` without `u` is apart from what lies inside `u`, and lies inside `m`.
pub proof fn lemma_rest_apart(m: u64, u: u64, c: u64)
    requires
        c & !u == 0,
    ensures
        (m & !u) & c == 0,
        (m & !u) & !m == 0,
{
    assert(c & !u == 0 ==> (m & !u) & c == 0 && (m & !u) & !m == 0) by (bit_vector);
}

/// What meets a union and not its second part meets the first.
pub proof fn lemma_meets_union(s: u64, c: u64, d: u64)
    requires
        (s | c) & d != 0,
        c & d == 0,
    ensures
        s & d != 0,
{
    assert((s | c) & d != 0 && c & d == 0 ==> s & d != 0) by (bit_vector);
}

/// The union with a set that is apart and not empty is a larger set, and holds it.
pub proof fn lemma_union_adds(s: u64, c: u64)
    requires
        c != 0,
        s & c == 0,
    ensures
        (s | c) != s,
        c & !(s | c) == 0,
{
    assert(c != 0 && s & c == 0 ==> (s | c) != s && c & !(s | c) == 0) by (bit_vector);
}

/// Meet and union do not depend on the order of the two sets.
pub proof fn lemma_meet_commutes(a: u64, b: u64)
    ensures
        a & b == b & a,
        a | b == b | a,
{
    assert(a & b == b & a && a | b == b | a) by (bit_vector);
}

/// Keeping of a set only what `m` spares or the row below has adds no cell.
pub proof fn lemma_row_taken_inside(s: u64, m: u64)
    ensures
        (s & ((s << 10u64) | !m)) & !s == 0,
{
    assert((s & ((s << 10u64) | !m)) & !s == 0) by (bit_vector);
}

/// What lies inside `m` without `b` is apart from `b` and inside `m`.
pub proof fn lemma_apart_from_taken(u: u64, m: u64, b: u64)
    requires
        u & !(m & !b) == 0,
    ensures
        b & u == 0,
        u & !m == 0,
{
    assert(u & !(m & !b) == 0 ==> b & u == 0 && u & !m == 0) by (bit_vector);
}

/// The empty set meets nothing, lies inside everything and adds nothing.
pub proof fn lemma_nothing(c: u64)
    ensures
        0 & c == 0,
        c & 0 == 0,
        0 & !c == 0,
        c | 0 == c,
        c & !0 == c,
{
    assert(0u64 & c == 0 && c & 0u64 == 0 && 0u64 & !c == 0 && c | 0u64 == c && c & !0u64 == c) by (bit_vector);
}

/// Where `m` is made of `a` and `cov`, which are apart, `cov` is `m` without `a`.
pub proof fn lemma_rest_is_cover(m: u64, a: u64, cov: u64)
    requires
        m == a | cov,
        a & cov == 0,
    ensures
        cov == m & !a,
{
    assert(m == a | cov && a & cov == 0 ==> cov == m & !a) by (bit_vector);
}

/// Taking away one set and then another takes away their union.
pub proof fn lemma_rest_of_rest(m: u64, cov: u64, c: u64)
    ensures
        (m & !cov) & !c == m & !(cov | c),
{
    assert((m & !cov) & !c == m & !(cov | c)) by (bit_vector);
}

} // verus!
