//! What a unit array means: the automaton that the search operations walk.
//!
//! A state is the base offset of a block of slots. From the block at base
//! `b`, the transition on byte `c` lives in slot `b + 1 + c` and carries `c`
//! as its check byte; the value of an accepting state is a leaf unit in slot
//! `b` itself. A node position is the slot of a transition unit (or the
//! root, slot 0); its state is the block that its base points to.
use vstd::prelude::*;
use crate::unit::{unit_base, unit_check, unit_has_leaf, unit_is_live, unit_value};

verus! {

/// The slot, from the block at base `b`, that holds the transition on `c`.
pub open spec fn slot_of(b: int, c: u8) -> int {
    b + 1 + c as int
}

/// The node reached from the block at base `b` on byte `c`.
pub open spec fn step(u: Seq<u64>, b: int, c: u8) -> Option<int> {
    let t = slot_of(b, c);
    if 0 <= t < u.len() && unit_is_live(u[t], c) {
        Some(t)
    } else {
        None
    }
}

/// The base of the block reached from the block at base `b` on byte `c`.
pub open spec fn next_base(u: Seq<u64>, b: int, c: u8) -> Option<int> {
    match step(u, b, c) {
        Some(t) => Some(unit_base(u[t]) as int),
        None => None,
    }
}

/// The value of the block at base `b`, if it accepts.
pub open spec fn terminal(u: Seq<u64>, b: int) -> Option<u32> {
    if 0 <= b < u.len() && unit_has_leaf(u[b]) {
        Some(unit_value(u[b]))
    } else {
        None
    }
}

/// Whether `id` is a node position: a slot that holds a transition unit.
pub open spec fn is_node(u: Seq<u64>, id: int) -> bool {
    0 <= id < u.len() && !unit_has_leaf(u[id])
}

/// The node reached from node `id` on byte `c`.
pub open spec fn child(u: Seq<u64>, id: int, c: u8) -> Option<int> {
    if is_node(u, id) {
        step(u, unit_base(u[id]) as int, c)
    } else {
        None
    }
}

/// The value of node `id`, if its state accepts.
pub open spec fn node_value(u: Seq<u64>, id: int) -> Option<u32> {
    if is_node(u, id) {
        terminal(u, unit_base(u[id]) as int)
    } else {
        None
    }
}

/// The node reached from node `id` by the bytes of `s`, one transition each.
pub open spec fn walk(u: Seq<u64>, id: int, s: Seq<u8>) -> Option<int>
    decreases s.len(),
{
    if s.len() == 0 {
        Some(id)
    } else {
        match child(u, id, s[0]) {
            Some(t) => walk(u, t, s.drop_first()),
            None => None,
        }
    }
}

/// The value that the dictionary at node `id` holds for `s`.
pub open spec fn lookup(u: Seq<u64>, id: int, s: Seq<u8>) -> Option<u32> {
    match walk(u, id, s) {
        Some(t) => node_value(u, t),
        None => None,
    }
}

/// The value that the block at base `b` holds for `s`.
pub open spec fn run(u: Seq<u64>, b: int, s: Seq<u8>) -> Option<u32>
    decreases s.len(),
{
    if s.len() == 0 {
        terminal(u, b)
    } else {
        match next_base(u, b, s[0]) {
            Some(nb) => run(u, nb, s.drop_first()),
            None => None,
        }
    }
}

/// Whether the bytes of `s` lead, one transition each, from the block at
/// base `b` to some block.
pub open spec fn reaches(u: Seq<u64>, b: int, s: Seq<u8>) -> bool
    decreases s.len(),
{
    if s.len() == 0 {
        true
    } else {
        match next_base(u, b, s[0]) {
            Some(nb) => reaches(u, nb, s.drop_first()),
            None => false,
        }
    }
}

/// From a node, a walk succeeds where the bytes lead on from its block.
pub proof fn lemma_walk_reaches(u: Seq<u64>, id: int, s: Seq<u8>)
    requires
        is_node(u, id),
    ensures
        walk(u, id, s).is_some() == reaches(u, unit_base(u[id]) as int, s),
    decreases s.len(),
{
    if s.len() > 0 {
        match child(u, id, s[0]) {
            Some(t) => {
                lemma_walk_reaches(u, t, s.drop_first());
            },
            None => {},
        }
    }
}

/// Arrays that agree on a closed set of blocks lead on alike from there.
pub proof fn lemma_reaches_same(u1: Seq<u64>, u2: Seq<u64>, bases: Set<int>, b: int, s: Seq<u8>)
    requires
        closed(u1, bases),
        bases.contains(b),
        forall|x: int| bases.contains(x) ==> #[trigger] same_block(u1, u2, x),
    ensures
        reaches(u1, b, s) == reaches(u2, b, s),
    decreases s.len(),
{
    assert(same_block(u1, u2, b));
    if s.len() > 0 {
        assert(next_base(u1, b, s[0]) == next_base(u2, b, s[0]));
        match next_base(u1, b, s[0]) {
            Some(nb) => lemma_reaches_same(u1, u2, bases, nb, s.drop_first()),
            None => {},
        }
    }
}

/// A free slot holds no leaf.
pub proof fn lemma_free_unit()
    ensures
        !unit_has_leaf(0u64),
{
    assert(0u64 & 0x8000_0000_0000_0000u64 == 0) by (bit_vector);
}

/// One more byte extends a walk by one transition.
pub proof fn lemma_walk_push(u: Seq<u64>, id: int, s: Seq<u8>, c: u8)
    ensures
        walk(u, id, s.push(c)) == match walk(u, id, s) {
            Some(t) => child(u, t, c),
            None => None,
        },
    decreases s.len(),
{
    if s.len() == 0 {
        let sc = s.push(c);
        assert(sc[0] == c);
        assert(sc.drop_first() =~= Seq::<u8>::empty());
        match child(u, id, c) {
            Some(t) => assert(walk(u, t, sc.drop_first()) == Some(t)),
            None => {},
        }
    } else {
        assert(s.push(c).drop_first() =~= s.drop_first().push(c));
        assert(s.push(c)[0] == s[0]);
        match child(u, id, s[0]) {
            Some(t) => lemma_walk_push(u, t, s.drop_first(), c),
            None => {},
        }
    }
}

/// A walk over a concatenation is a walk over each part in turn.
pub proof fn lemma_walk_append(u: Seq<u64>, id: int, s: Seq<u8>, r: Seq<u8>)
    ensures
        walk(u, id, s + r) == match walk(u, id, s) {
            Some(t) => walk(u, t, r),
            None => None,
        },
    decreases s.len(),
{
    if s.len() == 0 {
        assert(s + r =~= r);
    } else {
        assert((s + r).drop_first() =~= s.drop_first() + r);
        assert((s + r)[0] == s[0]);
        match child(u, id, s[0]) {
            Some(t) => lemma_walk_append(u, t, s.drop_first(), r),
            None => {},
        }
    }
}

/// From a node, the dictionary is the one of the block its base points to.
pub proof fn lemma_lookup_run(u: Seq<u64>, id: int, s: Seq<u8>)
    requires
        is_node(u, id),
    ensures
        lookup(u, id, s) == run(u, unit_base(u[id]) as int, s),
    decreases s.len(),
{
    if s.len() > 0 {
        match child(u, id, s[0]) {
            Some(t) => {
                lemma_lookup_run(u, t, s.drop_first());
            },
            None => {},
        }
    }
}

/// Two arrays agree on the block at base `b`.
pub open spec fn same_block(u1: Seq<u64>, u2: Seq<u64>, b: int) -> bool {
    &&& terminal(u1, b) == terminal(u2, b)
    &&& forall|c: u8| #[trigger] next_base(u1, b, c) == next_base(u2, b, c)
}

/// Every transition out of a block of `bases` leads to a block of `bases`.
pub open spec fn closed(u: Seq<u64>, bases: Set<int>) -> bool {
    forall|b: int, c: u8|
        bases.contains(b) && (#[trigger] next_base(u, b, c)).is_some() ==> bases.contains(
            next_base(u, b, c)->0,
        )
}

/// Arrays that agree on a closed set of blocks hold the same dictionaries there.
pub proof fn lemma_run_same(u1: Seq<u64>, u2: Seq<u64>, bases: Set<int>, b: int, s: Seq<u8>)
    requires
        closed(u1, bases),
        bases.contains(b),
        forall|x: int| bases.contains(x) ==> #[trigger] same_block(u1, u2, x),
    ensures
        run(u1, b, s) == run(u2, b, s),
    decreases s.len(),
{
    assert(same_block(u1, u2, b));
    if s.len() > 0 {
        assert(next_base(u1, b, s[0]) == next_base(u2, b, s[0]));
        match next_base(u1, b, s[0]) {
            Some(nb) => lemma_run_same(u1, u2, bases, nb, s.drop_first()),
            None => {},
        }
    }
}

/// Writing a transition into a free slot adds one transition and changes
/// nothing else.
pub proof fn lemma_write_transition(u: Seq<u64>, b: int, c: u8, w: u64)
    requires
        0 <= slot_of(b, c) < u.len(),
        u[slot_of(b, c)] == 0,
        w != 0,
        !unit_has_leaf(w),
        unit_check(w) == c,
    ensures
        next_base(u.update(slot_of(b, c), w), b, c) == Some(unit_base(w) as int),
        forall|x: int, d: u8|
            (x != b || d != c) ==> #[trigger] next_base(u.update(slot_of(b, c), w), x, d)
                == next_base(u, x, d),
        forall|x: int| #[trigger] terminal(u.update(slot_of(b, c), w), x) == terminal(u, x),
{
    let v = u.update(slot_of(b, c), w);
    lemma_free_unit();
    assert forall|x: int, d: u8| (x != b || d != c) implies #[trigger] next_base(v, x, d)
        == next_base(u, x, d) by {
        if slot_of(x, d) == slot_of(b, c) {
            assert(d != c);
        }
    }
}

/// Writing a leaf into a free slot gives that block a value and changes
/// nothing else.
pub proof fn lemma_write_leaf(u: Seq<u64>, b: int, w: u64)
    requires
        0 <= b < u.len(),
        u[b] == 0,
        unit_has_leaf(w),
    ensures
        terminal(u.update(b, w), b) == Some(unit_value(w)),
        forall|x: int| x != b ==> #[trigger] terminal(u.update(b, w), x) == terminal(u, x),
        forall|x: int, d: u8| #[trigger] next_base(u.update(b, w), x, d) == next_base(u, x, d),
{
    lemma_free_unit();
}

/// Appending free slots changes no block.
pub proof fn lemma_extend(u: Seq<u64>)
    ensures
        forall|x: int| #[trigger] terminal(u.push(0u64), x) == terminal(u, x),
        forall|x: int, d: u8| #[trigger] next_base(u.push(0u64), x, d) == next_base(u, x, d),
{
    lemma_free_unit();
}

} // verus!
