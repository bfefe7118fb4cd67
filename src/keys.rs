//! Key order and the dictionary that a key/value list describes.
use vstd::prelude::*;

verus! {

/// Strict lexicographic order on byte strings: a proper prefix comes first.
pub open spec fn lex_lt(a: Seq<u8>, b: Seq<u8>) -> bool
    decreases a.len(),
{
    if a.len() == 0 {
        b.len() > 0
    } else if b.len() == 0 {
        false
    } else if a[0] != b[0] {
        a[0] < b[0]
    } else {
        lex_lt(a.drop_first(), b.drop_first())
    }
}

pub proof fn lemma_lex_irreflexive(a: Seq<u8>)
    ensures
        !lex_lt(a, a),
    decreases a.len(),
{
    if a.len() > 0 {
        lemma_lex_irreflexive(a.drop_first());
    }
}

pub proof fn lemma_lex_transitive(a: Seq<u8>, b: Seq<u8>, c: Seq<u8>)
    requires
        lex_lt(a, b),
        lex_lt(b, c),
    ensures
        lex_lt(a, c),
    decreases a.len(),
{
    if a.len() > 0 && b.len() > 0 && c.len() > 0 && a[0] == b[0] && b[0] == c[0] {
        lemma_lex_transitive(a.drop_first(), b.drop_first(), c.drop_first());
    }
}

pub proof fn lemma_lex_total(a: Seq<u8>, b: Seq<u8>)
    requires
        a != b,
    ensures
        lex_lt(a, b) || lex_lt(b, a),
    decreases a.len(),
{
    if a.len() > 0 && b.len() > 0 && a[0] == b[0] {
        if a.drop_first() == b.drop_first() {
            assert(a =~= seq![a[0]] + a.drop_first());
            assert(b =~= seq![b[0]] + b.drop_first());
        }
        lemma_lex_total(a.drop_first(), b.drop_first());
    } else if a.len() == 0 && b.len() == 0 {
        assert(a =~= b);
    }
}

/// A prefix of `a` never comes after `a`.
pub proof fn lemma_prefix_not_after(a: Seq<u8>, p: Seq<u8>)
    requires
        p.len() <= a.len(),
        a.take(p.len() as int) == p,
    ensures
        !lex_lt(a, p),
    decreases p.len(),
{
    if p.len() > 0 {
        assert(a[0] == a.take(p.len() as int)[0]);
        assert(a.drop_first().take(p.len() - 1) =~= p.drop_first()) by {
            assert forall|i: int| 0 <= i < p.len() - 1 implies #[trigger] a.drop_first().take(
                p.len() - 1,
            )[i] == p.drop_first()[i] by {
                assert(a.take(p.len() as int)[i + 1] == a[i + 1]);
            }
        }
        lemma_prefix_not_after(a.drop_first(), p.drop_first());
    }
}

/// Of two ordered keys with a common prefix of length `d`, the first has the
/// smaller or equal byte at `d`.
pub proof fn lemma_byte_order(a: Seq<u8>, b: Seq<u8>, d: int)
    requires
        lex_lt(a, b),
        0 <= d < a.len(),
        d < b.len(),
        a.take(d) == b.take(d),
    ensures
        a[d] <= b[d],
    decreases d,
{
    if d > 0 {
        assert(a[0] == a.take(d)[0]);
        assert(b[0] == b.take(d)[0]);
        assert(a.drop_first().take(d - 1) =~= b.drop_first().take(d - 1)) by {
            assert forall|i: int| 0 <= i < d - 1 implies #[trigger] a.drop_first().take(d - 1)[i]
                == b.drop_first().take(d - 1)[i] by {
                assert(a.take(d)[i + 1] == a[i + 1]);
                assert(b.take(d)[i + 1] == b[i + 1]);
                assert(a.take(d)[i + 1] == b.take(d)[i + 1]);
            }
        }
        lemma_byte_order(a.drop_first(), b.drop_first(), d - 1);
    }
}

/// Compares two byte strings in lexicographic order.
pub fn less(a: &[u8], b: &[u8]) -> (r: bool)
    ensures
        r == lex_lt(a@, b@),
{
    let mut i: usize = 0;
    assert(a@.skip(0) =~= a@);
    assert(b@.skip(0) =~= b@);
    while i < a.len() && i < b.len() && a[i] == b[i]
        invariant
            0 <= i <= a@.len(),
            i <= b@.len(),
            lex_lt(a@, b@) == lex_lt(a@.skip(i as int), b@.skip(i as int)),
        decreases a@.len() - i,
    {
        assert(a@.skip(i as int).drop_first() =~= a@.skip(i + 1));
        assert(b@.skip(i as int).drop_first() =~= b@.skip(i + 1));
        i = i + 1;
    }
    if i == a.len() {
        i < b.len()
    } else if i == b.len() {
        false
    } else {
        a[i] < b[i]
    }
}

/// Whether key `i` is kept by a build: it comes after every earlier key, so
/// that a duplicate or an out-of-order key is passed over and the first
/// occurrence wins.
pub open spec fn is_kept(keys: Seq<Seq<u8>>, i: int) -> bool {
    forall|j: int| 0 <= j < i ==> lex_lt(#[trigger] keys[j], keys[i])
}

/// Whether a kept key equals `k`.
pub open spec fn has_kept(keys: Seq<Seq<u8>>, k: Seq<u8>, i: int) -> bool {
    0 <= i < keys.len() && is_kept(keys, i) && keys[i] == k
}

/// The value that the dictionary built from `keys` and `values` holds for
/// `k`: that of the kept key equal to `k`, if there is one.
pub open spec fn dict_value(keys: Seq<Seq<u8>>, values: Seq<u32>, k: Seq<u8>) -> Option<u32> {
    if exists|i: int| has_kept(keys, k, i) {
        Some(values[choose|i: int| has_kept(keys, k, i)])
    } else {
        None
    }
}

/// The number of bytes after the first `depth` of the keys `lo..hi`.
pub open spec fn range_bytes(ks: Seq<Seq<u8>>, lo: int, hi: int, depth: int) -> int
    decreases hi - lo,
{
    if hi <= lo {
        0
    } else {
        range_bytes(ks, lo, hi - 1, depth) + (ks[hi - 1].len() - depth)
    }
}

/// The number of bytes of all the keys.
pub open spec fn total_bytes(ks: Seq<Seq<u8>>) -> int {
    range_bytes(ks, 0, ks.len() as int, 0)
}

pub proof fn lemma_range_bytes_same(a: Seq<Seq<u8>>, b: Seq<Seq<u8>>, lo: int, hi: int, depth: int)
    requires
        forall|t: int| lo <= t < hi ==> #[trigger] a[t] == b[t],
    ensures
        range_bytes(a, lo, hi, depth) == range_bytes(b, lo, hi, depth),
    decreases hi - lo,
{
    if hi > lo {
        lemma_range_bytes_same(a, b, lo, hi - 1, depth);
    }
}

pub proof fn lemma_range_bytes_split(ks: Seq<Seq<u8>>, lo: int, mid: int, hi: int, depth: int)
    requires
        lo <= mid <= hi,
    ensures
        range_bytes(ks, lo, hi, depth) == range_bytes(ks, lo, mid, depth) + range_bytes(
            ks,
            mid,
            hi,
            depth,
        ),
    decreases hi - mid,
{
    if hi > mid {
        lemma_range_bytes_split(ks, lo, mid, hi - 1, depth);
    }
}

pub proof fn lemma_range_bytes_deeper(ks: Seq<Seq<u8>>, lo: int, hi: int, depth: int)
    requires
        lo <= hi,
    ensures
        range_bytes(ks, lo, hi, depth) == range_bytes(ks, lo, hi, depth + 1) + (hi - lo),
    decreases hi - lo,
{
    if hi > lo {
        lemma_range_bytes_deeper(ks, lo, hi - 1, depth);
    }
}

pub proof fn lemma_range_bytes_nonneg(ks: Seq<Seq<u8>>, lo: int, hi: int, depth: int)
    requires
        forall|t: int| lo <= t < hi ==> (#[trigger] ks[t]).len() >= depth,
    ensures
        range_bytes(ks, lo, hi, depth) >= 0,
    decreases hi - lo,
{
    if hi > lo {
        lemma_range_bytes_nonneg(ks, lo, hi - 1, depth);
    }
}

/// Whether the keys are in strictly ascending order.
pub open spec fn strictly_sorted(ks: Seq<Seq<u8>>) -> bool {
    forall|i: int, j: int| 0 <= i < j < ks.len() ==> lex_lt(#[trigger] ks[i], #[trigger] ks[j])
}

/// Whether key `t` of the range `lo..hi` equals `k`.
pub open spec fn in_range(ks: Seq<Seq<u8>>, lo: int, hi: int, k: Seq<u8>, t: int) -> bool {
    lo <= t < hi && ks[t] == k
}

/// The value of the key equal to `k` among the keys `lo..hi` of a strictly
/// sorted list.
pub open spec fn range_value(ks: Seq<Seq<u8>>, vs: Seq<u32>, lo: int, hi: int, k: Seq<u8>) -> Option<
    u32,
> {
    if exists|t: int| in_range(ks, lo, hi, k, t) {
        Some(vs[choose|t: int| in_range(ks, lo, hi, k, t)])
    } else {
        None
    }
}

/// Whether key `t` of the range `lo..hi` starts with `w`.
pub open spec fn starts_with_in(ks: Seq<Seq<u8>>, lo: int, hi: int, w: Seq<u8>, t: int) -> bool {
    lo <= t < hi && w.len() <= ks[t].len() && ks[t].take(w.len() as int) == w
}

/// Whether some key of the range `lo..hi` starts with `w`.
pub open spec fn range_has_prefix(ks: Seq<Seq<u8>>, lo: int, hi: int, w: Seq<u8>) -> bool {
    exists|t: int| starts_with_in(ks, lo, hi, w, t)
}

/// In a strictly sorted list each key occurs once.
pub proof fn lemma_sorted_unique(ks: Seq<Seq<u8>>, i: int, j: int)
    requires
        strictly_sorted(ks),
        0 <= i < ks.len(),
        0 <= j < ks.len(),
        ks[i] == ks[j],
    ensures
        i == j,
{
    if i < j {
        assert(lex_lt(ks[i], ks[j]));
        lemma_lex_irreflexive(ks[i]);
    } else if j < i {
        assert(lex_lt(ks[j], ks[i]));
        lemma_lex_irreflexive(ks[i]);
    }
}

/// Narrowing the range to the keys that can equal `k` keeps the value.
pub proof fn lemma_range_narrow(
    ks: Seq<Seq<u8>>,
    vs: Seq<u32>,
    lo: int,
    hi: int,
    g0: int,
    g1: int,
    k: Seq<u8>,
)
    requires
        strictly_sorted(ks),
        0 <= lo <= g0 <= g1 <= hi <= ks.len(),
        forall|t: int| lo <= t < hi && !(g0 <= t < g1) ==> #[trigger] ks[t] != k,
    ensures
        range_value(ks, vs, lo, hi, k) == range_value(ks, vs, g0, g1, k),
{
    if exists|t: int| in_range(ks, lo, hi, k, t) {
        let t = choose|t: int| in_range(ks, lo, hi, k, t);
        assert(in_range(ks, g0, g1, k, t));
        let t2 = choose|t: int| in_range(ks, g0, g1, k, t);
        lemma_sorted_unique(ks, t, t2);
    } else {
        assert forall|t: int| !in_range(ks, g0, g1, k, t) by {
            if in_range(ks, g0, g1, k, t) {
                assert(in_range(ks, lo, hi, k, t));
            }
        }
    }
}

} // verus!
