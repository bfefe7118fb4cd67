//! What the searches return, stated over the automaton of a unit array.
use vstd::prelude::*;
use crate::automaton::{child, lemma_walk_append, lemma_walk_push, lookup, node_value, walk};

verus! {

/// The bytes of a string.
pub open spec fn str_bytes(s: Seq<char>) -> Seq<u8> {
    vstd::utf8::encode_utf8(s)
}

/// The number of bytes of `key` that a search reads: `length`, or the whole
/// key when `length` is 0.
pub open spec fn search_len(key: Seq<u8>, length: usize) -> int {
    if length == 0 {
        key.len() as int
    } else {
        length as int
    }
}

/// The part of `key` that a search reads.
pub open spec fn search_key(key: Seq<u8>, length: usize) -> Seq<u8> {
    key.take(search_len(key, length))
}

/// A matched key: the value and how many bytes, counted from the node where
/// the search started, the key has.
#[derive(Debug, Clone, Copy, PartialEq, Eq, Structural)]
pub struct ResultPairType {
    pub value: i32,
    pub length: usize,
}

/// The result pair of a search, `(-1, 0)` when nothing matched.
pub open spec fn result_of(r: Option<u32>, length: int) -> ResultPairType {
    match r {
        Some(v) => ResultPairType { value: v as i32, length: length as usize },
        None => ResultPairType { value: -1i32, length: 0usize },
    }
}

/// The value of a search, -1 when nothing matched.
pub open spec fn value_or_none(r: Option<u32>) -> i32 {
    match r {
        Some(v) => v as i32,
        None => -1i32,
    }
}

/// The matches among the non-empty prefixes of `k` of lengths `1..=n`, from
/// the node `id`, shortest first.
pub open spec fn prefix_matches(u: Seq<u64>, id: int, k: Seq<u8>, n: int) -> Seq<ResultPairType>
    decreases n,
{
    if n <= 0 {
        Seq::empty()
    } else {
        let prev = prefix_matches(u, id, k, n - 1);
        match lookup(u, id, k.take(n)) {
            Some(v) => prev.push(result_of(Some(v), n)),
            None => prev,
        }
    }
}

/// Every non-empty prefix of `k` that is a key of the dictionary at node
/// `id`, with its value and length, shortest first. The value of node `id`
/// itself, that of the empty prefix, is no match: a match takes at least
/// one transition.
pub open spec fn common_prefixes(u: Seq<u64>, id: int, k: Seq<u8>) -> Seq<ResultPairType> {
    prefix_matches(u, id, k, k.len() as int)
}

/// The longest non-empty prefix of `k` that is a key of the dictionary at
/// node `id`, or `(-1, 0)` when there is none.
pub open spec fn longest_prefix(u: Seq<u64>, id: int, k: Seq<u8>) -> ResultPairType {
    let all = common_prefixes(u, id, k);
    if all.len() > 0 {
        all.last()
    } else {
        ResultPairType { value: -1i32, length: 0usize }
    }
}

pub proof fn lemma_subrange_push(k: Seq<u8>, a: int, b: int)
    requires
        0 <= a <= b < k.len(),
    ensures
        k.subrange(a, b + 1) == k.subrange(a, b).push(k[b]),
{
    assert(k.subrange(a, b + 1) =~= k.subrange(a, b).push(k[b]));
}

pub proof fn lemma_subrange_split(k: Seq<u8>, a: int, b: int, c: int)
    requires
        0 <= a <= b <= c <= k.len(),
    ensures
        k.subrange(a, c) == k.subrange(a, b) + k.subrange(b, c),
{
    assert(k.subrange(a, c) =~= k.subrange(a, b) + k.subrange(b, c));
}

/// Once a prefix of `k` leads nowhere, no longer prefix adds a match.
pub proof fn lemma_prefix_matches_stop(u: Seq<u64>, id: int, k: Seq<u8>, m: int, n: int)
    requires
        1 <= m <= n <= k.len(),
        walk(u, id, k.take(m)) == None::<int>,
    ensures
        prefix_matches(u, id, k, n) == prefix_matches(u, id, k, m - 1),
    decreases n - m,
{
    if n > m {
        lemma_prefix_matches_stop(u, id, k, m, n - 1);
        assert(k.take(n) =~= k.take(m) + k.subrange(m, n));
        lemma_walk_append(u, id, k.take(m), k.subrange(m, n));
    }
}

/// The common-prefix matches of `k` from node `id` are exactly the
/// non-empty prefixes of `k` that the dictionary holds, each once, with its value and length,
/// by increasing length; the last of them is the longest-prefix match.
pub proof fn lemma_common_prefixes(u: Seq<u64>, id: int, k: Seq<u8>)
    requires
        k.len() <= usize::MAX,
    ensures
        forall|t: int|
            0 <= t < common_prefixes(u, id, k).len() ==> {
                let m = #[trigger] common_prefixes(u, id, k)[t];
                &&& 1 <= m.length <= k.len()
                &&& lookup(u, id, k.take(m.length as int)) matches Some(v) && m.value == v as i32
            },
        forall|j: int|
            1 <= j <= k.len() && (#[trigger] lookup(u, id, k.take(j))).is_some() ==> exists|t: int|
                0 <= t < common_prefixes(u, id, k).len() && common_prefixes(u, id, k)[t].length
                    == j,
        forall|t1: int, t2: int|
            0 <= t1 < t2 < common_prefixes(u, id, k).len() ==> (#[trigger] common_prefixes(
                u,
                id,
                k,
            )[t1]).length < (#[trigger] common_prefixes(u, id, k)[t2]).length,
        common_prefixes(u, id, k).len() > 0 ==> common_prefixes(u, id, k).last() == longest_prefix(
            u,
            id,
            k,
        ),
{
    lemma_prefix_matches(u, id, k, k.len() as int);
}

proof fn lemma_prefix_matches(u: Seq<u64>, id: int, k: Seq<u8>, n: int)
    requires
        0 <= n <= k.len(),
        k.len() <= usize::MAX,
    ensures
        forall|t: int|
            0 <= t < prefix_matches(u, id, k, n).len() ==> {
                let m = #[trigger] prefix_matches(u, id, k, n)[t];
                &&& 1 <= m.length <= n
                &&& lookup(u, id, k.take(m.length as int)) matches Some(v) && m.value == v as i32
            },
        forall|j: int|
            1 <= j <= n && (#[trigger] lookup(u, id, k.take(j))).is_some() ==> exists|t: int|
                0 <= t < prefix_matches(u, id, k, n).len() && prefix_matches(u, id, k, n)[t].length
                    == j,
        forall|t1: int, t2: int|
            0 <= t1 < t2 < prefix_matches(u, id, k, n).len() ==> (#[trigger] prefix_matches(
                u,
                id,
                k,
                n,
            )[t1]).length < (#[trigger] prefix_matches(u, id, k, n)[t2]).length,
    decreases n,
{
    if n > 0 {
        lemma_prefix_matches(u, id, k, n - 1);
        let prev = prefix_matches(u, id, k, n - 1);
        let cur = prefix_matches(u, id, k, n);
        assert forall|j: int|
            1 <= j <= n && (#[trigger] lookup(u, id, k.take(j))).is_some() implies exists|t: int|
            0 <= t < cur.len() && cur[t].length == j by {
            if j == n {
                assert(cur[cur.len() - 1].length == j);
            } else {
                let t = choose|t: int| 0 <= t < prev.len() && prev[t].length == j;
                assert(cur[t] == prev[t]);
            }
        }
        assert forall|t: int| 0 <= t < cur.len() implies {
            let m = #[trigger] cur[t];
            &&& 1 <= m.length <= n
            &&& lookup(u, id, k.take(m.length as int)) matches Some(v) && m.value == v as i32
        } by {
            if t < prev.len() {
                assert(cur[t] == prev[t]);
            }
        }
        assert forall|t1: int, t2: int| 0 <= t1 < t2 < cur.len() implies (#[trigger] cur[t1]).length
            < (#[trigger] cur[t2]).length by {
            if t2 >= prev.len() {
                assert(cur[t1] == prev[t1]);
            } else {
                assert(cur[t1] == prev[t1]);
                assert(cur[t2] == prev[t2]);
            }
        }
    }
}

/// Stepping one byte from the node that a prefix of `k` reaches goes where
/// the longer prefix leads; where it leads nowhere, the longer prefix is not
/// a key, and where it leads to a node, that node's value is the
/// exact-match result of the longer prefix.
pub proof fn lemma_traverse_step(u: Seq<u64>, id: int, k: Seq<u8>, i: int, t: int)
    requires
        0 <= i < k.len(),
        walk(u, id, k.take(i)) == Some(t),
    ensures
        walk(u, t, k.subrange(i, i + 1)) == walk(u, id, k.take(i + 1)),
        match walk(u, id, k.take(i + 1)) {
            Some(t2) => value_or_none(node_value(u, t2)) == value_or_none(
                lookup(u, id, k.take(i + 1)),
            ),
            None => lookup(u, id, k.take(i + 1)) == None::<u32>,
        },
{
    assert(k.take(i + 1) =~= k.take(i).push(k[i]));
    lemma_walk_push(u, id, k.take(i), k[i]);
    let s1 = k.subrange(i, i + 1);
    assert(s1.drop_first() =~= Seq::<u8>::empty());
    assert(s1[0] == k[i]);
    match child(u, t, k[i]) {
        Some(t2) => assert(walk(u, t2, s1.drop_first()) == Some(t2)),
        None => {},
    }
}

} // verus!
