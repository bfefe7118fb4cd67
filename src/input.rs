//! The keys and values that a build reads, and the dictionary they make.
use vstd::prelude::*;
use crate::automaton::lookup;
use crate::keys::{
    dict_value, has_kept, in_range, is_kept, lemma_lex_irreflexive, lemma_sorted_unique, lex_lt,
    range_has_prefix, range_value, starts_with_in, strictly_sorted,
};
use crate::search::{common_prefixes, prefix_matches, result_of, str_bytes, ResultPairType};

verus! {

/// The slice that an optional slice argument refers to.
pub open spec fn opt_seq<T>(o: Option<&[T]>) -> Option<Seq<T>> {
    match o {
        Some(s) => Some(s@),
        None => None,
    }
}

/// Key `i` of a build: the bytes of `keys[i]`, only the first `lengths[i]`
/// of them when lengths are given.
pub open spec fn input_key(keys: Seq<String>, lengths: Option<Seq<usize>>, i: int) -> Seq<u8> {
    match lengths {
        Some(l) => str_bytes(keys[i]@).take(l[i] as int),
        None => str_bytes(keys[i]@),
    }
}

/// The first `n` keys of a build.
pub open spec fn input_keys(keys: Seq<String>, lengths: Option<Seq<usize>>, n: int) -> Seq<
    Seq<u8>,
> {
    Seq::new(n as nat, |i: int| input_key(keys, lengths, i))
}

/// The first `n` values of a build: the given ones, or each key's index.
pub open spec fn input_values(values: Option<Seq<i32>>, n: int) -> Seq<u32> {
    Seq::new(
        n as nat,
        |i: int|
            match values {
                Some(v) => v[i] as u32,
                None => i as u32,
            },
    )
}

/// Whether one of the first `n` given values is negative.
pub open spec fn has_negative(values: Option<Seq<i32>>, n: int) -> bool {
    match values {
        Some(v) => exists|i: int| 0 <= i < n && v[i] < 0,
        None => false,
    }
}

/// The compacted list of kept keys gives the dictionary of the input.
pub proof fn lemma_dict_link(
    inp: Seq<Seq<u8>>,
    vals: Seq<u32>,
    kss: Seq<Seq<u8>>,
    vs: Seq<u32>,
    idx: Seq<int>,
    k: Seq<u8>,
)
    requires
        strictly_sorted(kss),
        idx.len() == kss.len(),
        vs.len() == kss.len(),
        vals.len() == inp.len(),
        forall|t: int|
            0 <= t < idx.len() ==> {
                &&& 0 <= #[trigger] idx[t] < inp.len()
                &&& kss[t] == inp[idx[t]]
                &&& vs[t] == vals[idx[t]]
                &&& is_kept(inp, idx[t])
            },
        forall|m: int|
            0 <= m < inp.len() && is_kept(inp, m) ==> exists|t: int|
                0 <= t < idx.len() && #[trigger] idx[t] == m,
    ensures
        range_value(kss, vs, 0, kss.len() as int, k) == dict_value(inp, vals, k),
{
    let n = kss.len() as int;
    if exists|t: int| in_range(kss, 0, n, k, t) {
        let t = choose|t: int| in_range(kss, 0, n, k, t);
        assert(has_kept(inp, k, idx[t]));
        let i2 = choose|i: int| has_kept(inp, k, i);
        let t2 = choose|t: int| 0 <= t < idx.len() && #[trigger] idx[t] == i2;
        assert(in_range(kss, 0, n, k, t2));
        lemma_sorted_unique(kss, t, t2);
    } else {
        assert forall|i: int| !has_kept(inp, k, i) by {
            if has_kept(inp, k, i) {
                let t = choose|t: int| 0 <= t < idx.len() && #[trigger] idx[t] == i;
                assert(in_range(kss, 0, n, k, t));
            }
        }
    }
}

/// Whether `w` is a prefix of key `i`, and key `i` is kept.
pub open spec fn is_prefix_of_kept(keys: Seq<Seq<u8>>, w: Seq<u8>, i: int) -> bool {
    0 <= i < keys.len() && is_kept(keys, i) && w.len() <= keys[i].len() && keys[i].take(
        w.len() as int,
    ) == w
}

/// The compacted list of kept keys has the prefixes of the input's kept
/// keys.
pub proof fn lemma_prefix_link(
    inp: Seq<Seq<u8>>,
    kss: Seq<Seq<u8>>,
    idx: Seq<int>,
    w: Seq<u8>,
)
    requires
        idx.len() == kss.len(),
        forall|t: int|
            0 <= t < idx.len() ==> {
                &&& 0 <= #[trigger] idx[t] < inp.len()
                &&& kss[t] == inp[idx[t]]
                &&& is_kept(inp, idx[t])
            },
        forall|m: int|
            0 <= m < inp.len() && is_kept(inp, m) ==> exists|t: int|
                0 <= t < idx.len() && #[trigger] idx[t] == m,
    ensures
        range_has_prefix(kss, 0, kss.len() as int, w) == exists|i: int| is_prefix_of_kept(inp, w, i),
{
    if range_has_prefix(kss, 0, kss.len() as int, w) {
        let t = choose|t: int| starts_with_in(kss, 0, kss.len() as int, w, t);
        assert(is_prefix_of_kept(inp, w, idx[t]));
    }
    if exists|i: int| is_prefix_of_kept(inp, w, i) {
        let i = choose|i: int| is_prefix_of_kept(inp, w, i);
        let t = choose|t: int| 0 <= t < idx.len() && #[trigger] idx[t] == i;
        assert(starts_with_in(kss, 0, kss.len() as int, w, t));
    }
}

/// How many of the non-empty prefixes of `k` of lengths `1..=n` are keys of
/// the dictionary that `keys` and `values` make.
pub open spec fn dict_prefix_count(keys: Seq<Seq<u8>>, values: Seq<u32>, k: Seq<u8>, n: int) -> nat
    decreases n,
{
    if n <= 0 {
        0
    } else {
        dict_prefix_count(keys, values, k, n - 1) + if dict_value(
            keys,
            values,
            k.take(n),
        ).is_some() {
            1nat
        } else {
            0nat
        }
    }
}

/// In a dictionary built from `keys` and `values`, common-prefix search
/// finds as many matches as there are non-empty keys that are prefixes of
/// `k`.
pub proof fn lemma_common_prefix_count(u: Seq<u64>, keys: Seq<Seq<u8>>, values: Seq<u32>, k: Seq<
    u8,
>)
    requires
        forall|x: Seq<u8>| #[trigger] lookup(u, 0, x) == dict_value(keys, values, x),
    ensures
        common_prefixes(u, 0, k).len() == dict_prefix_count(keys, values, k, k.len() as int),
{
    lemma_prefix_count(u, keys, values, k, k.len() as int);
}

proof fn lemma_prefix_count(u: Seq<u64>, keys: Seq<Seq<u8>>, values: Seq<u32>, k: Seq<u8>, n: int)
    requires
        forall|x: Seq<u8>| #[trigger] lookup(u, 0, x) == dict_value(keys, values, x),
    ensures
        prefix_matches(u, 0, k, n).len() == dict_prefix_count(keys, values, k, n),
    decreases n,
{
    if n > 0 {
        lemma_prefix_count(u, keys, values, k, n - 1);
        assert(lookup(u, 0, k.take(n)) == dict_value(keys, values, k.take(n)));
    }
}

/// The bytes of key `i` of a build.
pub fn key_bytes(key: &String, length: Option<usize>) -> (r: Vec<u8>)
    requires
        length matches Some(l) ==> l <= str_bytes(key@).len(),
    ensures
        r@ == match length {
            Some(l) => str_bytes(key@).take(l as int),
            None => str_bytes(key@),
        },
{
    let b = key.as_str().as_bytes();
    let n = match length {
        Some(l) => l,
        None => b.len(),
    };
    let mut r: Vec<u8> = Vec::with_capacity(n);
    let mut j: usize = 0;
    while j < n
        invariant
            j <= n <= b@.len(),
            r@ == b@.take(j as int),
        decreases n - j,
    {
        r.push(b[j]);
        assert(r@ =~= b@.take(j + 1));
        j = j + 1;
    }
    assert(b@.take(b@.len() as int) =~= b@);
    r
}

/// In a dictionary built from `keys` and `values`, every kept key is found
/// with its own value, and the match covers the whole key.
pub proof fn lemma_kept_key_found(u: Seq<u64>, keys: Seq<Seq<u8>>, values: Seq<u32>, i: int)
    requires
        forall|k: Seq<u8>| #[trigger] lookup(u, 0, k) == dict_value(keys, values, k),
        0 <= i < keys.len(),
        is_kept(keys, i),
    ensures
        lookup(u, 0, keys[i]) == Some(values[i]),
        result_of(lookup(u, 0, keys[i]), keys[i].len() as int) == (ResultPairType {
            value: values[i] as i32,
            length: keys[i].len() as usize,
        }),
{
    assert(has_kept(keys, keys[i], i));
    let j = choose|j: int| has_kept(keys, keys[i], j);
    if j < i {
        assert(lex_lt(keys[j], keys[i]));
        lemma_lex_irreflexive(keys[i]);
    } else if i < j {
        assert(lex_lt(keys[i], keys[j]));
        lemma_lex_irreflexive(keys[i]);
    }
    assert(lookup(u, 0, keys[i]) == dict_value(keys, values, keys[i]));
}

/// In a dictionary built from `keys` and `values`, a byte string that is
/// none of the keys is not found: the search gives `(-1, 0)`.
pub proof fn lemma_absent_key_missing(u: Seq<u64>, keys: Seq<Seq<u8>>, values: Seq<u32>, k: Seq<
    u8,
>)
    requires
        forall|x: Seq<u8>| #[trigger] lookup(u, 0, x) == dict_value(keys, values, x),
        forall|i: int| 0 <= i < keys.len() ==> keys[i] != k,
    ensures
        lookup(u, 0, k) == None::<u32>,
        result_of(lookup(u, 0, k), k.len() as int) == (ResultPairType { value: -1i32, length: 0usize }),
{
    assert(lookup(u, 0, k) == dict_value(keys, values, k));
    assert(!exists|i: int| has_kept(keys, k, i));
}

/// Of keys equal to an earlier key, none is kept: the first occurrence
/// keeps its value.
pub proof fn lemma_first_occurrence_wins(
    u: Seq<u64>,
    keys: Seq<Seq<u8>>,
    values: Seq<u32>,
    i: int,
    j: int,
)
    requires
        forall|x: Seq<u8>| #[trigger] lookup(u, 0, x) == dict_value(keys, values, x),
        0 <= i < j < keys.len(),
        keys[i] == keys[j],
        is_kept(keys, i),
    ensures
        !is_kept(keys, j),
        lookup(u, 0, keys[j]) == Some(values[i]),
{
    lemma_lex_irreflexive(keys[i]);
    assert(!lex_lt(keys[i], keys[j]));
    lemma_kept_key_found(u, keys, values, i);
}

} // verus!
