//! The dictionary: a unit array with its build, load, save and search
//! operations.
use vstd::prelude::*;
use crate::unit::{base, check, has_leaf, value, MAX_VALUE, UNIT_SIZE};
use crate::automaton::{child, lemma_walk_append, lemma_walk_push, lookup, node_value, walk};
use crate::builder::{base_limit, build_units, key_seqs, BLOCK_SPAN};
use crate::codec::{
    bytes_to_units, decode_units, encode_units, lemma_save_open_round_trip, units_to_bytes,
};
use crate::input::{
    has_negative, input_keys, input_values, is_prefix_of_kept, key_bytes, lemma_dict_link,
    lemma_prefix_link, opt_seq,
};
use crate::keys::{
    dict_value, is_kept, lemma_lex_total, lemma_lex_transitive, lemma_range_bytes_same, less,
    lex_lt, range_bytes, strictly_sorted, total_bytes,
};
use crate::search::{
    common_prefixes, lemma_prefix_matches_stop, lemma_subrange_push, lemma_subrange_split,
    longest_prefix, prefix_matches, result_of, search_key, search_len, str_bytes, value_or_none,
    ResultPairType,
};

verus! {

/// The largest number of units that an array can hold, so that its size in
/// bytes fits in a `usize`.
pub const MAX_UNITS: usize = usize::MAX / UNIT_SIZE;

/// How many bytes a load reads from data of `len` bytes: `size`, or all
/// that follow `offset` when `size` is 0.
pub open spec fn load_len(len: int, offset: int, size: int) -> int {
    if size == 0 {
        len - offset
    } else {
        size
    }
}

/// Whether a load of `size` bytes at `offset` from data of `len` bytes
/// succeeds: the bytes are there and make whole units.
pub open spec fn load_ok(len: int, offset: int, size: int) -> bool {
    &&& offset <= len
    &&& offset + size <= len
    &&& load_len(len, offset, size) % UNIT_SIZE as int == 0
}

/// Why a build or a load failed.
#[derive(Debug, Clone, PartialEq, Eq)]
pub enum DartsError {
    /// A value was negative.
    InvalidValue,
    /// The unit array would outgrow what a unit can address.
    BuildFailed,
    /// The progress callback asked to stop.
    Aborted,
    /// The bytes to load were missing or malformed.
    Io(String),
}

/// Opening from offset 0, to the end, the bytes that `save_bytes` gives for
/// a dictionary whose size is its number of units succeeds and gives back
/// the same units: the same size and the same search results.
pub proof fn lemma_save_then_open(u: Seq<u64>)
    ensures
        load_ok(units_to_bytes(u.take(u.len() as int)).len() as int, 0, 0),
        bytes_to_units(
            units_to_bytes(u.take(u.len() as int)).subrange(
                0,
                0 + load_len(units_to_bytes(u.take(u.len() as int)).len() as int, 0, 0),
            ),
        ) == u,
{
    let b = units_to_bytes(u.take(u.len() as int));
    assert(u.take(u.len() as int) =~= u);
    lemma_save_open_round_trip(u);
    assert(b.len() % 8 == 0) by (nonlinear_arith)
        requires
            b.len() == 8 * u.len(),
    ;
    assert(b.subrange(0, b.len() as int) =~= b);
}

/// How many units a save writes: the reported size, or all the units when
/// the size given to `set_array` was larger.
pub open spec fn saved_units(size: int, len: int) -> int {
    if size <= len {
        size
    } else {
        len
    }
}

/// Whether the progress callback `f`, called with `(a, total)`, may return
/// a non-negative number: one that lets the build go on.
pub open spec fn went_on<F: Fn(usize, usize) -> i32>(f: F, a: usize, total: usize) -> bool {
    exists|x: i32| f.ensures((a, total), x) && x >= 0
}

/// A copy of a unit array, to be handed to another dictionary.
pub struct Array {
    units: Vec<u64>,
}

impl View for Array {
    type V = Seq<u64>;

    closed spec fn view(&self) -> Seq<u64> {
        self.units@
    }
}

impl Array {
    #[verifier::type_invariant]
    closed spec fn fits(&self) -> bool {
        self.units@.len() <= MAX_UNITS
    }

    /// An empty array.
    pub fn new() -> (r: Array)
        ensures
            r@ == Seq::<u64>::empty(),
    {
        Array { units: Vec::new() }
    }

    pub closed spec fn spec_len(&self) -> nat {
        self.units@.len()
    }
}

/// A double-array dictionary from byte strings to non-negative values.
pub struct DoubleArrayTrie {
    units: Vec<u64>,
    size: usize,
}

impl View for DoubleArrayTrie {
    type V = Seq<u64>;

    closed spec fn view(&self) -> Seq<u64> {
        self.units@
    }
}

impl DoubleArrayTrie {
    #[verifier::type_invariant]
    closed spec fn fits(&self) -> bool {
        self.size <= MAX_UNITS && self.units@.len() <= MAX_UNITS
    }

    /// The number of units that the dictionary reports.
    pub closed spec fn spec_size(&self) -> usize {
        self.size
    }

    /// An empty dictionary.
    pub fn new() -> (r: DoubleArrayTrie)
        ensures
            r@ == Seq::<u64>::empty(),
            r.spec_size() == 0,
    {
        DoubleArrayTrie { units: Vec::new(), size: 0 }
    }

    /// Replaces the units by a copy of `array`; `size` is the number of units
    /// reported by `size`, which the searches do not use (0 when unknown).
    pub fn set_array(&mut self, array: &Array, size: usize)
        requires
            size <= MAX_UNITS,
        ensures
            final(self)@ == array@,
            final(self).spec_size() == size,
    {
        proof {
            use_type_invariant(array);
        }
        *self = DoubleArrayTrie { units: array.units.clone(), size };
    }

    /// A copy of the units.
    pub fn array(&self) -> (r: Array)
        ensures
            r@ == self@,
    {
        proof {
            use_type_invariant(self);
        }
        Array { units: self.units.clone() }
    }

    /// Drops the units.
    pub fn clear(&mut self)
        ensures
            final(self)@ == Seq::<u64>::empty(),
            final(self).spec_size() == 0,
    {
        *self = DoubleArrayTrie { units: Vec::new(), size: 0 };
    }

    /// The size in bytes of one unit.
    pub fn unit_size(&self) -> (r: usize)
        ensures
            r == UNIT_SIZE,
    {
        UNIT_SIZE
    }

    /// The number of units; 0 after `set_array` without a size.
    pub fn size(&self) -> (r: usize)
        ensures
            r == self.spec_size(),
            r <= MAX_UNITS,
    {
        proof {
            use_type_invariant(self);
        }
        self.size
    }

    /// The number of bytes of the units; 0 after `set_array` without a size.
    pub fn total_size(&self) -> (r: usize)
        ensures
            r == self.spec_size() * UNIT_SIZE,
    {
        proof {
            use_type_invariant(self);
        }
        self.size * UNIT_SIZE
    }

    /// The number of units, as `size`: counting the non-free ones would take
    /// a pass over the array.
    pub fn nonzero_size(&self) -> (r: usize)
        ensures
            r == self.spec_size(),
    {
        self.size
    }

    /// Builds the dictionary of the first `num_keys` keys, with their
    /// `values`, or with each key's index as its value when there are none.
    /// A key's bytes are its first `lengths[i]` bytes when lengths are given.
    /// Keys should come in ascending order: a key that does not come after
    /// every earlier key (a duplicate or an out-of-order key) is passed over,
    /// so that the first of equal keys wins. With values, equal subtrees are
    /// shared. `progress_func`, when given, is called with the number of keys
    /// read so far and the number of keys plus one, and once more at the end
    /// with both equal; a negative return stops the build. An empty key is
    /// stored at the root: exact match finds it, while prefix searches, whose
    /// matches take at least one byte, do not report it.
    pub fn build<F: Fn(usize, usize) -> i32>(
        &mut self,
        num_keys: usize,
        keys: &Vec<String>,
        lengths: Option<&[usize]>,
        values: Option<&[i32]>,
        progress_func: Option<F>,
    ) -> (r: Result<(), DartsError>)
        requires
            num_keys <= keys@.len(),
            lengths matches Some(l) ==> num_keys <= l@.len() && forall|i: int|
                0 <= i < num_keys ==> #[trigger] l@[i] <= str_bytes(keys@[i]@).len(),
            values matches Some(v) ==> num_keys <= v@.len(),
            values is None ==> num_keys <= MAX_VALUE + 1,
            num_keys < usize::MAX,
            progress_func matches Some(f) ==> forall|a: usize|
                1 <= a <= num_keys + 1 ==> #[trigger] f.requires((a, (num_keys + 1) as usize)),
        ensures
            r matches Err(DartsError::InvalidValue) <==> has_negative(
                opt_seq(values),
                num_keys as int,
            ),
            r is Ok ==> forall|k: Seq<u8>| #[trigger]
                lookup(final(self)@, 0, k) == dict_value(
                    input_keys(keys@, opt_seq(lengths), num_keys as int),
                    input_values(opt_seq(values), num_keys as int),
                    k,
                ),
            r is Ok ==> final(self).spec_size() == final(self)@.len(),
            r is Ok ==> final(self)@.len() > 0,
            r is Ok ==> forall|w: Seq<u8>| #[trigger]
                walk(final(self)@, 0, w).is_some() == (w.len() == 0 || exists|i: int|
                    is_prefix_of_kept(
                        input_keys(keys@, opt_seq(lengths), num_keys as int),
                        w,
                        i,
                    )),
            r is Ok ==> (progress_func matches Some(f) ==> forall|a: usize|
                1 <= a <= num_keys + 1 ==> #[trigger] went_on(f, a, (num_keys + 1) as usize)),
            r is Err ==> final(self)@ == Seq::<u64>::empty() && final(self).spec_size() == 0,
            r matches Err(DartsError::Aborted) ==> progress_func matches Some(f) && exists|
                a: usize,
                x: i32,
            | 1 <= a <= num_keys + 1 && #[trigger] f.ensures((a, (num_keys + 1) as usize), x) && x < 0,
            r matches Err(DartsError::BuildFailed) ==> 1 + BLOCK_SPAN * total_bytes(
                input_keys(keys@, opt_seq(lengths), num_keys as int),
            ) > base_limit(),
            r matches Err(DartsError::Io(_)) ==> false,
    {
        let ghost inp = input_keys(keys@, opt_seq(lengths), num_keys as int);
        let ghost vals = input_values(opt_seq(values), num_keys as int);
        match values {
            Some(v) => {
                let mut i: usize = 0;
                while i < num_keys
                    invariant
                        i <= num_keys <= v@.len(),
                        values == Some(v),
                        forall|j: int| 0 <= j < i ==> v@[j] >= 0,
                    decreases num_keys - i,
                {
                    if v[i] < 0 {
                        assert(opt_seq(values) == Some(v@));
                        assert(0 <= i < num_keys && v@[i as int] < 0);
                        self.clear();
                        return Err(DartsError::InvalidValue);
                    }
                    i = i + 1;
                }
            },
            None => {},
        }
        let total = num_keys + 1;
        let mut ks: Vec<Vec<u8>> = Vec::new();
        let mut vs: Vec<u32> = Vec::new();
        let ghost mut idx: Seq<int> = Seq::empty();
        let mut i: usize = 0;
        while i < num_keys
            invariant
                i <= num_keys <= keys@.len(),
                inp == input_keys(keys@, opt_seq(lengths), num_keys as int),
                vals == input_values(opt_seq(values), num_keys as int),
                lengths matches Some(l) ==> num_keys <= l@.len() && forall|j: int|
                    0 <= j < num_keys ==> #[trigger] l@[j] <= str_bytes(keys@[j]@).len(),
                values matches Some(v) ==> num_keys <= v@.len() && forall|j: int|
                    0 <= j < num_keys ==> v@[j] >= 0,
                values is None ==> num_keys <= MAX_VALUE + 1,
                total == num_keys + 1,
                progress_func matches Some(f) ==> forall|a: usize|
                    1 <= a <= total ==> #[trigger] f.requires((a, total)),
                progress_func matches Some(f) ==> forall|a: usize|
                    1 <= a <= i ==> #[trigger] went_on(f, a, total),
                idx.len() == ks@.len(),
                vs@.len() == ks@.len(),
                strictly_sorted(key_seqs(ks@)),
                forall|t: int|
                    0 <= t < idx.len() ==> {
                        &&& 0 <= #[trigger] idx[t] < i
                        &&& key_seqs(ks@)[t] == inp[idx[t]]
                        &&& vs@[t] == vals[idx[t]]
                        &&& is_kept(inp, idx[t])
                        &&& vs@[t] <= MAX_VALUE
                    },
                forall|m: int|
                    0 <= m < i && is_kept(inp, m) ==> exists|t: int|
                        0 <= t < idx.len() && #[trigger] idx[t] == m,
                i > 0 ==> ks@.len() > 0,
                range_bytes(key_seqs(ks@), 0, ks@.len() as int, 0) <= range_bytes(
                    inp,
                    0,
                    i as int,
                    0,
                ),
                ks@.len() > 0 ==> forall|m: int|
                    0 <= m < i ==> #[trigger] inp[m] == key_seqs(ks@).last() || lex_lt(
                        inp[m],
                        key_seqs(ks@).last(),
                    ),
            decreases num_keys - i,
        {
            match &progress_func {
                Some(f) => {
                    let x = f(i + 1, total);
                    if x < 0 {
                        assert(f.ensures(((i + 1) as usize, (num_keys + 1) as usize), x));
                        assert(exists|a: usize, y: i32|
                            1 <= a <= num_keys + 1 && #[trigger] f.ensures(
                                (a, (num_keys + 1) as usize),
                                y,
                            ) && y < 0);
                        self.clear();
                        return Err(DartsError::Aborted);
                    }
                },
                None => {},
            }
            let length = match lengths {
                Some(l) => Some(l[i]),
                None => None,
            };
            let key = key_bytes(&keys[i], length);
            assert(key@ == inp[i as int]);
            let value: u32 = match values {
                Some(v) => v[i] as u32,
                None => i as u32,
            };
            assert(value == vals[i as int]);
            let ghost kss = key_seqs(ks@);
            let keep = if ks.len() == 0 {
                true
            } else {
                less(ks[ks.len() - 1].as_slice(), key.as_slice())
            };
            proof {
                if ks@.len() > 0 {
                    assert(kss.last() == ks@[ks@.len() - 1]@);
                }
                if keep {
                    assert forall|j: int| 0 <= j < i implies lex_lt(#[trigger] inp[j], inp[i as int]) by {
                        if inp[j] != kss.last() {
                            lemma_lex_transitive(inp[j], kss.last(), inp[i as int]);
                        }
                    }
                    assert(is_kept(inp, i as int));
                } else {
                    let t = idx.len() - 1;
                    assert(kss[t] == inp[idx[t]]);
                    assert(!lex_lt(inp[idx[t]], inp[i as int]));
                    assert(!is_kept(inp, i as int));
                    if inp[i as int] != kss.last() {
                        lemma_lex_total(inp[i as int], kss.last());
                    }
                }
            }
            let ghost old_idx = idx;
            let ghost old_kss = key_seqs(ks@);
            if keep {
                ks.push(key);
                vs.push(value);
                proof {
                    idx = idx.push(i as int);
                    let nk = key_seqs(ks@);
                    assert(nk =~= kss.push(inp[i as int]));
                    lemma_range_bytes_same(nk, kss, 0, kss.len() as int, 0);
                    assert forall|a: int, b: int| 0 <= a < b < nk.len() implies lex_lt(
                        #[trigger] nk[a],
                        #[trigger] nk[b],
                    ) by {
                        if b == nk.len() - 1 && a < b {
                            if a < b - 1 {
                                assert(lex_lt(kss[a], kss.last()));
                                lemma_lex_transitive(kss[a], kss.last(), inp[i as int]);
                            }
                        }
                    }
                    assert forall|m: int| 0 <= m < i + 1 && is_kept(inp, m) implies exists|t: int|
                        0 <= t < idx.len() && #[trigger] idx[t] == m by {
                        if m == i {
                            assert(idx[idx.len() - 1] == m);
                        } else {
                            let t = choose|t: int|
                                0 <= t < old_idx.len() && #[trigger] old_idx[t] == m;
                            assert(idx[t] == m);
                        }
                    }
                }
            } else {
                proof {
                    assert forall|m: int| 0 <= m < i + 1 && is_kept(inp, m) implies exists|t: int|
                        0 <= t < idx.len() && #[trigger] idx[t] == m by {
                        if m == i {
                            assert(false);
                        }
                    }
                }
            }
            i = i + 1;
        }
        assert forall|t: int| 0 <= t < vs@.len() implies #[trigger] vs@[t] <= MAX_VALUE by {
            assert(0 <= idx[t] < i);
        }
        assert(inp.len() == num_keys);
        let units = match build_units(&ks, &vs, values.is_some()) {
            Some(u) => u,
            None => {
                self.clear();
                return Err(DartsError::BuildFailed);
            },
        };
        match &progress_func {
            Some(f) => {
                let x = f(total, total);
                if x < 0 {
                    self.clear();
                    return Err(DartsError::Aborted);
                }
            },
            None => {},
        }
        proof {
            assert forall|k: Seq<u8>| #[trigger] lookup(units@, 0, k) == dict_value(inp, vals, k) by {
                lemma_dict_link(inp, vals, key_seqs(ks@), vs@, idx, k);
            }
            assert forall|w: Seq<u8>| #[trigger]
                walk(units@, 0, w).is_some() == (w.len() == 0 || exists|i: int|
                    is_prefix_of_kept(inp, w, i)) by {
                lemma_prefix_link(inp, key_seqs(ks@), idx, w);
            }
        }
        let n = units.len();
        *self = DoubleArrayTrie { units, size: n };
        Ok(())
    }

    /// The bytes that store the first `size()` units (all of them when
    /// `size()` is larger), as a file holds them.
    pub fn save_bytes(&self) -> (r: Vec<u8>)
        ensures
            r@ == units_to_bytes(self@.take(saved_units(self.spec_size() as int, self@.len() as int))),
            r@.len() == saved_units(self.spec_size() as int, self@.len() as int) * UNIT_SIZE,
    {
        proof {
            use_type_invariant(self);
        }
        let n = if self.size <= self.units.len() {
            self.size
        } else {
            self.units.len()
        };
        let r = encode_units(&self.units, n);
        proof {
            lemma_save_open_round_trip(self@.take(n as int));
        }
        r
    }

    /// Replaces the units by those stored in `size` bytes of `data` from
    /// `offset` on, or in all the bytes from `offset` on when `size` is 0.
    /// Fails, and changes nothing, when those bytes are not all there or do
    /// not make whole units.
    pub fn open_bytes(&mut self, data: &[u8], offset: usize, size: usize) -> (r: Result<(), DartsError>)
        ensures
            r is Ok <==> load_ok(data@.len() as int, offset as int, size as int),
            r is Ok ==> final(self)@ == bytes_to_units(
                data@.subrange(
                    offset as int,
                    offset + load_len(data@.len() as int, offset as int, size as int),
                ),
            ) && final(self).spec_size() == final(self)@.len(),
            r is Err ==> final(self)@ == old(self)@ && final(self).spec_size() == old(
                self,
            ).spec_size(),
            r is Err ==> r matches Err(DartsError::Io(_)),
    {
        let len = data.len();
        if offset > len {
            return Err(DartsError::Io("offset is past the end of the data".to_owned()));
        }
        if size > len - offset {
            return Err(DartsError::Io("fewer bytes than asked for".to_owned()));
        }
        let n = if size == 0 {
            len - offset
        } else {
            size
        };
        if n % UNIT_SIZE != 0 {
            return Err(DartsError::Io("the bytes do not make whole units".to_owned()));
        }
        let units = decode_units(data, offset, n);
        assert(units@.len() == n / 8);
        let count = units.len();
        *self = DoubleArrayTrie { units, size: count };
        Ok(())
    }

    /// The node reached from node `id` on byte `c`.
    fn child_of(&self, id: usize, c: u8) -> (r: Option<usize>)
        ensures
            match r {
                Some(t) => child(self@, id as int, c) == Some(t as int),
                None => child(self@, id as int, c) == None::<int>,
            },
    {
        if id >= self.units.len() {
            return None;
        }
        let u = self.units[id];
        if has_leaf(u) {
            return None;
        }
        let t = base(u) + 1 + c as u64;
        if t >= self.units.len() as u64 {
            return None;
        }
        let t = t as usize;
        let v = self.units[t];
        if v != 0 && !has_leaf(v) && check(v) == c {
            Some(t)
        } else {
            None
        }
    }

    /// The value of node `id`, if its state accepts.
    fn value_of(&self, id: usize) -> (r: Option<u32>)
        ensures
            r == node_value(self@, id as int),
            r matches Some(v) ==> v <= MAX_VALUE,
    {
        if id >= self.units.len() {
            return None;
        }
        let u = self.units[id];
        if has_leaf(u) {
            return None;
        }
        let b = base(u);
        if b >= self.units.len() as u64 {
            return None;
        }
        let v = self.units[b as usize];
        if has_leaf(v) {
            Some(value(v))
        } else {
            None
        }
    }

    /// The node reached from `node_pos` by the bytes `key[start..end]`.
    fn follow(&self, key: &[u8], start: usize, end: usize, node_pos: usize) -> (r: Option<usize>)
        requires
            start <= end <= key@.len(),
        ensures
            match r {
                Some(t) => walk(self@, node_pos as int, key@.subrange(start as int, end as int))
                    == Some(t as int),
                None => walk(self@, node_pos as int, key@.subrange(start as int, end as int))
                    == None::<int>,
            },
    {
        let mut id = node_pos;
        let mut i = start;
        while i < end
            invariant
                start <= i <= end <= key@.len(),
                walk(self@, node_pos as int, key@.subrange(start as int, end as int)) == walk(
                    self@,
                    id as int,
                    key@.subrange(i as int, end as int),
                ),
            decreases end - i,
        {
            assert(key@.subrange(i as int, end as int).drop_first() =~= key@.subrange(
                i + 1,
                end as int,
            ));
            match self.child_of(id, key[i]) {
                Some(t) => {
                    id = t;
                },
                None => {
                    return None;
                },
            }
            i = i + 1;
        }
        Some(id)
    }

    /// Writes into `results` the first `max_num_results` keys of the
    /// dictionary at node `node_pos` that are prefixes of `key` (its first
    /// `length` bytes, or all of it when `length` is 0), shortest first, and
    /// returns how many such keys there are, which may be more.
    pub fn common_prefix_search_into(
        &self,
        key: &str,
        results: &mut Vec<ResultPairType>,
        max_num_results: usize,
        length: usize,
        node_pos: usize,
    ) -> (r: usize)
        requires
            length <= str_bytes(key@).len(),
        ensures
            r == common_prefixes(self@, node_pos as int, search_key(str_bytes(key@), length)).len(),
            final(results)@ == common_prefixes(
                self@,
                node_pos as int,
                search_key(str_bytes(key@), length),
            ).take(
                if r <= max_num_results {
                    r as int
                } else {
                    max_num_results as int
                },
            ),
    {
        let bytes = key.as_bytes();
        let end = if length == 0 {
            bytes.len()
        } else {
            length
        };
        let ghost k = search_key(str_bytes(key@), length);
        assert(bytes@.take(end as int) =~= k);
        results.clear();
        let mut id = node_pos;
        let mut i: usize = 0;
        let mut count: usize = 0;
        assert(k.take(0) =~= Seq::<u8>::empty());
        loop
            invariant
                i <= end,
                end <= bytes@.len(),
                k == bytes@.take(end as int),
                k == search_key(str_bytes(key@), length),
                walk(self@, node_pos as int, k.take(i as int)) == Some(id as int),
                count == prefix_matches(self@, node_pos as int, k, i as int).len(),
                count <= i,
                results@ == prefix_matches(self@, node_pos as int, k, i as int).take(
                    if count <= max_num_results {
                        count as int
                    } else {
                        max_num_results as int
                    },
                ),
            decreases end - i,
        {
            if i == end {
                return count;
            }
            assert(k.take(i + 1) =~= k.take(i as int).push(bytes@[i as int]));
            proof {
                lemma_walk_push(self@, node_pos as int, k.take(i as int), bytes@[i as int]);
            }
            match self.child_of(id, bytes[i]) {
                Some(t) => {
                    id = t;
                },
                None => {
                    proof {
                        lemma_prefix_matches_stop(
                            self@,
                            node_pos as int,
                            k,
                            i + 1,
                            k.len() as int,
                        );
                    }
                    return count;
                },
            }
            i = i + 1;
            let ghost before = prefix_matches(self@, node_pos as int, k, i - 1);
            assert(lookup(self@, node_pos as int, k.take(i as int)) == node_value(self@, id as int));
            assert(prefix_matches(self@, node_pos as int, k, i as int) == match node_value(
                self@,
                id as int,
            ) {
                Some(v) => before.push(result_of(Some(v), i as int)),
                None => before,
            });
            match self.value_of(id) {
                Some(v) => {
                    if count < max_num_results {
                        results.push(ResultPairType { value: v as i32, length: i });
                        assert(results@ =~= before.push(result_of(Some(v), i as int)).take(
                            count + 1,
                        ));
                    } else {
                        assert(results@ =~= before.push(result_of(Some(v), i as int)).take(
                            max_num_results as int,
                        ));
                    }
                    count = count + 1;
                },
                None => {},
            }
        }
    }

    /// The keys of the dictionary at node `node_pos` that are prefixes of
    /// `key`, shortest first, at most `max_num_results` of them.
    pub fn common_prefix_search(
        &self,
        key: &str,
        max_num_results: usize,
        length: usize,
        node_pos: usize,
    ) -> (r: Vec<ResultPairType>)
        requires
            length <= str_bytes(key@).len(),
        ensures
            r@ == common_prefixes(self@, node_pos as int, search_key(str_bytes(key@), length)).take(
                if common_prefixes(
                    self@,
                    node_pos as int,
                    search_key(str_bytes(key@), length),
                ).len() <= max_num_results {
                    common_prefixes(
                        self@,
                        node_pos as int,
                        search_key(str_bytes(key@), length),
                    ).len() as int
                } else {
                    max_num_results as int
                },
            ),
    {
        let mut results: Vec<ResultPairType> = Vec::new();
        self.common_prefix_search_into(key, &mut results, max_num_results, length, node_pos);
        results
    }

    /// The value of the longest key of the dictionary at node `node_pos`
    /// that is a prefix of `key`, or -1.
    pub fn common_longest_prefix_search(&self, key: &str, length: usize, node_pos: usize) -> (r:
        i32)
        requires
            length <= str_bytes(key@).len(),
        ensures
            r == longest_prefix(self@, node_pos as int, search_key(str_bytes(key@), length)).value,
    {
        self.common_longest_prefix_search_pair(key, length, node_pos).value
    }

    /// As `common_longest_prefix_search`, with the length of that key.
    pub fn common_longest_prefix_search_pair(&self, key: &str, length: usize, node_pos: usize) -> (r:
        ResultPairType)
        requires
            length <= str_bytes(key@).len(),
        ensures
            r == longest_prefix(self@, node_pos as int, search_key(str_bytes(key@), length)),
    {
        let bytes = key.as_bytes();
        let end = if length == 0 {
            bytes.len()
        } else {
            length
        };
        let ghost k = search_key(str_bytes(key@), length);
        assert(bytes@.take(end as int) =~= k);
        let mut id = node_pos;
        let mut i: usize = 0;
        let mut last = ResultPairType { value: -1, length: 0 };
        assert(k.take(0) =~= Seq::<u8>::empty());
        loop
            invariant
                i <= end,
                end <= bytes@.len(),
                k == bytes@.take(end as int),
                k == search_key(str_bytes(key@), length),
                walk(self@, node_pos as int, k.take(i as int)) == Some(id as int),
                last == (if prefix_matches(self@, node_pos as int, k, i as int).len() > 0 {
                    prefix_matches(self@, node_pos as int, k, i as int).last()
                } else {
                    ResultPairType { value: -1i32, length: 0usize }
                }),
            decreases end - i,
        {
            if i == end {
                return last;
            }
            assert(k.take(i + 1) =~= k.take(i as int).push(bytes@[i as int]));
            proof {
                lemma_walk_push(self@, node_pos as int, k.take(i as int), bytes@[i as int]);
            }
            match self.child_of(id, bytes[i]) {
                Some(t) => {
                    id = t;
                },
                None => {
                    proof {
                        lemma_prefix_matches_stop(
                            self@,
                            node_pos as int,
                            k,
                            i + 1,
                            k.len() as int,
                        );
                    }
                    return last;
                },
            }
            i = i + 1;
            assert(lookup(self@, node_pos as int, k.take(i as int)) == node_value(self@, id as int));
            assert(prefix_matches(self@, node_pos as int, k, i as int) == match node_value(
                self@,
                id as int,
            ) {
                Some(v) => prefix_matches(self@, node_pos as int, k, i - 1).push(
                    result_of(Some(v), i as int),
                ),
                None => prefix_matches(self@, node_pos as int, k, i - 1),
            });
            match self.value_of(id) {
                Some(v) => {
                    last = ResultPairType { value: v as i32, length: i };
                },
                None => {},
            }
        }
    }

    /// Follows from node `node_pos` the transitions on the bytes of `key`
    /// from `key_pos` up to its first `length` bytes (all of it when `length`
    /// is 0), moving `node_pos` and `key_pos` along. Returns -2 where a
    /// transition is missing, with both left at the last node reached;
    /// otherwise the value of the node reached, or -1 if it does not accept.
    /// When `key_pos` is already past the end, nothing moves and the value
    /// of `node_pos` (or -1) is returned.
    pub fn traverse(&self, key: &str, node_pos: &mut usize, key_pos: &mut usize, length: usize) -> (r:
        i32)
        requires
            length <= str_bytes(key@).len(),
        ensures
            *old(key_pos) > search_len(str_bytes(key@), length) ==> *final(node_pos) == *old(
                node_pos,
            ) && *final(key_pos) == *old(key_pos) && r == value_or_none(
                node_value(self@, *old(node_pos) as int),
            ),
            *old(key_pos) <= search_len(str_bytes(key@), length) ==> match walk(
                self@,
                *old(node_pos) as int,
                str_bytes(key@).subrange(
                    *old(key_pos) as int,
                    search_len(str_bytes(key@), length),
                ),
            ) {
                Some(t) => *final(node_pos) == t && *final(key_pos) == search_len(
                    str_bytes(key@),
                    length,
                ) && r == value_or_none(node_value(self@, t)),
                None => r == -2 && *old(key_pos) <= *final(key_pos) < search_len(
                    str_bytes(key@),
                    length,
                ) && walk(
                    self@,
                    *old(node_pos) as int,
                    str_bytes(key@).subrange(*old(key_pos) as int, *final(key_pos) as int),
                ) == Some(*final(node_pos) as int) && child(
                    self@,
                    *final(node_pos) as int,
                    str_bytes(key@)[*final(key_pos) as int],
                ) == None::<int>,
            },
    {
        let bytes = key.as_bytes();
        let end = if length == 0 {
            bytes.len()
        } else {
            length
        };
        if *key_pos > end {
            return match self.value_of(*node_pos) {
                Some(v) => v as i32,
                None => -1,
            };
        }
        let ghost np0 = *node_pos as int;
        let ghost kp0 = *key_pos as int;
        let ghost k = bytes@;
        assert(k.subrange(kp0, kp0) =~= Seq::<u8>::empty());
        while *key_pos < end
            invariant
                kp0 <= *key_pos <= end <= k.len(),
                kp0 == *old(key_pos),
                np0 == *old(node_pos),
                k == bytes@,
                k == str_bytes(key@),
                end == search_len(k, length),
                walk(self@, np0, k.subrange(kp0, *key_pos as int)) == Some(*node_pos as int),
            decreases end - *key_pos,
        {
            let p = *key_pos;
            proof {
                lemma_subrange_push(k, kp0, p as int);
            }
            proof {
                lemma_walk_push(self@, np0, k.subrange(kp0, p as int), k[p as int]);
            }
            match self.child_of(*node_pos, bytes[p]) {
                Some(t) => {
                    *node_pos = t;
                },
                None => {
                    proof {
                        lemma_subrange_split(k, kp0, p + 1, end as int);
                        lemma_walk_append(
                            self@,
                            np0,
                            k.subrange(kp0, p + 1),
                            k.subrange(p + 1, end as int),
                        );
                    }
                    return -2;
                },
            }
            *key_pos = p + 1;
        }
        match self.value_of(*node_pos) {
            Some(v) => v as i32,
            None => -1,
        }
    }

    /// The value of `key` (its first `length` bytes, or all of it when
    /// `length` is 0) in the dictionary at node `node_pos`, or -1.
    pub fn exact_match_search(&self, key: &str, length: usize, node_pos: usize) -> (r: i32)
        requires
            length <= str_bytes(key@).len(),
        ensures
            r == value_or_none(
                lookup(self@, node_pos as int, search_key(str_bytes(key@), length)),
            ),
    {
        self.exact_match_search_pair(key, length, node_pos).value
    }

    /// As `exact_match_search`, with the length of the matched key.
    pub fn exact_match_search_pair(&self, key: &str, length: usize, node_pos: usize) -> (r:
        ResultPairType)
        requires
            length <= str_bytes(key@).len(),
        ensures
            r == result_of(
                lookup(self@, node_pos as int, search_key(str_bytes(key@), length)),
                search_len(str_bytes(key@), length),
            ),
    {
        let bytes = key.as_bytes();
        let end = if length == 0 {
            bytes.len()
        } else {
            length
        };
        assert(bytes@.subrange(0, end as int) =~= search_key(str_bytes(key@), length));
        match self.follow(bytes, 0, end, node_pos) {
            Some(t) => match self.value_of(t) {
                Some(v) => ResultPairType { value: v as i32, length: end },
                None => ResultPairType { value: -1i32, length: 0usize },
            },
            None => ResultPairType { value: -1i32, length: 0usize },
        }
    }
}

impl Default for DoubleArrayTrie {
    fn default() -> (r: DoubleArrayTrie)
        ensures
            r@ == Seq::<u64>::empty(),
            r.spec_size() == 0,
    {
        DoubleArrayTrie::new()
    }
}

} // verus!
