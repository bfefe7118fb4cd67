//! Construction of the unit array from strictly sorted keys.
//!
//! States are built bottom-up over ranges of sorted keys: the keys `lo..hi`
//! that share their first `depth` bytes make one state, whose transitions are
//! the distinct bytes at `depth` and whose value is that of the key that ends
//! there. Each state gets a block of its own at a fresh base, found by a
//! first-fit search. In the minimizing mode a state whose block would hold
//! exactly what an already placed block holds reuses that block, so equal
//! subtrees are stored once.
use vstd::prelude::*;
use crate::unit::{
    make_leaf, make_transition, unit_check, unit_has_leaf, MAX_BASE, MAX_VALUE, UNIT_SIZE,
};
use crate::automaton::{
    closed, lemma_extend, lemma_free_unit, lemma_lookup_run, lemma_reaches_same, lemma_run_same,
    lemma_walk_reaches, lemma_write_leaf, lemma_write_transition, lookup, next_base, reaches, run,
    same_block, slot_of, terminal, walk,
};
use crate::keys::{
    in_range, lemma_byte_order, lemma_prefix_not_after, lemma_range_bytes_deeper,
    lemma_range_bytes_nonneg, lemma_range_bytes_split, lemma_range_narrow, lemma_sorted_unique,
    lex_lt, range_bytes, range_has_prefix, range_value, starts_with_in, strictly_sorted,
    total_bytes,
};

verus! {

/// Number of slots from a base to the last transition slot of its block.
pub const BLOCK_SPAN: usize = 257;

/// How far behind the end of the array the search for a free base starts at
/// most; slots further back are left as they are.
const SEARCH_WINDOW: usize = 8192;

/// Number of buckets of the table of placed blocks.
const NUM_BUCKETS: usize = 65536;

/// The largest base that the builder hands out: what a unit can hold, and
/// small enough that a whole block can be indexed.
pub open spec fn base_limit() -> int {
    if (MAX_BASE as int) < usize::MAX / UNIT_SIZE - 2 * BLOCK_SPAN {
        MAX_BASE as int
    } else {
        usize::MAX / UNIT_SIZE - 2 * BLOCK_SPAN
    }
}

/// Computes `base_limit()`.
pub fn base_limit_value() -> (r: usize)
    ensures
        r == base_limit(),
{
    let room = usize::MAX / UNIT_SIZE - 2 * BLOCK_SPAN;
    if MAX_BASE < room as u64 {
        MAX_BASE as usize
    } else {
        room
    }
}

/// The byte strings of a list of keys.
pub open spec fn key_seqs(ks: Seq<Vec<u8>>) -> Seq<Seq<u8>> {
    ks.map_values(|k: Vec<u8>| k@)
}

/// Whether the byte labels are in strictly ascending order.
pub open spec fn labels_ascending(labels: Seq<u8>) -> bool {
    forall|i: int, j: int| 0 <= i < j < labels.len() ==> #[trigger] labels[i] < #[trigger] labels[j]
}

/// Whether the block at base `b` holds exactly the value `term` and, for
/// each `i`, a transition on `labels[i]` to the block at `children[i]`.
pub open spec fn block_holds(
    u: Seq<u64>,
    b: int,
    term: Option<u32>,
    labels: Seq<u8>,
    children: Seq<u64>,
) -> bool {
    &&& terminal(u, b) == term
    &&& forall|i: int|
        0 <= i < labels.len() ==> next_base(u, b, #[trigger] labels[i]) == Some(children[i] as int)
    &&& forall|c: u8|
        (forall|i: int| 0 <= i < labels.len() ==> labels[i] != c) ==> #[trigger] next_base(u, b, c)
            == None::<int>
}

/// A block that was placed, kept to find equal blocks again.
pub struct Placed {
    pub term: Option<u32>,
    pub labels: Vec<u8>,
    pub children: Vec<u64>,
    pub base: u64,
}

/// The state of a build: the array being filled and what is known of it.
pub struct Builder {
    /// The unit array; slot 0 is kept free for the root until the end.
    pub units: Vec<u64>,
    /// `used[b]` holds when `b` is the base of a placed block.
    pub used: Vec<bool>,
    /// Where the search for a free slot starts.
    pub head: usize,
    /// Whether blocks with equal contents are shared.
    pub minimize: bool,
    /// The blocks placed so far, when they are shared.
    pub placed: Vec<Placed>,
    /// Indices into `placed`, filed by a hash of the block's contents.
    pub buckets: Vec<Vec<usize>>,
    /// The bases of the placed blocks.
    pub bases: Ghost<Set<int>>,
}

impl Builder {
    /// Every occupied slot belongs to a placed block: a leaf to the block at
    /// its own slot, a transition with check byte `c` to the block `1 + c`
    /// slots before it.
    pub open spec fn owned(&self) -> bool {
        forall|t: int|
            0 <= t < self.units@.len() ==> {
                &&& unit_has_leaf(#[trigger] self.units@[t]) ==> self.bases@.contains(t)
                &&& (self.units@[t] != 0 && !unit_has_leaf(self.units@[t]))
                    ==> self.bases@.contains(t - 1 - unit_check(self.units@[t]))
            }
    }

    /// The builder's invariant: the placed bases are marked used, every
    /// occupied slot is owned, transitions stay among placed blocks, and each
    /// kept block still holds what it was placed with.
    pub open spec fn wf(&self) -> bool {
        &&& self.units@.len() == self.used@.len()
        &&& 1 <= self.units@.len() <= base_limit() + BLOCK_SPAN + 1
        &&& self.head <= self.units@.len()
        &&& self.units@[0] == 0
        &&& forall|b: int|
            #[trigger] self.bases@.contains(b) ==> 1 <= b <= base_limit() && b < self.units@.len()
                && self.used@[b]
        &&& self.owned()
        &&& closed(self.units@, self.bases@)
        &&& self.buckets@.len() > 0
        &&& forall|i: int|
            0 <= i < self.placed@.len() ==> {
                let p = #[trigger] self.placed@[i];
                &&& self.bases@.contains(p.base as int)
                &&& block_holds(self.units@, p.base as int, p.term, p.labels@, p.children@)
            }
    }

    /// A builder with an empty array.
    pub fn new(minimize: bool) -> (r: Builder)
        ensures
            r.wf(),
            r.bases@ == Set::<int>::empty(),
            r.units@.len() == 1,
    {
        let mut units: Vec<u64> = Vec::new();
        units.push(0u64);
        let mut used: Vec<bool> = Vec::new();
        used.push(false);
        let mut buckets: Vec<Vec<usize>> = Vec::new();
        let n: usize = if minimize {
            NUM_BUCKETS
        } else {
            1
        };
        while buckets.len() < n
            invariant
                buckets@.len() <= n,
            decreases n - buckets@.len(),
        {
            buckets.push(Vec::new());
        }
        proof {
            lemma_free_unit();
        }
        Builder {
            units,
            used,
            head: 1,
            minimize,
            placed: Vec::new(),
            buckets,
            bases: Ghost(Set::empty()),
        }
    }

    /// A base that no block uses holds nothing.
    proof fn lemma_blank(&self, b: int)
        requires
            self.wf(),
            !self.bases@.contains(b),
        ensures
            terminal(self.units@, b) == None::<u32>,
            forall|c: u8| #[trigger] next_base(self.units@, b, c) == None::<int>,
    {
        if 0 <= b < self.units@.len() {
            assert(unit_has_leaf(self.units@[b]) ==> self.bases@.contains(b));
        }
        assert forall|c: u8| #[trigger] next_base(self.units@, b, c) == None::<int> by {
            let t = slot_of(b, c);
            if 0 <= t < self.units@.len() {
                assert(self.units@[t] != 0 && !unit_has_leaf(self.units@[t]) ==> self.bases@.contains(
                    t - 1 - unit_check(self.units@[t]),
                ));
            }
        }
    }

    /// Builds the state of the keys `lo..hi`, which share their first
    /// `depth` bytes, and returns the base of its block.
    #[verifier::rlimit(60)]
    fn build_node(&mut self, ks: &Vec<Vec<u8>>, vs: &Vec<u32>, lo: usize, hi: usize, depth: usize) -> (r:
        Option<u64>)
        requires
            old(self).wf(),
            strictly_sorted(key_seqs(ks@)),
            vs@.len() == ks@.len(),
            forall|t: int| 0 <= t < vs@.len() ==> #[trigger] vs@[t] <= MAX_VALUE,
            lo < hi <= ks@.len(),
            forall|t: int|
                lo <= t < hi ==> (#[trigger] key_seqs(ks@)[t]).len() >= depth && key_seqs(ks@)[t].take(
                    depth as int,
                ) == key_seqs(ks@)[lo as int].take(depth as int),
        ensures
            final(self).wf(),
            final(self).minimize == old(self).minimize,
            old(self).bases@.subset_of(final(self).bases@),
            forall|x: int| #[trigger]
                old(self).bases@.contains(x) ==> same_block(old(self).units@, final(self).units@, x),
            r matches Some(b) ==> final(self).bases@.contains(b as int) && forall|s: Seq<u8>| #[trigger]
                run(final(self).units@, b as int, s) == range_value(
                    key_seqs(ks@),
                    vs@,
                    lo as int,
                    hi as int,
                    key_seqs(ks@)[lo as int].take(depth as int) + s,
                ),
            r matches Some(b) ==> forall|s: Seq<u8>| #[trigger]
                reaches(final(self).units@, b as int, s) == range_has_prefix(
                    key_seqs(ks@),
                    lo as int,
                    hi as int,
                    key_seqs(ks@)[lo as int].take(depth as int) + s,
                ),
            r is Some ==> final(self).units@.len() <= old(self).units@.len() + BLOCK_SPAN * (
            range_bytes(key_seqs(ks@), lo as int, hi as int, depth as int) + 1),
            old(self).units@.len() + BLOCK_SPAN * range_bytes(
                key_seqs(ks@),
                lo as int,
                hi as int,
                depth as int,
            ) <= base_limit() ==> r is Some,
        decreases hi - lo, key_seqs(ks@)[lo as int].len() - depth,
    {
        let ghost kss = key_seqs(ks@);
        let ghost pre = kss[lo as int].take(depth as int);
        proof {
            lemma_key_seqs(ks@);
            assert(kss[lo as int].len() >= depth);
            assert forall|t: int| lo < t < hi implies #[trigger] kss[t].len() > depth by {
                lemma_longer(kss, lo as int, t, depth as int);
            }
        }
        let mut term: Option<u32> = None;
        let mut start: usize = lo;
        if ks[lo].len() == depth {
            term = Some(vs[lo]);
            start = lo + 1;
        }
        let mut labels: Vec<u8> = Vec::new();
        let mut children: Vec<u64> = Vec::new();
        let ghost mut bounds: Seq<int> = seq![start as int];
        let ghost mut gid: Seq<int> = Seq::empty();
        let ghost total = range_bytes(kss, lo as int, hi as int, depth as int);
        proof {
            lemma_range_bytes_split(kss, lo as int, start as int, hi as int, depth as int);
            lemma_range_bytes_nonneg(kss, lo as int, start as int, depth as int);
        }
        let mut j: usize = start;
        while j < hi
            invariant
                self.wf(),
                self.minimize == old(self).minimize,
                old(self).bases@.subset_of(self.bases@),
                forall|x: int| #[trigger]
                    old(self).bases@.contains(x) ==> same_block(old(self).units@, self.units@, x),
                kss == key_seqs(ks@),
                pre == kss[lo as int].take(depth as int),
                strictly_sorted(kss),
                vs@.len() == ks@.len(),
                forall|t: int| 0 <= t < vs@.len() ==> #[trigger] vs@[t] <= MAX_VALUE,
                lo < hi <= ks@.len(),
                forall|t: int|
                    lo <= t < hi ==> (#[trigger] kss[t]).len() >= depth && kss[t].take(depth as int)
                        == pre,
                forall|t: int| 0 <= t < ks@.len() ==> kss[t] == (#[trigger] ks@[t])@,
                forall|t: int| lo < t < hi ==> #[trigger] kss[t].len() > depth,
                total == range_bytes(kss, lo as int, hi as int, depth as int),
                range_bytes(kss, start as int, hi as int, depth as int) <= total,
                self.units@.len() <= old(self).units@.len() + BLOCK_SPAN * range_bytes(
                    kss,
                    start as int,
                    j as int,
                    depth as int,
                ),
                kss[lo as int].len() == depth ==> start == lo + 1 && term == Some(vs@[lo as int]),
                kss[lo as int].len() != depth ==> start == lo && term == None::<u32>,
                start <= j <= hi,
                labels@.len() == children@.len(),
                bounds.len() == labels@.len() + 1,
                bounds[0] == start,
                bounds[labels@.len() as int] == j,
                forall|i: int| 0 <= i < labels@.len() ==> #[trigger] bounds[i] < bounds[i + 1],
                forall|i: int| 0 <= i <= labels@.len() ==> start <= #[trigger] bounds[i] <= j,
                labels_ascending(labels@),
                labels@.len() > 0 && j < hi ==> kss[j as int][depth as int] > labels@.last(),
                gid.len() == j - start,
                forall|t: int|
                    start <= t < j ==> {
                        let g = #[trigger] gid[t - start];
                        &&& 0 <= g < labels@.len()
                        &&& kss[t][depth as int] == labels@[g]
                        &&& bounds[g] <= t < bounds[g + 1]
                    },
                forall|i: int|
                    0 <= i < children@.len() ==> self.bases@.contains(#[trigger] children@[i] as int),
                forall|i: int, x: Seq<u8>|
                    0 <= i < labels@.len() ==> #[trigger] run(self.units@, children@[i] as int, x)
                        == range_value(kss, vs@, bounds[i], bounds[i + 1], pre.push(labels@[i]) + x),
                forall|i: int, x: Seq<u8>|
                    0 <= i < labels@.len() ==> #[trigger] reaches(self.units@, children@[i] as int, x)
                        == range_has_prefix(kss, bounds[i], bounds[i + 1], pre.push(labels@[i]) + x),
            decreases hi - j,
        {
            proof {
                assert(kss[j as int] == ks@[j as int]@);
                if j == lo {
                    assert(kss[lo as int].len() != depth);
                }
            }
            let key: &Vec<u8> = &ks[j];
            let key_len = key.len();
            assert(depth < key_len);
            let c = key[depth];
            let mut e: usize = j + 1;
            while e < hi && ks[e][depth] == c
                invariant
                    lo <= j < e <= hi,
                    hi <= ks@.len(),
                    forall|t: int| 0 <= t < ks@.len() ==> kss[t] == (#[trigger] ks@[t])@,
                    forall|t: int| lo < t < hi ==> #[trigger] kss[t].len() > depth,
                    kss[j as int].len() > depth,
                    forall|t: int| j <= t < e ==> (#[trigger] kss[t])[depth as int] == c,
                decreases hi - e,
            {
                e = e + 1;
            }
            proof {
                if e < hi {
                    assert(kss[e - 1][depth as int] == c);
                    assert(lex_lt(kss[e - 1], kss[e as int]));
                    lemma_byte_order(kss[e - 1], kss[e as int], depth as int);
                }
                assert forall|t: int| j <= t < e implies (#[trigger] kss[t]).len() >= depth + 1
                    && kss[t].take(depth + 1) == kss[j as int].take(depth + 1) by {
                    assert(kss[t].take(depth as int) == pre);
                    assert(kss[j as int].take(depth as int) == pre);
                    assert forall|k: int| 0 <= k < depth + 1 implies #[trigger] kss[t].take(
                        depth + 1,
                    )[k] == kss[j as int].take(depth + 1)[k] by {
                        if k < depth {
                            assert(kss[t].take(depth as int)[k] == kss[j as int].take(
                                depth as int,
                            )[k]);
                        }
                    }
                    assert(kss[t].take(depth + 1) =~= kss[j as int].take(depth + 1));
                }
                assert(kss[j as int].take(depth + 1) =~= pre.push(c)) by {
                    assert forall|k: int| 0 <= k < depth implies #[trigger] kss[j as int].take(
                        depth + 1,
                    )[k] == pre[k] by {
                        assert(kss[j as int].take(depth as int)[k] == pre[k]);
                    }
                }
                if j == lo {
                    assert(start == lo);
                    assert(kss[lo as int].len() > depth);
                }
            }
            let ghost u_before = self.units@;
            let ghost bases_before = self.bases@;
            proof {
                lemma_range_bytes_deeper(kss, j as int, e as int, depth as int);
                lemma_range_bytes_split(kss, start as int, j as int, e as int, depth as int);
                lemma_range_bytes_split(kss, start as int, e as int, hi as int, depth as int);
                lemma_range_bytes_nonneg(kss, e as int, hi as int, depth as int);
                lemma_range_bytes_nonneg(kss, j as int, e as int, depth + 1);
            }
            let cb = match self.build_node(ks, vs, j, e, depth + 1) {
                Some(cb) => cb,
                None => {
                    return None;
                },
            };
            proof {
                assert forall|i: int, x: Seq<u8>|
                    0 <= i < labels@.len() implies #[trigger] run(self.units@, children@[i] as int, x)
                    == range_value(kss, vs@, bounds[i], bounds[i + 1], pre.push(labels@[i]) + x) by {
                    lemma_run_same(u_before, self.units@, bases_before, children@[i] as int, x);
                }
                assert forall|i: int, x: Seq<u8>|
                    0 <= i < labels@.len() implies #[trigger] reaches(
                    self.units@,
                    children@[i] as int,
                    x,
                ) == range_has_prefix(kss, bounds[i], bounds[i + 1], pre.push(labels@[i]) + x) by {
                    lemma_reaches_same(u_before, self.units@, bases_before, children@[i] as int, x);
                }
                assert forall|x: int| #[trigger] old(self).bases@.contains(x) implies same_block(
                    old(self).units@,
                    self.units@,
                    x,
                ) by {
                    assert(same_block(old(self).units@, u_before, x));
                    assert(same_block(u_before, self.units@, x));
                    assert forall|d: u8| #[trigger]
                        next_base(old(self).units@, x, d) == next_base(self.units@, x, d) by {
                        assert(next_base(old(self).units@, x, d) == next_base(u_before, x, d));
                    }
                }
            }
            let ghost n = labels@.len() as int;
            labels.push(c);
            children.push(cb);
            proof {
                bounds = bounds.push(e as int);
                gid = gid + Seq::new((e - j) as nat, |k: int| n);
                assert forall|i: int, x: Seq<u8>|
                    0 <= i < labels@.len() implies #[trigger] run(self.units@, children@[i] as int, x)
                    == range_value(kss, vs@, bounds[i], bounds[i + 1], pre.push(labels@[i]) + x) by {
                    if i == n {
                        assert(kss[j as int].take(depth + 1) == pre.push(c));
                    }
                }
                assert forall|i: int, x: Seq<u8>|
                    0 <= i < labels@.len() implies #[trigger] reaches(
                    self.units@,
                    children@[i] as int,
                    x,
                ) == range_has_prefix(kss, bounds[i], bounds[i + 1], pre.push(labels@[i]) + x) by {
                    if i == n {
                        assert(kss[j as int].take(depth + 1) == pre.push(c));
                    }
                }
                assert forall|t: int|
                    start <= t < e implies {
                    let g = #[trigger] gid[t - start];
                    &&& 0 <= g < labels@.len()
                    &&& kss[t][depth as int] == labels@[g]
                    &&& bounds[g] <= t < bounds[g + 1]
                } by {
                    if t >= j {
                        assert(gid[t - start] == n);
                    }
                }
                assert forall|i: int, k: int|
                    0 <= i < k < labels@.len() implies #[trigger] labels@[i] < #[trigger] labels@[k] by {
                    if k == n && i < n {
                        assert(labels@[i] <= labels@[n - 1]);
                    }
                }
            }
            j = e;
        }
        let ghost labels_s = labels@;
        let ghost children_s = children@;
        let ghost u_before = self.units@;
        let ghost bases_before = self.bases@;
        let b = match self.place(term, labels, children) {
            Some(b) => b,
            None => {
                return None;
            },
        };
        proof {
            assert forall|i: int, x: Seq<u8>|
                0 <= i < labels_s.len() implies #[trigger] run(self.units@, children_s[i] as int, x)
                == range_value(kss, vs@, bounds[i], bounds[i + 1], pre.push(labels_s[i]) + x) by {
                lemma_run_same(u_before, self.units@, bases_before, children_s[i] as int, x);
            }
            assert forall|i: int, x: Seq<u8>|
                0 <= i < labels_s.len() implies #[trigger] reaches(
                self.units@,
                children_s[i] as int,
                x,
            ) == range_has_prefix(kss, bounds[i], bounds[i + 1], pre.push(labels_s[i]) + x) by {
                lemma_reaches_same(u_before, self.units@, bases_before, children_s[i] as int, x);
            }
            assert forall|s: Seq<u8>| #[trigger]
                run(self.units@, b as int, s) == range_value(kss, vs@, lo as int, hi as int, pre + s) by {
                lemma_node_lang(
                    self.units@,
                    b as int,
                    term,
                    labels_s,
                    children_s,
                    kss,
                    vs@,
                    lo as int,
                    hi as int,
                    depth as int,
                    start as int,
                    bounds,
                    gid,
                    s,
                );
            }
            assert forall|s: Seq<u8>| #[trigger]
                reaches(self.units@, b as int, s) == range_has_prefix(
                    kss,
                    lo as int,
                    hi as int,
                    pre + s,
                ) by {
                lemma_node_lang(
                    self.units@,
                    b as int,
                    term,
                    labels_s,
                    children_s,
                    kss,
                    vs@,
                    lo as int,
                    hi as int,
                    depth as int,
                    start as int,
                    bounds,
                    gid,
                    s,
                );
            }
            assert forall|x: int| #[trigger] old(self).bases@.contains(x) implies same_block(
                old(self).units@,
                self.units@,
                x,
            ) by {
                assert(same_block(old(self).units@, u_before, x));
                assert(same_block(u_before, self.units@, x));
                assert forall|d: u8| #[trigger]
                    next_base(old(self).units@, x, d) == next_base(self.units@, x, d) by {
                    assert(next_base(old(self).units@, x, d) == next_base(u_before, x, d));
                }
            }
        }
        Some(b)
    }

    /// Places a block that holds the value `term` and a transition on each
    /// `labels[i]` to the block at `children[i]`; in the minimizing mode a
    /// placed block that holds exactly that is returned instead.
    fn place(&mut self, term: Option<u32>, labels: Vec<u8>, children: Vec<u64>) -> (r: Option<u64>)
        requires
            old(self).wf(),
            labels@.len() == children@.len(),
            labels_ascending(labels@),
            forall|i: int|
                0 <= i < children@.len() ==> old(self).bases@.contains(#[trigger] children@[i] as int),
            term matches Some(v) ==> v <= MAX_VALUE,
        ensures
            final(self).wf(),
            final(self).minimize == old(self).minimize,
            old(self).bases@.subset_of(final(self).bases@),
            forall|x: int| #[trigger]
                old(self).bases@.contains(x) ==> same_block(old(self).units@, final(self).units@, x),
            r matches Some(b) ==> final(self).bases@.contains(b as int) && block_holds(
                final(self).units@,
                b as int,
                term,
                labels@,
                children@,
            ),
            final(self).units@.len() <= old(self).units@.len() + BLOCK_SPAN,
            old(self).units@.len() <= base_limit() ==> r is Some,
    {
        match self.find_placed(term, &labels, &children) {
            Some(b) => {
                return Some(b);
            },
            None => {},
        }
        let b = match self.find_base(term.is_some(), &labels) {
            Some(b) => b,
            None => {
                return None;
            },
        };
        let ghost u0 = self.units@;
        let ghost bases0 = self.bases@;
        assert(forall|k: int|
            0 <= k < self.placed@.len() ==> bases0.contains((#[trigger] self.placed@[k]).base as int));
        proof {
            self.lemma_blank(b as int);
        }
        self.bases = Ghost(self.bases@.insert(b as int));
        self.used.set(b as usize, true);
        assert(self.wf()) by {
            assert forall|x: int| #[trigger] self.bases@.contains(x) implies 1 <= x <= base_limit() && x
                < self.units@.len() && self.used@[x] by {
                if x != b {
                    assert(bases0.contains(x));
                }
            }
        }
        let mut i: usize = 0;
        while i < labels.len()
            invariant
                self.wf(),
                self.minimize == old(self).minimize,
                self.bases@ == bases0.insert(b as int),
                !bases0.contains(b as int),
                self.placed@ == old(self).placed@,
                old(self).bases@ == bases0,
                forall|k: int|
                    0 <= k < self.placed@.len() ==> bases0.contains(
                        (#[trigger] self.placed@[k]).base as int,
                    ),
                forall|x: int| #[trigger] terminal(u0, x) == terminal(old(self).units@, x),
                forall|x: int, d: u8| #[trigger] next_base(u0, x, d) == next_base(
                    old(self).units@,
                    x,
                    d,
                ),
                1 <= b <= base_limit(),
                b + BLOCK_SPAN <= self.units@.len(),
                self.units@.len() == u0.len(),
                u0.len() <= old(self).units@.len() + BLOCK_SPAN,
                i <= labels@.len(),
                labels@.len() == children@.len(),
                labels_ascending(labels@),
                forall|j: int|
                    0 <= j < children@.len() ==> bases0.contains(#[trigger] children@[j] as int),
                forall|x: int| #[trigger] bases0.contains(x) ==> same_block(u0, self.units@, x),
                terminal(self.units@, b as int) == None::<u32>,
                forall|j: int|
                    0 <= j < i ==> next_base(self.units@, b as int, #[trigger] labels@[j]) == Some(
                        children@[j] as int,
                    ),
                forall|c: u8|
                    (forall|j: int| 0 <= j < i ==> labels@[j] != c) ==> #[trigger] next_base(
                        self.units@,
                        b as int,
                        c,
                    ) == None::<int>,
                forall|j: int|
                    i <= j < labels@.len() ==> self.units@[slot_of(b as int, #[trigger] labels@[j])]
                        == 0,
                term.is_some() ==> self.units@[b as int] == 0,
            decreases labels@.len() - i,
        {
            let c = labels[i];
            let child = children[i];
            assert(bases0.contains(children@[i as int] as int));
            assert(self.bases@.contains(child as int));
            let w = make_transition(child, c);
            let ghost prev = self.units@;
            proof {
                lemma_write_transition(prev, b as int, c, w);
            }
            self.units.set(b as usize + 1 + c as usize, w);
            assert forall|j: int|
                i + 1 <= j < labels@.len() implies self.units@[slot_of(
                b as int,
                #[trigger] labels@[j],
            )] == 0 by {
                assert(labels@[i as int] < labels@[j]);
            }
            assert forall|x: int| #[trigger] bases0.contains(x) implies same_block(
                u0,
                self.units@,
                x,
            ) by {
                assert(same_block(u0, prev, x));
                assert forall|d: u8| #[trigger]
                    next_base(u0, x, d) == next_base(self.units@, x, d) by {
                    assert(next_base(u0, x, d) == next_base(prev, x, d));
                }
            }
            assert forall|j: int| 0 <= j < i + 1 implies next_base(
                self.units@,
                b as int,
                #[trigger] labels@[j],
            ) == Some(children@[j] as int) by {
                if j < i {
                    assert(labels@[j] < labels@[i as int]);
                }
            }
            assert forall|d: u8|
                (forall|j: int| 0 <= j < i + 1 ==> labels@[j] != d) implies #[trigger] next_base(
                self.units@,
                b as int,
                d,
            ) == None::<int> by {
                assert(labels@[i as int] != d);
                assert(forall|j: int| 0 <= j < i ==> labels@[j] != d);
            }
            assert(self.owned()) by {
                assert forall|t: int| 0 <= t < self.units@.len() implies {
                    &&& unit_has_leaf(#[trigger] self.units@[t]) ==> self.bases@.contains(t)
                    &&& (self.units@[t] != 0 && !unit_has_leaf(self.units@[t]))
                        ==> self.bases@.contains(t - 1 - unit_check(self.units@[t]))
                } by {
                    if t != slot_of(b as int, c) {
                        assert(self.units@[t] == prev[t]);
                    }
                }
            }
            assert(closed(self.units@, self.bases@)) by {
                assert forall|x: int, d: u8|
                    self.bases@.contains(x) && (#[trigger] next_base(self.units@, x, d)).is_some()
                        implies self.bases@.contains(next_base(self.units@, x, d)->0) by {
                    if x != b || d != c {
                        assert(next_base(self.units@, x, d) == next_base(prev, x, d));
                    }
                }
            }
            assert forall|k: int| 0 <= k < self.placed@.len() implies block_holds(
                self.units@,
                self.placed@[k].base as int,
                self.placed@[k].term,
                self.placed@[k].labels@,
                self.placed@[k].children@,
            ) by {
                let p = self.placed@[k];
                assert(block_holds(prev, p.base as int, p.term, p.labels@, p.children@));
                assert(old(self).placed@[k] == p);
                assert(p.base as int != b as int);
                assert forall|d: u8| #[trigger]
                    next_base(self.units@, p.base as int, d) == next_base(prev, p.base as int, d) by {}
            }
            i = i + 1;
        }
        match term {
            Some(v) => {
                let w = make_leaf(v);
                let ghost prev = self.units@;
                proof {
                    lemma_write_leaf(prev, b as int, w);
                }
                self.units.set(b as usize, w);
                assert(self.owned()) by {
                    assert forall|t: int| 0 <= t < self.units@.len() implies {
                        &&& unit_has_leaf(#[trigger] self.units@[t]) ==> self.bases@.contains(t)
                        &&& (self.units@[t] != 0 && !unit_has_leaf(self.units@[t]))
                            ==> self.bases@.contains(t - 1 - unit_check(self.units@[t]))
                    } by {
                        if t != b as int {
                            assert(self.units@[t] == prev[t]);
                        }
                    }
                }
                assert(closed(self.units@, self.bases@)) by {
                    assert forall|x: int, d: u8|
                        self.bases@.contains(x) && (#[trigger] next_base(
                            self.units@,
                            x,
                            d,
                        )).is_some() implies self.bases@.contains(
                        next_base(self.units@, x, d)->0,
                    ) by {
                        assert(next_base(self.units@, x, d) == next_base(prev, x, d));
                    }
                }
                assert forall|k: int| 0 <= k < self.placed@.len() implies block_holds(
                    self.units@,
                    self.placed@[k].base as int,
                    self.placed@[k].term,
                    self.placed@[k].labels@,
                    self.placed@[k].children@,
                ) by {
                    let p = self.placed@[k];
                    assert(block_holds(prev, p.base as int, p.term, p.labels@, p.children@));
                    assert(old(self).placed@[k] == p);
                    assert(p.base as int != b as int);
                }
                assert forall|x: int| #[trigger] bases0.contains(x) implies same_block(
                    u0,
                    self.units@,
                    x,
                ) by {
                    assert(same_block(u0, prev, x));
                    assert(x != b as int);
                }
            },
            None => {},
        }
        assert(block_holds(self.units@, b as int, term, labels@, children@));
        if self.minimize {
            let h = bucket_of(term, &labels, &children, self.buckets.len());
            let idx = self.placed.len();
            let ghost units = self.units@;
            self.placed.push(Placed { term, labels, children, base: b });
            let mut bucket: Vec<usize> = Vec::new();
            self.buckets.set_and_swap(h, &mut bucket);
            bucket.push(idx);
            self.buckets.set_and_swap(h, &mut bucket);
        }
        let mut hd = self.head;
        while hd < self.units.len() && self.units[hd] != 0
            invariant
                self.wf(),
                hd <= self.units@.len(),
            decreases self.units@.len() - hd,
        {
            hd = hd + 1;
        }
        let len = self.units.len();
        if hd < len && len - hd > SEARCH_WINDOW {
            hd = len - SEARCH_WINDOW;
        }
        self.head = hd;
        proof {
            assert forall|x: int| #[trigger] old(self).bases@.contains(x) implies same_block(
                old(self).units@,
                self.units@,
                x,
            ) by {
                assert(same_block(u0, self.units@, x));
                assert(terminal(u0, x) == terminal(old(self).units@, x));
                assert forall|d: u8| #[trigger]
                    next_base(old(self).units@, x, d) == next_base(self.units@, x, d) by {
                    assert(next_base(u0, x, d) == next_base(old(self).units@, x, d));
                    assert(next_base(u0, x, d) == next_base(self.units@, x, d));
                }
            }
        }
        Some(b)
    }

    /// Whether the slots that a block with these labels needs at base `b`
    /// are all free.
    fn slots_free(&self, b: usize, has_term: bool, labels: &Vec<u8>) -> (r: bool)
        requires
            self.wf(),
            b + BLOCK_SPAN <= self.units@.len(),
        ensures
            r <==> (has_term ==> self.units@[b as int] == 0) && forall|i: int|
                0 <= i < labels@.len() ==> self.units@[slot_of(b as int, #[trigger] labels@[i])]
                    == 0,
    {
        if has_term && self.units[b] != 0 {
            return false;
        }
        let mut i: usize = 0;
        while i < labels.len()
            invariant
                i <= labels@.len(),
                self.wf(),
                b + BLOCK_SPAN <= self.units@.len(),
                forall|j: int|
                    0 <= j < i ==> self.units@[slot_of(b as int, #[trigger] labels@[j])] == 0,
            decreases labels@.len() - i,
        {
            if self.units[b + 1 + labels[i] as usize] != 0 {
                return false;
            }
            i = i + 1;
        }
        true
    }

    /// Finds a base that no block uses and whose needed slots are free,
    /// growing the array so that the whole block fits.
    fn find_base(&mut self, has_term: bool, labels: &Vec<u8>) -> (r: Option<u64>)
        requires
            old(self).wf(),
        ensures
            final(self).wf(),
            final(self).bases@ == old(self).bases@,
            final(self).minimize == old(self).minimize,
            final(self).placed@ == old(self).placed@,
            forall|x: int| #[trigger] terminal(final(self).units@, x) == terminal(old(self).units@, x),
            forall|x: int, c: u8| #[trigger] next_base(final(self).units@, x, c) == next_base(
                old(self).units@,
                x,
                c,
            ),
            old(self).units@.len() <= base_limit() ==> r is Some,
            r matches Some(b) ==> {
                &&& 1 <= b <= base_limit()
                &&& b <= old(self).units@.len()
                &&& final(self).units@.len() <= old(self).units@.len() + BLOCK_SPAN
                &&& b + BLOCK_SPAN <= final(self).units@.len()
                &&& !final(self).bases@.contains(b as int)
                &&& has_term ==> final(self).units@[b as int] == 0
                &&& forall|i: int|
                    0 <= i < labels@.len() ==> final(self).units@[slot_of(
                        b as int,
                        #[trigger] labels@[i],
                    )] == 0
            },
    {
        let first: usize = if has_term {
            0
        } else if labels.len() > 0 {
            labels[0] as usize + 1
        } else {
            0
        };
        let limit = base_limit_value();
        let mut b: usize = if self.head > first + 1 && self.head - first <= limit {
            self.head - first
        } else {
            1
        };
        loop
            invariant
                self.wf(),
                limit == base_limit(),
                1 <= b <= old(self).units@.len(),
                self.units@.len() <= old(self).units@.len() + BLOCK_SPAN,
                self.units@.len() >= old(self).units@.len(),
                self.units@.len() <= b + BLOCK_SPAN - 1 || self.units@.len() == old(
                    self,
                ).units@.len(),
                forall|t: int|
                    old(self).units@.len() <= t < self.units@.len() ==> #[trigger] self.units@[t]
                        == 0,
                forall|t: int|
                    old(self).units@.len() <= t < self.units@.len() ==> #[trigger] self.used@[t]
                        == false,
                self.bases@ == old(self).bases@,
                self.minimize == old(self).minimize,
                self.placed@ == old(self).placed@,
                forall|x: int| #[trigger] terminal(self.units@, x) == terminal(old(self).units@, x),
                forall|x: int, c: u8| #[trigger] next_base(self.units@, x, c) == next_base(
                    old(self).units@,
                    x,
                    c,
                ),
            decreases base_limit() + 1 - b,
        {
            if b > limit {
                return None;
            }
            self.grow(b + BLOCK_SPAN);
            if !self.used[b] && self.slots_free(b, has_term, labels) {
                return Some(b as u64);
            }
            proof {
                if b == old(self).units@.len() {
                    assert(!self.used@[b as int]);
                    assert(self.units@[b as int] == 0);
                    assert forall|i: int| 0 <= i < labels@.len() implies self.units@[slot_of(
                        b as int,
                        #[trigger] labels@[i],
                    )] == 0 by {
                        assert(old(self).units@.len() <= slot_of(b as int, labels@[i]));
                    }
                }
            }
            b = b + 1;
        }
    }

    /// Finds a placed block that holds exactly this value and these
    /// transitions.
    fn find_placed(&self, term: Option<u32>, labels: &Vec<u8>, children: &Vec<u64>) -> (r: Option<
        u64,
    >)
        requires
            self.wf(),
        ensures
            r matches Some(b) ==> self.bases@.contains(b as int) && block_holds(
                self.units@,
                b as int,
                term,
                labels@,
                children@,
            ),
    {
        if !self.minimize {
            return None;
        }
        let h = bucket_of(term, labels, children, self.buckets.len());
        let bucket = &self.buckets[h];
        let mut k: usize = 0;
        while k < bucket.len()
            invariant
                self.wf(),
                k <= bucket@.len(),
            decreases bucket@.len() - k,
        {
            let idx = bucket[k];
            if idx < self.placed.len() {
                let p = &self.placed[idx];
                if same_block_contents(p, term, labels, children) {
                    assert(self.placed@[idx as int] == *p);
                    return Some(p.base);
                }
            }
            k = k + 1;
        }
        None
    }

    /// Appends free slots until there are at least `n`.
    fn grow(&mut self, n: usize)
        requires
            old(self).wf(),
            n <= base_limit() + BLOCK_SPAN + 1,
        ensures
            final(self).wf(),
            final(self).units@.len() >= n,
            final(self).units@.len() >= old(self).units@.len(),
            final(self).bases@ == old(self).bases@,
            final(self).head == old(self).head,
            final(self).minimize == old(self).minimize,
            final(self).placed@ == old(self).placed@,
            forall|x: int| #[trigger] terminal(final(self).units@, x) == terminal(old(self).units@, x),
            forall|x: int, c: u8| #[trigger] next_base(final(self).units@, x, c) == next_base(
                old(self).units@,
                x,
                c,
            ),
            forall|t: int|
                old(self).units@.len() <= t < final(self).units@.len() ==> #[trigger] final(self).units@[t] == 0,
            forall|t: int| 0 <= t < old(self).units@.len() ==> #[trigger] final(self).units@[t] == old(self).units@[t],
            final(self).units@.len() == (if n > old(self).units@.len() {
                n as nat
            } else {
                old(self).units@.len()
            }),
            forall|t: int|
                old(self).units@.len() <= t < final(self).units@.len()
                    ==> #[trigger] final(self).used@[t] == false,
            forall|t: int|
                0 <= t < old(self).units@.len() ==> #[trigger] final(self).used@[t] == old(
                    self,
                ).used@[t],
    {
        while self.units.len() < n
            invariant
                self.wf(),
                self.units@.len() >= old(self).units@.len(),
                self.bases@ == old(self).bases@,
                self.head == old(self).head,
                self.minimize == old(self).minimize,
                self.placed@ == old(self).placed@,
                n <= base_limit() + BLOCK_SPAN + 1,
                forall|x: int| #[trigger] terminal(self.units@, x) == terminal(old(self).units@, x),
                forall|x: int, c: u8| #[trigger] next_base(self.units@, x, c) == next_base(
                    old(self).units@,
                    x,
                    c,
                ),
                forall|t: int|
                    old(self).units@.len() <= t < self.units@.len() ==> #[trigger] self.units@[t]
                        == 0,
                forall|t: int|
                    0 <= t < old(self).units@.len() ==> #[trigger] self.units@[t] == old(
                        self,
                    ).units@[t],
                self.units@.len() <= (if n > old(self).units@.len() {
                    n as nat
                } else {
                    old(self).units@.len()
                }),
                forall|t: int|
                    old(self).units@.len() <= t < self.units@.len() ==> #[trigger] self.used@[t]
                        == false,
                forall|t: int|
                    0 <= t < old(self).units@.len() ==> #[trigger] self.used@[t] == old(
                        self,
                    ).used@[t],
            decreases n - self.units@.len(),
        {
            proof {
                lemma_extend(self.units@);
                lemma_free_unit();
            }
            let ghost prev = self.units@;
            let ghost prev_used = self.used@;
            self.units.push(0u64);
            self.used.push(false);
            assert forall|i: int| 0 <= i < self.placed@.len() implies block_holds(
                self.units@,
                self.placed@[i].base as int,
                self.placed@[i].term,
                self.placed@[i].labels@,
                self.placed@[i].children@,
            ) by {
                let p = self.placed@[i];
                assert(block_holds(prev, p.base as int, p.term, p.labels@, p.children@));
            }
            assert(self.owned());
            assert forall|b: int| #[trigger] self.bases@.contains(b) implies self.used@[b] by {
                assert(prev_used[b]);
            }
            assert(self.units@[0] == prev[0]);
            assert(closed(self.units@, self.bases@)) by {
                assert forall|b: int, c: u8|
                    self.bases@.contains(b) && (#[trigger] next_base(self.units@, b, c)).is_some()
                        implies self.bases@.contains(next_base(self.units@, b, c)->0) by {
                    assert(next_base(prev, b, c) == next_base(self.units@, b, c));
                }
            }
        }
    }
}

proof fn lemma_key_seqs(ks: Seq<Vec<u8>>)
    ensures
        key_seqs(ks).len() == ks.len(),
        forall|t: int| 0 <= t < ks.len() ==> #[trigger] key_seqs(ks)[t] == ks[t]@,
{
}

/// A key after the first of a range that shares its first `depth` bytes
/// is longer than `depth`.
proof fn lemma_longer(kss: Seq<Seq<u8>>, lo: int, t: int, depth: int)
    requires
        strictly_sorted(kss),
        0 <= lo < t < kss.len(),
        0 <= depth <= kss[lo].len(),
        kss[t].len() >= depth,
        kss[t].take(depth) == kss[lo].take(depth),
    ensures
        kss[t].len() > depth,
{
    if kss[t].len() == depth {
        assert(kss[t].take(depth) =~= kss[t]);
        assert(lex_lt(kss[lo], kss[t]));
        lemma_prefix_not_after(kss[lo], kss[t]);
    }
}

/// The state of the keys `lo..hi`, which share their first `depth` bytes,
/// holds for each suffix the value of the key that it completes.
proof fn lemma_node_lang(
    u: Seq<u64>,
    b: int,
    term: Option<u32>,
    labels: Seq<u8>,
    children: Seq<u64>,
    ks: Seq<Seq<u8>>,
    vs: Seq<u32>,
    lo: int,
    hi: int,
    depth: int,
    start: int,
    bounds: Seq<int>,
    gid: Seq<int>,
    s: Seq<u8>,
)
    requires
        strictly_sorted(ks),
        vs.len() == ks.len(),
        0 <= lo < hi <= ks.len(),
        0 <= depth,
        forall|t: int|
            lo <= t < hi ==> (#[trigger] ks[t]).len() >= depth && ks[t].take(depth) == ks[lo].take(
                depth,
            ),
        block_holds(u, b, term, labels, children),
        ks[lo].len() == depth ==> start == lo + 1 && term == Some(vs[lo]),
        ks[lo].len() != depth ==> start == lo && term == None::<u32>,
        labels.len() == children.len(),
        bounds.len() == labels.len() + 1,
        forall|i: int| 0 <= i <= labels.len() ==> start <= #[trigger] bounds[i] <= hi,
        forall|i: int| 0 <= i < labels.len() ==> #[trigger] bounds[i] < bounds[i + 1],
        labels_ascending(labels),
        gid.len() == hi - start,
        forall|t: int|
            start <= t < hi ==> {
                let g = #[trigger] gid[t - start];
                &&& 0 <= g < labels.len()
                &&& ks[t][depth] == labels[g]
                &&& bounds[g] <= t < bounds[g + 1]
            },
        forall|t: int| start <= t < hi ==> (#[trigger] ks[t]).len() > depth,
        forall|i: int, x: Seq<u8>|
            0 <= i < labels.len() ==> #[trigger] run(u, children[i] as int, x) == range_value(
                ks,
                vs,
                bounds[i],
                bounds[i + 1],
                ks[lo].take(depth).push(labels[i]) + x,
            ),
        forall|i: int, x: Seq<u8>|
            0 <= i < labels.len() ==> #[trigger] reaches(u, children[i] as int, x)
                == range_has_prefix(ks, bounds[i], bounds[i + 1], ks[lo].take(depth).push(labels[i]) + x),
    ensures
        run(u, b, s) == range_value(ks, vs, lo, hi, ks[lo].take(depth) + s),
        reaches(u, b, s) == range_has_prefix(ks, lo, hi, ks[lo].take(depth) + s),
{
    let pre = ks[lo].take(depth);
    let k = pre + s;
    if s.len() == 0 {
        assert(k =~= pre);
        assert(starts_with_in(ks, lo, hi, k, lo));
        if ks[lo].len() == depth {
            assert(ks[lo] =~= pre);
            assert(in_range(ks, lo, hi, k, lo));
            let t = choose|t: int| in_range(ks, lo, hi, k, t);
            lemma_sorted_unique(ks, t, lo);
        } else {
            assert forall|t: int| !in_range(ks, lo, hi, k, t) by {
                if in_range(ks, lo, hi, k, t) {
                    assert(ks[t].len() == depth);
                    assert(t != lo);
                    assert(lex_lt(ks[lo], ks[t]));
                    lemma_prefix_not_after(ks[lo], ks[t]);
                }
            }
        }
    } else {
        let c = s[0];
        assert(k.len() > depth && k[depth] == c);
        if exists|i: int| 0 <= i < labels.len() && labels[i] == c {
            let i = choose|i: int| 0 <= i < labels.len() && labels[i] == c;
            assert(next_base(u, b, labels[i]) == Some(children[i] as int));
            assert(pre.push(c) + s.drop_first() =~= k);
            assert(run(u, children[i] as int, s.drop_first()) == range_value(
                ks,
                vs,
                bounds[i],
                bounds[i + 1],
                pre.push(labels[i]) + s.drop_first(),
            ));
            assert forall|t: int|
                lo <= t < hi && !(bounds[i] <= t < bounds[i + 1]) implies #[trigger] ks[t] != k by {
                if t >= start {
                    let g = gid[t - start];
                    if g != i {
                        if g < i {
                            assert(labels[g] < labels[i]);
                        } else {
                            assert(labels[i] < labels[g]);
                        }
                    }
                }
            }
            lemma_range_narrow(ks, vs, lo, hi, bounds[i], bounds[i + 1], k);
            assert(reaches(u, children[i] as int, s.drop_first()) == range_has_prefix(
                ks,
                bounds[i],
                bounds[i + 1],
                pre.push(labels[i]) + s.drop_first(),
            ));
            if range_has_prefix(ks, lo, hi, k) {
                let t = choose|t: int| starts_with_in(ks, lo, hi, k, t);
                assert(ks[t].take(k.len() as int)[depth] == ks[t][depth]);
                if !(bounds[i] <= t < bounds[i + 1]) {
                    if t >= start {
                        let g = gid[t - start];
                        if g < i {
                            assert(labels[g] < labels[i]);
                        } else if g > i {
                            assert(labels[i] < labels[g]);
                        }
                    }
                }
                assert(starts_with_in(ks, bounds[i], bounds[i + 1], k, t));
            }
            assert(reaches(u, b, s) == reaches(u, children[i] as int, s.drop_first()));
            let g0 = bounds[i];
            let g1 = bounds[i + 1];
            if range_has_prefix(ks, g0, g1, k) {
                let t = choose|t: int| starts_with_in(ks, g0, g1, k, t);
                assert(starts_with_in(ks, lo, hi, k, t));
            }
        } else {
            assert(next_base(u, b, c) == None::<int>);
            assert forall|t: int| !starts_with_in(ks, lo, hi, k, t) by {
                if starts_with_in(ks, lo, hi, k, t) {
                    assert(ks[t].take(k.len() as int)[depth] == ks[t][depth]);
                    if t >= start {
                        let g = gid[t - start];
                        assert(labels[g] == c);
                    }
                }
            }
            assert forall|t: int| !in_range(ks, lo, hi, k, t) by {
                if in_range(ks, lo, hi, k, t) && t >= start {
                    let g = gid[t - start];
                    assert(labels[g] == c);
                }
            }
        }
    }
}

/// Builds the unit array of a strictly sorted key list with its values.
/// With `minimize`, blocks with equal contents are shared.
pub fn build_units(ks: &Vec<Vec<u8>>, vs: &Vec<u32>, minimize: bool) -> (r: Option<Vec<u64>>)
    requires
        strictly_sorted(key_seqs(ks@)),
        vs@.len() == ks@.len(),
        forall|t: int| 0 <= t < vs@.len() ==> #[trigger] vs@[t] <= MAX_VALUE,
    ensures
        r matches Some(u) ==> forall|s: Seq<u8>| #[trigger]
            lookup(u@, 0, s) == range_value(key_seqs(ks@), vs@, 0, ks@.len() as int, s),
        r matches Some(u) ==> u@.len() <= base_limit() + BLOCK_SPAN + 1,
        r matches Some(u) ==> u@.len() > 0,
        r matches Some(u) ==> forall|w: Seq<u8>| #[trigger]
            walk(u@, 0, w).is_some() == (w.len() == 0 || range_has_prefix(
                key_seqs(ks@),
                0,
                ks@.len() as int,
                w,
            )),
        r is None ==> 1 + BLOCK_SPAN * total_bytes(key_seqs(ks@)) > base_limit(),
{
    let mut builder = Builder::new(minimize);
    let ghost kss = key_seqs(ks@);
    assert(kss.len() == ks@.len());
    let root = if ks.len() == 0 {
        builder.place(None, Vec::new(), Vec::new())
    } else {
        proof {
            assert forall|t: int| 0 <= t < ks@.len() implies (#[trigger] kss[t]).len() >= 0
                && kss[t].take(0) == kss[0].take(0) by {
                assert(kss[t].take(0) =~= kss[0].take(0));
            }
        }
        builder.build_node(ks, vs, 0, ks.len(), 0)
    };
    let rb = match root {
        Some(rb) => rb,
        None => {
            return None;
        },
    };
    let ghost u1 = builder.units@;
    let ghost bases = builder.bases@;
    proof {
        assert(bases.contains(rb as int));
    }
    let w = make_transition(rb, 0);
    builder.units.set(0, w);
    let ghost u2 = builder.units@;
    proof {
        assert forall|x: int| #[trigger] bases.contains(x) implies same_block(u1, u2, x) by {
            assert forall|d: u8| #[trigger] next_base(u1, x, d) == next_base(u2, x, d) by {}
        }
        assert forall|s: Seq<u8>| #[trigger]
            lookup(u2, 0, s) == range_value(kss, vs@, 0, ks@.len() as int, s) by {
            lemma_lookup_run(u2, 0, s);
            lemma_run_same(u1, u2, bases, rb as int, s);
            if ks@.len() == 0 {
                if s.len() > 0 {
                    assert(next_base(u1, rb as int, s[0]) == None::<int>);
                }
                assert(!exists|t: int| in_range(kss, 0, 0, s, t));
            } else {
                assert(kss[0].take(0) + s =~= s);
            }
        }
        assert forall|w: Seq<u8>| #[trigger]
            walk(u2, 0, w).is_some() == (w.len() == 0 || range_has_prefix(
                kss,
                0,
                ks@.len() as int,
                w,
            )) by {
            lemma_walk_reaches(u2, 0, w);
            lemma_reaches_same(u1, u2, bases, rb as int, w);
            if ks@.len() == 0 {
                if w.len() > 0 {
                    assert(next_base(u1, rb as int, w[0]) == None::<int>);
                }
                assert(!exists|t: int| starts_with_in(kss, 0, 0, w, t));
            } else {
                assert(kss[0].take(0) + w =~= w);
                assert(w.len() == 0 ==> starts_with_in(kss, 0, ks@.len() as int, w, 0)) by {
                    if w.len() == 0 {
                        assert(kss[0].take(0) =~= w);
                    }
                }
            }
        }
    }
    Some(builder.units)
}

/// Whether a placed block holds exactly this value and these transitions.
fn same_block_contents(p: &Placed, term: Option<u32>, labels: &Vec<u8>, children: &Vec<u64>) -> (r:
    bool)
    ensures
        r ==> p.term == term && p.labels@ == labels@ && p.children@ == children@,
{
    match (p.term, term) {
        (Some(x), Some(y)) => {
            if x != y {
                return false;
            }
        },
        (None, None) => {},
        _ => {
            return false;
        },
    }
    if p.labels.len() != labels.len() || p.children.len() != children.len() {
        return false;
    }
    let mut i: usize = 0;
    while i < labels.len()
        invariant
            i <= labels@.len(),
            p.labels@.len() == labels@.len(),
            forall|j: int| 0 <= j < i ==> p.labels@[j] == labels@[j],
        decreases labels@.len() - i,
    {
        if p.labels[i] != labels[i] {
            return false;
        }
        i = i + 1;
    }
    let mut i: usize = 0;
    while i < children.len()
        invariant
            i <= children@.len(),
            p.children@.len() == children@.len(),
            forall|j: int| 0 <= j < i ==> p.children@[j] == children@[j],
        decreases children@.len() - i,
    {
        if p.children[i] != children[i] {
            return false;
        }
        i = i + 1;
    }
    assert(p.labels@ =~= labels@);
    assert(p.children@ =~= children@);
    true
}

/// The bucket of the table of placed blocks where a block with these
/// contents is filed.
fn bucket_of(term: Option<u32>, labels: &Vec<u8>, children: &Vec<u64>, n: usize) -> (r: usize)
    requires
        n > 0,
    ensures
        r < n,
{
    let mut h: u64 = match term {
        Some(v) => (v as u64).wrapping_add(1),
        None => 0,
    };
    let mut i: usize = 0;
    while i < labels.len()
        invariant
            i <= labels@.len(),
        decreases labels@.len() - i,
    {
        h = h.wrapping_mul(0x100000001B3u64) ^ (labels[i] as u64);
        i = i + 1;
    }
    let mut i: usize = 0;
    while i < children.len()
        invariant
            i <= children@.len(),
        decreases children@.len() - i,
    {
        h = h.wrapping_mul(0x100000001B3u64) ^ (children[i] as u64);
        i = i + 1;
    }
    (h % (n as u64)) as usize
}

} // verus!
