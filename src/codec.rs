//! The binary layout of a unit array: each unit as eight little-endian
//! bytes, one after another, with no header.
use vstd::prelude::*;

verus! {

/// Byte `k` (0 for the lowest) of `x`.
pub open spec fn byte_of(x: u64, k: int) -> u8 {
    ((x >> ((8 * k) as u64)) & 0xFFu64) as u8
}

/// The eight bytes that store `x`, lowest first.
pub open spec fn unit_bytes(x: u64) -> Seq<u8> {
    Seq::new(8, |k: int| byte_of(x, k))
}

/// The word whose little-endian bytes are `b[p..p + 8]`.
pub open spec fn word_at(b: Seq<u8>, p: int) -> u64 {
    (b[p] as u64) | ((b[p + 1] as u64) << 8u64) | ((b[p + 2] as u64) << 16u64) | ((b[p + 3] as u64)
        << 24u64) | ((b[p + 4] as u64) << 32u64) | ((b[p + 5] as u64) << 40u64) | ((b[p
        + 6] as u64) << 48u64) | ((b[p + 7] as u64) << 56u64)
}

/// The bytes that store the units `u`.
pub open spec fn units_to_bytes(u: Seq<u64>) -> Seq<u8> {
    Seq::new(8 * u.len(), |j: int| byte_of(u[j / 8], j % 8))
}

/// The units stored in the bytes `b`; a trailing part of a unit is ignored.
pub open spec fn bytes_to_units(b: Seq<u8>) -> Seq<u64> {
    Seq::new(b.len() / 8, |i: int| word_at(b, 8 * i))
}

proof fn lemma_byte_of(x: u64)
    ensures
        byte_of(x, 0) == (x & 0xFFu64) as u8,
        byte_of(x, 1) == ((x >> 8u64) & 0xFFu64) as u8,
        byte_of(x, 2) == ((x >> 16u64) & 0xFFu64) as u8,
        byte_of(x, 3) == ((x >> 24u64) & 0xFFu64) as u8,
        byte_of(x, 4) == ((x >> 32u64) & 0xFFu64) as u8,
        byte_of(x, 5) == ((x >> 40u64) & 0xFFu64) as u8,
        byte_of(x, 6) == ((x >> 48u64) & 0xFFu64) as u8,
        byte_of(x, 7) == ((x >> 56u64) & 0xFFu64) as u8,
{
    assert(x >> 0u64 == x) by (bit_vector);
}

proof fn lemma_word_bytes(x: u64)
    ensures
        word_at(unit_bytes(x), 0) == x,
{
    lemma_byte_of(x);
    let b = unit_bytes(x);
    assert(b[0] == byte_of(x, 0));
    assert(b[1] == byte_of(x, 1));
    assert(b[2] == byte_of(x, 2));
    assert(b[3] == byte_of(x, 3));
    assert(b[4] == byte_of(x, 4));
    assert(b[5] == byte_of(x, 5));
    assert(b[6] == byte_of(x, 6));
    assert(b[7] == byte_of(x, 7));
    assert(((x & 0xFFu64) as u8 as u64) | ((((x >> 8u64) & 0xFFu64) as u8 as u64) << 8u64) | ((((x
        >> 16u64) & 0xFFu64) as u8 as u64) << 16u64) | ((((x >> 24u64) & 0xFFu64) as u8 as u64)
        << 24u64) | ((((x >> 32u64) & 0xFFu64) as u8 as u64) << 32u64) | ((((x >> 40u64)
        & 0xFFu64) as u8 as u64) << 40u64) | ((((x >> 48u64) & 0xFFu64) as u8 as u64) << 48u64)
        | ((((x >> 56u64) & 0xFFu64) as u8 as u64) << 56u64) == x) by (bit_vector);
}

proof fn lemma_oct(i: int, k: int)
    requires
        0 <= i,
        0 <= k < 8,
    ensures
        (8 * i + k) / 8 == i,
        (8 * i + k) % 8 == k,
{
    assert((8 * i + k) / 8 == i) by (nonlinear_arith)
        requires
            0 <= i,
            0 <= k < 8,
    ;
    assert((8 * i + k) % 8 == k) by (nonlinear_arith)
        requires
            0 <= i,
            0 <= k < 8,
    ;
}

/// The bytes of unit `i` are the eight bytes of `u[i]`.
proof fn lemma_bytes_of_unit(u: Seq<u64>, i: int)
    requires
        0 <= i < u.len(),
    ensures
        units_to_bytes(u).subrange(8 * i, 8 * i + 8) == unit_bytes(u[i]),
{
    assert(8 * i + 8 <= 8 * u.len()) by (nonlinear_arith)
        requires
            0 <= i < u.len(),
    ;
    assert forall|k: int| 0 <= k < 8 implies #[trigger] units_to_bytes(u).subrange(
        8 * i,
        8 * i + 8,
    )[k] == unit_bytes(u[i])[k] by {
        lemma_oct(i, k);
    }
    assert(units_to_bytes(u).subrange(8 * i, 8 * i + 8) =~= unit_bytes(u[i]));
}

/// Loading what was saved gives back the same units.
pub proof fn lemma_save_open_round_trip(u: Seq<u64>)
    ensures
        units_to_bytes(u).len() == 8 * u.len(),
        bytes_to_units(units_to_bytes(u)) == u,
{
    let b = units_to_bytes(u);
    assert(b.len() / 8 == u.len()) by (nonlinear_arith)
        requires
            b.len() == 8 * u.len(),
    ;
    assert forall|i: int| 0 <= i < u.len() implies #[trigger] bytes_to_units(b)[i] == u[i] by {
        lemma_bytes_of_unit(u, i);
        let sub = b.subrange(8 * i, 8 * i + 8);
        assert(sub[0] == b[8 * i]);
        assert(sub[1] == b[8 * i + 1]);
        assert(sub[2] == b[8 * i + 2]);
        assert(sub[3] == b[8 * i + 3]);
        assert(sub[4] == b[8 * i + 4]);
        assert(sub[5] == b[8 * i + 5]);
        assert(sub[6] == b[8 * i + 6]);
        assert(sub[7] == b[8 * i + 7]);
        assert(word_at(b, 8 * i) == word_at(sub, 0));
        lemma_word_bytes(u[i]);
    }
    assert(bytes_to_units(b) =~= u);
}

/// Encodes the first `n` units as bytes.
pub fn encode_units(u: &Vec<u64>, n: usize) -> (r: Vec<u8>)
    requires
        n <= u@.len(),
    ensures
        r@ == units_to_bytes(u@.take(n as int)),
{
    let mut r: Vec<u8> = Vec::new();
    let mut i: usize = 0;
    while i < n
        invariant
            i <= n <= u@.len(),
            r@ == units_to_bytes(u@.take(i as int)),
        decreases n - i,
    {
        let x = u[i];
        let ghost before = r@;
        r.push((x & 0xFFu64) as u8);
        r.push(((x >> 8u64) & 0xFFu64) as u8);
        r.push(((x >> 16u64) & 0xFFu64) as u8);
        r.push(((x >> 24u64) & 0xFFu64) as u8);
        r.push(((x >> 32u64) & 0xFFu64) as u8);
        r.push(((x >> 40u64) & 0xFFu64) as u8);
        r.push(((x >> 48u64) & 0xFFu64) as u8);
        r.push(((x >> 56u64) & 0xFFu64) as u8);
        proof {
            lemma_byte_of(x);
            assert(r@ =~= before + unit_bytes(x));
            let next = units_to_bytes(u@.take(i + 1));
            assert forall|j: int| 0 <= j < 8 * (i + 1) implies #[trigger] r@[j] == next[j] by {
                if j < 8 * i {
                    let q = j / 8;
                    assert(0 <= q < i) by (nonlinear_arith)
                        requires
                            0 <= j < 8 * i,
                            q == j / 8,
                    ;
                } else {
                    lemma_oct(i as int, j - 8 * i);
                }
            }
            assert(r@ =~= next);
        }
        i = i + 1;
    }
    r
}

/// Decodes the units stored in `b[start..start + len]`.
pub fn decode_units(b: &[u8], start: usize, len: usize) -> (r: Vec<u64>)
    requires
        start + len <= b@.len(),
        len % 8 == 0,
    ensures
        r@ == bytes_to_units(b@.subrange(start as int, start + len)),
{
    let ghost s = b@.subrange(start as int, start + len);
    let total = b.len();
    assert(start + len <= total);
    let n = len / 8;
    let mut r: Vec<u64> = Vec::new();
    let mut i: usize = 0;
    while i < n
        invariant
            i <= n,
            n == len / 8,
            len % 8 == 0,
            start + len <= b@.len(),
            total == b@.len(),
            s == b@.subrange(start as int, start + len),
            r@ == bytes_to_units(s).take(i as int),
        decreases n - i,
    {
        assert(8 * i + 8 <= len) by (nonlinear_arith)
            requires
                i < n,
                n == len / 8,
        ;
        let p = start + 8 * i;
        let w = (b[p] as u64) | ((b[p + 1] as u64) << 8u64) | ((b[p + 2] as u64) << 16u64) | ((b[p
            + 3] as u64) << 24u64) | ((b[p + 4] as u64) << 32u64) | ((b[p + 5] as u64) << 40u64)
            | ((b[p + 6] as u64) << 48u64) | ((b[p + 7] as u64) << 56u64);
        assert(w == word_at(s, 8 * i));
        r.push(w);
        assert(r@ =~= bytes_to_units(s).take(i + 1));
        i = i + 1;
    }
    assert(bytes_to_units(s).len() == n);
    assert(bytes_to_units(s).take(n as int) =~= bytes_to_units(s));
    r
}

} // verus!
