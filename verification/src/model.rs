//! The mathematical model of the bit stream: how payload bits are addressed,
//! what embedding writes at each buffer position, and where extraction stops.

use vstd::prelude::*;

verus! {

/// True when bit `j` (0 = least significant) of `b` is set.
pub open spec fn bit_of(b: u8, j: u8) -> bool {
    (b >> j) & 1 == 1
}

/// True when the least-significant bit of `b` is set.
pub open spec fn lsb_set(b: u8) -> bool {
    b & 1 == 1
}

/// Bit `n` of the payload's bit stream: bit `n % 8` of byte `n / 8`,
/// least-significant bit first within each byte.
pub open spec fn stream_bit(p: Seq<u8>, n: int) -> bool
    recommends
        0 <= n < 8 * p.len(),
{
    bit_of(p[n / 8], (n % 8) as u8)
}

/// The byte embedding leaves at buffer position `n`: the original byte with
/// its least-significant bit replaced by payload stream bit `n`, or forced
/// to 1 once the payload is exhausted.
pub open spec fn embedded_byte(orig: u8, p: Seq<u8>, n: int) -> u8 {
    if n < 8 * p.len() {
        if stream_bit(p, n) {
            orig | 1
        } else {
            orig & 0xFE
        }
    } else {
        orig | 1
    }
}

/// The whole buffer after embedding payload `p` into buffer `b`.
pub open spec fn embed_spec(b: Seq<u8>, p: Seq<u8>) -> Seq<u8> {
    Seq::new(b.len(), |n: int| embedded_byte(b[n], p, n))
}

/// Length of the run of consecutive set least-significant bits of `b`
/// that ends at position `t - 1`.
pub open spec fn run_len(b: Seq<u8>, t: int) -> int
    recommends
        t <= b.len(),
    decreases t,
{
    if t <= 0 || !lsb_set(b[t - 1]) {
        0
    } else {
        run_len(b, t - 1) + 1
    }
}

/// The first position at or after `s` at which the extractor's counter of
/// consecutive set bits reaches 8, or `b.len()` when it never does.
pub open spec fn stop_from(b: Seq<u8>, s: int) -> int
    decreases b.len() - s,
{
    if s < 0 || s >= b.len() {
        b.len() as int
    } else if run_len(b, s + 1) == 8 {
        s
    } else {
        stop_from(b, s + 1)
    }
}

/// The buffer position at which extraction stops scanning: the position of
/// the eighth bit of the first run of eight consecutive set bits, or
/// `b.len()` when the buffer holds no such run.
pub open spec fn stop_index(b: Seq<u8>) -> int {
    stop_from(b, 0)
}

/// Whether the buffer holds a complete sentinel run at all.
pub open spec fn sentinel_found(b: Seq<u8>) -> bool {
    stop_index(b) < b.len()
}

/// A bit as the byte 0 or 1.
pub open spec fn bit_u8(c: bool) -> u8 {
    if c {
        1
    } else {
        0
    }
}

/// The payload byte assembled from the eight buffer bits `8k .. 8k + 8`,
/// least-significant bit first.
pub open spec fn group_byte(b: Seq<u8>, k: int) -> u8
    recommends
        0 <= k,
        8 * k + 8 <= b.len(),
{
    bit_u8(lsb_set(b[8 * k])) | (bit_u8(lsb_set(b[8 * k + 1])) << 1) | (bit_u8(
        lsb_set(b[8 * k + 2]),
    ) << 2) | (bit_u8(lsb_set(b[8 * k + 3])) << 3) | (bit_u8(lsb_set(b[8 * k + 4])) << 4) | (bit_u8(
        lsb_set(b[8 * k + 5]),
    ) << 5) | (bit_u8(lsb_set(b[8 * k + 6])) << 6) | (bit_u8(lsb_set(b[8 * k + 7])) << 7)
}

/// How many bytes a scan of `t` buffer bytes flushes when no sentinel run
/// completes: a byte is flushed only at the moment a further buffer byte is
/// scanned after its eighth bit, so a byte completed exactly at the end of
/// the buffer is never flushed.
pub open spec fn flushed_groups(t: int) -> int {
    if t <= 0 {
        0
    } else {
        (t - 1) / 8
    }
}

/// How many bytes extraction returns: every group of eight buffer bits
/// completed before the sentinel run's last bit, or, when no run ever
/// completes, every group followed by at least one further scanned byte.
pub open spec fn extracted_len(b: Seq<u8>) -> int {
    if sentinel_found(b) {
        stop_index(b) / 8
    } else {
        flushed_groups(b.len() as int)
    }
}

/// Everything extraction returns, assembled from the buffer bits.
pub open spec fn extract_spec(b: Seq<u8>) -> Seq<u8> {
    Seq::new(extracted_len(b) as nat, |k: int| group_byte(b, k))
}

/// A run of eight consecutive set bits of the payload stream ends at bit `t`.
pub open spec fn ones_run_ending(p: Seq<u8>, t: int) -> bool {
    forall|j: int| t - 7 <= j <= t ==> stream_bit(p, j)
}

/// No run of eight consecutive set bits ends within the first `m` bits of
/// the payload stream: the extractor cannot stop early among those bits.
pub open spec fn sentinel_free_prefix(p: Seq<u8>, m: int) -> bool {
    forall|t: int| 7 <= t < m ==> !ones_run_ending(p, t)
}

/// No run of eight consecutive set bits anywhere in the payload stream.
pub open spec fn sentinel_free(p: Seq<u8>) -> bool {
    sentinel_free_prefix(p, 8 * p.len() as int)
}

/// How an embedded byte relates to the original: the least-significant bit
/// carries the stream, the upper seven bits are untouched.
pub proof fn lemma_embedded_byte(o: u8)
    by (bit_vector)
    ensures
        lsb_set(o | 1),
        !lsb_set(o & 0xFE),
        (o | 1) >> 1 == o >> 1,
        (o & 0xFE) >> 1 == o >> 1,
{
}

/// A byte is determined by its eight bits.
pub proof fn lemma_byte_from_bits(a: u8, c: u8)
    by (bit_vector)
    requires
        bit_of(a, 0) == bit_of(c, 0),
        bit_of(a, 1) == bit_of(c, 1),
        bit_of(a, 2) == bit_of(c, 2),
        bit_of(a, 3) == bit_of(c, 3),
        bit_of(a, 4) == bit_of(c, 4),
        bit_of(a, 5) == bit_of(c, 5),
        bit_of(a, 6) == bit_of(c, 6),
        bit_of(a, 7) == bit_of(c, 7),
    ensures
        a == c,
{
}

/// Setting bit `i` leaves every other bit alone.
pub proof fn lemma_set_bit(a: u8, i: u8, j: u8)
    by (bit_vector)
    requires
        i < 8,
        j < 8,
    ensures
        j == i ==> bit_of(a | (1u8 << i), j),
        j != i ==> bit_of(a | (1u8 << i), j) == bit_of(a, j),
{
}

/// Clearing bit `i` leaves every other bit alone.
pub proof fn lemma_clear_bit(a: u8, i: u8, j: u8)
    by (bit_vector)
    requires
        i < 8,
        j < 8,
    ensures
        j == i ==> !bit_of(a & !(1u8 << i), j),
        j != i ==> bit_of(a & !(1u8 << i), j) == bit_of(a, j),
{
}

/// A run never reaches further back than the start of the buffer.
pub proof fn lemma_run_len_le(b: Seq<u8>, t: int)
    requires
        t >= 0,
    ensures
        0 <= run_len(b, t) <= t,
    decreases t,
{
    if t > 0 {
        lemma_run_len_le(b, t - 1);
    }
}

/// Every bit covered by the run ending at `t - 1` is set.
pub proof fn lemma_run_len_bits(b: Seq<u8>, t: int, j: int)
    requires
        0 <= t,
        t - run_len(b, t) <= j < t,
    ensures
        lsb_set(b[j]),
    decreases t - j,
{
    lemma_run_len_le(b, t);
    if j < t - 1 {
        lemma_run_len_bits(b, t - 1, j);
    }
}

/// A stretch of set bits reaching back `k` positions from `t` gives a run of
/// at least `k`.
pub proof fn lemma_run_len_from_bits(b: Seq<u8>, t: int, k: int)
    requires
        0 <= k <= t,
        forall|j: int| t - k <= j < t ==> lsb_set(b[j]),
    ensures
        run_len(b, t) >= k,
    decreases k,
{
    lemma_run_len_le(b, t);
    if k > 0 {
        assert(lsb_set(b[t - 1]));
        lemma_run_len_from_bits(b, t - 1, k - 1);
        assert(run_len(b, t) == run_len(b, t - 1) + 1);
    }
}

/// While no run of eight has completed, every run stays below eight.
pub proof fn lemma_run_len_below(b: Seq<u8>, m: int)
    requires
        0 <= m,
        forall|t: int| 0 <= t < m ==> #[trigger] run_len(b, t + 1) != 8,
    ensures
        forall|t: int| 0 <= t <= m ==> run_len(b, t) < 8,
    decreases m,
{
    if m > 0 {
        lemma_run_len_below(b, m - 1);
        lemma_run_len_le(b, m - 1);
        assert(run_len(b, (m - 1) + 1) != 8);
        assert(run_len(b, m) <= run_len(b, m - 1) + 1);
    }
}

/// What `stop_from` returns: the first completed run at or after `s`, with
/// nothing completed before it.
pub proof fn lemma_stop_from(b: Seq<u8>, s: int)
    requires
        0 <= s <= b.len(),
    ensures
        s <= stop_from(b, s) <= b.len(),
        stop_from(b, s) < b.len() ==> run_len(b, stop_from(b, s) + 1) == 8,
        forall|t: int| s <= t < stop_from(b, s) ==> #[trigger] run_len(b, t + 1) != 8,
    decreases b.len() - s,
{
    if s < b.len() && run_len(b, s + 1) != 8 {
        lemma_stop_from(b, s + 1);
    }
}

/// The first completed run pins where scanning stops.
pub proof fn lemma_stop_at(b: Seq<u8>, t0: int)
    requires
        0 <= t0 < b.len(),
        run_len(b, t0 + 1) == 8,
        forall|t: int| 0 <= t < t0 ==> #[trigger] run_len(b, t + 1) != 8,
    ensures
        stop_index(b) == t0,
{
    lemma_stop_from_at(b, 0, t0);
}

proof fn lemma_stop_from_at(b: Seq<u8>, s: int, t0: int)
    requires
        0 <= s <= t0 < b.len(),
        run_len(b, t0 + 1) == 8,
        forall|t: int| s <= t < t0 ==> #[trigger] run_len(b, t + 1) != 8,
    ensures
        stop_from(b, s) == t0,
    decreases t0 - s,
{
    if s < t0 {
        lemma_stop_from_at(b, s + 1, t0);
    }
}

/// Each bit of an assembled group byte is the corresponding buffer bit.
pub proof fn lemma_group_byte_bit(b: Seq<u8>, k: int, j: u8)
    requires
        0 <= k,
        8 * k + 8 <= b.len(),
        j < 8,
    ensures
        bit_of(group_byte(b, k), j) == lsb_set(b[8 * k + j]),
{
    let c0 = bit_u8(lsb_set(b[8 * k]));
    let c1 = bit_u8(lsb_set(b[8 * k + 1]));
    let c2 = bit_u8(lsb_set(b[8 * k + 2]));
    let c3 = bit_u8(lsb_set(b[8 * k + 3]));
    let c4 = bit_u8(lsb_set(b[8 * k + 4]));
    let c5 = bit_u8(lsb_set(b[8 * k + 5]));
    let c6 = bit_u8(lsb_set(b[8 * k + 6]));
    let c7 = bit_u8(lsb_set(b[8 * k + 7]));
    let g = group_byte(b, k);
    assert(g == c0 | (c1 << 1) | (c2 << 2) | (c3 << 3) | (c4 << 4) | (c5 << 5) | (c6 << 6) | (c7
        << 7));
    assert(c0 <= 1 && c1 <= 1 && c2 <= 1 && c3 <= 1 && c4 <= 1 && c5 <= 1 && c6 <= 1 && c7 <= 1);
    assert((c0 <= 1 && c1 <= 1 && c2 <= 1 && c3 <= 1 && c4 <= 1 && c5 <= 1 && c6 <= 1 && c7 <= 1)
        ==> {
        let w = c0 | (c1 << 1) | (c2 << 2) | (c3 << 3) | (c4 << 4) | (c5 << 5) | (c6 << 6) | (c7
            << 7);
        &&& bit_of(w, 0) == (c0 == 1)
        &&& bit_of(w, 1) == (c1 == 1)
        &&& bit_of(w, 2) == (c2 == 1)
        &&& bit_of(w, 3) == (c3 == 1)
        &&& bit_of(w, 4) == (c4 == 1)
        &&& bit_of(w, 5) == (c5 == 1)
        &&& bit_of(w, 6) == (c6 == 1)
        &&& bit_of(w, 7) == (c7 == 1)
    }) by (bit_vector);
    if j == 0 {
    } else if j == 1 {
    } else if j == 2 {
    } else if j == 3 {
    } else if j == 4 {
    } else if j == 5 {
    } else if j == 6 {
    } else {
        assert(j == 7);
    }
}

/// A byte whose eight bits are the buffer bits of group `k` is that group's
/// assembled byte.
pub proof fn lemma_group_byte_from_bits(b: Seq<u8>, k: int, a: u8)
    requires
        0 <= k,
        8 * k + 8 <= b.len(),
        forall|j: u8| j < 8 ==> bit_of(a, j) == lsb_set(b[8 * k + j]),
    ensures
        a == group_byte(b, k),
{
    let g = group_byte(b, k);
    lemma_group_byte_bit(b, k, 0);
    lemma_group_byte_bit(b, k, 1);
    lemma_group_byte_bit(b, k, 2);
    lemma_group_byte_bit(b, k, 3);
    lemma_group_byte_bit(b, k, 4);
    lemma_group_byte_bit(b, k, 5);
    lemma_group_byte_bit(b, k, 6);
    lemma_group_byte_bit(b, k, 7);
    assert(bit_of(a, 0) == lsb_set(b[8 * k + 0]));
    assert(bit_of(a, 1) == lsb_set(b[8 * k + 1]));
    assert(bit_of(a, 2) == lsb_set(b[8 * k + 2]));
    assert(bit_of(a, 3) == lsb_set(b[8 * k + 3]));
    assert(bit_of(a, 4) == lsb_set(b[8 * k + 4]));
    assert(bit_of(a, 5) == lsb_set(b[8 * k + 5]));
    assert(bit_of(a, 6) == lsb_set(b[8 * k + 6]));
    assert(bit_of(a, 7) == lsb_set(b[8 * k + 7]));
    lemma_byte_from_bits(a, g);
}

} // verus!
