//! The guarantees that hold across embedding and extraction.

use vstd::prelude::*;

use vstd::math::min;

use crate::model::bit_of;
use crate::model::embed_spec;
use crate::model::embedded_byte;
use crate::model::extract_spec;
use crate::model::extracted_len;
use crate::model::flushed_groups;
use crate::model::group_byte;
use crate::model::lemma_embedded_byte;
use crate::model::lemma_group_byte_from_bits;
use crate::model::lemma_run_len_below;
use crate::model::lemma_run_len_bits;
use crate::model::lemma_run_len_from_bits;
use crate::model::lemma_run_len_le;
use crate::model::lemma_stop_at;
use crate::model::lemma_stop_from;
use crate::model::lsb_set;
use crate::model::ones_run_ending;
use crate::model::run_len;
use crate::model::sentinel_found;
use crate::model::sentinel_free;
use crate::model::sentinel_free_prefix;
use crate::model::stop_index;
use crate::model::stream_bit;

verus! {

/// Extraction is a pure function of the buffer contents: scanning the same
/// unmodified buffer twice yields the same payload and the same verdict on
/// the sentinel.
pub proof fn lemma_extract_pure(b1: Seq<u8>, b2: Seq<u8>)
    requires
        b1 == b2,
    ensures
        extract_spec(b1) == extract_spec(b2),
        sentinel_found(b1) == sentinel_found(b2),
{
}

/// While the payload stream itself holds no run of eight set bits, the
/// extractor's counter cannot complete a run among the bits that carry it.
proof fn lemma_prefix_no_completion(b: Seq<u8>, p: Seq<u8>, m: int)
    requires
        sentinel_free_prefix(p, m),
        m <= 8 * p.len(),
        m <= b.len(),
    ensures
        forall|t: int| 0 <= t < m ==> #[trigger] run_len(embed_spec(b, p), t + 1) != 8,
{
    let e = embed_spec(b, p);
    assert forall|t: int| 0 <= t < m implies #[trigger] run_len(e, t + 1) != 8 by {
        if run_len(e, t + 1) == 8 {
            lemma_run_len_le(e, t + 1);
            assert forall|j: int| t - 7 <= j <= t implies stream_bit(p, j) by {
                lemma_run_len_bits(e, t + 1, j);
                lemma_embedded_byte(b[j]);
                assert(e[j] == embedded_byte(b[j], p, j));
            }
            assert(ones_run_ending(p, t));
            assert(false);
        }
    }
}

/// A byte group that lies wholly inside the embedded payload region comes
/// back as the payload byte that was written there.
proof fn lemma_payload_group(b: Seq<u8>, p: Seq<u8>, k: int)
    requires
        0 <= k < p.len(),
        8 * k + 8 <= b.len(),
    ensures
        group_byte(embed_spec(b, p), k) == p[k],
{
    let e = embed_spec(b, p);
    assert forall|j: u8| j < 8 implies bit_of(p[k], j) == lsb_set(e[8 * k + j]) by {
        let m: int = 8 * k + j;
        assert(m / 8 == k && m % 8 == j as int) by (nonlinear_arith)
            requires
                m == 8 * k + j,
                0 <= j < 8,
                0 <= k,
        ;
        assert(m < 8 * p.len());
        assert(e[m] == embedded_byte(b[m], p, m));
        lemma_embedded_byte(b[m]);
        assert(stream_bit(p, m) == bit_of(p[k], j));
    }
    lemma_group_byte_from_bits(e, k, p[k]);
}

/// Round trip: a buffer long enough for the payload and one sentinel run,
/// filled from a payload whose own bit stream never holds eight consecutive
/// set bits, gives that payload back exactly, and the sentinel is found.
pub proof fn lemma_round_trip(b: Seq<u8>, p: Seq<u8>)
    requires
        b.len() >= 8 * p.len() + 8,
        sentinel_free(p),
    ensures
        sentinel_found(embed_spec(b, p)),
        extract_spec(embed_spec(b, p)) == p,
{
    let e = embed_spec(b, p);
    let pl: int = 8 * p.len() as int;
    lemma_prefix_no_completion(b, p, pl);
    assert forall|j: int| pl <= j < pl + 8 implies lsb_set(e[j]) by {
        assert(e[j] == embedded_byte(b[j], p, j));
        lemma_embedded_byte(b[j]);
    }
    lemma_run_len_from_bits(e, pl + 8, 8);
    lemma_stop_from(e, 0);
    let st = stop_index(e);
    if st > pl + 7 {
        lemma_run_len_below(e, pl + 8);
        assert(run_len(e, (pl + 7) + 1) < 8);
        assert(false);
    }
    assert(st < b.len());
    assert(run_len(e, st + 1) == 8);
    assert(st >= pl);
    assert(st / 8 == p.len()) by (nonlinear_arith)
        requires
            pl == 8 * p.len(),
            pl <= st <= pl + 7,
    ;
    assert forall|k: int| 0 <= k < p.len() implies extract_spec(e)[k] == p[k] by {
        lemma_payload_group(b, p, k);
    }
    assert(extract_spec(e) =~= p);
}

/// Truncation: a buffer too short for the payload plus a sentinel run still
/// gives back exactly the payload prefix it had room for, cut at a byte
/// boundary: `min(payload length, flushed_groups(buffer length))` bytes —
/// a payload byte is recovered only when all eight of its bits plus at
/// least one further buffer byte fit.
pub proof fn lemma_truncated_round_trip(b: Seq<u8>, p: Seq<u8>)
    requires
        b.len() < 8 * p.len() + 8,
        sentinel_free_prefix(p, min(8 * p.len() as int, b.len() as int)),
    ensures
        extract_spec(embed_spec(b, p)) == p.take(
            min(p.len() as int, flushed_groups(b.len() as int)),
        ),
{
    let e = embed_spec(b, p);
    let pl: int = 8 * p.len() as int;
    let bl: int = b.len() as int;
    lemma_stop_from(e, 0);
    let st = stop_index(e);
    let cut: int = min(p.len() as int, flushed_groups(bl));
    if pl <= bl {
        lemma_prefix_no_completion(b, p, pl);
        if st < bl {
            // the run completed among the padding bits: the whole payload
            // was flushed before it
            assert(run_len(e, st + 1) == 8);
            assert(st >= pl);
            assert(st / 8 == p.len() && (bl - 1) / 8 == p.len()) by (nonlinear_arith)
                requires
                    pl == 8 * p.len(),
                    pl <= st < bl,
                    bl < pl + 8,
            ;
            assert(cut == p.len());
            assert(extracted_len(e) == p.len());
        } else {
            // no run completed: the byte finished at the buffer's end, if
            // any, is never flushed
            assert(st == bl);
            assert(!sentinel_found(e));
            if bl == 0 {
                assert(cut == 0 && extracted_len(e) == 0);
            } else {
                assert((bl - 1) / 8 <= p.len()) by (nonlinear_arith)
                    requires
                        pl == 8 * p.len(),
                        pl <= bl,
                        bl < pl + 8,
                ;
                assert(cut == (bl - 1) / 8);
                assert(extracted_len(e) == (bl - 1) / 8);
            }
        }
    } else {
        lemma_prefix_no_completion(b, p, bl);
        if st < bl {
            assert(run_len(e, st + 1) == 8);
            assert(false);
        }
        assert(st == bl);
        assert(!sentinel_found(e));
        if bl == 0 {
            assert(cut == 0 && extracted_len(e) == 0);
        } else {
            assert((bl - 1) / 8 < p.len()) by (nonlinear_arith)
                requires
                    1 <= bl,
                    bl < 8 * p.len(),
            ;
            assert(cut == (bl - 1) / 8);
            assert(extracted_len(e) == (bl - 1) / 8);
        }
    }
    assert(cut <= p.len());
    assert(8 * cut <= bl) by (nonlinear_arith)
        requires
            bl >= 0,
            (bl == 0 && cut == 0) || (bl >= 1 && cut <= (bl - 1) / 8) || 8 * cut <= bl,
    ;
    assert forall|k: int| 0 <= k < cut implies extract_spec(e)[k] == p[k] by {
        lemma_payload_group(b, p, k);
    }
    assert(extract_spec(e) =~= p.take(cut));
}

/// An empty payload forces the least-significant bit of every buffer byte to
/// 1; extraction then finds the sentinel after scanning exactly the first
/// eight bytes and returns an empty payload.
pub proof fn lemma_empty_payload(b: Seq<u8>)
    requires
        b.len() >= 8,
    ensures
        forall|m: int|
            0 <= m < b.len() ==> lsb_set(#[trigger] embed_spec(b, Seq::<u8>::empty())[m]),
        sentinel_found(embed_spec(b, Seq::<u8>::empty())),
        stop_index(embed_spec(b, Seq::<u8>::empty())) == 7,
        extract_spec(embed_spec(b, Seq::<u8>::empty())) == Seq::<u8>::empty(),
{
    let p = Seq::<u8>::empty();
    lemma_round_trip(b, p);
    let e = embed_spec(b, p);
    assert forall|m: int| 0 <= m < b.len() implies lsb_set(e[m]) by {
        assert(e[m] == embedded_byte(b[m], p, m));
        lemma_embedded_byte(b[m]);
    }
    assert forall|t: int| 0 <= t < 7 implies #[trigger] run_len(e, t + 1) != 8 by {
        lemma_run_len_le(e, t + 1);
    }
    lemma_run_len_from_bits(e, 8, 8);
    lemma_run_len_le(e, 8);
    assert(run_len(e, 8int) == 8);
    lemma_stop_at(e, 7);
    assert(extract_spec(e) =~= Seq::<u8>::empty());
}

} // verus!
