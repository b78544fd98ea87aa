//! The embed/extract engine itself.

use vstd::prelude::*;

use crate::model::bit_of;
use crate::model::embed_spec;
use crate::model::embedded_byte;
use crate::model::extract_spec;
use crate::model::group_byte;
use crate::model::lemma_clear_bit;
use crate::model::lemma_embedded_byte;
use crate::model::lemma_group_byte_from_bits;
use crate::model::lemma_set_bit;
use crate::model::lemma_stop_at;
use crate::model::lemma_stop_from;
use crate::model::lsb_set;
use crate::model::run_len;
use crate::model::sentinel_found;
use crate::model::stop_index;
use crate::model::stream_bit;

verus! {

/// Embedding refused to start because the payload cannot be recovered from a
/// buffer of the given length.
#[derive(Debug, Clone, Copy, PartialEq, Eq, Structural)]
pub enum EmbedError {
    CapacityExceeded,
}

/// What one scan of a buffer recovered.
pub struct Extraction {
    /// The bytes accumulated before the sentinel run (or the end of the
    /// buffer) was reached.
    pub payload: Vec<u8>,
    /// Whether the sentinel run was ever observed; without it the buffer
    /// holds no recoverable payload and `payload` is whatever was fully
    /// assembled when the buffer ran out.
    pub sentinel_found: bool,
}

/// Writes the payload into the least-significant bits of `buffer`, least
/// significant bit of each payload byte first, then forces the
/// least-significant bit of every remaining buffer byte to 1.
///
/// A buffer shorter than `8 * payload.len() + 8` silently truncates: the
/// payload bits past the end of the buffer are never written and the
/// sentinel run may never complete. `embed_checked` refuses that case
/// instead.
pub fn embed(buffer: &mut Vec<u8>, payload: &Vec<u8>)
    ensures
        final(buffer)@ == embed_spec(old(buffer)@, payload@),
        final(buffer)@.len() == old(buffer)@.len(),
        // the upper seven bits of every byte are untouched
        forall|m: int|
            0 <= m < old(buffer)@.len() ==> final(buffer)@[m] >> 1 == old(buffer)@[m] >> 1,
        // exactly the first 8 * payload.len() buffer bytes carry payload bits
        forall|m: int|
            0 <= m < old(buffer)@.len() && m < 8 * payload@.len() ==> lsb_set(final(buffer)@[m])
                == stream_bit(payload@, m),
        // every byte after them carries a sentinel bit
        forall|m: int|
            8 * payload@.len() <= m < old(buffer)@.len() ==> lsb_set(final(buffer)@[m]),
{
    let ghost orig = buffer@;
    let mut n: usize = 0;
    let mut o: usize = 0;
    let mut sh: u8 = 0;
    while n < buffer.len()
        invariant
            buffer@.len() == orig.len(),
            n <= buffer@.len(),
            o <= payload@.len(),
            sh < 8,
            o < payload@.len() ==> n == 8 * o + sh,
            o == payload@.len() ==> n >= 8 * payload@.len() && sh == 0,
            forall|m: int| 0 <= m < n ==> buffer@[m] == embedded_byte(orig[m], payload@, m),
            forall|m: int| n <= m < orig.len() ==> buffer@[m] == orig[m],
        decreases buffer@.len() - n,
    {
        let ob: u8 = buffer[n];
        let v: u8;
        if o < payload.len() {
            proof {
                assert(n as int / 8 == o && n as int % 8 == sh as int) by (nonlinear_arith)
                    requires
                        n == 8 * o + sh,
                        0 <= sh < 8,
                ;
            }
            if (payload[o] >> sh) & 1 == 1 {
                v = ob | 1;
            } else {
                v = ob & 0xFE;
            }
            assert(v == embedded_byte(orig[n as int], payload@, n as int));
        } else {
            v = ob | 1;
            assert(v == embedded_byte(orig[n as int], payload@, n as int));
        }
        buffer.set(n, v);
        if o < payload.len() {
            sh = sh + 1;
            if sh == 8 {
                sh = 0;
                o = o + 1;
            }
        }
        n = n + 1;
    }
    proof {
        assert(buffer@ =~= embed_spec(orig, payload@));
        assert forall|m: int| 0 <= m < orig.len() implies buffer@[m] >> 1 == orig[m] >> 1 by {
            lemma_embedded_byte(orig[m]);
        }
        assert forall|m: int|
            0 <= m < orig.len() && m < 8 * payload@.len() implies lsb_set(buffer@[m]) == stream_bit(
            payload@,
            m,
        ) by {
            lemma_embedded_byte(orig[m]);
        }
        assert forall|m: int| 8 * payload@.len() <= m < orig.len() implies lsb_set(buffer@[m]) by {
            lemma_embedded_byte(orig[m]);
        }
    }
}

/// Embeds only when the whole payload plus a full eight-bit sentinel run
/// fits in the buffer; otherwise leaves the buffer untouched and reports
/// `CapacityExceeded`.
pub fn embed_checked(buffer: &mut Vec<u8>, payload: &Vec<u8>) -> (r: Result<(), EmbedError>)
    ensures
        r is Ok <==> old(buffer)@.len() >= 8 * payload@.len() + 8,
        r is Ok ==> final(buffer)@ == embed_spec(old(buffer)@, payload@),
        r is Err ==> final(buffer)@ == old(buffer)@ && (r matches Err(e) && e is CapacityExceeded),
{
    let ghost b0 = buffer@;
    if buffer.len() >= 8 && payload.len() <= (buffer.len() - 8) / 8 {
        proof {
            assert(b0.len() >= 8 * payload@.len() + 8) by (nonlinear_arith)
                requires
                    b0.len() >= 8,
                    payload@.len() <= (b0.len() - 8) / 8,
            ;
        }
        embed(buffer, payload);
        Ok(())
    } else {
        proof {
            assert(!(b0.len() >= 8 * payload@.len() + 8)) by (nonlinear_arith)
                requires
                    !(b0.len() >= 8 && payload@.len() <= (b0.len() - 8) / 8),
            ;
        }
        Err(EmbedError::CapacityExceeded)
    }
}

/// Scans the least-significant bits of `buffer`, reassembling bytes least
/// significant bit first, until a run of eight consecutive set bits — the
/// sentinel — completes. Returns the fully assembled bytes collected before
/// the run; the byte the run ended in is discarded. When the buffer ends
/// before any such run, the accumulated bytes come back with
/// `sentinel_found` false; a byte is flushed into the accumulation only when
/// a further buffer byte is scanned after its eighth bit, so a byte
/// completed exactly at the end of the buffer is not part of it.
pub fn extract(buffer: &Vec<u8>) -> (r: Extraction)
    ensures
        r.payload@ == extract_spec(buffer@),
        r.sentinel_found == sentinel_found(buffer@),
{
    let mut out: Vec<u8> = Vec::new();
    let mut acc: u8 = 0;
    let mut i: u8 = 0;
    let mut ones: u8 = 0;
    let mut n: usize = 0;
    let mut found: bool = false;
    while n < buffer.len() && !found
        invariant
            n <= buffer@.len(),
            forall|k: int| 0 <= k < out@.len() ==> out@[k] == group_byte(buffer@, k),
            found ==> out@ == extract_spec(buffer@) && sentinel_found(buffer@),
            !found ==> i <= 8,
            !found ==> (n == 0 ==> i == 0),
            !found ==> (n > 0 ==> 1 <= i),
            !found ==> n == 8 * out@.len() + i,
            !found ==> ones == run_len(buffer@, n as int),
            !found ==> forall|t: int| 0 <= t <= n ==> run_len(buffer@, t) < 8,
            !found ==> forall|j: u8|
                j < i ==> bit_of(acc, j) == lsb_set(buffer@[8 * out@.len() + j]),
        decreases buffer@.len() - n,
    {
        if i == 8 {
            proof {
                lemma_group_byte_from_bits(buffer@, out@.len() as int, acc);
            }
            out.push(acc);
            i = 0;
            acc = 0;
        }
        let b: u8 = buffer[n];
        let ghost a0 = acc;
        if b & 1 == 1 {
            acc = acc | (1u8 << i);
            ones = ones + 1;
            proof {
                assert forall|j: u8| j < i + 1 implies bit_of(acc, j) == lsb_set(
                    buffer@[8 * out@.len() + j],
                ) by {
                    lemma_set_bit(a0, i, j);
                }
            }
        } else {
            acc = acc & !(1u8 << i);
            ones = 0;
            proof {
                assert forall|j: u8| j < i + 1 implies bit_of(acc, j) == lsb_set(
                    buffer@[8 * out@.len() + j],
                ) by {
                    lemma_clear_bit(a0, i, j);
                }
            }
        }
        i = i + 1;
        n = n + 1;
        if ones == 8 {
            found = true;
            proof {
                let t0 = n as int - 1;
                assert(run_len(buffer@, t0 + 1) == 8);
                assert forall|t: int| 0 <= t < t0 implies #[trigger] run_len(buffer@, t + 1)
                    != 8 by {}
                lemma_stop_at(buffer@, t0);
                assert(t0 / 8 == out@.len()) by (nonlinear_arith)
                    requires
                        t0 == 8 * out@.len() + i - 1,
                        1 <= i <= 8,
                ;
                assert(out@ =~= extract_spec(buffer@));
            }
        }
    }
    proof {
        if !found {
            lemma_stop_from(buffer@, 0);
            if stop_index(buffer@) < buffer@.len() {
                assert(run_len(buffer@, stop_index(buffer@) + 1) == 8);
                assert(false);
            }
            if buffer@.len() > 0 {
                assert((buffer@.len() - 1) as int / 8 == out@.len()) by (nonlinear_arith)
                    requires
                        buffer@.len() == 8 * out@.len() + i,
                        1 <= i <= 8,
                ;
            }
            assert(out@ =~= extract_spec(buffer@));
        }
    }
    Extraction { payload: out, sentinel_found: found }
}

} // verus!
