//! The integer laws of the PCM stream: how a sample count is cut into
//! fixed-size chunks, how signed 16-bit samples become little-endian bytes,
//! and the all-zero chunks that silence is made of.

use vstd::prelude::*;

verus! {

/// Samples per second of the PCM stream.
pub const SAMPLE_RATE: u32 = 44100;

/// Bytes per signed 16-bit sample.
pub const BYTES_PER_SAMPLE: usize = 2;

/// Byte capacity of one chunk handed to the sink.
pub const CHUNK_BYTES: usize = 1024;

/// Total of a sequence of chunk byte lengths.
pub open spec fn byte_total(s: Seq<usize>) -> int
    decreases s.len(),
{
    if s.len() == 0 {
        0
    } else {
        byte_total(s.drop_last()) + s.last()
    }
}

/// The chunk schedule of a byte count, as a sequence: full chunks first,
/// then the remainder at its true short length; never an empty chunk.
pub open spec fn chunk_lengths(bytes: int) -> Seq<usize>
    decreases bytes,
{
    if bytes <= 0 {
        Seq::empty()
    } else if bytes <= CHUNK_BYTES {
        seq![bytes as usize]
    } else {
        seq![CHUNK_BYTES] + chunk_lengths(bytes - CHUNK_BYTES)
    }
}

/// The schedule is exactly as long as the byte count needs: one chunk per
/// full chunk of bytes, plus one for a remainder.
pub proof fn lemma_chunk_lengths_len(bytes: int)
    requires
        bytes >= 0,
    ensures
        bytes == 0 ==> chunk_lengths(bytes).len() == 0,
        bytes > 0 ==> CHUNK_BYTES * (chunk_lengths(bytes).len() - 1) < bytes <= CHUNK_BYTES
            * chunk_lengths(bytes).len(),
    decreases bytes,
{
    if bytes > CHUNK_BYTES {
        lemma_chunk_lengths_len(bytes - CHUNK_BYTES);
    }
}

/// The k-th chunk of the schedule is full while more than one chunk of
/// bytes remains after the first k, and carries the remainder otherwise.
pub proof fn lemma_chunk_lengths_index(bytes: int, k: int)
    requires
        0 <= k,
        CHUNK_BYTES * k < bytes,
    ensures
        k < chunk_lengths(bytes).len(),
        chunk_lengths(bytes)[k] == if bytes - CHUNK_BYTES * k > CHUNK_BYTES {
            CHUNK_BYTES
        } else {
            (bytes - CHUNK_BYTES * k) as usize
        },
    decreases bytes,
{
    if k == 0 {
    } else {
        lemma_chunk_lengths_index(bytes - CHUNK_BYTES, k - 1);
        assert(chunk_lengths(bytes) == seq![CHUNK_BYTES] + chunk_lengths(bytes - CHUNK_BYTES));
        assert(chunk_lengths(bytes)[k] == chunk_lengths(bytes - CHUNK_BYTES)[k - 1]);
    }
}

/// The chunk schedule of a burst: the byte length of each successive write
/// that emits `num_samples` 16-bit samples. Every chunk but the last is
/// full; the last carries the remainder at its true short length, and no
/// empty chunk is ever scheduled. These clauses pin the schedule down: the
/// total is exactly twice the sample count, full chunks come first, and the
/// schedule is empty only for an empty burst.
pub fn chunk_schedule(num_samples: usize) -> (r: Vec<usize>)
    requires
        num_samples <= usize::MAX / 2,
    ensures
        r@ == chunk_lengths(2 * num_samples),
        byte_total(r@) == 2 * num_samples,
        forall|i: int| 0 <= i < r@.len() ==> 1 <= #[trigger] r@[i] <= CHUNK_BYTES,
        forall|i: int| 0 <= i < r@.len() - 1 ==> #[trigger] r@[i] == CHUNK_BYTES,
        forall|i: int| 0 <= i < r@.len() ==> #[trigger] r@[i] % 2 == 0,
        r@.len() == 0 <==> num_samples == 0,
{
    let total: usize = 2 * num_samples;
    let mut r: Vec<usize> = Vec::new();
    let mut remaining: usize = total;
    while remaining > CHUNK_BYTES
        invariant
            byte_total(r@) + remaining == 2 * num_samples,
            r@ + chunk_lengths(remaining as int) == chunk_lengths(2 * num_samples),
            remaining % 2 == 0,
            forall|i: int| 0 <= i < r@.len() ==> #[trigger] r@[i] == CHUNK_BYTES,
            byte_total(r@) >= 0,
        decreases remaining,
    {
        let ghost pre = r@;
        r.push(CHUNK_BYTES);
        proof {
            assert(r@.drop_last() =~= pre);
            assert(r@.last() == CHUNK_BYTES);
            assert(chunk_lengths(remaining as int) == seq![CHUNK_BYTES] + chunk_lengths(
                remaining - CHUNK_BYTES,
            ));
            assert(r@ + chunk_lengths(remaining - CHUNK_BYTES) =~= pre + chunk_lengths(
                remaining as int,
            ));
        }
        remaining = remaining - CHUNK_BYTES;
    }
    if remaining > 0 {
        let ghost pre = r@;
        r.push(remaining);
        proof {
            assert(r@.drop_last() =~= pre);
            assert(r@.last() == remaining);
            assert(chunk_lengths(remaining as int) == seq![remaining]);
            assert(r@ =~= pre + chunk_lengths(remaining as int));
        }
    } else {
        proof {
            assert(r@ + chunk_lengths(0) =~= r@);
        }
    }
    proof {
        if r@.len() == 0 {
            assert(byte_total(r@) == 0);
            assert(num_samples == 0);
        }
        if num_samples == 0 && r@.len() > 0 {
            lemma_byte_total_nonneg(r@.drop_last());
            assert(byte_total(r@) == byte_total(r@.drop_last()) + r@.last());
            assert(false);
        }
    }
    r
}

/// How many chunks a burst of `num_samples` samples takes, in constant
/// space and time: the length of its chunk schedule.
pub fn chunk_count(num_samples: usize) -> (r: usize)
    requires
        num_samples <= usize::MAX / 2,
    ensures
        r == chunk_lengths(2 * num_samples).len(),
{
    let total: usize = 2 * num_samples;
    let full: usize = total / CHUNK_BYTES;
    let rem: usize = total % CHUNK_BYTES;
    proof {
        lemma_chunk_lengths_len(2 * num_samples);
        vstd::arithmetic::div_mod::lemma_fundamental_div_mod(total as int, CHUNK_BYTES as int);
    }
    if rem > 0 {
        full + 1
    } else {
        full
    }
}

/// The byte length of chunk number `k` of a burst, in constant space, so a
/// caller can stream the chunks one at a time without materializing the
/// schedule. Chunk `k` exists exactly when `k` full chunks do not already
/// cover the burst's bytes.
pub fn chunk_len_at(num_samples: usize, k: usize) -> (r: usize)
    requires
        num_samples <= usize::MAX / 2,
        CHUNK_BYTES * k < 2 * num_samples,
    ensures
        k < chunk_lengths(2 * num_samples).len(),
        r == chunk_lengths(2 * num_samples)[k as int],
{
    proof {
        lemma_chunk_lengths_index(2 * num_samples, k as int);
    }
    let total: usize = 2 * num_samples;
    let start: usize = k * CHUNK_BYTES;
    let remaining: usize = total - start;
    if remaining > CHUNK_BYTES {
        CHUNK_BYTES
    } else {
        remaining
    }
}

/// A total of byte lengths is never negative.
pub proof fn lemma_byte_total_nonneg(s: Seq<usize>)
    ensures
        byte_total(s) >= 0,
    decreases s.len(),
{
    if s.len() > 0 {
        lemma_byte_total_nonneg(s.drop_last());
    }
}

/// One silent chunk: `len` zero bytes, so every 16-bit sample in it is zero.
pub fn zero_chunk(len: usize) -> (r: Vec<u8>)
    ensures
        r@.len() == len,
        forall|i: int| 0 <= i < r@.len() ==> #[trigger] r@[i] == 0u8,
{
    let mut r: Vec<u8> = Vec::new();
    let mut j: usize = 0;
    while j < len
        invariant
            j <= len,
            r@.len() == j,
            forall|i: int| 0 <= i < r@.len() ==> #[trigger] r@[i] == 0u8,
        decreases len - j,
    {
        r.push(0u8);
        j = j + 1;
    }
    r
}

/// The two little-endian bytes of one signed 16-bit sample: its two's
/// complement value, low byte first.
pub open spec fn sample_le_bytes(v: i16) -> Seq<u8> {
    let u = (v as int + 65536) % 65536;
    seq![(u % 256) as u8, (u / 256) as u8]
}

/// The byte image of a run of samples: each sample's two bytes, in order.
pub open spec fn pcm_bytes(s: Seq<i16>) -> Seq<u8>
    decreases s.len(),
{
    if s.len() == 0 {
        Seq::empty()
    } else {
        pcm_bytes(s.drop_last()) + sample_le_bytes(s.last())
    }
}

/// Pack a run of 16-bit samples into the PCM byte stream, two little-endian
/// bytes per sample.
pub fn pack_samples(samples: &[i16]) -> (r: Vec<u8>)
    requires
        samples@.len() <= usize::MAX / 2,
    ensures
        r@ == pcm_bytes(samples@),
        r@.len() == 2 * samples@.len(),
{
    let mut r: Vec<u8> = Vec::new();
    let mut i: usize = 0;
    proof {
        lemma_pcm_bytes_len(samples@);
    }
    while i < samples.len()
        invariant
            i <= samples@.len(),
            samples@.len() <= usize::MAX / 2,
            r@ == pcm_bytes(samples@.take(i as int)),
            r@.len() == 2 * i,
        decreases samples@.len() - i,
    {
        let v = samples[i];
        let w: i32 = v as i32;
        let u: i32 = if w < 0 {
            w + 65536
        } else {
            w
        };
        proof {
            assert(0 <= u < 65536);
            assert(u == (v as int + 65536) % 65536);
        }
        let lo: u8 = (u % 256) as u8;
        let hi: u8 = (u / 256) as u8;
        r.push(lo);
        r.push(hi);
        proof {
            let pre = samples@.take(i as int);
            let post = samples@.take(i + 1 as int);
            assert(post.drop_last() =~= pre);
            assert(post.last() == samples@[i as int]);
            assert(r@ =~= pcm_bytes(pre) + sample_le_bytes(samples@[i as int]));
        }
        i = i + 1;
    }
    proof {
        assert(samples@.take(samples@.len() as int) =~= samples@);
    }
    r
}

/// The byte image of a run of samples is two bytes per sample.
pub proof fn lemma_pcm_bytes_len(s: Seq<i16>)
    ensures
        pcm_bytes(s).len() == 2 * s.len(),
    decreases s.len(),
{
    if s.len() > 0 {
        lemma_pcm_bytes_len(s.drop_last());
    }
}

} // verus!
