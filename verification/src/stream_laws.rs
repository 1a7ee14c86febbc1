//! What streaming a file does, from the bytes of the file to the samples in the
//! blocks.
use crate::binary32;
use crate::blocks;
use crate::error::AudioError;
use crate::file::WavFile;
use crate::load_laws;
use crate::stream;
use crate::stream::LazyStream;
use crate::wav;
use crate::wav::WavHeader;
use vstd::prelude::*;

verus! {

/// Whether `count` is the number of hops that start within `n` samples: the
/// last of them does, and one more would not. A hop of zero never gets beyond
/// the first sample.
pub open spec fn counts_hops(count: int, n: nat, hop: nat) -> bool {
    if n == 0 {
        count == 0
    } else if hop == 0 {
        count == 1
    } else {
        count >= 1 && (count - 1) * hop < n <= count * hop
    }
}

/// Whether `hops` is the number of hops to a chunk: as many as it takes to hold
/// a frame, and no more, but one at least.
pub open spec fn is_chunk(hops: int, frame: nat, hop: nat) -> bool {
    &&& hops >= 1
    &&& hops * hop >= frame
    &&& hops > 1 ==> (hops - 1) * hop < frame
}

/// The sample at a place, and zero where the samples have ended.
pub open spec fn sample_or_zero(samples: Seq<u32>, at: int) -> u32 {
    if at < samples.len() {
        samples[at]
    } else {
        0
    }
}

/// Blocks cut all at once: one at every hop, as far as they are asked for, each
/// a frame long. Block `k` starts `k` hops after the first sample, and holds the
/// samples from there on, and zeros where these have ended.
pub proof fn law_blocks_are_windows(
    samples: Seq<u32>,
    limit: nat,
    frame: nat,
    hop: nat,
    hops: int,
    k: int,
    j: int,
)
    requires
        counts_hops(hops, samples.len(), hop),
    ensures
        ({
            let cut = blocks::hopped_windows(samples, limit, frame, hop);
            &&& cut.len() == if limit < hops {
                limit as int
            } else {
                hops
            }
            &&& 0 <= k < cut.len() ==> cut[k].len() == frame
            &&& 0 <= k < cut.len() && 0 <= j < frame && k * hop + j < samples.len() ==> cut[k][j]
                == samples[k * hop + j]
            &&& 0 <= k < cut.len() && 0 <= j < frame && k * hop + j >= samples.len()
                ==> cut[k][j] == 0
        }),
{
    let n = samples.len();
    if hop > 0 {
        blocks::lemma_step_count(n as int, hop as int, 0);
        if n > 0 {
            blocks::lemma_step_count(n as int, hop as int, hops);
            blocks::lemma_step_count(n as int, hop as int, hops - 1);
        }
    }
    if 0 <= k {
        assert(k * hop >= 0) by (nonlinear_arith)
            requires
                k >= 0,
        ;
    }
}

/// Blocks of a lazy stream: the samples are gathered in chunks of whole hops
/// that hold a frame. A chunk that is full starts a block at every hop, and what
/// is left after `chunks` of them starts one. The blocks hold what blocks that
/// are cut at once do, zeros at the end among it.
pub proof fn law_lazy_blocks_are_windows(
    samples: Seq<u32>,
    limit: nat,
    frame: nat,
    hop: nat,
    hops: int,
    chunks: int,
    k: int,
    j: int,
)
    requires
        hop > 0,
        is_chunk(hops, frame, hop),
        chunks >= 0,
        chunks * (hops * hop) <= samples.len() < (chunks + 1) * (hops * hop),
    ensures
        ({
            let lazy = stream::lazy_windows(samples, limit, frame, hop);
            let count = if samples.len() > chunks * (hops * hop) {
                chunks * hops + 1
            } else {
                chunks * hops
            };
            &&& lazy.len() == if limit < count {
                limit as int
            } else {
                count
            }
            &&& 0 <= k < lazy.len() ==> lazy[k].len() == frame
            &&& 0 <= k < lazy.len() && 0 <= j < frame && k * hop + j < samples.len() ==> lazy[k][j]
                == samples[k * hop + j]
            &&& 0 <= k < lazy.len() && 0 <= j < frame && k * hop + j >= samples.len()
                ==> lazy[k][j] == 0
        }),
{
    let n = samples.len() as int;
    let length = hops * hop;
    stream::lemma_hops_per_chunk(frame, hop);
    lemma_chunk_is_determined(hops, stream::hops_per_chunk(frame, hop), frame, hop);
    assert((chunks + 1) * length == chunks * length + length) by (nonlinear_arith);
    vstd::arithmetic::div_mod::lemma_fundamental_div_mod_converse(
        n,
        length,
        chunks,
        n - chunks * length,
    );
    let count = stream::lazy_count(n, frame, hop);
    stream::lemma_count_is_natural(n, frame, hop);
    blocks::lemma_step_count(n, hop as int, 0);
    if count > 0 {
        let left = n - chunks * length;
        assert(chunks * length == chunks * hops * hop) by (nonlinear_arith)
            requires
                length == hops * hop,
        ;
        if left == 0 {
            assert((count - 1) * hop < n) by (nonlinear_arith)
                requires
                    count * hop == n,
                    hop > 0,
            ;
        }
        blocks::lemma_step_count(n, hop as int, count - 1);
    }
    if 0 <= k {
        assert(k * hop >= 0) by (nonlinear_arith)
            requires
                k >= 0,
        ;
    }
}

/// There is one number of hops to a chunk.
proof fn lemma_chunk_is_determined(a: int, b: int, frame: nat, hop: nat)
    requires
        hop > 0,
        is_chunk(a, frame, hop),
        is_chunk(b, frame, hop),
    ensures
        a == b,
{
    if a < b {
        assert(a * hop <= (b - 1) * hop) by (nonlinear_arith)
            requires
                a <= b - 1,
                hop > 0,
        ;
    } else if b < a {
        assert(b * hop <= (a - 1) * hop) by (nonlinear_arith)
            requires
                b <= a - 1,
                hop > 0,
        ;
    }
}

/// Whether `samples` are those of a file, all of which it has: the patterns of
/// floats as they stand, or integers divided by 32767.
pub open spec fn holds(bytes: Seq<u8>, header: WavHeader, samples: Seq<u32>) -> bool {
    let width: int = if header.format.float {
        4
    } else {
        2
    };
    &&& header.format.bits_per_sample == 8 * width
    &&& samples.len() == header.samples
    &&& samples.len() > 0 ==> header.bytes_per_sample == width && header.data_start + width
        * samples.len() <= bytes.len()
    &&& forall|i: int|
        0 <= i < samples.len() ==> #[trigger] samples[i] == if header.format.float {
            load_laws::four_bytes(bytes, header.data_start + 4 * i) as u32
        } else {
            binary32::normalized(
                load_laws::two_bytes(bytes, header.data_start + 2 * i) as i16,
            )
        }
}

/// Whether `samples` are those that a lazy stream takes a file to hold: as
/// [`holds`] has it, but with a zero for each that the file does not have.
pub open spec fn shows(bytes: Seq<u8>, header: WavHeader, samples: Seq<u32>) -> bool {
    let width: int = if header.format.float {
        4
    } else {
        2
    };
    &&& header.format.bits_per_sample == 8 * width
    &&& samples.len() == header.samples
    &&& forall|i: int|
        0 <= i < samples.len() ==> #[trigger] samples[i] == if header.bytes_per_sample != width
            || header.data_start + width * i + width > bytes.len() {
            0
        } else if header.format.float {
            load_laws::four_bytes(bytes, header.data_start + 4 * i) as u32
        } else {
            binary32::normalized(
                load_laws::two_bytes(bytes, header.data_start + 2 * i) as i16,
            )
        }
}

proof fn lemma_shown_samples(bytes: Seq<u8>, header: WavHeader, samples: Seq<u32>)
    requires
        shows(bytes, header, samples),
    ensures
        wav::supported(header.format),
        wav::values(wav::stored_samples(bytes, header)) == samples,
{
    assert(wav::values(wav::stored_samples(bytes, header)) =~= samples);
}

proof fn lemma_samples_of_file(bytes: Seq<u8>, header: WavHeader, samples: Seq<u32>)
    requires
        holds(bytes, header, samples),
    ensures
        wav::supported(header.format),
        wav::all_readable(wav::stored_samples(bytes, header)),
        wav::values(wav::stored_samples(bytes, header)) == samples,
{
    let stored = wav::stored_samples(bytes, header);
    assert forall|i: int| 0 <= i < stored.len() implies #[trigger] stored[i] == Some(
        samples[i],
    ) by {
        if header.format.float {
            load_laws::law_floats_are_read_in_place(bytes, header, i);
        }
    }
    assert(wav::values(stored) =~= samples);
}

/// Streaming a file all at once gives windows of its samples, `hop` apart, a
/// frame if no hop is given. So sample `k * hop + j` of the file stands at place
/// `j` of block `k`, and there is a zero where the file has ended.
pub proof fn law_stream_gives_windows(
    file: Vec<u8>,
    header: WavHeader,
    samples: Seq<u32>,
    block_length: usize,
    frame_length: usize,
    hop_length: Option<usize>,
    r: Result<Vec<Vec<u32>>, AudioError>,
    hops: int,
    k: int,
    j: int,
)
    requires
        wav::wav_header(file@) == Some(header),
        holds(file@, header, samples),
        stream::streamed(
            WavFile::Contents(file),
            block_length,
            frame_length,
            hop_length,
            r,
        ),
        counts_hops(
            hops,
            samples.len(),
            match hop_length {
                Some(hop) => hop as nat,
                None => frame_length as nat,
            },
        ),
    ensures
        ({
            let hop = match hop_length {
                Some(hop) => hop,
                None => frame_length,
            };
            &&& r matches Ok(cut)
            &&& cut@.len() == if block_length < hops {
                block_length as int
            } else {
                hops
            }
            &&& 0 <= k < cut@.len() ==> cut@[k]@.len() == frame_length
            &&& 0 <= k < cut@.len() && 0 <= j < frame_length ==> cut@[k]@[j] == sample_or_zero(
                samples,
                k * hop + j,
            )
        }),
{
    let hop = match hop_length {
        Some(hop) => hop,
        None => frame_length,
    };
    lemma_samples_of_file(file@, header, samples);
    law_blocks_are_windows(
        samples,
        block_length as nat,
        frame_length as nat,
        hop as nat,
        hops,
        k,
        j,
    );
    let cut = r->Ok_0;
    assert(blocks::contents(cut@).len() == cut@.len());
    if 0 <= k < cut@.len() {
        assert(blocks::contents(cut@)[k] == cut@[k]@);
    }
}

/// Opening a file as a lazy stream gives windows of its samples, as many as the
/// chunks that the file fills start, and one for what is left of it. A sample
/// that cannot be read counts as zero.
pub proof fn law_lazy_stream_gives_windows(
    file: Vec<u8>,
    header: WavHeader,
    samples: Seq<u32>,
    block_length: usize,
    frame_length: usize,
    hop_length: Option<usize>,
    r: Result<LazyStream, AudioError>,
    hops: int,
    chunks: int,
    k: int,
    j: int,
)
    requires
        wav::wav_header(file@) == Some(header),
        shows(file@, header, samples),
        stream::opened_lazily(
            WavFile::Contents(file),
            block_length,
            frame_length,
            hop_length,
            r,
        ),
        ({
            let hop = match hop_length {
                Some(hop) => hop,
                None => frame_length,
            };
            &&& hop > 0
            &&& is_chunk(hops, frame_length as nat, hop as nat)
            &&& chunks >= 0
            &&& chunks * (hops * hop) <= samples.len() < (chunks + 1) * (hops * hop)
        }),
    ensures
        ({
            let hop = match hop_length {
                Some(hop) => hop,
                None => frame_length,
            };
            let count = if samples.len() > chunks * (hops * hop) {
                chunks * hops + 1
            } else {
                chunks * hops
            };
            &&& r matches Ok(opened)
            &&& opened.remaining().len() == if block_length < count {
                block_length as int
            } else {
                count
            }
            &&& 0 <= k < opened.remaining().len() ==> opened.remaining()[k].len() == frame_length
            &&& 0 <= k < opened.remaining().len() && 0 <= j < frame_length
                ==> opened.remaining()[k][j] == sample_or_zero(samples, k * hop + j)
        }),
{
    let hop = match hop_length {
        Some(hop) => hop,
        None => frame_length,
    };
    lemma_shown_samples(file@, header, samples);
    law_lazy_blocks_are_windows(
        samples,
        block_length as nat,
        frame_length as nat,
        hop as nat,
        hops,
        chunks,
        k,
        j,
    );
}

/// A lazy stream whose blocks do not hop starts one in a file that holds samples,
/// at the first of them.
pub proof fn law_lazy_stream_without_a_hop(
    file: Vec<u8>,
    header: WavHeader,
    samples: Seq<u32>,
    block_length: usize,
    frame_length: usize,
    r: Result<LazyStream, AudioError>,
    j: int,
)
    requires
        wav::wav_header(file@) == Some(header),
        shows(file@, header, samples),
        stream::opened_lazily(
            WavFile::Contents(file),
            block_length,
            frame_length,
            Some(0),
            r,
        ),
    ensures
        ({
            &&& r matches Ok(opened)
            &&& opened.remaining().len() == if samples.len() > 0 && block_length > 0 {
                1int
            } else {
                0
            }
            &&& opened.remaining().len() > 0 ==> opened.remaining()[0].len() == frame_length
            &&& opened.remaining().len() > 0 && 0 <= j < frame_length
                ==> opened.remaining()[0][j] == sample_or_zero(samples, j)
        }),
{
    lemma_shown_samples(file@, header, samples);
}

/// When a lazy stream is ready to give its blocks: if there are none, and else
/// if a frame fits in a vector, and the blocks hop or the file ends within the
/// first of them.
pub proof fn law_what_is_ready(
    file: Vec<u8>,
    header: WavHeader,
    samples: Seq<u32>,
    block_length: usize,
    frame_length: usize,
    hop_length: Option<usize>,
    r: Result<LazyStream, AudioError>,
)
    requires
        wav::wav_header(file@) == Some(header),
        shows(file@, header, samples),
        stream::opened_lazily(
            WavFile::Contents(file),
            block_length,
            frame_length,
            hop_length,
            r,
        ),
    ensures
        r matches Ok(opened) && opened.wf() && (opened.ready() <==> {
            let hop = match hop_length {
                Some(hop) => hop,
                None => frame_length,
            };
            ||| samples.len() == 0
            ||| block_length == 0
            ||| frame_length * 4 <= isize::MAX && (hop > 0 || samples.len() < frame_length)
        }),
{
}

/// A lazy stream goes on where a sample cannot be read, which counts as zero.
pub proof fn law_unreadable_samples_are_zeros(stored: Seq<Option<u32>>, i: int)
    requires
        0 <= i < stored.len(),
    ensures
        wav::values(stored).len() == stored.len(),
        wav::values(stored)[i] == match stored[i] {
            Some(bits) => bits,
            None => 0u32,
        },
        wav::all_readable(stored) ==> stored[i] is Some,
{
}

/// Which error streaming gives, and when: the same for both ways, but that only
/// cutting all blocks at once fails on a sample that cannot be read.
pub proof fn law_stream_errors(
    file: WavFile,
    block_length: usize,
    frame_length: usize,
    hop_length: Option<usize>,
    at_once: Result<Vec<Vec<u32>>, AudioError>,
    lazily: Result<LazyStream, AudioError>,
)
    requires
        stream::streamed(file, block_length, frame_length, hop_length, at_once),
        stream::opened_lazily(file, block_length, frame_length, hop_length, lazily),
    ensures
        match file {
            WavFile::Missing(path) => {
                &&& at_once matches Err(AudioError::FileNotFound(p)) && p == path
                &&& lazily matches Err(AudioError::FileNotFound(p)) && p == path
            },
            WavFile::Unreadable(cause) => {
                &&& at_once matches Err(AudioError::IoError(e)) && e == cause
                &&& lazily matches Err(AudioError::IoError(e)) && e == cause
            },
            WavFile::Contents(bytes) => match wav::wav_header(bytes@) {
                None => {
                    &&& at_once matches Err(AudioError::OpenError(e)) && e == wav::open_failure(
                        bytes@,
                    )
                    &&& lazily matches Err(AudioError::OpenError(e)) && e == wav::open_failure(
                        bytes@,
                    )
                },
                Some(header) => {
                    let width: int = if header.format.float {
                        4
                    } else {
                        2
                    };
                    if header.format.bits_per_sample != 8 * width {
                        &&& at_once matches Err(AudioError::UnsupportedFormat)
                        &&& lazily matches Err(AudioError::UnsupportedFormat)
                    } else if header.samples > 0 && (header.bytes_per_sample != width
                        || header.data_start + width * header.samples > bytes@.len()) {
                        &&& at_once matches Err(AudioError::HoundError(_))
                        &&& lazily is Ok
                    } else {
                        at_once is Ok && lazily is Ok
                    }
                },
            },
        },
{
    if let WavFile::Contents(bytes) = file {
        if let Some(header) = wav::wav_header(bytes@) {
            let stored = wav::stored_samples(bytes@, header);
            if header.samples > 0 {
                assert(stored[header.samples - 1] == wav::stored_sample(
                    bytes@,
                    header,
                    header.samples - 1,
                ));
            }
        }
    }
}

/// When the samples of a file can be cut into blocks: if the hop is above zero,
/// and no block is to be made that is too long for a vector.
pub proof fn law_what_can_be_streamed(
    file: Vec<u8>,
    header: WavHeader,
    samples: Seq<u32>,
    block_length: usize,
    frame_length: usize,
    hop_length: Option<usize>,
)
    requires
        wav::wav_header(file@) == Some(header),
        holds(file@, header, samples),
    ensures
        stream::can_stream(WavFile::Contents(file), block_length, frame_length, hop_length) <==> {
            &&& (match hop_length {
                Some(hop) => hop,
                None => frame_length,
            }) > 0
            &&& samples.len() == 0 || block_length == 0 || frame_length * 4 <= isize::MAX
        },
{
    lemma_samples_of_file(file@, header, samples);
}

/// Where streaming fails, nothing is asked of the hop and the frame.
pub proof fn law_failing_asks_nothing(
    file: WavFile,
    block_length: usize,
    frame_length: usize,
    hop_length: Option<usize>,
    r: Result<Vec<Vec<u32>>, AudioError>,
)
    requires
        stream::streamed(file, block_length, frame_length, hop_length, r),
        r is Err,
    ensures
        stream::can_stream(file, block_length, frame_length, hop_length),
{
}

/// Taking blocks from a lazy stream gives the next ones, at least one, and
/// leaves those after them; it gives none exactly where none is left. So nothing
/// is lost, given twice or out of order.
pub proof fn law_taken_blocks_come_first(
    before: LazyStream,
    r: Option<Vec<Vec<u32>>>,
    after: LazyStream,
    k: int,
)
    requires
        before.gives(r, after),
    ensures
        r is None <==> before.remaining().len() == 0,
        r is None ==> after.remaining().len() == 0,
        0 <= k < before.remaining().len() ==> {
            &&& r matches Some(batch)
            &&& 0 < batch@.len() <= before.remaining().len()
            &&& after.remaining().len() == before.remaining().len() - batch@.len()
            &&& k < batch@.len() ==> batch@[k]@ == before.remaining()[k]
            &&& k >= batch@.len() ==> after.remaining()[k - batch@.len()] == before.remaining()[k]
        },
        after.wf(),
        after.ready(),
{
    if let Some(batch) = r {
        assert(before.remaining() == blocks::contents(batch@) + after.remaining());
        assert(blocks::contents(batch@).len() == batch@.len());
        if 0 <= k < batch@.len() {
            assert(blocks::contents(batch@)[k] == batch@[k]@);
        }
    }
}

} // verus!
